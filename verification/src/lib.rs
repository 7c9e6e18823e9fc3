//! A weekly-timetable assignment engine.
//!
//! The engine takes a roster of students, each with an ordered list of
//! requested subjects, and packs every request into a fixed grid of
//! `daily_lesson_capacity * 5` weekly lesson slots.  Students sharing a
//! subject are gathered into groups; the number of groups per subject is
//! capped, and when the cap is reached the engine searches for an existing
//! group that can be displaced to another slot.  The result is either a
//! complete schedule or the single failure value `Unsolved`.

pub mod engine;
pub mod model;
pub mod solver;
pub mod sorting;

pub use model::Group;
pub use model::Student;
pub use model::StudentInfo;
pub use model::TimetableInfo;
pub use model::TimetableResult;
pub use solver::solve_timetable;
pub use solver::timetable_info_valid;
pub use sorting::attendance;
pub use sorting::sort_by_ascending_attendance;
pub use engine::make_global;
pub use engine::try_assign_group_lazily;
