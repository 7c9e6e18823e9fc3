use timetabler::solve_timetable;
use timetabler::timetable_info_valid;
use timetabler::StudentInfo;
use timetabler::TimetableInfo;
use timetabler::TimetableResult;

fn student(id: &str, subjects: &[&str]) -> StudentInfo {
    StudentInfo::new(
        id.to_string(),
        subjects.iter().map(|s| s.to_string()).collect(),
    )
}

#[test]
fn one_student_one_subject() {
    let info = TimetableInfo {
        max_groups: 1,
        daily_lesson_capacity: 1,
        students: vec![student("s1", &["Math"])],
    };
    assert!(timetable_info_valid(&info));
    match solve_timetable(&info) {
        TimetableResult::Solved {
            subjects,
            slots_by_student_id,
        } => {
            assert_eq!(subjects.len(), 5);
            assert_eq!(subjects[0], vec!["Math".to_string()]);
            for t in 1..5 {
                assert!(subjects[t].is_empty());
            }
            assert_eq!(slots_by_student_id.len(), 1);
            let s1 = &slots_by_student_id[0];
            assert_eq!(s1.id, "s1");
            assert_eq!(s1.slots.len(), 5);
            assert_eq!(s1.slots[0], Some(("Math".to_string(), 0)));
            for t in 1..5 {
                assert_eq!(s1.slots[t], None);
            }
        }
        TimetableResult::Unsolved => panic!("expected a solved timetable"),
    }
}

#[test]
fn two_students_share_one_group() {
    let info = TimetableInfo {
        max_groups: 1,
        daily_lesson_capacity: 1,
        students: vec![student("s1", &["Math"]), student("s2", &["Math"])],
    };
    match solve_timetable(&info) {
        TimetableResult::Solved {
            subjects,
            slots_by_student_id,
        } => {
            // both students sit in the same group at the same slot, and the
            // subject has exactly one group in the whole week
            assert_eq!(subjects[0], vec!["Math".to_string()]);
            let listed: usize = subjects.iter().map(|s| s.len()).sum();
            assert_eq!(listed, 1);
            assert_eq!(slots_by_student_id.len(), 2);
            for s in &slots_by_student_id {
                assert_eq!(s.slots[0], Some(("Math".to_string(), 0)));
            }
        }
        TimetableResult::Unsolved => panic!("expected a solved timetable"),
    }
}

#[test]
fn colliding_third_student_is_unsolved() {
    // two full schedules pin every slot for both subjects the third
    // student needs, so the displacement search runs out of slots and the
    // whole roster is reported unsolved (no panic, no endless loop)
    let info = TimetableInfo {
        max_groups: 1,
        daily_lesson_capacity: 1,
        students: vec![
            student("m1", &["Math", "Art", "Music", "History", "Sport"]),
            student("m2", &["Physics", "Art", "Music", "History", "Sport"]),
            student("x", &["Math", "Physics"]),
        ],
    };
    assert!(timetable_info_valid(&info));
    match solve_timetable(&info) {
        TimetableResult::Unsolved => {}
        TimetableResult::Solved { .. } => panic!("expected an unsolved timetable"),
    }
}

#[test]
fn oversubscribed_student_rejected_before_solving() {
    // six distinct subjects do not fit into a week of five slots; the
    // input collector must turn this roster away before calling the engine
    let info = TimetableInfo {
        max_groups: 3,
        daily_lesson_capacity: 1,
        students: vec![student("s1", &["A", "B", "C", "D", "E", "F"])],
    };
    assert!(!timetable_info_valid(&info));
    let ok = TimetableInfo {
        max_groups: 3,
        daily_lesson_capacity: 2,
        students: vec![student("s1", &["A", "B", "C", "D", "E", "F"])],
    };
    assert!(timetable_info_valid(&ok));
}

#[test]
fn validator_rejects_bad_inputs() {
    let no_students = TimetableInfo {
        max_groups: 1,
        daily_lesson_capacity: 1,
        students: vec![],
    };
    assert!(!timetable_info_valid(&no_students));
    let zero_groups = TimetableInfo {
        max_groups: 0,
        daily_lesson_capacity: 1,
        students: vec![student("s1", &["A"])],
    };
    assert!(!timetable_info_valid(&zero_groups));
    let dup_subject = TimetableInfo {
        max_groups: 1,
        daily_lesson_capacity: 1,
        students: vec![student("s1", &["A", "A"])],
    };
    assert!(!timetable_info_valid(&dup_subject));
    let dup_id = TimetableInfo {
        max_groups: 1,
        daily_lesson_capacity: 1,
        students: vec![student("s1", &["A"]), student("s1", &["B"])],
    };
    assert!(!timetable_info_valid(&dup_id));
}

#[test]
fn displacement_moves_smallest_group_and_reuses_its_slot() {
    // subject W is at its group cap and W's only group collides with the
    // student's schedule, so the cheapest group (P, one member) is moved
    // to the student's free slot; the slot P vacated is reused for W
    let info = TimetableInfo {
        max_groups: 1,
        daily_lesson_capacity: 1,
        students: vec![
            student("m1", &["P"]),
            student("m2", &["W"]),
            student("x", &["P", "W"]),
        ],
    };
    match solve_timetable(&info) {
        TimetableResult::Solved {
            subjects,
            slots_by_student_id,
        } => {
            let m1 = &slots_by_student_id[0];
            let m2 = &slots_by_student_id[1];
            let x = &slots_by_student_id[2];
            // the displaced P group lives at slot 1 now, and its original
            // member moved with it
            assert_eq!(m1.slots[0], None);
            assert_eq!(m1.slots[1], Some(("P".to_string(), 0)));
            // the untouched W group kept its slot
            assert_eq!(m2.slots[0], Some(("W".to_string(), 0)));
            // the new student joined W's existing (and only) group at the
            // slot P vacated, and the relocated P group at its new slot;
            // the group cap of 1 is respected throughout
            assert_eq!(x.slots[0], Some(("W".to_string(), 0)));
            assert_eq!(x.slots[1], Some(("P".to_string(), 0)));
            for s in &slots_by_student_id {
                for entry in s.slots.iter().flatten() {
                    assert_eq!(entry.1, 0);
                }
            }
            // no slot lists one subject twice
            for t in 0..5 {
                for k1 in 0..subjects[t].len() {
                    for k2 in 0..k1 {
                        assert_ne!(subjects[t][k1], subjects[t][k2]);
                    }
                }
            }
            // no member of any group collides with another subject
            for s in &slots_by_student_id {
                for t in 0..5 {
                    for u in 0..5 {
                        if t != u {
                            if let (Some(a), Some(b)) = (&s.slots[t], &s.slots[u]) {
                                assert_ne!(a.0, b.0);
                            }
                        }
                    }
                }
            }
            // the global table is exactly the membership view of the
            // per-student schedules
            for t in 0..5 {
                let mut derived: Vec<String> = Vec::new();
                for s in &slots_by_student_id {
                    if let Some((name, g)) = &s.slots[t] {
                        if !derived.contains(&format!("{}#{}", name, g)) {
                            derived.push(format!("{}#{}", name, g));
                        }
                    }
                }
                let mut derived_subjects: Vec<String> = derived
                    .iter()
                    .map(|p| p.split('#').next().unwrap().to_string())
                    .collect();
                derived_subjects.sort();
                let mut actual = subjects[t].clone();
                actual.sort();
                assert_eq!(derived_subjects, actual);
            }
        }
        TimetableResult::Unsolved => panic!("expected a solved timetable"),
    }
}

#[test]
fn small_roster_is_always_solved() {
    // with at least as many permitted groups per subject as students, the
    // cap never binds and the engine must find a schedule
    let info = TimetableInfo {
        max_groups: 3,
        daily_lesson_capacity: 1,
        students: vec![
            student("a", &["Math", "Art"]),
            student("b", &["Math", "Art"]),
            student("c", &["Art", "Math", "Sport"]),
        ],
    };
    assert!(matches!(
        solve_timetable(&info),
        TimetableResult::Solved { .. }
    ));
}

#[test]
fn occupied_entries_match_requested_subjects() {
    // every student's schedule holds exactly their distinct subjects
    let info = TimetableInfo {
        max_groups: 2,
        daily_lesson_capacity: 2,
        students: vec![
            student("a", &["Math", "Art"]),
            student("b", &["Math", "Music"]),
            student("c", &["Art", "Music", "Math"]),
        ],
    };
    match solve_timetable(&info) {
        TimetableResult::Solved {
            subjects: _,
            slots_by_student_id,
        } => {
            let wanted = [
                vec!["Math", "Art"],
                vec!["Math", "Music"],
                vec!["Art", "Music", "Math"],
            ];
            for (s, want) in slots_by_student_id.iter().zip(wanted.iter()) {
                let mut got: Vec<String> = s
                    .slots
                    .iter()
                    .flatten()
                    .map(|(name, _)| name.clone())
                    .collect();
                got.sort();
                let mut want: Vec<String> = want.iter().map(|w| w.to_string()).collect();
                want.sort();
                assert_eq!(got, want);
            }
        }
        TimetableResult::Unsolved => panic!("expected a solved timetable"),
    }
}

#[test]
fn single_requests_all_land_in_slot_zero() {
    // when nobody requests more than one subject, every request is met in
    // slot 0 by group 0 of its subject
    let info = TimetableInfo {
        max_groups: 1,
        daily_lesson_capacity: 2,
        students: vec![
            student("a", &["Math"]),
            student("b", &["Art"]),
            student("c", &["Math"]),
        ],
    };
    match solve_timetable(&info) {
        TimetableResult::Solved {
            subjects,
            slots_by_student_id,
        } => {
            assert_eq!(slots_by_student_id[0].slots[0], Some(("Math".to_string(), 0)));
            assert_eq!(slots_by_student_id[1].slots[0], Some(("Art".to_string(), 0)));
            assert_eq!(slots_by_student_id[2].slots[0], Some(("Math".to_string(), 0)));
            for s in &slots_by_student_id {
                for t in 1..10 {
                    assert_eq!(s.slots[t], None);
                }
            }
            let mut first = subjects[0].clone();
            first.sort();
            assert_eq!(first, vec!["Art".to_string(), "Math".to_string()]);
        }
        TimetableResult::Unsolved => panic!("expected a solved timetable"),
    }
}
