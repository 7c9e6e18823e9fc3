use timetabler::attendance;
use timetabler::engine::copy_usizes;
use timetabler::engine::empty_row;
use timetabler::engine::first_free_slot;
use timetabler::engine::find_subject_slot;
use timetabler::engine::next_free_after;
use timetabler::sort_by_ascending_attendance;
use timetabler::try_assign_group_lazily;
use timetabler::Group;

fn registry() -> Vec<Vec<Group>> {
    // subject 0 has two groups (2 and 1 members), subject 1 has one group
    // of three members
    vec![
        vec![
            Group {
                slot: 0,
                student_idxs: vec![0, 1],
            },
            Group {
                slot: 2,
                student_idxs: vec![2],
            },
        ],
        vec![Group {
            slot: 1,
            student_idxs: vec![0, 1, 2],
        }],
    ]
}

#[test]
fn attendance_counts_members() {
    let groups = registry();
    assert_eq!(attendance((0, 0), &groups), 2);
    assert_eq!(attendance((0, 1), &groups), 1);
    assert_eq!(attendance((1, 0), &groups), 3);
    // a group index that does not exist yet counts as empty
    assert_eq!(attendance((0, 5), &groups), 0);
}

#[test]
fn sorting_orders_by_ascending_attendance() {
    let groups = registry();
    let mut cands = vec![(1, 0), (0, 0), (0, 5), (0, 1)];
    sort_by_ascending_attendance(&mut cands, &groups);
    assert_eq!(cands, vec![(0, 5), (0, 1), (0, 0), (1, 0)]);
}

#[test]
fn lazy_assignment_takes_first_free_group() {
    let groups = registry();
    // slot 0 is taken, so the scan skips subject 0's first group and
    // settles on the second, whose slot 2 is free
    let mut ps: Vec<Option<(usize, usize)>> = vec![Some((1, 0)), None, None, None, None];
    assert!(try_assign_group_lazily(&groups, &mut ps, 0));
    assert_eq!(ps[2], Some((0, 1)));
    // no group of subject 1 has a free slot here
    let mut full: Vec<Option<(usize, usize)>> = vec![None, Some((0, 0)), None];
    assert!(!try_assign_group_lazily(&groups, &mut full, 1));
    assert_eq!(full, vec![None, Some((0, 0)), None]);
}

#[test]
fn slot_queries() {
    let row = empty_row(4);
    assert_eq!(row, vec![None, None, None, None]);
    assert_eq!(first_free_slot(&row), Some(0));
    let ps: Vec<Option<(usize, usize)>> = vec![Some((0, 0)), Some((1, 0)), None, Some((2, 0))];
    assert_eq!(first_free_slot(&ps), Some(2));
    assert_eq!(next_free_after(&ps, 0), Some(2));
    assert_eq!(next_free_after(&ps, 2), None);
    let all: Vec<Option<(usize, usize)>> = vec![Some((0, 0))];
    assert_eq!(first_free_slot(&all), None);
    assert_eq!(find_subject_slot(&ps, 1), 1);
    assert_eq!(find_subject_slot(&ps, 2), 3);
    assert_eq!(copy_usizes(&vec![3, 1, 4]), vec![3, 1, 4]);
}
