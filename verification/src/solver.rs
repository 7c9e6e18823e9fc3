//! The solver driver: subjects are interned to indices, each student is
//! placed in roster order, and the finished registry is inverted into the
//! global slot table.

use vstd::prelude::*;

use crate::engine::acceptable;
use crate::engine::find_acceptable;
use crate::engine::find_group_at;
use crate::engine::find_subject_slot;
use crate::engine::first_free_slot;
use crate::engine::next_free_after;
use crate::engine::relocate_group;
use crate::engine::try_assign_group_lazily;
use crate::engine::lazy_pick;
use crate::model::Group;
use crate::model::TimetableInfo;
use crate::model::count_some;
use crate::model::group_wf;
use crate::model::info_wf;
use crate::model::lemma_count_some_all;
use crate::model::lemma_pers_insert;
use crate::model::lemma_pers_move_insert;
use crate::model::pers_entry_ok;
use crate::model::pers_ok;
use crate::model::packed_single;
use crate::model::single_subject_roster;
use crate::engine::empty_row;
use crate::engine::make_global;
use crate::model::Student;
use crate::model::StudentInfo;
use crate::model::TimetableResult;
use crate::model::entry_ok;
use crate::model::lemma_count_some_pointwise;
use crate::model::lemma_pers_row_matches;
use crate::model::member_entry_ok;
use crate::model::no_group_at;
use crate::model::row_matches;
use crate::model::rows_match;
use crate::model::rows_view;
use crate::model::solve_post;
use crate::model::solved_ok;
use crate::model::some_student_has;
use crate::model::state_ok;
use crate::model::subject_listed;
use crate::model::subject_present;
use crate::model::total_slots_of;
use crate::sorting::sort_by_ascending_attendance;
use vstd::std_specs::vec::vec_index_mut;

verus! {

/// A displacement candidate drawn from the student's own entries.
pub open spec fn cand_from_ps(c: (usize, usize), ps: Seq<Option<(usize, usize)>>) -> bool {
    exists|t: int| 0 <= t < ps.len() && (#[trigger] ps[t]) == Some(c)
}

/// Where a displacement candidate may come from: the student's own
/// entries, or one of the current subject's existing groups.
pub open spec fn cand_src(
    c: (usize, usize),
    ps: Seq<Option<(usize, usize)>>,
    sj: usize,
    gl: int,
) -> bool {
    cand_from_ps(c, ps) || (c.0 == sj && (c.1 as int) < gl)
}

/// The slot's global list names the given subject.
pub open spec fn listed(sbv: Seq<Vec<String>>, t: int, name: Seq<char>) -> bool {
    exists|k: int| 0 <= k < sbv[t]@.len() && (#[trigger] sbv[t]@[k])@ == name
}

/// Some group among the first `smax` subjects' lists (plus the first
/// `gmax` groups of subject `smax`) sits at slot `t` and carries the
/// named subject.
pub open spec fn group_at(
    groups: Seq<Vec<Group>>,
    table: Seq<String>,
    t: int,
    name: Seq<char>,
    smax: int,
    gmax: int,
) -> bool {
    exists|s2: int, g2: int|
        ((0 <= s2 < smax && 0 <= g2 < groups[s2]@.len()) || (s2 == smax && 0 <= g2 < gmax)) && ((
        #[trigger] groups[s2]@[g2]).slot as int) == t && table[s2]@ == name
}

/// Places every requested subject of one student: lazy reuse of an
/// existing group where possible, otherwise a fresh group at the first
/// free slot, and, when the subject's group count is at its cap, the
/// displacement search.  A displaced candidate of another subject is
/// accepted only when a group of the subject being placed stands at the
/// slot it vacates -- the student joins that group there -- so the group
/// cap and the one-slot-per-group invariant are never broken.  Returns
/// true when the search exhausted the week for some subject, in which
/// case the whole solve is abandoned.
#[verifier::loop_isolation(false)]
pub(crate) fn handle_subjects(
    groups_by_subject: &mut Vec<Vec<Group>>,
    personal_slots: &mut Vec<Option<(usize, usize)>>,
    subjects: &Vec<usize>,
    max_groups: u8,
    total_slots: usize,
    students: &mut Vec<Vec<Option<(usize, usize)>>>,
    Ghost(ids): Ghost<Seq<Seq<usize>>>,
) -> (failed: bool)
    requires
        state_ok(old(groups_by_subject)@, rows_view(old(students)@), total_slots as int),
        rows_match(rows_view(old(students)@), ids),
        old(personal_slots)@.len() == total_slots,
        forall|t: int| 0 <= t < total_slots ==> (#[trigger] old(personal_slots)@[t]) is None,
        subjects@.len() <= total_slots,
        forall|k: int|
            0 <= k < subjects@.len() ==> ((#[trigger] subjects@[k]) as int) < old(groups_by_subject)@.len(),
        forall|k1: int, k2: int|
            0 <= k1 < k2 < subjects@.len() ==> (#[trigger] subjects@[k1]) != (
            #[trigger] subjects@[k2]),
        max_groups >= 1,
        forall|s: int|
            0 <= s < old(groups_by_subject)@.len() ==> ((#[trigger] old(groups_by_subject)@[s])@.len()
                as int) <= max_groups as int,
    ensures
        final(groups_by_subject)@.len() == old(groups_by_subject)@.len(),
        final(students)@.len() == old(students)@.len(),
        final(personal_slots)@.len() == total_slots,
        !failed ==> state_ok(
            final(groups_by_subject)@,
            rows_view(final(students)@),
            total_slots as int,
        ) && rows_match(rows_view(final(students)@), ids) && pers_ok(
            final(personal_slots)@,
            final(groups_by_subject)@,
            subjects@,
            subjects@.len() as int,
            total_slots as int,
        ) && forall|i: int|
            0 <= i < old(students)@.len() ==> count_some(
                #[trigger] rows_view(final(students)@)[i],
            ) == count_some(rows_view(old(students)@)[i]),
        forall|s: int|
            0 <= s < old(groups_by_subject)@.len() ==> (#[trigger] final(groups_by_subject)@[s])@.len()
                == old(groups_by_subject)@[s]@.len(),
        !failed ==> forall|t: int|
            0 <= t < total_slots && (#[trigger] final(personal_slots)@[t]) is Some
                && (final(personal_slots)@[t].unwrap().1 as int)
                == final(groups_by_subject)@[final(personal_slots)@[t].unwrap().0 as int]@.len()
                ==> (final(groups_by_subject)@[final(personal_slots)@[t].unwrap().0 as int]@.len()
                as int) < max_groups as int,
        (forall|s: int|
            0 <= s < old(groups_by_subject)@.len() ==> ((#[trigger] old(groups_by_subject)@[s])@.len()
                as int) < max_groups as int) ==> !failed,
        subjects@.len() <= 1 ==> !failed && final(students)@ == old(students)@ && final(groups_by_subject)@ == old(groups_by_subject)@,
        subjects@.len() == 0 ==> final(personal_slots)@ == old(personal_slots)@,
        subjects@.len() == 1 && old(groups_by_subject)@[subjects@[0] as int]@.len() > 0
            ==> forall|t: int|
            0 <= t < total_slots ==> final(personal_slots)@[t] == (if t == old(groups_by_subject)@[subjects@[0] as int]@[0].slot as int {
                Some((subjects@[0], 0usize))
            } else {
                None::<(usize, usize)>
            }),
        subjects@.len() == 1 && old(groups_by_subject)@[subjects@[0] as int]@.len() == 0
            ==> forall|t: int|
            0 <= t < total_slots ==> final(personal_slots)@[t] == (if t == 0 {
                Some((subjects@[0], 0usize))
            } else {
                None::<(usize, usize)>
            }),
{
    let ghost ts = total_slots as int;
    let ghost gz0 = old(groups_by_subject)@;
    let ghost r0 = rows_view(old(students)@);
    let mut k: usize = 0;
    proof {
        crate::model::lemma_count_some_none(personal_slots@);
    }
    while k < subjects.len()
        invariant
            k <= subjects@.len(),
            groups_by_subject@.len() == gz0.len(),
            students@.len() == old(students)@.len(),
            state_ok(groups_by_subject@, rows_view(students@), ts),
            rows_match(rows_view(students@), ids),
            pers_ok(personal_slots@, groups_by_subject@, subjects@, k as int, ts),
            forall|i: int|
                0 <= i < r0.len() ==> count_some(#[trigger] rows_view(students@)[i])
                    == count_some(r0[i]),
            forall|s: int|
                0 <= s < gz0.len() ==> (#[trigger] groups_by_subject@[s])@.len() == gz0[s]@.len(),
            forall|t: int|
                0 <= t < total_slots && (#[trigger] personal_slots@[t]) is Some && (
                personal_slots@[t].unwrap().1 as int) == groups_by_subject@[personal_slots@[
                    t
                ].unwrap().0 as int]@.len() ==> (groups_by_subject@[personal_slots@[t].unwrap().0 as int]@.len()
                    as int) < max_groups as int,
            subjects@.len() <= 1 ==> students@ == old(students)@ && groups_by_subject@ == old(groups_by_subject)@,
            k == 0 ==> personal_slots@ == old(personal_slots)@,
            subjects@.len() == 1 && k == 1 && gz0[subjects@[0] as int]@.len() > 0 ==> forall|t: int|
                0 <= t < total_slots ==> personal_slots@[t] == (if t == gz0[subjects@[0] as int]@[0].slot as int {
                    Some((subjects@[0], 0usize))
                } else {
                    None::<(usize, usize)>
                }),
            subjects@.len() == 1 && k == 1 && gz0[subjects@[0] as int]@.len() == 0 ==> forall|t: int|
                0 <= t < total_slots ==> personal_slots@[t] == (if t == 0 {
                    Some((subjects@[0], 0usize))
                } else {
                    None::<(usize, usize)>
                }),
        decreases subjects@.len() - k,
    {
        let sj = subjects[k];
        proof {
            assert(subjects@[k as int] == sj);
            assert forall|g: int|
                0 <= g < groups_by_subject@[sj as int]@.len() implies ((
            #[trigger] groups_by_subject@[sj as int]@[g]).slot as int) < personal_slots@.len() by {
                assert(group_wf(
                    groups_by_subject@[sj as int]@[g],
                    students@.len() as int,
                    ts,
                ));
            }
        }
        let ghost ps0 = personal_slots@;
        let assigned = try_assign_group_lazily(&*groups_by_subject, personal_slots, sj);
        if assigned {
            proof {
                let g = choose|g: usize|
                    lazy_pick(ps0, groups_by_subject@[sj as int]@, g as int) && personal_slots@
                        == ps0.update(
                        groups_by_subject@[sj as int]@[g as int].slot as int,
                        Some((sj, g)),
                    );
                let slot0 = groups_by_subject@[sj as int]@[g as int].slot as int;
                assert(pers_entry_ok((sj, g), slot0, groups_by_subject@));
                lemma_pers_insert(ps0, groups_by_subject@, subjects@, k as int, slot0, (sj, g), ts);
                if subjects@.len() == 1 {
                    assert(k == 0);
                    assert(g == 0) by {
                        if g > 0 {
                            assert(ps0[(groups_by_subject@[sj as int]@[0]).slot as int] is Some);
                        }
                    }
                    assert(groups_by_subject@ == gz0);
                    assert forall|t: int| 0 <= t < total_slots implies personal_slots@[t] == (if t
                        == gz0[subjects@[0] as int]@[0].slot as int {
                        Some((subjects@[0], 0usize))
                    } else {
                        None::<(usize, usize)>
                    }) by {
                        if t != slot0 {
                            assert(personal_slots@[t] == ps0[t]);
                        }
                    }
                }
            }
        } else {
            // the first free personal slot; the student always has one,
            // since fewer subjects are placed than the week has slots
            let nf = first_free_slot(&*personal_slots);
            let p0: usize = match nf {
                Some(t) => t,
                None => {
                    proof {
                        lemma_count_some_all(personal_slots@);
                    }
                    0
                },
            };
            let gl = {
                let r: &Vec<Group> = &groups_by_subject[sj];
                r.len()
            };
            if gl == max_groups as usize {
                // the subject's groups are at capacity: find a group to
                // displace into a free slot of this student.  A roster of
                // single requests never reaches this: its lazy scan only
                // fails while the subject still has no group at all
                proof {
                    if subjects@.len() <= 1 {
                        assert(k == 0);
                        assert(groups_by_subject@[sj as int]@.len() == 0) by {
                            if groups_by_subject@[sj as int]@.len() > 0 {
                                assert(personal_slots@[(
                                groups_by_subject@[sj as int]@[0]).slot as int] is Some);
                            }
                        }
                        assert(false);
                    }
                }
                let ghost psb = personal_slots@;
                let mut candidates: Vec<(usize, usize)> = Vec::new();
                let mut t2: usize = 0;
                while t2 < total_slots
                    invariant
                        t2 <= total_slots,
                        forall|q: int|
                            0 <= q < candidates@.len() ==> cand_from_ps(
                                #[trigger] candidates@[q],
                                personal_slots@,
                            ),
                    decreases total_slots - t2,
                {
                    match personal_slots[t2] {
                        Some(e) => {
                            candidates.push(e);
                            proof {
                                assert(personal_slots@[t2 as int] == Some(e));
                            }
                        },
                        None => {},
                    }
                    t2 = t2 + 1;
                }
                let mut gidx: usize = 0;
                while gidx < gl
                    invariant
                        gidx <= gl,
                        forall|q: int|
                            0 <= q < candidates@.len() ==> cand_src(
                                #[trigger] candidates@[q],
                                personal_slots@,
                                sj,
                                gl as int,
                            ),
                    decreases gl - gidx,
                {
                    candidates.push((sj, gidx));
                    gidx = gidx + 1;
                }
                proof {
                    assert forall|q: int|
                        0 <= q < candidates@.len() implies ((#[trigger] candidates@[q]).0 as int)
                        < groups_by_subject@.len() by {
                        if cand_from_ps(candidates@[q], personal_slots@) {
                            let t3 = choose|t3: int|
                                0 <= t3 < personal_slots@.len() && (#[trigger] personal_slots@[t3])
                                    == Some(candidates@[q]);
                            assert(pers_entry_ok(personal_slots@[t3].unwrap(), t3, groups_by_subject@));
                        }
                    }
                }
                let ghost cands0 = candidates@;
                sort_by_ascending_attendance(&mut candidates, &*groups_by_subject);
                proof {
                    cands0.to_multiset_ensures();
                    candidates@.to_multiset_ensures();
                    assert forall|q: int|
                        0 <= q < candidates@.len() implies cand_src(
                        #[trigger] candidates@[q],
                        personal_slots@,
                        sj,
                        gl as int,
                    ) && ((candidates@[q]).0 as int) < groups_by_subject@.len() by {
                        let c = candidates@[q];
                        assert(candidates@.contains(c));
                        assert(candidates@.to_multiset().count(c) > 0);
                        assert(cands0.contains(c));
                        let q0 = choose|q0: int| 0 <= q0 < cands0.len() && cands0[q0] == c;
                        assert(cand_src(cands0[q0], personal_slots@, sj, gl as int));
                    }
                }
                proof {
                    assert forall|i: int| 0 <= i < students@.len() implies (
                    #[trigger] students@[i]@).len() == ts by {
                        assert(rows_view(students@)[i].len() == ts);
                    }
                }
                proof {
                    assert forall|q: int|
                        0 <= q < candidates@.len() && ((#[trigger] candidates@[q]).1 as int)
                        >= groups_by_subject@[candidates@[q].0 as int]@.len() implies exists|t0: int|
                        0 <= t0 < personal_slots@.len() && (#[trigger] personal_slots@[t0]) == Some(
                            candidates@[q],
                        ) by {
                        let c = candidates@[q];
                        if !cand_from_ps(c, personal_slots@) {
                            assert(c.0 == sj && (c.1 as int) < gl as int);
                        }
                    }
                }
                let mut probe: usize = p0;
                let mut chosen: Option<(usize, usize)> = None;
                let mut exhausted: bool = false;
                while chosen.is_none() && !exhausted
                    invariant
                        (probe as int) < ts,
                        personal_slots@[probe as int] is None,
                        chosen matches Some(c) ==> candidates@.contains(c) && acceptable(
                            c,
                            groups_by_subject@,
                            rows_view(students@),
                            probe as int,
                            sj,
                            personal_slots@,
                        ),
                    decreases (if chosen is Some || exhausted {
                        0int
                    } else {
                        ts - probe + 1
                    }),
                {
                    let found = find_acceptable(
                        &candidates,
                        &*groups_by_subject,
                        &*students,
                        probe,
                        sj,
                        &*personal_slots,
                        Ghost(ts),
                    );
                    match found {
                        Some(c) => {
                            proof {
                                let kw = choose|kw: int|
                                    0 <= kw < candidates@.len() && (#[trigger] candidates@[kw]) == c
                                        && acceptable(
                                        c,
                                        groups_by_subject@,
                                        rows_view(students@),
                                        probe as int,
                                        sj,
                                        personal_slots@,
                                    );
                                assert(candidates@.contains(c));
                            }
                            chosen = Some(c);
                        },
                        None => {
                            match next_free_after(&*personal_slots, probe) {
                                Some(tn) => {
                                    probe = tn;
                                },
                                None => {
                                    exhausted = true;
                                },
                            }
                        },
                    }
                }
                match chosen {
                    None => {
                        proof {
                            assert(gz0[sj as int]@.len() == max_groups as int);
                        }
                        return true;
                    },
                    Some(c) => {
                        let cs = c.0;
                        let cg = c.1;
                        proof {
                            let q = choose|q: int|
                                0 <= q < candidates@.len() && (#[trigger] candidates@[q]) == c;
                            assert(cand_src(c, personal_slots@, sj, gl as int));
                        }
                        let csl = {
                            let r: &Vec<Group> = &groups_by_subject[cs];
                            r.len()
                        };
                        if cg < csl {
                            // the chosen group exists: move it to the probe
                            // slot, migrating every member; the student
                            // either joins it there (same subject) or joins
                            // the current subject's group standing at the
                            // slot it vacated
                            let old_slot = {
                                let r: &Vec<Group> = &groups_by_subject[cs];
                                r[cg].slot
                            };
                            proof {
                                assert(group_wf(
                                    groups_by_subject@[cs as int]@[cg as int],
                                    students@.len() as int,
                                    ts,
                                ));
                                if cs == sj {
                                    assert(personal_slots@[old_slot as int] is Some);
                                } else {
                                    assert(cand_from_ps(c, personal_slots@));
                                    let t3 = choose|t3: int|
                                        0 <= t3 < personal_slots@.len() && (
                                        #[trigger] personal_slots@[t3]) == Some(c);
                                    assert(pers_entry_ok(c, t3, groups_by_subject@));
                                    assert(t3 == old_slot as int);
                                }
                                assert(old_slot != probe);
                            }
                            let ghost ga = groups_by_subject@;
                            relocate_group(
                                groups_by_subject,
                                students,
                                cs,
                                cg,
                                probe,
                                Ghost(ids),
                                Ghost(ts),
                            );
                            if cs == sj {
                                let ghost ps1 = personal_slots@;
                                personal_slots.set(probe, Some((sj, cg)));
                                proof {
                                    assert forall|t: int|
                                        0 <= t < ps1.len() && (#[trigger] ps1[t]) is Some implies pers_entry_ok(
                                        ps1[t].unwrap(),
                                        t,
                                        groups_by_subject@,
                                    ) by {
                                        let e = ps1[t].unwrap();
                                        assert(pers_entry_ok(e, t, ga));
                                        assert(e.0 != sj) by {
                                            if e.0 == sj {
                                                let k2 = choose|k2: int|
                                                    0 <= k2 < k && subjects@[k2] == e.0;
                                                assert(subjects@[k2] != subjects@[k as int]);
                                            }
                                        }
                                        assert(groups_by_subject@[e.0 as int]@.len() == ga[e.0 as int]@.len());
                                        assert forall|g2: int|
                                            0 <= g2 < ga[e.0 as int]@.len() implies (
                                        #[trigger] groups_by_subject@[e.0 as int]@[g2])
                                            == ga[e.0 as int]@[g2] by {}
                                    }
                                    assert(pers_entry_ok((sj, cg), probe as int, groups_by_subject@));
                                    lemma_pers_insert(
                                        ps1,
                                        groups_by_subject@,
                                        subjects@,
                                        k as int,
                                        probe as int,
                                        (sj, cg),
                                        ts,
                                    );
                                }
                            } else {
                                let ghost ps1 = personal_slots@;
                                proof {
                                    assert(!no_group_at(ga, sj as int, old_slot as int));
                                    assert forall|g2: int|
                                        0 <= g2 < ga[sj as int]@.len() implies (
                                    #[trigger] groups_by_subject@[sj as int]@[g2])
                                        == ga[sj as int]@[g2] by {}
                                    assert(!no_group_at(
                                        groups_by_subject@,
                                        sj as int,
                                        old_slot as int,
                                    )) by {
                                        let gw = choose|gw: int|
                                            0 <= gw < ga[sj as int]@.len() && ((
                                            #[trigger] ga[sj as int]@[gw]).slot as int)
                                                == old_slot as int;
                                        assert(((groups_by_subject@[sj as int]@[gw]).slot as int)
                                            == old_slot as int);
                                    }
                                }
                                let g_star = match find_group_at(
                                    &*groups_by_subject,
                                    sj,
                                    old_slot,
                                ) {
                                    Some(gs) => gs,
                                    None => {
                                        proof {
                                            assert(false);
                                        }
                                        0
                                    },
                                };
                                personal_slots.set(probe, Some((cs, cg)));
                                personal_slots.set(old_slot, Some((sj, g_star)));
                                proof {
                                    assert(ps1[old_slot as int] == Some((cs, cg)));
                                    assert forall|t: int|
                                        0 <= t < ps1.len() && t != old_slot as int && (
                                        #[trigger] ps1[t]) is Some implies pers_entry_ok(
                                        ps1[t].unwrap(),
                                        t,
                                        groups_by_subject@,
                                    ) by {
                                        let e = ps1[t].unwrap();
                                        assert(pers_entry_ok(e, t, ga));
                                        assert(!(e.0 == cs && e.1 == cg)) by {
                                            if e.0 == cs && e.1 == cg {
                                                assert(t == old_slot as int);
                                            }
                                        }
                                        assert(groups_by_subject@[e.0 as int]@.len() == ga[e.0 as int]@.len());
                                        if (e.0 as int) == cs as int {
                                            // the only entry of this subject
                                            // is the displaced group's own
                                            assert((e.1 as int) < ga[e.0 as int]@.len()
                                                ==> t == old_slot as int);
                                            assert((e.1 as int) == ga[e.0 as int]@.len());
                                            assert(ps1[old_slot as int].unwrap().0 == e.0);
                                            assert(t == old_slot as int);
                                        } else {
                                            assert forall|g2: int|
                                                0 <= g2 < ga[e.0 as int]@.len() implies (
                                            #[trigger] groups_by_subject@[e.0 as int]@[g2])
                                                == ga[e.0 as int]@[g2] by {}
                                        }
                                    }
                                    assert(pers_entry_ok((cs, cg), probe as int, groups_by_subject@));
                                    assert(pers_entry_ok(
                                        (sj, g_star),
                                        old_slot as int,
                                        groups_by_subject@,
                                    ));
                                    assert(personal_slots@ == ps1.update(
                                        probe as int,
                                        ps1[old_slot as int],
                                    ).update(old_slot as int, Some((sj, g_star))));
                                    lemma_pers_move_insert(
                                        ps1,
                                        groups_by_subject@,
                                        subjects@,
                                        k as int,
                                        old_slot as int,
                                        probe as int,
                                        (sj, g_star),
                                        ts,
                                    );
                                }
                            }
                        } else {
                            // the chosen candidate is the student's own
                            // announced fresh group of another subject: it
                            // moves to the probe slot, and the student
                            // joins the current subject's group standing at
                            // the slot it vacated
                            proof {
                                assert(cand_from_ps(c, personal_slots@)) by {
                                    if !(cand_from_ps(c, personal_slots@)) {
                                        assert(c.0 == sj && (c.1 as int) < gl as int);
                                    }
                                }
                                let t3 = choose|t3: int|
                                    0 <= t3 < personal_slots@.len() && (
                                    #[trigger] personal_slots@[t3]) == Some(c);
                                assert(cs != sj) by {
                                    if cs == sj {
                                        let k2 = choose|k2: int|
                                            0 <= k2 < k && subjects@[k2] == personal_slots@[t3].unwrap().0;
                                        assert(subjects@[k2] != subjects@[k as int]);
                                    }
                                }
                            }
                            let t0 = find_subject_slot(&*personal_slots, cs);
                            let ghost ps1 = personal_slots@;
                            proof {
                                let t3 = choose|t3: int|
                                    0 <= t3 < ps1.len() && (#[trigger] ps1[t3]) == Some(c);
                                assert(t3 == t0 as int);
                                assert(ps1[t0 as int] == Some(c));
                                assert(!no_group_at(groups_by_subject@, sj as int, t0 as int));
                            }
                            let moved = personal_slots[t0];
                            let g_star = match find_group_at(&*groups_by_subject, sj, t0) {
                                Some(gs) => gs,
                                None => {
                                    proof {
                                        assert(false);
                                    }
                                    0
                                },
                            };
                            personal_slots.set(probe, moved);
                            personal_slots.set(t0, Some((sj, g_star)));
                            proof {
                                assert(pers_entry_ok(c, probe as int, groups_by_subject@));
                                assert(pers_entry_ok((sj, g_star), t0 as int, groups_by_subject@));
                                assert(t0 != probe);
                                assert(personal_slots@ == ps1.update(
                                    probe as int,
                                    ps1[t0 as int],
                                ).update(t0 as int, Some((sj, g_star))));
                                lemma_pers_move_insert(
                                    ps1,
                                    groups_by_subject@,
                                    subjects@,
                                    k as int,
                                    t0 as int,
                                    probe as int,
                                    (sj, g_star),
                                    ts,
                                );
                            }
                        }
                    },
                }
            } else {
                // below the cap: a fresh group of this subject is
                // announced at the first free slot
                let ghost ps1 = personal_slots@;
                personal_slots.set(p0, Some((sj, gl)));
                proof {
                    assert(no_group_at(groups_by_subject@, sj as int, p0 as int)) by {
                        assert forall|g: int|
                            0 <= g < groups_by_subject@[sj as int]@.len() implies ((
                        #[trigger] groups_by_subject@[sj as int]@[g]).slot as int) != p0 as int by {
                            assert(ps1[(groups_by_subject@[sj as int]@[g]).slot as int] is Some);
                        }
                    }
                    assert(pers_entry_ok((sj, gl), p0 as int, groups_by_subject@));
                    lemma_pers_insert(
                        ps1,
                        groups_by_subject@,
                        subjects@,
                        k as int,
                        p0 as int,
                        (sj, gl),
                        ts,
                    );
                    if subjects@.len() == 1 {
                        assert(k == 0);
                        assert(groups_by_subject@[sj as int]@.len() == 0) by {
                            if groups_by_subject@[sj as int]@.len() > 0 {
                                assert(ps1[(groups_by_subject@[sj as int]@[0]).slot as int] is Some);
                            }
                        }
                        assert(gl == 0);
                        assert(p0 == 0) by {
                            if p0 > 0 {
                                assert(ps1[0] is Some);
                            }
                        }
                        assert(groups_by_subject@ == gz0);
                        assert forall|t: int| 0 <= t < total_slots implies personal_slots@[t] == (
                        if t == 0 {
                            Some((subjects@[0], 0usize))
                        } else {
                            None::<(usize, usize)>
                        }) by {
                            if t != 0 {
                                assert(personal_slots@[t] == ps1[t]);
                            }
                        }
                    }
                }
            }
        }
        k = k + 1;
    }
    false
}

/// Position of a subject name in the table, if present.
fn find_string(table: &Vec<String>, s: &String) -> (r: Option<usize>)
    ensures
        r matches Some(k) ==> (k as int) < table@.len() && table@[k as int]@ == s@,
        r is None ==> forall|k: int| 0 <= k < table@.len() ==> (#[trigger] table@[k])@ != s@,
{
    let mut k: usize = 0;
    while k < table.len()
        invariant
            k <= table@.len(),
            forall|k2: int| 0 <= k2 < k ==> (#[trigger] table@[k2])@ != s@,
        decreases table@.len() - k,
    {
        if table[k].eq(s) {
            return Some(k);
        }
        k = k + 1;
    }
    None
}

/// Gives every distinct subject name of the roster a small index, and
/// rewrites each student's request list into those indices.
fn intern_subjects(students: &Vec<StudentInfo>) -> (r: (Vec<String>, Vec<Vec<usize>>))
    ensures
        r.1@.len() == students@.len(),
        forall|i: int|
            0 <= i < students@.len() ==> (#[trigger] r.1@[i])@.len()
                == students@[i].subjects@.len(),
        forall|i: int, k: int|
            0 <= i < students@.len() && 0 <= k < r.1@[i]@.len() ==> ((#[trigger] r.1@[i]@[k]) as int)
                < r.0@.len(),
        forall|i: int, k: int|
            0 <= i < students@.len() && 0 <= k < r.1@[i]@.len() ==> r.0@[(
            #[trigger] r.1@[i]@[k]) as int]@ == students@[i].subjects@[k]@,
        forall|a: int, b: int| 0 <= a < b < r.0@.len() ==> (#[trigger] r.0@[a])@ != (
        #[trigger] r.0@[b])@,
{
    let mut table: Vec<String> = Vec::new();
    let mut ids: Vec<Vec<usize>> = Vec::new();
    let mut i: usize = 0;
    while i < students.len()
        invariant
            i <= students@.len(),
            ids@.len() == i,
            forall|i2: int|
                0 <= i2 < i ==> (#[trigger] ids@[i2])@.len() == students@[i2].subjects@.len(),
            forall|i2: int, k: int|
                0 <= i2 < i && 0 <= k < ids@[i2]@.len() ==> ((#[trigger] ids@[i2]@[k]) as int)
                    < table@.len(),
            forall|i2: int, k: int|
                0 <= i2 < i && 0 <= k < ids@[i2]@.len() ==> table@[(#[trigger] ids@[i2]@[k]) as int]@
                    == students@[i2].subjects@[k]@,
            forall|a: int, b: int| 0 <= a < b < table@.len() ==> (#[trigger] table@[a])@ != (
            #[trigger] table@[b])@,
        decreases students@.len() - i,
    {
        let subs = &students[i].subjects;
        let mut my_ids: Vec<usize> = Vec::new();
        let mut k: usize = 0;
        while k < subs.len()
            invariant
                k <= subs@.len(),
                subs == students@[i as int].subjects,
                i < students@.len(),
                my_ids@.len() == k,
                forall|k2: int|
                    0 <= k2 < k ==> ((#[trigger] my_ids@[k2]) as int) < table@.len(),
                forall|k2: int|
                    0 <= k2 < k ==> table@[(#[trigger] my_ids@[k2]) as int]@ == subs@[k2]@,
                forall|i2: int, k2: int|
                    0 <= i2 < i && 0 <= k2 < ids@[i2]@.len() ==> ((#[trigger] ids@[i2]@[k2]) as int)
                        < table@.len(),
                forall|i2: int, k2: int|
                    0 <= i2 < i && 0 <= k2 < ids@[i2]@.len() ==> table@[(
                    #[trigger] ids@[i2]@[k2]) as int]@ == students@[i2].subjects@[k2]@,
                forall|a: int, b: int| 0 <= a < b < table@.len() ==> (#[trigger] table@[a])@ != (
                #[trigger] table@[b])@,
            decreases subs@.len() - k,
        {
            let name = &subs[k];
            match find_string(&table, name) {
                Some(idx) => {
                    my_ids.push(idx);
                },
                None => {
                    let idx = table.len();
                    table.push(name.clone());
                    my_ids.push(idx);
                },
            }
            k = k + 1;
        }
        ids.push(my_ids);
        i = i + 1;
    }
    (table, ids)
}

/// Solves the whole roster: every student is placed in roster order; when
/// any student's displacement search fails, the result is `Unsolved`.
/// A solved result satisfies the properties gathered in `solved_ok`:
/// every student's schedule holds each requested subject exactly once,
/// the same group never sits at two slots, and the global slot table is
/// exactly the membership view of the per-student schedules.
#[verifier::loop_isolation(false)]
#[verifier::rlimit(60)]
pub fn solve_timetable(timetable_info: &TimetableInfo) -> (r: TimetableResult)
    requires
        info_wf(*timetable_info),
    ensures
        solve_post(*timetable_info, r),
        timetable_info.students@.len() <= timetable_info.max_groups as int ==> r is Solved,
        single_subject_roster(*timetable_info) ==> r is Solved && (r matches TimetableResult::Solved {
            subjects,
            slots_by_student_id,
        } ==> packed_single(*timetable_info, slots_by_student_id)),
{
    let info = timetable_info;
    // there are 5 days in the timetable week
    let total_slots: usize = (info.daily_lesson_capacity as usize) * 5;
    let ghost ts = total_slots as int;
    proof {
        assert(ts == total_slots_of(*info));
    }
    let (table, ids_list) = intern_subjects(&info.students);
    let nsub = table.len();
    let ghost idsg = Seq::new(ids_list@.len(), |i: int| ids_list@[i]@);
    let mut groups_by_subject: Vec<Vec<Group>> = Vec::new();
    while groups_by_subject.len() < nsub
        invariant
            groups_by_subject@.len() <= nsub,
            forall|s: int|
                0 <= s < groups_by_subject@.len() ==> (#[trigger] groups_by_subject@[s])@.len()
                    == 0,
        decreases nsub - groups_by_subject@.len(),
    {
        groups_by_subject.push(Vec::new());
    }
    let mut done: Vec<Vec<Option<(usize, usize)>>> = Vec::new();
    let mut i: usize = 0;
    while i < info.students.len()
        invariant
            i <= info.students@.len(),
            done@.len() == i,
            groups_by_subject@.len() == nsub,
            state_ok(groups_by_subject@, rows_view(done@), ts),
            rows_match(rows_view(done@), idsg),
            forall|i2: int|
                0 <= i2 < i ==> count_some(#[trigger] rows_view(done@)[i2])
                    == info.students@[i2].subjects@.len(),
            forall|s: int|
                0 <= s < groups_by_subject@.len() ==> (#[trigger] groups_by_subject@[s])@.len()
                    <= i,
            forall|s: int|
                0 <= s < groups_by_subject@.len() ==> ((#[trigger] groups_by_subject@[s])@.len()
                    as int) <= info.max_groups as int,
            single_subject_roster(*info) ==> forall|s: int|
                0 <= s < groups_by_subject@.len() ==> ((#[trigger] groups_by_subject@[s])@.len()
                    <= 1 && (groups_by_subject@[s]@.len() == 1 ==> (
                groups_by_subject@[s]@[0].slot as int) == 0)),
            single_subject_roster(*info) ==> forall|i2: int, t: int|
                0 <= i2 < i && 0 <= t < ts ==> (((#[trigger] rows_view(done@)[i2][t]) is Some <==> (
                t == 0 && info.students@[i2].subjects@.len() == 1)) && (rows_view(done@)[i2][t]
                    is Some ==> rows_view(done@)[i2][t].unwrap().0 == idsg[i2][0] && rows_view(
                    done@,
                )[i2][t].unwrap().1 == 0)),
        decreases info.students@.len() - i,
    {
        let sub_ids = &ids_list[i];
        proof {
            assert(crate::model::student_info_wf(info.students@[i as int], ts));
            assert(sub_ids@ == idsg[i as int]);
            // the interned request list is duplicate-free because the
            // names are and the table is
            assert forall|k1: int, k2: int|
                0 <= k1 < k2 < sub_ids@.len() implies (#[trigger] sub_ids@[k1]) != (
            #[trigger] sub_ids@[k2]) by {
                assert(table@[(ids_list@[i as int]@[k1]) as int]@
                    == info.students@[i as int].subjects@[k1]@);
                assert(table@[(ids_list@[i as int]@[k2]) as int]@
                    == info.students@[i as int].subjects@[k2]@);
            }
        }
        let mut personal_slots = empty_row(total_slots);
        let failed = handle_subjects(
            &mut groups_by_subject,
            &mut personal_slots,
            sub_ids,
            info.max_groups,
            total_slots,
            &mut done,
            Ghost(idsg),
        );
        if failed {
            proof {
                // a roster no larger than the group cap never reaches the
                // cap, so the displacement search is never entered
                if info.students@.len() <= info.max_groups as int {
                    assert(false);
                }
                // a roster of single requests never displaces anything
                if single_subject_roster(*info) {
                    assert(sub_ids@.len() <= 1);
                    assert(false);
                }
            }
            return TimetableResult::Unsolved;
        }
        let ghost rows_before = rows_view(done@);
        let ghost ga_i = groups_by_subject@;
        proof {
            lemma_pers_row_matches(personal_slots@, groups_by_subject@, idsg[i as int], ts);
        }
        make_global(
            &mut groups_by_subject,
            &personal_slots,
            i,
            Ghost(rows_view(done@)),
            Ghost(idsg[i as int]),
            Ghost(ts),
            Ghost(info.max_groups as int),
        );
        done.push(personal_slots);
        proof {
            assert(rows_view(done@) =~= rows_before.push(done@[i as int]@));
            assert(rows_match(rows_view(done@), idsg)) by {
                assert forall|i2: int|
                    0 <= i2 < done@.len() implies row_matches(
                    #[trigger] rows_view(done@)[i2],
                    idsg[i2],
                ) by {
                    if i2 < i as int {
                        assert(rows_view(done@)[i2] == rows_before[i2]);
                    } else {
                        assert(rows_view(done@)[i2] == done@[i as int]@);
                    }
                }
            }
            assert forall|i2: int|
                0 <= i2 < i + 1 implies count_some(#[trigger] rows_view(done@)[i2])
                == info.students@[i2].subjects@.len() by {
                if i2 < i as int {
                    assert(rows_view(done@)[i2] == rows_before[i2]);
                } else {
                    assert(rows_view(done@)[i2] == done@[i as int]@);
                    assert(count_some(done@[i as int]@) == idsg[i as int].len());
                }
            }
            if single_subject_roster(*info) {
                assert(info.students@[i as int].subjects@.len() <= 1);
                let ps = done@[i as int]@;
                // the new row is packed: slot 0 carries the single request
                assert forall|t: int|
                    0 <= t < ts implies (((#[trigger] ps[t]) is Some <==> (t == 0
                    && info.students@[i as int].subjects@.len() == 1)) && (ps[t] is Some ==> ps[t].unwrap().0
                    == idsg[i as int][0] && ps[t].unwrap().1 == 0)) by {
                    if idsg[i as int].len() == 1 {
                        if ga_i[idsg[i as int][0] as int]@.len() > 0 {
                            assert((ga_i[idsg[i as int][0] as int]@[0].slot as int) == 0);
                        }
                    }
                }
                assert forall|i2: int, t: int|
                    0 <= i2 < i + 1 && 0 <= t < ts implies (((#[trigger] rows_view(done@)[i2][t])
                    is Some <==> (t == 0 && info.students@[i2].subjects@.len() == 1)) && (rows_view(
                    done@,
                )[i2][t] is Some ==> rows_view(done@)[i2][t].unwrap().0 == idsg[i2][0] && rows_view(
                    done@,
                )[i2][t].unwrap().1 == 0)) by {
                    if i2 < i as int {
                        assert(rows_view(done@)[i2] == rows_before[i2]);
                    } else {
                        assert(rows_view(done@)[i2] == ps);
                    }
                }
                // the registry: every group of every subject sits at slot 0,
                // and no subject has more than one group
                assert forall|s: int|
                    0 <= s < groups_by_subject@.len() implies ((
                #[trigger] groups_by_subject@[s])@.len() <= 1 && (groups_by_subject@[s]@.len() == 1
                    ==> (groups_by_subject@[s]@[0].slot as int) == 0)) by {
                    if groups_by_subject@[s]@.len() != ga_i[s]@.len() {
                        let u = choose|u: int|
                            0 <= u < ps.len() && (#[trigger] ps[u]) is Some && ps[u].unwrap().0 == s
                                && (ps[u].unwrap().1 as int) == ga_i[s]@.len();
                        assert(u == 0);
                        assert(ga_i[s]@.len() == 0);
                    }
                    if groups_by_subject@[s]@.len() == 1 {
                        // its first member's schedule shows its slot
                        assert(crate::model::group_wf(
                            groups_by_subject@[s]@[0],
                            rows_view(done@).len() as int,
                            ts,
                        ));
                        let m = groups_by_subject@[s]@[0].student_idxs@[0];
                        assert(member_entry_ok(s, 0, m, groups_by_subject@, rows_view(done@)));
                        let slot2 = groups_by_subject@[s]@[0].slot as int;
                        assert(rows_view(done@)[m as int][slot2] is Some);
                        assert(slot2 == 0);
                    }
                }
            }
        }
        i = i + 1;
    }
    let r = build_result(info, &table, &groups_by_subject, &done, Ghost(idsg), Ghost(ts));
    proof {
        if single_subject_roster(*info) {
            match &r {
                TimetableResult::Solved { subjects: sbv2, slots_by_student_id: o } => {
                    assert(solved_ok(*info, *sbv2, *o));
                    assert(packed_single(*info, *o)) by {
                        assert forall|i2: int, t: int|
                            0 <= i2 < o@.len() && 0 <= t < o@[i2].slots@.len() implies (((
                        #[trigger] o@[i2].slots@[t]) is Some <==> (t == 0
                            && info.students@[i2].subjects@.len() == 1)) && (o@[i2].slots@[t] is Some
                            ==> o@[i2].slots@[t].unwrap().0@ == info.students@[i2].subjects@[0]@
                            && o@[i2].slots@[t].unwrap().1 == 0)) by {
                            assert(rows_view(done@)[i2][t] == done@[i2]@[t]);
                            if o@[i2].slots@[t] is Some {
                                assert(table@[(idsg[i2][0]) as int]@
                                    == info.students@[i2].subjects@[0]@);
                            }
                        }
                    }
                },
                TimetableResult::Unsolved => {},
            }
        }
    }
    r
}

/// Inverts the registry into the global table: slot `t` lists the subject
/// of every group assigned to `t`.
#[verifier::loop_isolation(false)]
fn invert_registry(
    table: &Vec<String>,
    groups_by_subject: &Vec<Vec<Group>>,
    total_slots: usize,
) -> (sbv: Vec<Vec<String>>)
    requires
        groups_by_subject@.len() == table@.len(),
        forall|s: int, g: int|
            0 <= s < groups_by_subject@.len() && 0 <= g < groups_by_subject@[s]@.len() ==> ((
            #[trigger] groups_by_subject@[s]@[g]).slot as int) < total_slots,
        crate::model::slots_distinct(groups_by_subject@),
        forall|a: int, b: int| 0 <= a < b < table@.len() ==> (#[trigger] table@[a])@ != (
        #[trigger] table@[b])@,
    ensures
        sbv@.len() == total_slots,
        forall|t: int, k1: int, k2: int|
            0 <= t < total_slots && 0 <= k1 < k2 < sbv@[t]@.len() ==> (#[trigger] sbv@[t]@[k1])@
                != (#[trigger] sbv@[t]@[k2])@,
        forall|s: int, g: int|
            0 <= s < groups_by_subject@.len() && 0 <= g < groups_by_subject@[s]@.len() ==> listed(
                sbv@,
                (#[trigger] groups_by_subject@[s]@[g]).slot as int,
                table@[s]@,
            ),
        forall|t: int, k: int|
            0 <= t < total_slots && 0 <= k < sbv@[t]@.len() ==> group_at(
                groups_by_subject@,
                table@,
                t,
                (#[trigger] sbv@[t]@[k])@,
                groups_by_subject@.len() as int,
                0,
            ),
{
    let mut sbv: Vec<Vec<String>> = Vec::new();
    while sbv.len() < total_slots
        invariant
            sbv@.len() <= total_slots,
            forall|t: int| 0 <= t < sbv@.len() ==> (#[trigger] sbv@[t])@.len() == 0,
        decreases total_slots - sbv@.len(),
    {
        sbv.push(Vec::new());
    }
    let nsub = table.len();
    let mut s: usize = 0;
    while s < nsub
        invariant
            s <= nsub,
            sbv@.len() == total_slots,
            forall|s2: int, g2: int|
                0 <= s2 < s && 0 <= g2 < groups_by_subject@[s2]@.len() ==> listed(
                    sbv@,
                    (#[trigger] groups_by_subject@[s2]@[g2]).slot as int,
                    table@[s2]@,
                ),
            forall|t: int, k: int|
                0 <= t < total_slots && 0 <= k < sbv@[t]@.len() ==> group_at(
                    groups_by_subject@,
                    table@,
                    t,
                    (#[trigger] sbv@[t]@[k])@,
                    s as int,
                    0,
                ),
            forall|t: int, k1: int, k2: int|
                0 <= t < total_slots && 0 <= k1 < k2 < sbv@[t]@.len() ==> (
                #[trigger] sbv@[t]@[k1])@ != (#[trigger] sbv@[t]@[k2])@,
        decreases nsub - s,
    {
        let glen = {
            let r: &Vec<Group> = &groups_by_subject[s];
            r.len()
        };
        let mut g: usize = 0;
        proof {
            assert forall|t: int, k: int|
                0 <= t < total_slots && 0 <= k < sbv@[t]@.len() implies group_at(
                groups_by_subject@,
                table@,
                t,
                (#[trigger] sbv@[t]@[k])@,
                s as int,
                0int,
            ) by {}
        }
        while g < glen
            invariant
                g <= glen,
                glen == groups_by_subject@[s as int]@.len(),
                s < nsub,
                sbv@.len() == total_slots,
                forall|s2: int, g2: int|
                    0 <= s2 < s && 0 <= g2 < groups_by_subject@[s2]@.len() ==> listed(
                        sbv@,
                        (#[trigger] groups_by_subject@[s2]@[g2]).slot as int,
                        table@[s2]@,
                    ),
                forall|g2: int|
                    0 <= g2 < g ==> listed(
                        sbv@,
                        (#[trigger] groups_by_subject@[s as int]@[g2]).slot as int,
                        table@[s as int]@,
                    ),
                forall|t: int, k: int|
                    0 <= t < total_slots && 0 <= k < sbv@[t]@.len() ==> group_at(
                        groups_by_subject@,
                        table@,
                        t,
                        (#[trigger] sbv@[t]@[k])@,
                        s as int,
                        g as int,
                    ),
                forall|t: int, k1: int, k2: int|
                    0 <= t < total_slots && 0 <= k1 < k2 < sbv@[t]@.len() ==> (
                    #[trigger] sbv@[t]@[k1])@ != (#[trigger] sbv@[t]@[k2])@,
            decreases glen - g,
        {
            let slot = {
                let r: &Vec<Group> = &groups_by_subject[s];
                r[g].slot
            };
            let name = table[s].clone();
            let ghost sbv0 = sbv@;
            {
                let row = vec_index_mut(&mut sbv, slot);
                row.push(name);
            }
            proof {
                assert(sbv@[slot as int]@ == sbv0[slot as int]@.push(name));
                assert(sbv@ =~= sbv0.update(slot as int, sbv@[slot as int]));
                assert(name@ == table@[s as int]@);
                assert forall|t: int, k: int|
                    0 <= t < total_slots && 0 <= k < sbv0[t]@.len() implies (#[trigger] sbv@[t]@[k])
                    == sbv0[t]@[k] by {
                    if t == slot as int {
                        assert(sbv@[t]@[k] == sbv0[t]@[k]);
                    } else {
                        assert(sbv@[t]@ == sbv0[t]@);
                    }
                }
                assert forall|s2: int, g2: int|
                    0 <= s2 < s && 0 <= g2 < groups_by_subject@[s2]@.len() implies listed(
                    sbv@,
                    (#[trigger] groups_by_subject@[s2]@[g2]).slot as int,
                    table@[s2]@,
                ) by {
                    let t2 = groups_by_subject@[s2]@[g2].slot as int;
                    assert(listed(sbv0, t2, table@[s2]@));
                    let k0 = choose|k0: int|
                        0 <= k0 < sbv0[t2]@.len() && (#[trigger] sbv0[t2]@[k0])@ == table@[s2]@;
                    assert(sbv@[t2]@[k0]@ == table@[s2]@);
                }
                assert forall|g2: int|
                    0 <= g2 < g + 1 implies listed(
                    sbv@,
                    (#[trigger] groups_by_subject@[s as int]@[g2]).slot as int,
                    table@[s as int]@,
                ) by {
                    if g2 == g as int {
                        assert(sbv@[slot as int]@[sbv0[slot as int]@.len() as int]@
                            == table@[s as int]@);
                    } else {
                        let t2 = groups_by_subject@[s as int]@[g2].slot as int;
                        assert(listed(sbv0, t2, table@[s as int]@));
                        let k0 = choose|k0: int|
                            0 <= k0 < sbv0[t2]@.len() && (#[trigger] sbv0[t2]@[k0])@
                                == table@[s as int]@;
                        assert(sbv@[t2]@[k0]@ == table@[s as int]@);
                    }
                }
                assert forall|t: int, k1: int, k2: int|
                    0 <= t < total_slots && 0 <= k1 < k2 < sbv@[t]@.len() implies (
                #[trigger] sbv@[t]@[k1])@ != (#[trigger] sbv@[t]@[k2])@ by {
                    if t == slot as int && k2 == sbv0[t]@.len() as int {
                        // the new name cannot already be listed here: its
                        // earlier source group would share this slot
                        assert(sbv@[t]@[k1] == sbv0[t]@[k1]);
                        if sbv0[t]@[k1]@ == table@[s as int]@ {
                            assert(group_at(
                                groups_by_subject@,
                                table@,
                                t,
                                sbv0[t]@[k1]@,
                                s as int,
                                g as int,
                            ));
                            let (s3, g3) = choose|s3: int, g3: int|
                                ((0 <= s3 < s as int && 0 <= g3 < groups_by_subject@[s3]@.len())
                                    || (s3 == s as int && 0 <= g3 < g as int)) && ((
                                #[trigger] groups_by_subject@[s3]@[g3]).slot as int) == t
                                    && table@[s3]@ == sbv0[t]@[k1]@;
                            assert(s3 == s as int) by {
                                if s3 < s as int {
                                    assert(table@[s3]@ != table@[s as int]@);
                                }
                            }
                            assert(((groups_by_subject@[s as int]@[g3]).slot as int) != ((
                            groups_by_subject@[s as int]@[g as int]).slot as int));
                        }
                    } else if t == slot as int {
                        assert(sbv@[t]@[k1] == sbv0[t]@[k1] && sbv@[t]@[k2] == sbv0[t]@[k2]);
                    } else {
                        assert(sbv@[t]@ == sbv0[t]@);
                    }
                }
                assert forall|t: int, k: int|
                    0 <= t < total_slots && 0 <= k < sbv@[t]@.len() implies group_at(
                    groups_by_subject@,
                    table@,
                    t,
                    (#[trigger] sbv@[t]@[k])@,
                    s as int,
                    g as int + 1,
                ) by {
                    if t == slot as int && k == sbv0[t]@.len() as int {
                        assert(((groups_by_subject@[s as int]@[g as int]).slot as int) == t);
                        assert(sbv@[t]@[k]@ == table@[s as int]@);
                    } else {
                        assert(sbv@[t]@[k] == sbv0[t]@[k]);
                        assert(group_at(
                            groups_by_subject@,
                            table@,
                            t,
                            sbv0[t]@[k]@,
                            s as int,
                            g as int,
                        ));
                        let (s3, g3) = choose|s3: int, g3: int|
                            ((0 <= s3 < s as int && 0 <= g3 < groups_by_subject@[s3]@.len()) || (s3
                                == s as int && 0 <= g3 < g as int)) && ((
                            #[trigger] groups_by_subject@[s3]@[g3]).slot as int) == t
                                && table@[s3]@ == sbv0[t]@[k]@;
                        assert(((groups_by_subject@[s3]@[g3]).slot as int) == t);
                    }
                }
            }
            g = g + 1;
        }
        proof {
            assert forall|t: int, k: int|
                0 <= t < total_slots && 0 <= k < sbv@[t]@.len() implies group_at(
                groups_by_subject@,
                table@,
                t,
                (#[trigger] sbv@[t]@[k])@,
                s as int + 1,
                0int,
            ) by {
                let (s3, g3) = choose|s3: int, g3: int|
                    ((0 <= s3 < s as int && 0 <= g3 < groups_by_subject@[s3]@.len()) || (s3
                        == s as int && 0 <= g3 < glen as int)) && ((
                    #[trigger] groups_by_subject@[s3]@[g3]).slot as int) == t && table@[s3]@
                        == sbv@[t]@[k]@;
                assert(0 <= s3 < s as int + 1 && 0 <= g3 < groups_by_subject@[s3]@.len());
                assert(((groups_by_subject@[s3]@[g3]).slot as int) == t);
            }
        }
        s = s + 1;
    }
    sbv
}

/// Turns the internal schedules back into named entries, one `Student`
/// per roster entry, in roster order.
#[verifier::loop_isolation(false)]
fn convert_schedules(
    info: &TimetableInfo,
    table: &Vec<String>,
    done: &Vec<Vec<Option<(usize, usize)>>>,
    total_slots: usize,
) -> (outv: Vec<Student>)
    requires
        done@.len() == info.students@.len(),
        forall|i: int| 0 <= i < done@.len() ==> (#[trigger] done@[i])@.len() == total_slots,
        forall|i: int, t: int|
            0 <= i < done@.len() && 0 <= t < total_slots && (#[trigger] done@[i]@[t]) is Some ==> ((
            done@[i]@[t].unwrap().0) as int) < table@.len(),
    ensures
        outv@.len() == done@.len(),
        forall|i: int|
            0 <= i < done@.len() ==> (#[trigger] outv@[i]).id@ == info.students@[i].id@,
        forall|i: int| 0 <= i < done@.len() ==> (#[trigger] outv@[i]).slots@.len() == total_slots,
        forall|i: int, t: int|
            0 <= i < done@.len() && 0 <= t < total_slots ==> ((#[trigger] outv@[i].slots@[t]) is Some
                <==> (#[trigger] done@[i]@[t]) is Some),
        forall|i: int, t: int|
            0 <= i < done@.len() && 0 <= t < total_slots && (#[trigger] done@[i]@[t]) is Some
                ==> outv@[i].slots@[t].unwrap().0@ == table@[(done@[i]@[t].unwrap().0) as int]@
                && outv@[i].slots@[t].unwrap().1 == done@[i]@[t].unwrap().1,
{
    let mut outv: Vec<Student> = Vec::new();
    let mut i: usize = 0;
    while i < done.len()
        invariant
            i <= done@.len(),
            outv@.len() == i,
            forall|i2: int|
                0 <= i2 < i ==> (#[trigger] outv@[i2]).id@ == info.students@[i2].id@,
            forall|i2: int| 0 <= i2 < i ==> (#[trigger] outv@[i2]).slots@.len() == total_slots,
            forall|i2: int, t: int|
                0 <= i2 < i && 0 <= t < total_slots ==> ((#[trigger] outv@[i2].slots@[t]) is Some
                    <==> (#[trigger] done@[i2]@[t]) is Some),
            forall|i2: int, t: int|
                0 <= i2 < i && 0 <= t < total_slots && (#[trigger] done@[i2]@[t]) is Some
                    ==> outv@[i2].slots@[t].unwrap().0@ == table@[(done@[i2]@[t].unwrap().0) as int]@
                    && outv@[i2].slots@[t].unwrap().1 == done@[i2]@[t].unwrap().1,
        decreases done@.len() - i,
    {
        let row: &Vec<Option<(usize, usize)>> = &done[i];
        let mut conv: Vec<Option<(String, usize)>> = Vec::new();
        let mut t: usize = 0;
        while t < total_slots
            invariant
                t <= total_slots,
                i < done@.len(),
                row == done@[i as int],
                conv@.len() == t,
                forall|t2: int|
                    0 <= t2 < t ==> ((#[trigger] conv@[t2]) is Some <==> (
                    #[trigger] done@[i as int]@[t2]) is Some),
                forall|t2: int|
                    0 <= t2 < t && (#[trigger] done@[i as int]@[t2]) is Some
                        ==> conv@[t2].unwrap().0@ == table@[(done@[i as int]@[t2].unwrap().0) as int]@
                        && conv@[t2].unwrap().1 == done@[i as int]@[t2].unwrap().1,
            decreases total_slots - t,
        {
            match row[t] {
                None => {
                    conv.push(None);
                },
                Some(e) => {
                    let name = table[e.0].clone();
                    conv.push(Some((name, e.1)));
                    proof {
                        assert(done@[i as int]@[t as int] == Some(e));
                    }
                },
            }
            t = t + 1;
        }
        let sid = info.students[i].id.clone();
        outv.push(Student { id: sid, slots: conv });
        i = i + 1;
    }
    outv
}

/// Packages the finished state into the `Solved` result and derives the
/// promised properties from the registry/schedule invariants.
#[verifier::loop_isolation(false)]
#[verifier::rlimit(100)]
fn build_result(
    info: &TimetableInfo,
    table: &Vec<String>,
    groups_by_subject: &Vec<Vec<Group>>,
    done: &Vec<Vec<Option<(usize, usize)>>>,
    Ghost(idsg): Ghost<Seq<Seq<usize>>>,
    Ghost(ts): Ghost<int>,
) -> (r: TimetableResult)
    requires
        ts == total_slots_of(*info),
        info.daily_lesson_capacity >= 1,
        done@.len() == info.students@.len(),
        idsg.len() == info.students@.len(),
        groups_by_subject@.len() == table@.len(),
        state_ok(groups_by_subject@, rows_view(done@), ts),
        rows_match(rows_view(done@), idsg),
        forall|i: int|
            0 <= i < done@.len() ==> count_some(#[trigger] rows_view(done@)[i])
                == info.students@[i].subjects@.len(),
        forall|i: int|
            0 <= i < idsg.len() ==> (#[trigger] idsg[i]).len() == info.students@[i].subjects@.len(),
        forall|i: int, k: int|
            0 <= i < idsg.len() && 0 <= k < idsg[i].len() ==> ((#[trigger] idsg[i][k]) as int)
                < table@.len(),
        forall|i: int, k: int|
            0 <= i < idsg.len() && 0 <= k < idsg[i].len() ==> table@[(
            #[trigger] idsg[i][k]) as int]@ == info.students@[i].subjects@[k]@,
        forall|a: int, b: int| 0 <= a < b < table@.len() ==> (#[trigger] table@[a])@ != (
        #[trigger] table@[b])@,
        forall|s: int|
            0 <= s < groups_by_subject@.len() ==> ((#[trigger] groups_by_subject@[s])@.len()
                as int) <= info.max_groups as int,
    ensures
        r is Solved,
        solve_post(*info, r),
        r matches TimetableResult::Solved { subjects, slots_by_student_id } ==> slots_by_student_id@.len()
            == done@.len() && forall|i: int, t: int|
            0 <= i < done@.len() && 0 <= t < ts ==> (((
            #[trigger] slots_by_student_id@[i].slots@[t]) is Some <==> rows_view(done@)[i][t]
                is Some) && (slots_by_student_id@[i].slots@[t] is Some
                ==> slots_by_student_id@[i].slots@[t].unwrap().0@ == table@[rows_view(
                done@,
            )[i][t].unwrap().0 as int]@ && slots_by_student_id@[i].slots@[t].unwrap().1 == rows_view(
                done@,
            )[i][t].unwrap().1)),
{
    let total_slots: usize = (info.daily_lesson_capacity as usize) * 5;
    let ghost rr = rows_view(done@);
    proof {
        assert forall|s: int, g: int|
            0 <= s < groups_by_subject@.len() && 0 <= g < groups_by_subject@[s]@.len() implies ((
        #[trigger] groups_by_subject@[s]@[g]).slot as int) < total_slots by {
            assert(crate::model::group_wf(groups_by_subject@[s]@[g], done@.len() as int, ts));
        }
        assert forall|i: int, t: int|
            0 <= i < done@.len() && 0 <= t < total_slots && (#[trigger] done@[i]@[t]) is Some implies ((
        done@[i]@[t].unwrap().0) as int) < table@.len() by {
            assert(rr[i][t] == done@[i]@[t]);
            assert(entry_ok(rr[i][t].unwrap(), t, i, groups_by_subject@));
        }
        assert forall|i: int| 0 <= i < done@.len() implies (#[trigger] done@[i])@.len()
            == total_slots by {
            assert(rr[i].len() == ts);
        }
    }
    let sbv = invert_registry(table, groups_by_subject, total_slots);
    let outv = convert_schedules(info, table, done, total_slots);
    proof {
        let studs = outv@;
        let n = done@.len() as int;
        // the subject table never repeats a name
        assert forall|a: int, b: int|
            0 <= a < table@.len() && 0 <= b < table@.len() && a != b implies (#[trigger] table@[a])@
            != (#[trigger] table@[b])@ by {
            if b < a {
                assert(table@[b]@ != table@[a]@);
            }
        }
        // occupied entries per student = requested subjects
        assert forall|i: int| 0 <= i < studs.len() implies count_some((#[trigger] studs[i]).slots@)
            == info.students@[i].subjects@.len() by {
            assert forall|t: int|
                0 <= t < studs[i].slots@.len() implies ((#[trigger] studs[i].slots@[t]) is Some
                <==> (#[trigger] rr[i][t]) is Some) by {
                assert(rr[i][t] == done@[i]@[t]);
            }
            lemma_count_some_pointwise(studs[i].slots@, rr[i]);
        }
        // every occupied entry holds a requested subject
        assert forall|i: int, t: int|
            0 <= i < studs.len() && 0 <= t < studs[i].slots@.len() && (
            #[trigger] studs[i].slots@[t]) is Some implies exists|k: int|
            0 <= k < info.students@[i].subjects@.len() && (
            #[trigger] info.students@[i].subjects@[k])@ == studs[i].slots@[t].unwrap().0@ by {
            assert(rr[i][t] == done@[i]@[t]);
            assert(rr[i][t] is Some);
            let e = rr[i][t].unwrap();
            assert(row_matches(rr[i], idsg[i]));
            let k = choose|k: int| 0 <= k < idsg[i].len() && idsg[i][k] == e.0;
            assert(table@[(idsg[i][k]) as int]@ == info.students@[i].subjects@[k]@);
            assert(studs[i].slots@[t].unwrap().0@ == table@[e.0 as int]@);
            assert((#[trigger] info.students@[i].subjects@[k])@ == studs[i].slots@[t].unwrap().0@);
        }
        // every requested subject occupies some slot
        assert forall|i: int, k: int|
            0 <= i < studs.len() && 0 <= k < info.students@[i].subjects@.len() implies subject_listed(
            studs[i].slots@,
            (#[trigger] info.students@[i].subjects@[k])@,
        ) by {
            assert(row_matches(rr[i], idsg[i]));
            assert(subject_present(rr[i], idsg[i][k]));
            let t = choose|t: int|
                0 <= t < rr[i].len() && (#[trigger] rr[i][t]) is Some && rr[i][t].unwrap().0
                    == idsg[i][k];
            assert(rr[i][t] == done@[i]@[t]);
            assert(studs[i].slots@[t] is Some);
            assert(studs[i].slots@[t].unwrap().0@ == table@[(idsg[i][k]) as int]@);
            assert(table@[(idsg[i][k]) as int]@ == info.students@[i].subjects@[k]@);
        }
        // a student holds at most one slot per subject
        assert forall|i: int, t1: int, t2: int|
            0 <= i < studs.len() && 0 <= t1 < studs[i].slots@.len() && 0 <= t2
                < studs[i].slots@.len() && (#[trigger] studs[i].slots@[t1]) is Some && (
            #[trigger] studs[i].slots@[t2]) is Some && studs[i].slots@[t1].unwrap().0@
            == studs[i].slots@[t2].unwrap().0@ implies t1 == t2 by {
            assert(rr[i][t1] == done@[i]@[t1] && rr[i][t2] == done@[i]@[t2]);
            let e1 = rr[i][t1].unwrap();
            let e2 = rr[i][t2].unwrap();
            assert(studs[i].slots@[t1].unwrap().0@ == table@[e1.0 as int]@);
            assert(studs[i].slots@[t2].unwrap().0@ == table@[e2.0 as int]@);
            assert(e1.0 == e2.0);
            assert(row_matches(rr[i], idsg[i]));
        }
        // the same group never sits at two slots
        assert forall|i: int, j: int, t: int, u: int|
            0 <= i < studs.len() && 0 <= j < studs.len() && 0 <= t < studs[i].slots@.len() && 0 <= u
                < studs[j].slots@.len() && (#[trigger] studs[i].slots@[t]) is Some && (
            #[trigger] studs[j].slots@[u]) is Some && studs[i].slots@[t].unwrap().0@
            == studs[j].slots@[u].unwrap().0@ && studs[i].slots@[t].unwrap().1
            == studs[j].slots@[u].unwrap().1 implies t == u by {
            assert(rr[i][t] == done@[i]@[t] && rr[j][u] == done@[j]@[u]);
            let e1 = rr[i][t].unwrap();
            let e2 = rr[j][u].unwrap();
            assert(studs[i].slots@[t].unwrap().0@ == table@[e1.0 as int]@);
            assert(studs[j].slots@[u].unwrap().0@ == table@[e2.0 as int]@);
            assert(e1.0 == e2.0);
            assert(e1.1 == e2.1);
            assert(entry_ok(e1, t, i, groups_by_subject@));
            assert(entry_ok(e2, u, j, groups_by_subject@));
        }
        // a slot's global list is exactly what the schedules show there
        assert forall|t: int, k: int|
            0 <= t < sbv@.len() && 0 <= k < sbv@[t]@.len() implies some_student_has(
            studs,
            t,
            (#[trigger] sbv@[t]@[k])@,
        ) by {
            assert(group_at(
                groups_by_subject@,
                table@,
                t,
                sbv@[t]@[k]@,
                groups_by_subject@.len() as int,
                0,
            ));
            let (s2, g2) = choose|s2: int, g2: int|
                ((0 <= s2 < groups_by_subject@.len() && 0 <= g2 < groups_by_subject@[s2]@.len()) || (
                s2 == groups_by_subject@.len() as int && 0 <= g2 < 0)) && ((
                #[trigger] groups_by_subject@[s2]@[g2]).slot as int) == t && table@[s2]@
                    == sbv@[t]@[k]@;
            assert(crate::model::group_wf(groups_by_subject@[s2]@[g2], n, ts));
            let m = groups_by_subject@[s2]@[g2].student_idxs@[0];
            assert(member_entry_ok(s2, g2, m, groups_by_subject@, rr));
            assert(rr[m as int][t] is Some && rr[m as int][t].unwrap().0 == s2
                && rr[m as int][t].unwrap().1 == g2);
            assert(rr[m as int][t] == done@[m as int]@[t]);
            assert(studs[m as int].slots@[t] is Some);
            assert(studs[m as int].slots@[t].unwrap().0@ == table@[s2]@);
        }
        assert forall|i: int, t: int|
            0 <= i < studs.len() && 0 <= t < studs[i].slots@.len() && (
            #[trigger] studs[i].slots@[t]) is Some implies exists|k: int|
            0 <= k < sbv@[t]@.len() && (#[trigger] sbv@[t]@[k])@ == studs[i].slots@[t].unwrap().0@ by {
            assert(rr[i][t] == done@[i]@[t]);
            let e = rr[i][t].unwrap();
            assert(entry_ok(e, t, i, groups_by_subject@));
            assert(groups_by_subject@[e.0 as int]@[e.1 as int].slot == t);
            assert(listed(sbv@, t, table@[e.0 as int]@));
            let k2 = choose|k2: int|
                0 <= k2 < sbv@[t]@.len() && (#[trigger] sbv@[t]@[k2])@ == table@[e.0 as int]@;
            assert(sbv@[t]@[k2]@ == studs[i].slots@[t].unwrap().0@);
        }
        // the cap: an entry's group index is below its subject's group
        // count, which never exceeds max_groups
        assert forall|i: int, t: int|
            0 <= i < studs.len() && 0 <= t < studs[i].slots@.len() && (
            #[trigger] studs[i].slots@[t]) is Some implies (studs[i].slots@[t].unwrap().1 as int)
            < info.max_groups as int by {
            assert(rr[i][t] == done@[i]@[t]);
            let e = rr[i][t].unwrap();
            assert(entry_ok(e, t, i, groups_by_subject@));
            assert(studs[i].slots@[t].unwrap().1 == e.1);
        }
        // one slot, one group per subject
        assert forall|i: int, j: int, t: int|
            0 <= i < studs.len() && 0 <= j < studs.len() && 0 <= t < studs[i].slots@.len() && t
                < studs[j].slots@.len() && (#[trigger] studs[i].slots@[t]) is Some && (
            #[trigger] studs[j].slots@[t]) is Some && studs[i].slots@[t].unwrap().0@
            == studs[j].slots@[t].unwrap().0@ implies studs[i].slots@[t].unwrap().1
            == studs[j].slots@[t].unwrap().1 by {
            assert(rr[i][t] == done@[i]@[t] && rr[j][t] == done@[j]@[t]);
            let e1 = rr[i][t].unwrap();
            let e2 = rr[j][t].unwrap();
            assert(studs[i].slots@[t].unwrap().0@ == table@[e1.0 as int]@);
            assert(studs[j].slots@[t].unwrap().0@ == table@[e2.0 as int]@);
            assert(e1.0 == e2.0);
            assert(entry_ok(e1, t, i, groups_by_subject@));
            assert(entry_ok(e2, t, j, groups_by_subject@));
            assert(e1.1 == e2.1) by {
                if e1.1 != e2.1 {
                    assert(((groups_by_subject@[e1.0 as int]@[e1.1 as int]).slot as int) != ((
                    groups_by_subject@[e1.0 as int]@[e2.1 as int]).slot as int));
                }
            }
            assert(studs[i].slots@[t].unwrap().1 == e1.1);
            assert(studs[j].slots@[t].unwrap().1 == e2.1);
        }
        assert(solved_ok(*info, sbv, outv));
        assert forall|i: int, t: int|
            0 <= i < done@.len() && 0 <= t < ts implies (((#[trigger] outv@[i].slots@[t]) is Some
            <==> rr[i][t] is Some) && (outv@[i].slots@[t] is Some ==> outv@[i].slots@[t].unwrap().0@
            == table@[rr[i][t].unwrap().0 as int]@ && outv@[i].slots@[t].unwrap().1
            == rr[i][t].unwrap().1)) by {
            assert(rr[i][t] == done@[i]@[t]);
        }
    }
    TimetableResult::Solved { subjects: sbv, slots_by_student_id: outv }
}

/// Checks the engine's precondition on a given input: positive
/// capacities, a non-empty roster, unique student identifiers, and
/// subject lists that are duplicate-free and fit into the week.
pub fn timetable_info_valid(info: &TimetableInfo) -> (r: bool)
    ensures
        r == info_wf(*info),
{
    if info.max_groups < 1 || info.daily_lesson_capacity < 1 {
        proof {
            assert(!info_wf(*info));
        }
        return false;
    }
    if info.students.len() < 1 {
        proof {
            assert(!info_wf(*info));
        }
        return false;
    }
    let ts: usize = (info.daily_lesson_capacity as usize) * 5;
    let mut i: usize = 0;
    while i < info.students.len()
        invariant
            i <= info.students@.len(),
            info.max_groups >= 1,
            info.daily_lesson_capacity >= 1,
            info.students@.len() >= 1,
            ts as int == crate::model::total_slots_of(*info),
            forall|i2: int|
                0 <= i2 < i ==> crate::model::student_info_wf(
                    #[trigger] info.students@[i2],
                    ts as int,
                ),
            forall|i2: int, j2: int|
                0 <= i2 < j2 < i ==> (#[trigger] info.students@[i2]).id@ != (
                #[trigger] info.students@[j2]).id@,
        decreases info.students@.len() - i,
    {
        let si = &info.students[i];
        if si.subjects.len() > ts {
            proof {
                if info_wf(*info) {
                    assert(crate::model::student_info_wf(
                        #[trigger] info.students@[i as int],
                        ts as int,
                    ));
                }
            }
            return false;
        }
        let mut k1: usize = 0;
        while k1 < si.subjects.len()
            invariant
                i < info.students@.len(),
                ts as int == crate::model::total_slots_of(*info),
                k1 <= si.subjects@.len(),
                si == info.students@[i as int],
                forall|a: int, b: int|
                    0 <= a < b < k1 ==> (#[trigger] si.subjects@[a])@ != (#[trigger] si.subjects@[b])@,
                forall|a: int, b: int|
                    0 <= a < k1 && a < b < si.subjects@.len() ==> (#[trigger] si.subjects@[a])@ != (
                    #[trigger] si.subjects@[b])@,
            decreases si.subjects@.len() - k1,
        {
            let mut k2: usize = k1 + 1;
            while k2 < si.subjects.len()
                invariant
                    i < info.students@.len(),
                    ts as int == crate::model::total_slots_of(*info),
                    k1 < k2 <= si.subjects@.len() || k2 == k1 + 1,
                    k1 < si.subjects@.len(),
                    si == info.students@[i as int],
                    forall|b: int|
                        (k1 as int) < b < k2 ==> (#[trigger] si.subjects@[b])@ != si.subjects@[k1 as int]@,
                decreases si.subjects@.len() - k2,
            {
                if si.subjects[k1].eq(&si.subjects[k2]) {
                    proof {
                        if info_wf(*info) {
                            assert(crate::model::student_info_wf(
                                #[trigger] info.students@[i as int],
                                ts as int,
                            ));
                            assert((#[trigger] info.students@[i as int].subjects@[k1 as int])@ != (
                            #[trigger] info.students@[i as int].subjects@[k2 as int])@);
                        }
                    }
                    return false;
                }
                k2 = k2 + 1;
            }
            k1 = k1 + 1;
        }
        let mut j: usize = 0;
        while j < i
            invariant
                j <= i,
                i < info.students@.len(),
                ts as int == crate::model::total_slots_of(*info),
                si == info.students@[i as int],
                forall|j2: int|
                    0 <= j2 < j ==> (#[trigger] info.students@[j2]).id@ != info.students@[i as int].id@,
            decreases i - j,
        {
            if info.students[j].id.eq(&si.id) {
                proof {
                    if info_wf(*info) {
                        assert((#[trigger] info.students@[j as int]).id@ != (
                        #[trigger] info.students@[i as int]).id@);
                    }
                }
                return false;
            }
            j = j + 1;
        }
        i = i + 1;
    }
    proof {
        assert(info_wf(*info));
    }
    true
}

} // verus!
