//! The working parts of one solve call: the personal slot assigner, the
//! lazy group reuse, the displacement (relocation) of a group to a new
//! slot, and the folding of one finished schedule into the group registry.

use vstd::prelude::*;
use vstd::std_specs::vec::vec_index_mut;

use crate::model::Group;
use crate::model::count_some;
use crate::model::entries_ok;
use crate::model::entry_ok;
use crate::model::group_wf;
use crate::model::groups_wf;
use crate::model::idx_in;
use crate::model::lemma_count_some_none;
use crate::model::lemma_count_some_update;
use crate::model::lemma_row_matches_relocate;
use crate::model::mask_row;
use crate::model::member_entry_ok;
use crate::model::members_ok;
use crate::model::no_group_at;
use crate::model::slots_distinct;
use crate::model::pers_entry_ok;
use crate::model::pers_ok;
use crate::model::row_matches;
use crate::model::rows_match;
use crate::model::rows_view;
use crate::model::state_ok;

verus! {

/// A personal slot array with every entry free.
pub fn empty_row(n: usize) -> (r: Vec<Option<(usize, usize)>>)
    ensures
        r@.len() == n,
        forall|t: int| 0 <= t < n ==> (#[trigger] r@[t]) is None,
        count_some(r@) == 0,
{
    let mut r: Vec<Option<(usize, usize)>> = Vec::new();
    while r.len() < n
        invariant
            r@.len() <= n,
            forall|t: int| 0 <= t < r@.len() ==> (#[trigger] r@[t]) is None,
        decreases n - r@.len(),
    {
        r.push(None);
    }
    proof {
        lemma_count_some_none(r@);
    }
    r
}

/// Which group the lazy scan picks: the first group of the subject whose
/// slot is still free in the student's personal array.
pub open spec fn lazy_pick(ps: Seq<Option<(usize, usize)>>, row: Seq<Group>, g: int) -> bool {
    &&& 0 <= g < row.len()
    &&& ps[row[g].slot as int] is None
    &&& forall|g2: int| 0 <= g2 < g ==> ps[(#[trigger] row[g2]).slot as int] is Some
}

/// Scans the subject's existing groups in creation order and occupies the
/// first one whose slot is free in the student's personal array.
pub fn try_assign_group_lazily(
    groups_by_subject: &Vec<Vec<Group>>,
    personal_slots: &mut Vec<Option<(usize, usize)>>,
    subject: usize,
) -> (assigned: bool)
    requires
        (subject as int) < groups_by_subject@.len(),
        forall|g: int|
            0 <= g < groups_by_subject@[subject as int]@.len() ==> ((
            #[trigger] groups_by_subject@[subject as int]@[g]).slot as int) < old(
                personal_slots,
            )@.len(),
    ensures
        final(personal_slots)@.len() == old(personal_slots)@.len(),
        !assigned ==> final(personal_slots)@ == old(personal_slots)@ && forall|g: int|
            0 <= g < groups_by_subject@[subject as int]@.len() ==> old(personal_slots)@[(
            #[trigger] groups_by_subject@[subject as int]@[g]).slot as int] is Some,
        assigned ==> exists|g: usize|
            lazy_pick(old(personal_slots)@, groups_by_subject@[subject as int]@, g as int)
                && final(personal_slots)@ == old(personal_slots)@.update(
                groups_by_subject@[subject as int]@[g as int].slot as int,
                Some((subject, g)),
            ),
{
    let row = &groups_by_subject[subject];
    let mut g: usize = 0;
    while g < row.len()
        invariant
            row == groups_by_subject@[subject as int],
            g <= row@.len(),
            personal_slots@ == old(personal_slots)@,
            forall|g2: int|
                0 <= g2 < g ==> personal_slots@[(#[trigger] row@[g2]).slot as int] is Some,
            forall|g2: int| 0 <= g2 < row@.len() ==> ((#[trigger] row@[g2]).slot as int)
                < personal_slots@.len(),
        decreases row@.len() - g,
    {
        let slot = row[g].slot;
        if personal_slots[slot].is_none() {
            personal_slots.set(slot, Some((subject, g)));
            proof {
                assert(lazy_pick(old(personal_slots)@, groups_by_subject@[subject as int]@, g as int));
                assert(personal_slots@ == old(personal_slots)@.update(
                    groups_by_subject@[subject as int]@[g as int].slot as int,
                    Some((subject, g)),
                ));
            }
            return true;
        }
        g = g + 1;
    }
    false
}

/// Position of the first free entry of the personal array, if any.
pub fn first_free_slot(personal_slots: &Vec<Option<(usize, usize)>>) -> (r: Option<usize>)
    ensures
        r matches Some(t) ==> (t as int) < personal_slots@.len() && personal_slots@[t as int] is None
            && forall|u: int| 0 <= u < t ==> (#[trigger] personal_slots@[u]) is Some,
        r is None ==> forall|u: int|
            0 <= u < personal_slots@.len() ==> (#[trigger] personal_slots@[u]) is Some,
{
    let mut t: usize = 0;
    while t < personal_slots.len()
        invariant
            t <= personal_slots@.len(),
            forall|u: int| 0 <= u < t ==> (#[trigger] personal_slots@[u]) is Some,
        decreases personal_slots@.len() - t,
    {
        if personal_slots[t].is_none() {
            return Some(t);
        }
        t = t + 1;
    }
    None
}

/// Position of the first free entry strictly after `probe`, if any.
pub fn next_free_after(personal_slots: &Vec<Option<(usize, usize)>>, probe: usize) -> (r: Option<
    usize,
>)
    requires
        (probe as int) < personal_slots@.len(),
    ensures
        r matches Some(t) ==> probe < t && (t as int) < personal_slots@.len()
            && personal_slots@[t as int] is None && forall|u: int|
            probe < u < t ==> (#[trigger] personal_slots@[u]) is Some,
        r is None ==> forall|u: int|
            probe < u < personal_slots@.len() ==> (#[trigger] personal_slots@[u]) is Some,
{
    let n = personal_slots.len();
    let mut t: usize = probe + 1;
    while t < n
        invariant
            n == personal_slots@.len(),
            probe < t,
            t <= personal_slots@.len(),
            forall|u: int| probe < u < t ==> (#[trigger] personal_slots@[u]) is Some,
        decreases personal_slots@.len() - t,
    {
        if personal_slots[t].is_none() {
            return Some(t);
        }
        t = t + 1;
    }
    None
}

/// The slot where the student's personal array holds the given subject.
pub fn find_subject_slot(personal_slots: &Vec<Option<(usize, usize)>>, subject: usize) -> (t: usize)
    requires
        exists|u: int|
            0 <= u < personal_slots@.len() && (#[trigger] personal_slots@[u]) is Some
                && personal_slots@[u].unwrap().0 == subject,
    ensures
        (t as int) < personal_slots@.len(),
        personal_slots@[t as int] is Some,
        personal_slots@[t as int].unwrap().0 == subject,
{
    let mut t: usize = 0;
    while t < personal_slots.len()
        invariant
            t <= personal_slots@.len(),
            exists|u: int|
                0 <= u < personal_slots@.len() && (#[trigger] personal_slots@[u]) is Some
                    && personal_slots@[u].unwrap().0 == subject,
            forall|u: int|
                0 <= u < t ==> !((#[trigger] personal_slots@[u]) is Some
                    && personal_slots@[u].unwrap().0 == subject),
        decreases personal_slots@.len() - t,
    {
        match personal_slots[t] {
            Some(e) => {
                if e.0 == subject {
                    return t;
                }
            },
            None => {},
        }
        t = t + 1;
    }
    proof {
        assert(false);
    }
    0
}

/// A plain copy of a member list.
pub fn copy_usizes(v: &Vec<usize>) -> (r: Vec<usize>)
    ensures
        r@ == v@,
{
    let mut r: Vec<usize> = Vec::new();
    let mut k: usize = 0;
    while k < v.len()
        invariant
            k <= v@.len(),
            r@ == v@.subrange(0, k as int),
        decreases v@.len() - k,
    {
        r.push(v[k]);
        proof {
            assert(r@ =~= v@.subrange(0, k as int + 1));
        }
        k = k + 1;
    }
    proof {
        assert(r@ =~= v@);
    }
    r
}

/// True when no group of subject `s`, apart from index `skip`, sits at
/// slot `t`.
fn no_other_group_at(groups_by_subject: &Vec<Vec<Group>>, s: usize, t: usize, skip: usize) -> (r:
    bool)
    requires
        (s as int) < groups_by_subject@.len(),
    ensures
        r == forall|g: int|
            0 <= g < groups_by_subject@[s as int]@.len() && g != skip as int ==> ((
            #[trigger] groups_by_subject@[s as int]@[g]).slot as int) != t as int,
{
    let row = &groups_by_subject[s];
    let mut g: usize = 0;
    while g < row.len()
        invariant
            g <= row@.len(),
            row == groups_by_subject@[s as int],
            forall|g2: int|
                0 <= g2 < g && g2 != skip as int ==> ((#[trigger] row@[g2]).slot as int) != t as int,
        decreases row@.len() - g,
    {
        if g != skip && row[g].slot == t {
            return false;
        }
        g = g + 1;
    }
    true
}

/// The group of subject `s` assigned to slot `t`, if one exists.
pub fn find_group_at(groups_by_subject: &Vec<Vec<Group>>, s: usize, t: usize) -> (r: Option<usize>)
    requires
        (s as int) < groups_by_subject@.len(),
    ensures
        r matches Some(g) ==> (g as int) < groups_by_subject@[s as int]@.len()
            && groups_by_subject@[s as int]@[g as int].slot == t,
        r is None ==> no_group_at(groups_by_subject@, s as int, t as int),
{
    let row = &groups_by_subject[s];
    let mut g: usize = 0;
    while g < row.len()
        invariant
            g <= row@.len(),
            row == groups_by_subject@[s as int],
            forall|g2: int| 0 <= g2 < g ==> ((#[trigger] row@[g2]).slot as int) != t as int,
        decreases row@.len() - g,
    {
        if row[g].slot == t {
            return Some(g);
        }
        g = g + 1;
    }
    None
}

/// When a candidate may be displaced to `probe` while the given subject
/// is being placed.  An existing group may move when every member has
/// `probe` free, no other group of its subject sits at `probe`, and --
/// unless it is a group of the subject being placed itself -- a group of
/// that subject stands at the slot it vacates, ready for the student to
/// join there.  An announced fresh group may move to `probe` when no
/// group of its subject sits there and the subject being placed has a
/// group at the slot it vacates.
pub open spec fn acceptable(
    c: (usize, usize),
    groups: Seq<Vec<Group>>,
    rows: Seq<Seq<Option<(usize, usize)>>>,
    probe: int,
    sj: usize,
    ps: Seq<Option<(usize, usize)>>,
) -> bool {
    if (c.1 as int) < groups[c.0 as int]@.len() {
        &&& forall|k: int|
            0 <= k < groups[c.0 as int]@[c.1 as int].student_idxs@.len()
                ==> rows[(#[trigger] groups[c.0 as int]@[c.1 as int].student_idxs@[k]) as int][probe] is None
        &&& forall|g2: int|
            0 <= g2 < groups[c.0 as int]@.len() && g2 != c.1 as int ==> ((
            #[trigger] groups[c.0 as int]@[g2]).slot as int) != probe
        &&& (c.0 != sj ==> !no_group_at(
            groups,
            sj as int,
            groups[c.0 as int]@[c.1 as int].slot as int,
        ))
    } else {
        &&& no_group_at(groups, c.0 as int, probe)
        &&& forall|t0: int|
            0 <= t0 < ps.len() && (#[trigger] ps[t0]) == Some(c) ==> !no_group_at(
                groups,
                sj as int,
                t0,
            )
    }
}

/// True when every member of the given list has `probe` free.
fn members_free(
    done: &Vec<Vec<Option<(usize, usize)>>>,
    members: &Vec<usize>,
    probe: usize,
) -> (r: bool)
    requires
        forall|k: int| 0 <= k < members@.len() ==> (#[trigger] members@[k] as int) < done@.len(),
        forall|k: int|
            0 <= k < members@.len() ==> (probe as int) < done@[#[trigger] members@[k] as int]@.len(),
    ensures
        r == forall|k: int|
            0 <= k < members@.len() ==> (#[trigger] done@[members@[k] as int]@[probe as int]) is None,
{
    let mut k: usize = 0;
    while k < members.len()
        invariant
            k <= members@.len(),
            forall|k2: int| 0 <= k2 < members@.len() ==> (#[trigger] members@[k2] as int) < done@.len(),
            forall|k2: int|
                0 <= k2 < members@.len() ==> (probe as int) < done@[#[trigger] members@[k2] as int]@.len(),
            forall|k2: int|
                0 <= k2 < k ==> (#[trigger] done@[members@[k2] as int]@[probe as int]) is None,
        decreases members@.len() - k,
    {
        let m = members[k];
        if done[m][probe].is_some() {
            return false;
        }
        k = k + 1;
    }
    true
}

/// Whether one candidate may be displaced to `probe`.
fn candidate_ok(
    c: (usize, usize),
    groups_by_subject: &Vec<Vec<Group>>,
    done: &Vec<Vec<Option<(usize, usize)>>>,
    probe: usize,
    sj: usize,
    personal_slots: &Vec<Option<(usize, usize)>>,
    Ghost(ts): Ghost<int>,
) -> (r: bool)
    requires
        (c.0 as int) < groups_by_subject@.len(),
        (sj as int) < groups_by_subject@.len(),
        groups_wf(groups_by_subject@, rows_view(done@).len() as int, ts),
        forall|i: int| 0 <= i < done@.len() ==> (#[trigger] done@[i]@).len() == ts,
        (probe as int) < ts,
        (c.1 as int) >= groups_by_subject@[c.0 as int]@.len() ==> exists|t0: int|
            0 <= t0 < personal_slots@.len() && (#[trigger] personal_slots@[t0]) == Some(c),
        forall|t1: int, t2: int|
            0 <= t1 < personal_slots@.len() && 0 <= t2 < personal_slots@.len() && (
            #[trigger] personal_slots@[t1]) is Some && (#[trigger] personal_slots@[t2]) is Some
                && personal_slots@[t1].unwrap().0 == personal_slots@[t2].unwrap().0 ==> t1 == t2,
    ensures
        r == acceptable(
            c,
            groups_by_subject@,
            rows_view(done@),
            probe as int,
            sj,
            personal_slots@,
        ),
{
    let row_len = {
        let row: &Vec<Group> = &groups_by_subject[c.0];
        row.len()
    };
    if c.1 < row_len {
        let free = {
            let row: &Vec<Group> = &groups_by_subject[c.0];
            members_free(done, &row[c.1].student_idxs, probe)
        };
        if !free {
            return false;
        }
        if !no_other_group_at(groups_by_subject, c.0, probe, c.1) {
            return false;
        }
        if c.0 != sj {
            let old_slot = {
                let row: &Vec<Group> = &groups_by_subject[c.0];
                row[c.1].slot
            };
            match find_group_at(groups_by_subject, sj, old_slot) {
                Some(_) => true,
                None => false,
            }
        } else {
            true
        }
    } else {
        let glen = {
            let row: &Vec<Group> = &groups_by_subject[c.0];
            row.len()
        };
        if !no_other_group_at(groups_by_subject, c.0, probe, glen) {
            return false;
        }
        let t0 = find_subject_slot(personal_slots, c.0);
        proof {
            let tw = choose|tw: int|
                0 <= tw < personal_slots@.len() && (#[trigger] personal_slots@[tw]) == Some(c);
            assert(tw == t0 as int);
            assert(personal_slots@[t0 as int] == Some(c));
        }
        let r = match find_group_at(groups_by_subject, sj, t0) {
            Some(_) => true,
            None => false,
        };
        proof {
            assert forall|t2: int|
                0 <= t2 < personal_slots@.len() && (#[trigger] personal_slots@[t2]) == Some(c) implies t2
                == t0 as int by {}
        }
        r
    }
}

/// Scans the sorted candidates in order and returns the first that may be
/// displaced to `probe`.
pub fn find_acceptable(
    candidates: &Vec<(usize, usize)>,
    groups_by_subject: &Vec<Vec<Group>>,
    done: &Vec<Vec<Option<(usize, usize)>>>,
    probe: usize,
    sj: usize,
    personal_slots: &Vec<Option<(usize, usize)>>,
    Ghost(ts): Ghost<int>,
) -> (r: Option<(usize, usize)>)
    requires
        forall|k: int|
            0 <= k < candidates@.len() ==> ((#[trigger] candidates@[k]).0 as int)
                < groups_by_subject@.len(),
        (sj as int) < groups_by_subject@.len(),
        groups_wf(groups_by_subject@, rows_view(done@).len() as int, ts),
        forall|i: int| 0 <= i < done@.len() ==> (#[trigger] done@[i]@).len() == ts,
        (probe as int) < ts,
        forall|k: int|
            0 <= k < candidates@.len() && ((#[trigger] candidates@[k]).1 as int)
                >= groups_by_subject@[candidates@[k].0 as int]@.len() ==> exists|t0: int|
                0 <= t0 < personal_slots@.len() && (#[trigger] personal_slots@[t0]) == Some(
                    candidates@[k],
                ),
        forall|t1: int, t2: int|
            0 <= t1 < personal_slots@.len() && 0 <= t2 < personal_slots@.len() && (
            #[trigger] personal_slots@[t1]) is Some && (#[trigger] personal_slots@[t2]) is Some
                && personal_slots@[t1].unwrap().0 == personal_slots@[t2].unwrap().0 ==> t1 == t2,
    ensures
        r matches Some(c) ==> exists|k: int|
            0 <= k < candidates@.len() && (#[trigger] candidates@[k]) == c && acceptable(
                c,
                groups_by_subject@,
                rows_view(done@),
                probe as int,
                sj,
                personal_slots@,
            ) && forall|k2: int|
                0 <= k2 < k ==> !acceptable(
                    #[trigger] candidates@[k2],
                    groups_by_subject@,
                    rows_view(done@),
                    probe as int,
                    sj,
                    personal_slots@,
                ),
        r is None ==> forall|k: int|
            0 <= k < candidates@.len() ==> !acceptable(
                #[trigger] candidates@[k],
                groups_by_subject@,
                rows_view(done@),
                probe as int,
                sj,
                personal_slots@,
            ),
{
    let mut k: usize = 0;
    while k < candidates.len()
        invariant
            k <= candidates@.len(),
            forall|k2: int|
                0 <= k2 < candidates@.len() ==> ((#[trigger] candidates@[k2]).0 as int)
                    < groups_by_subject@.len(),
            (sj as int) < groups_by_subject@.len(),
            groups_wf(groups_by_subject@, rows_view(done@).len() as int, ts),
            forall|i: int| 0 <= i < done@.len() ==> (#[trigger] done@[i]@).len() == ts,
            (probe as int) < ts,
            forall|k2: int|
                0 <= k2 < candidates@.len() && ((#[trigger] candidates@[k2]).1 as int)
                    >= groups_by_subject@[candidates@[k2].0 as int]@.len() ==> exists|t0: int|
                    0 <= t0 < personal_slots@.len() && (#[trigger] personal_slots@[t0]) == Some(
                        candidates@[k2],
                    ),
            forall|t1: int, t2: int|
                0 <= t1 < personal_slots@.len() && 0 <= t2 < personal_slots@.len() && (
                #[trigger] personal_slots@[t1]) is Some && (#[trigger] personal_slots@[t2]) is Some
                    && personal_slots@[t1].unwrap().0 == personal_slots@[t2].unwrap().0 ==> t1
                    == t2,
            forall|k2: int|
                0 <= k2 < k ==> !acceptable(
                    #[trigger] candidates@[k2],
                    groups_by_subject@,
                    rows_view(done@),
                    probe as int,
                    sj,
                    personal_slots@,
                ),
        decreases candidates@.len() - k,
    {
        let c = candidates[k];
        proof {
            assert(candidates@[k as int] == c);
        }
        let ok = candidate_ok(c, groups_by_subject, done, probe, sj, personal_slots, Ghost(ts));
        if ok {
            return Some(c);
        }
        k = k + 1;
    }
    None
}

/// Moves group `g` of subject `s` to `new_slot`: every member's schedule
/// entry for the group leaves the group's old slot and occupies `new_slot`,
/// and the registry records the new slot.  The caller must have checked
/// that `new_slot` is free for every member.
pub fn relocate_group(
    groups_by_subject: &mut Vec<Vec<Group>>,
    done: &mut Vec<Vec<Option<(usize, usize)>>>,
    s: usize,
    g: usize,
    new_slot: usize,
    Ghost(ids): Ghost<Seq<Seq<usize>>>,
    Ghost(ts): Ghost<int>,
)
    requires
        state_ok(old(groups_by_subject)@, rows_view(old(done)@), ts),
        rows_match(rows_view(old(done)@), ids),
        (s as int) < old(groups_by_subject)@.len(),
        (g as int) < old(groups_by_subject)@[s as int]@.len(),
        (new_slot as int) < ts,
        old(groups_by_subject)@[s as int]@[g as int].student_idxs@.len() >= 1,
        forall|k: int|
            0 <= k < old(groups_by_subject)@[s as int]@[g as int].student_idxs@.len() ==> rows_view(
                old(done)@,
            )[(#[trigger] old(groups_by_subject)@[s as int]@[g as int].student_idxs@[k]) as int][new_slot as int] is None,
        forall|g2: int|
            0 <= g2 < old(groups_by_subject)@[s as int]@.len() && g2 != g as int ==> ((
            #[trigger] old(groups_by_subject)@[s as int]@[g2]).slot as int) != new_slot as int,
    ensures
        final(groups_by_subject)@.len() == old(groups_by_subject)@.len(),
        forall|s2: int|
            0 <= s2 < old(groups_by_subject)@.len() ==> (#[trigger] final(groups_by_subject)@[s2])@.len()
                == old(groups_by_subject)@[s2]@.len(),
        forall|s2: int, g2: int|
            0 <= s2 < old(groups_by_subject)@.len() && 0 <= g2 < old(groups_by_subject)@[s2]@.len()
                && !(s2 == s as int && g2 == g as int) ==> (#[trigger] final(groups_by_subject)@[s2]@[g2])
                == old(groups_by_subject)@[s2]@[g2],
        final(groups_by_subject)@[s as int]@[g as int].slot == new_slot,
        final(groups_by_subject)@[s as int]@[g as int].student_idxs@ == old(groups_by_subject)@[s as int]@[g as int].student_idxs@,
        final(done)@.len() == old(done)@.len(),
        state_ok(final(groups_by_subject)@, rows_view(final(done)@), ts),
        rows_match(rows_view(final(done)@), ids),
        forall|i: int|
            0 <= i < old(done)@.len() ==> count_some(#[trigger] rows_view(final(done)@)[i])
                == count_some(rows_view(old(done)@)[i]),
        forall|i: int, t: int|
            0 <= i < old(done)@.len() && 0 <= t < ts && (#[trigger] rows_view(old(done)@)[i][t])
                is None && !(t == new_slot && idx_in(
                old(groups_by_subject)@[s as int]@[g as int].student_idxs@,
                i,
            )) ==> (#[trigger] rows_view(final(done)@)[i][t]) is None,
{
    let ghost groups0 = old(groups_by_subject)@;
    let ghost rows0 = rows_view(old(done)@);
    let old_slot: usize = groups_by_subject[s][g].slot;
    let members: Vec<usize> = copy_usizes(&groups_by_subject[s][g].student_idxs);
    proof {
        assert(members@ == groups0[s as int]@[g as int].student_idxs@);
        assert(member_entry_ok(s as int, g as int, members@[0], groups0, rows0));
        assert(rows0[members@[0] as int][old_slot as int] == Some((s, g)));
        assert(rows0[members@[0] as int][new_slot as int] is None);
        assert(old_slot != new_slot);
        assert(group_wf(groups0[s as int]@[g as int], rows0.len() as int, ts));
    }
    // record the new slot in the registry
    {
        let grow = vec_index_mut(groups_by_subject, s);
        let gref = vec_index_mut(grow, g);
        gref.slot = new_slot;
    }
    let ghost groups1 = groups_by_subject@;
    proof {
        assert(groups1[s as int]@ =~= groups0[s as int]@.update(
            g as int,
            Group { slot: new_slot, student_idxs: groups0[s as int]@[g as int].student_idxs },
        ));
        assert(groups1 =~= groups0.update(s as int, groups1[s as int]));
        assert(groups1[s as int]@[g as int].slot == new_slot);
        assert(groups1[s as int]@[g as int].student_idxs@ == members@);
        assert(forall|s2: int, g2: int|
            0 <= s2 < groups0.len() && 0 <= g2 < groups0[s2]@.len() && !(s2 == s as int && g2
                == g as int) ==> (#[trigger] groups1[s2]@[g2]) == groups0[s2]@[g2]);
    }
    // move every member's entry from the old slot to the new one
    let mut k: usize = 0;
    while k < members.len()
        invariant
            k <= members@.len(),
            groups_by_subject@ == groups1,
            members@ == groups0[s as int]@[g as int].student_idxs@,
            state_ok(groups0, rows0, ts),
            rows_match(rows0, ids),
            members@.no_duplicates(),
            forall|q: int| 0 <= q < members@.len() ==> (#[trigger] members@[q] as int) < rows0.len(),
            forall|q: int|
                0 <= q < members@.len() ==> rows0[(#[trigger] members@[q]) as int][old_slot as int]
                    == Some((s, g)),
            forall|q: int|
                0 <= q < members@.len() ==> rows0[(#[trigger] members@[q]) as int][new_slot as int] is None,
            (old_slot as int) < ts,
            (new_slot as int) < ts,
            old_slot != new_slot,
            done@.len() == rows0.len(),
            forall|i: int|
                0 <= i < rows0.len() && !(exists|q: int| 0 <= q < k && members@[q] == i) ==> (
                #[trigger] done@[i])@ == rows0[i],
            forall|q: int|
                0 <= q < k ==> (#[trigger] done@[members@[q] as int])@ == rows0[members@[q] as int].update(
                    old_slot as int,
                    None::<(usize, usize)>,
                ).update(new_slot as int, Some((s, g))),
        decreases members@.len() - k,
    {
        let m = members[k];
        proof {
            assert(!(exists|q: int| 0 <= q < k && members@[q] == m as int)) by {
                if exists|q: int| 0 <= q < k && members@[q] == m as int {
                    let q = choose|q: int| 0 <= q < k && members@[q] == m as int;
                    assert(members@[q] == members@[k as int]);
                }
            }
            assert(done@[m as int]@ == rows0[m as int]);
        }
        let row = vec_index_mut(done, m);
        row.set(old_slot, None);
        row.set(new_slot, Some((s, g)));
        proof {
            assert(done@[m as int]@ == rows0[m as int].update(old_slot as int, None::<(usize, usize)>).update(
                new_slot as int,
                Some((s, g)),
            ));
            assert forall|i: int|
                0 <= i < rows0.len() && !(exists|q: int| 0 <= q < k + 1 && members@[q] == i) implies (
            #[trigger] done@[i])@ == rows0[i] by {
                assert(i != m as int);
            }
        }
        k = k + 1;
    }
    proof {
        let rows1 = rows_view(done@);
        assert(rows1.len() == rows0.len());
        let mem = members@;
        // the two shapes a final row takes
        assert forall|i: int| 0 <= i < rows0.len() && idx_in(mem, i) implies #[trigger] rows1[i]
            == rows0[i].update(old_slot as int, None::<(usize, usize)>).update(
            new_slot as int,
            Some((s, g)),
        ) by {
            let q = choose|q: int| 0 <= q < mem.len() && (#[trigger] mem[q]) == i;
            assert(done@[mem[q] as int]@ == rows0[mem[q] as int].update(
                old_slot as int,
                None::<(usize, usize)>,
            ).update(new_slot as int, Some((s, g))));
        }
        assert forall|i: int| 0 <= i < rows0.len() && !idx_in(mem, i) implies #[trigger] rows1[i]
            == rows0[i] by {
            assert(!(exists|q: int| 0 <= q < members@.len() && members@[q] == i));
            assert(done@[i]@ == rows0[i]);
        }
        assert forall|i: int| 0 <= i < rows0.len() implies (#[trigger] rows1[i]).len() == ts by {
            if idx_in(mem, i) {
            } else {
            }
        }
        lemma_relocate_state(groups0, groups1, rows0, rows1, s, g, old_slot, new_slot, ids, ts);
        assert forall|i: int| 0 <= i < rows0.len() implies count_some(#[trigger] rows1[i])
            == count_some(rows0[i]) by {
            if idx_in(mem, i) {
                lemma_count_some_update(rows0[i], old_slot as int, None::<(usize, usize)>);
                lemma_count_some_update(
                    rows0[i].update(old_slot as int, None::<(usize, usize)>),
                    new_slot as int,
                    Some((s, g)),
                );
                let q = choose|q: int| 0 <= q < mem.len() && (#[trigger] mem[q]) == i;
                assert(rows0[mem[q] as int][old_slot as int] is Some);
            }
        }
        assert forall|i: int, t: int|
            0 <= i < rows0.len() && 0 <= t < ts && (#[trigger] rows0[i][t]) is None && !(t
                == new_slot as int && idx_in(mem, i)) implies (#[trigger] rows1[i][t]) is None by {
            if idx_in(mem, i) {
                assert(rows1[i][t] == rows0[i].update(old_slot as int, None::<(usize, usize)>).update(
                    new_slot as int,
                    Some((s, g)),
                )[t]);
            }
        }
    }
}

/// The whole-state part of the relocation proof: after one group moves to
/// a slot free for all its members, the registry and the schedules agree
/// again.
proof fn lemma_relocate_state(
    groups0: Seq<Vec<Group>>,
    groups1: Seq<Vec<Group>>,
    rows0: Seq<Seq<Option<(usize, usize)>>>,
    rows1: Seq<Seq<Option<(usize, usize)>>>,
    s: usize,
    g: usize,
    old_slot: usize,
    new_slot: usize,
    ids: Seq<Seq<usize>>,
    ts: int,
)
    requires
        state_ok(groups0, rows0, ts),
        rows_match(rows0, ids),
        0 <= (s as int) < groups0.len(),
        0 <= (g as int) < groups0[s as int]@.len(),
        (new_slot as int) < ts,
        old_slot == groups0[s as int]@[g as int].slot,
        old_slot != new_slot,
        groups1.len() == groups0.len(),
        forall|s2: int|
            0 <= s2 < groups0.len() ==> (#[trigger] groups1[s2])@.len() == groups0[s2]@.len(),
        forall|s2: int, g2: int|
            0 <= s2 < groups0.len() && 0 <= g2 < groups0[s2]@.len() && !(s2 == s as int && g2
                == g as int) ==> (#[trigger] groups1[s2]@[g2]) == groups0[s2]@[g2],
        groups1[s as int]@[g as int].slot == new_slot,
        groups1[s as int]@[g as int].student_idxs@ == groups0[s as int]@[g as int].student_idxs@,
        forall|g2: int|
            0 <= g2 < groups0[s as int]@.len() && g2 != g as int ==> ((
            #[trigger] groups0[s as int]@[g2]).slot as int) != new_slot as int,
        rows1.len() == rows0.len(),
        forall|q: int|
            0 <= q < groups0[s as int]@[g as int].student_idxs@.len() ==> rows0[(
            #[trigger] groups0[s as int]@[g as int].student_idxs@[q]) as int][new_slot as int] is None,
        forall|i: int|
            0 <= i < rows0.len() && idx_in(groups0[s as int]@[g as int].student_idxs@, i)
                ==> #[trigger] rows1[i] == rows0[i].update(old_slot as int, None::<(usize, usize)>).update(
                new_slot as int,
                Some((s, g)),
            ),
        forall|i: int|
            0 <= i < rows0.len() && !idx_in(groups0[s as int]@[g as int].student_idxs@, i)
                ==> #[trigger] rows1[i] == rows0[i],
        forall|i: int| 0 <= i < rows1.len() ==> (#[trigger] rows1[i]).len() == ts,
    ensures
        state_ok(groups1, rows1, ts),
        rows_match(rows1, ids),
{
    let mem = groups0[s as int]@[g as int].student_idxs@;
    let si = s as int;
    let gi = g as int;
    assert forall|m: usize| mem.contains(m) implies idx_in(mem, m as int) by {
        let q = choose|q: int| 0 <= q < mem.len() && mem[q] == m;
        assert((#[trigger] mem[q]) == m as int);
    }
    assert(groups_wf(groups1, rows1.len() as int, ts)) by {
        assert forall|s2: int, g2: int|
            0 <= s2 < groups1.len() && 0 <= g2 < groups1[s2]@.len() implies group_wf(
            #[trigger] groups1[s2]@[g2],
            rows1.len() as int,
            ts,
        ) by {
            assert(group_wf(groups0[s2]@[g2], rows0.len() as int, ts));
            if s2 == si && g2 == gi {
                assert(groups1[s2]@[g2].student_idxs@ == groups0[s2]@[g2].student_idxs@);
            }
        }
    }
    assert(slots_distinct(groups1)) by {
        assert forall|s2: int, g1: int, g2: int|
            0 <= s2 < groups1.len() && 0 <= g1 < g2 < groups1[s2]@.len() implies ((
        #[trigger] groups1[s2]@[g1]).slot as int) != ((#[trigger] groups1[s2]@[g2]).slot as int) by {
            assert(((groups0[s2]@[g1]).slot as int) != ((groups0[s2]@[g2]).slot as int));
            if s2 == si && g1 == gi {
                assert(groups1[s2]@[g2] == groups0[s2]@[g2]);
            } else if s2 == si && g2 == gi {
                assert(groups1[s2]@[g1] == groups0[s2]@[g1]);
            } else {
                assert(groups1[s2]@[g1] == groups0[s2]@[g1]);
                assert(groups1[s2]@[g2] == groups0[s2]@[g2]);
            }
        }
    }
    // what a member's row holds at the old and the new slot
    assert forall|i: int| 0 <= i < rows0.len() && idx_in(mem, i) implies rows0[i][old_slot as int]
        == Some((s, g)) && (#[trigger] rows0[i][new_slot as int]) is None by {
        let q2 = choose|q2: int| 0 <= q2 < mem.len() && (#[trigger] mem[q2]) == i;
        assert(member_entry_ok(si, gi, groups0[si]@[gi].student_idxs@[q2], groups0, rows0));
        assert(rows0[(groups0[si]@[gi].student_idxs@[q2]) as int][new_slot as int] is None);
    }
    assert(entries_ok(groups1, rows1)) by {
        assert forall|i: int, t: int|
            0 <= i < rows1.len() && 0 <= t < rows1[i].len() && (#[trigger] rows1[i][t]) is Some implies entry_ok(
            rows1[i][t].unwrap(),
            t,
            i,
            groups1,
        ) by {
            if idx_in(mem, i) {
                if t == new_slot as int {
                    assert(rows1[i][t] == Some((s, g)));
                    assert(groups1[si]@[gi].slot == new_slot);
                } else if t == old_slot as int {
                    assert(rows1[i][t] is None);
                } else {
                    assert(rows1[i][t] == rows0[i][t]);
                    assert(entry_ok(rows0[i][t].unwrap(), t, i, groups0));
                    let e = rows0[i][t].unwrap();
                    if e.0 == s && e.1 == g {
                        assert(groups0[si]@[gi].slot == t);
                        assert(false);
                    } else {
                        assert(groups1[e.0 as int]@[e.1 as int] == groups0[e.0 as int]@[e.1 as int]);
                    }
                }
            } else {
                assert(rows1[i][t] == rows0[i][t]);
                assert(entry_ok(rows0[i][t].unwrap(), t, i, groups0));
                let e = rows0[i][t].unwrap();
                if e.0 == s && e.1 == g {
                    assert(idx_in(mem, i));
                    assert(false);
                } else {
                    assert(groups1[e.0 as int]@[e.1 as int] == groups0[e.0 as int]@[e.1 as int]);
                }
            }
        }
    }
    assert(members_ok(groups1, rows1)) by {
        assert forall|s2: int, g2: int, q: int|
            0 <= s2 < groups1.len() && 0 <= g2 < groups1[s2]@.len() && 0 <= q
                < groups1[s2]@[g2].student_idxs@.len() implies member_entry_ok(
            s2,
            g2,
            #[trigger] groups1[s2]@[g2].student_idxs@[q],
            groups1,
            rows1,
        ) by {
            let m = groups1[s2]@[g2].student_idxs@[q];
            if s2 == si && g2 == gi {
                assert(groups1[s2]@[g2].student_idxs@ == mem);
                assert(member_entry_ok(s2, g2, groups0[s2]@[g2].student_idxs@[q], groups0, rows0));
                assert(idx_in(mem, m as int)) by {
                    assert((#[trigger] mem[q]) == m as int);
                }
                assert(rows1[m as int] == rows0[m as int].update(
                    old_slot as int,
                    None::<(usize, usize)>,
                ).update(new_slot as int, Some((s, g))));
                assert(rows1[m as int][new_slot as int] == Some((s, g)));
            } else {
                assert(groups1[s2]@[g2] == groups0[s2]@[g2]);
                assert(member_entry_ok(s2, g2, groups0[s2]@[g2].student_idxs@[q], groups0, rows0));
                let slot2 = groups0[s2]@[g2].slot as int;
                assert(rows0[m as int][slot2] is Some);
                if idx_in(mem, m as int) {
                    assert(rows0[m as int][old_slot as int] == Some((s, g)));
                    assert(slot2 != old_slot as int) by {
                        if slot2 == old_slot as int {
                            assert(rows0[m as int][slot2].unwrap().0 == s2);
                            assert(rows0[m as int][slot2].unwrap().1 == g2);
                        }
                    }
                    assert(rows0[m as int][new_slot as int] is None);
                    assert(slot2 != new_slot as int);
                    assert(rows1[m as int] == rows0[m as int].update(
                        old_slot as int,
                        None::<(usize, usize)>,
                    ).update(new_slot as int, Some((s, g))));
                    assert(rows1[m as int][slot2] == rows0[m as int][slot2]);
                } else {
                    assert(rows1[m as int] == rows0[m as int]);
                }
            }
        }
    }
    assert(rows_match(rows1, ids)) by {
        assert forall|i: int| 0 <= i < rows1.len() implies row_matches(#[trigger] rows1[i], ids[i]) by {
            assert(row_matches(rows0[i], ids[i]));
            if idx_in(mem, i) {
                assert(rows0[i][old_slot as int] == Some((s, g)));
                assert(rows0[i][new_slot as int] is None);
                lemma_row_matches_relocate(rows0[i], ids[i], old_slot as int, new_slot as int, s, g);
            }
        }
    }
}

/// Folds one finished personal array into the registry: the student joins
/// each group their entries point at, and a fresh group (with this student
/// as first member) is created at the entry's slot where the entry
/// announced one.
pub fn make_global(
    groups_by_subject: &mut Vec<Vec<Group>>,
    personal_slots: &Vec<Option<(usize, usize)>>,
    student_idx: usize,
    Ghost(rows): Ghost<Seq<Seq<Option<(usize, usize)>>>>,
    Ghost(subs): Ghost<Seq<usize>>,
    Ghost(ts): Ghost<int>,
    Ghost(cap): Ghost<int>,
)
    requires
        state_ok(old(groups_by_subject)@, rows, ts),
        pers_ok(personal_slots@, old(groups_by_subject)@, subs, subs.len() as int, ts),
        student_idx as int == rows.len(),
        forall|s: int|
            0 <= s < old(groups_by_subject)@.len() ==> (#[trigger] old(groups_by_subject)@[s])@.len()
                <= cap,
        forall|t: int|
            0 <= t < personal_slots@.len() && (#[trigger] personal_slots@[t]) is Some && (
            personal_slots@[t].unwrap().1 as int) == old(groups_by_subject)@[personal_slots@[
                t
            ].unwrap().0 as int]@.len() ==> old(groups_by_subject)@[personal_slots@[t].unwrap().0 as int]@.len()
                < cap,
    ensures
        final(groups_by_subject)@.len() == old(groups_by_subject)@.len(),
        state_ok(final(groups_by_subject)@, rows.push(personal_slots@), ts),
        forall|s: int|
            0 <= s < old(groups_by_subject)@.len() ==> (#[trigger] final(groups_by_subject)@[s])@.len()
                <= old(groups_by_subject)@[s]@.len() + 1,
        forall|s: int|
            0 <= s < old(groups_by_subject)@.len() ==> (#[trigger] final(groups_by_subject)@[s])@.len()
                <= cap,
        forall|s: int|
            0 <= s < old(groups_by_subject)@.len() ==> (#[trigger] final(groups_by_subject)@[s])@.len()
                == old(groups_by_subject)@[s]@.len() || (final(groups_by_subject)@[s]@.len() == old(groups_by_subject)@[s]@.len() + 1 && exists|u: int|
                0 <= u < personal_slots@.len() && (#[trigger] personal_slots@[u]) is Some
                    && personal_slots@[u].unwrap().0 == s && (personal_slots@[u].unwrap().1 as int)
                    == old(groups_by_subject)@[s]@.len()),
{
    let ghost rows1 = rows.push(personal_slots@);
    let ghost gz0 = old(groups_by_subject)@;
    let n = personal_slots.len();
    let mut t: usize = 0;
    proof {
        assert(mask_row(personal_slots@, 0) =~= Seq::new(personal_slots@.len(), |u: int| None::<(usize, usize)>));
        lemma_make_global_start(old(groups_by_subject)@, rows, personal_slots@, ts);
    }
    while t < n
        invariant
            t <= n,
            n == personal_slots@.len(),
            n as int == ts,
            student_idx as int == rows.len(),
            groups_by_subject@.len() == old(groups_by_subject)@.len(),
            gz0 == old(groups_by_subject)@,
            state_ok(groups_by_subject@, rows.push(mask_row(personal_slots@, t as int)), ts),
            forall|u: int|
                t <= u < ts && (#[trigger] personal_slots@[u]) is Some ==> pers_entry_ok(
                    personal_slots@[u].unwrap(),
                    u,
                    groups_by_subject@,
                ),
            forall|t1: int, t2: int|
                0 <= t1 < ts && 0 <= t2 < ts && (#[trigger] personal_slots@[t1]) is Some && (
                #[trigger] personal_slots@[t2]) is Some && personal_slots@[t1].unwrap().0
                    == personal_slots@[t2].unwrap().0 ==> t1 == t2,
            forall|s: int|
                0 <= s < gz0.len() ==> (#[trigger] groups_by_subject@[s])@.len() == gz0[s]@.len()
                    || (groups_by_subject@[s]@.len() == gz0[s]@.len() + 1 && exists|u: int|
                    0 <= u < t && (#[trigger] personal_slots@[u]) is Some
                        && personal_slots@[u].unwrap().0 == s && (personal_slots@[u].unwrap().1 as int)
                        == gz0[s]@.len()),
        decreases n - t,
    {
        let ghost groups_pre = groups_by_subject@;
        let ghost rows_pre = rows.push(mask_row(personal_slots@, t as int));
        match personal_slots[t] {
            None => {
                proof {
                    assert(mask_row(personal_slots@, t as int + 1) =~= mask_row(
                        personal_slots@,
                        t as int,
                    ));
                }
            },
            Some(e) => {
                let s = e.0;
                let gi = e.1;
                proof {
                    assert(personal_slots@[t as int].unwrap() == e);
                    assert(pers_entry_ok(e, t as int, groups_by_subject@));
                }
                let row_len = {
                    let r = &groups_by_subject[s];
                    r.len()
                };
                if gi < row_len {
                    // the entry points at an existing group: join it
                    let grow = vec_index_mut(groups_by_subject, s);
                    let gref = vec_index_mut(grow, gi);
                    gref.student_idxs.push(student_idx);
                    proof {
                        lemma_make_global_join(
                            groups_pre,
                            groups_by_subject@,
                            rows,
                            personal_slots@,
                            subs,
                            s,
                            gi,
                            t as int,
                            student_idx,
                            ts,
                        );
                        assert(forall|s2: int|
                            0 <= s2 < gz0.len() ==> (#[trigger] groups_by_subject@[s2])@.len()
                                == groups_pre[s2]@.len());
                    }
                } else {
                    // the entry announced a fresh group at this very slot
                    let mut first_members: Vec<usize> = Vec::new();
                    first_members.push(student_idx);
                    let fresh = Group { slot: t, student_idxs: first_members };
                    let grow = vec_index_mut(groups_by_subject, s);
                    grow.push(fresh);
                    proof {
                        lemma_make_global_fresh(
                            groups_pre,
                            groups_by_subject@,
                            rows,
                            personal_slots@,
                            subs,
                            s,
                            t as int,
                            student_idx,
                            ts,
                        );
                        assert forall|s2: int|
                            0 <= s2 < gz0.len() implies (#[trigger] groups_by_subject@[s2])@.len()
                            == gz0[s2]@.len() || (groups_by_subject@[s2]@.len() == gz0[s2]@.len()
                            + 1 && exists|u: int|
                            0 <= u < t + 1 && (#[trigger] personal_slots@[u]) is Some
                                && personal_slots@[u].unwrap().0 == s2 && (personal_slots@[u].unwrap().1 as int)
                                == gz0[s2]@.len()) by {
                            if s2 == s as int {
                                assert(groups_by_subject@[s2]@.len() == groups_pre[s2]@.len() + 1);
                                if groups_pre[s2]@.len() == gz0[s2]@.len() + 1 {
                                    let u = choose|u: int|
                                        0 <= u < t && (#[trigger] personal_slots@[u]) is Some
                                            && personal_slots@[u].unwrap().0 == s2;
                                    assert(personal_slots@[t as int].unwrap().0 == s2);
                                    assert(u == t as int);
                                }
                                assert(groups_pre[s2]@.len() == gz0[s2]@.len());
                                assert(personal_slots@[t as int] is Some
                                    && personal_slots@[t as int].unwrap().0 == s2
                                    && (personal_slots@[t as int].unwrap().1 as int) == gz0[s2]@.len());
                            } else {
                                assert(groups_by_subject@[s2]@.len() == groups_pre[s2]@.len());
                            }
                        }
                    }
                }
            },
        }
        t = t + 1;
    }
    proof {
        assert(mask_row(personal_slots@, ts) =~= personal_slots@);
    }
}

/// Before the fold starts, the state together with a fully masked (empty)
/// extra row is still consistent.
proof fn lemma_make_global_start(
    groups: Seq<Vec<Group>>,
    rows: Seq<Seq<Option<(usize, usize)>>>,
    ps: Seq<Option<(usize, usize)>>,
    ts: int,
)
    requires
        state_ok(groups, rows, ts),
        ps.len() == ts,
    ensures
        state_ok(groups, rows.push(mask_row(ps, 0)), ts),
{
    let rows1 = rows.push(mask_row(ps, 0));
    assert(forall|i: int| 0 <= i < rows.len() ==> rows1[i] == rows[i]);
    assert(mask_row(ps, 0).len() == ts);
    assert(forall|u: int| 0 <= u < ts ==> !((#[trigger] mask_row(ps, 0)[u]) is Some));
    assert(groups_wf(groups, rows1.len() as int, ts)) by {
        assert forall|s: int, g: int|
            0 <= s < groups.len() && 0 <= g < groups[s]@.len() implies group_wf(
            #[trigger] groups[s]@[g],
            rows1.len() as int,
            ts,
        ) by {
            assert(group_wf(groups[s]@[g], rows.len() as int, ts));
        }
    }
    assert(entries_ok(groups, rows1)) by {
        assert forall|i: int, u: int|
            0 <= i < rows1.len() && 0 <= u < rows1[i].len() && (#[trigger] rows1[i][u]) is Some implies entry_ok(
            rows1[i][u].unwrap(),
            u,
            i,
            groups,
        ) by {
            assert(i < rows.len());
            assert(rows1[i] == rows[i]);
        }
    }
    assert(members_ok(groups, rows1)) by {
        assert forall|s: int, g: int, k: int|
            0 <= s < groups.len() && 0 <= g < groups[s]@.len() && 0 <= k
                < groups[s]@[g].student_idxs@.len() implies member_entry_ok(
            s,
            g,
            #[trigger] groups[s]@[g].student_idxs@[k],
            groups,
            rows1,
        ) by {
            assert(member_entry_ok(s, g, groups[s]@[g].student_idxs@[k], groups, rows));
        }
    }
}

/// Joining an existing group at its own slot keeps the state consistent.
proof fn lemma_make_global_join(
    groups0: Seq<Vec<Group>>,
    groups1: Seq<Vec<Group>>,
    rows: Seq<Seq<Option<(usize, usize)>>>,
    ps: Seq<Option<(usize, usize)>>,
    subs: Seq<usize>,
    s: usize,
    g: usize,
    t: int,
    student_idx: usize,
    ts: int,
)
    requires
        state_ok(groups0, rows.push(mask_row(ps, t)), ts),
        student_idx as int == rows.len(),
        ps.len() == ts,
        0 <= t < ts,
        ps[t] == Some((s, g)),
        (s as int) < groups0.len(),
        (g as int) < groups0[s as int]@.len(),
        groups0[s as int]@[g as int].slot == t,
        forall|t1: int, t2: int|
            0 <= t1 < ts && 0 <= t2 < ts && (#[trigger] ps[t1]) is Some && (#[trigger] ps[t2]) is Some
                && ps[t1].unwrap().0 == ps[t2].unwrap().0 ==> t1 == t2,
        forall|u: int|
            t <= u < ts && (#[trigger] ps[u]) is Some ==> pers_entry_ok(
                ps[u].unwrap(),
                u,
                groups0,
            ),
        groups1.len() == groups0.len(),
        forall|s2: int|
            0 <= s2 < groups0.len() ==> (#[trigger] groups1[s2])@.len() == groups0[s2]@.len(),
        forall|s2: int, g2: int|
            0 <= s2 < groups0.len() && 0 <= g2 < groups0[s2]@.len() && !(s2 == s as int && g2
                == g as int) ==> (#[trigger] groups1[s2]@[g2]) == groups0[s2]@[g2],
        groups1[s as int]@[g as int].slot == groups0[s as int]@[g as int].slot,
        groups1[s as int]@[g as int].student_idxs@ == groups0[s as int]@[g as int].student_idxs@.push(
            student_idx,
        ),
    ensures
        state_ok(groups1, rows.push(mask_row(ps, t + 1)), ts),
        forall|u: int|
            t + 1 <= u < ts && (#[trigger] ps[u]) is Some ==> pers_entry_ok(
                ps[u].unwrap(),
                u,
                groups1,
            ),
        forall|s2: int|
            0 <= s2 < groups0.len() ==> (#[trigger] groups1[s2])@.len() == groups0[s2]@.len(),
{
    let rows0 = rows.push(mask_row(ps, t));
    let rows1 = rows.push(mask_row(ps, t + 1));
    let si = s as int;
    let gi = g as int;
    let last = rows.len() as int;
    assert(rows1.len() == rows0.len());
    assert(forall|i: int| 0 <= i < rows.len() ==> #[trigger] rows1[i] == rows[i] && rows0[i] == rows[i]);
    assert(rows1[last] =~= rows0[last].update(t, Some((s, g)))) by {
        assert forall|u: int| 0 <= u < ts implies rows1[last][u] == rows0[last].update(t, Some((s, g)))[u] by {
            if u == t {
                assert(mask_row(ps, t + 1)[u] == ps[t]);
            }
        }
    }
    assert(slots_distinct(groups1)) by {
        assert forall|s2: int, g1: int, g2: int|
            0 <= s2 < groups1.len() && 0 <= g1 < g2 < groups1[s2]@.len() implies ((
        #[trigger] groups1[s2]@[g1]).slot as int) != ((#[trigger] groups1[s2]@[g2]).slot as int) by {
            assert(((groups0[s2]@[g1]).slot as int) != ((groups0[s2]@[g2]).slot as int));
            assert(groups1[s2]@[g1].slot == groups0[s2]@[g1].slot);
            assert(groups1[s2]@[g2].slot == groups0[s2]@[g2].slot);
        }
    }
    // the student is not yet a member of this group: the group's slot is
    // `t`, and the masked row of the student is still free there
    assert(!groups0[si]@[gi].student_idxs@.contains(student_idx)) by {
        if groups0[si]@[gi].student_idxs@.contains(student_idx) {
            let q = choose|q: int|
                0 <= q < groups0[si]@[gi].student_idxs@.len() && groups0[si]@[gi].student_idxs@[q]
                    == student_idx;
            assert(member_entry_ok(si, gi, groups0[si]@[gi].student_idxs@[q], groups0, rows0));
            assert(rows0[last][t] is Some);
            assert(mask_row(ps, t)[t] is None);
        }
    }
    assert(groups_wf(groups1, rows1.len() as int, ts)) by {
        assert forall|s2: int, g2: int|
            0 <= s2 < groups1.len() && 0 <= g2 < groups1[s2]@.len() implies group_wf(
            #[trigger] groups1[s2]@[g2],
            rows1.len() as int,
            ts,
        ) by {
            assert(group_wf(groups0[s2]@[g2], rows0.len() as int, ts));
            if s2 == si && g2 == gi {
                let m0 = groups0[s2]@[g2].student_idxs@;
                assert(groups1[s2]@[g2].student_idxs@ == m0.push(student_idx));
                assert(!m0.contains(student_idx));
                assert(m0.push(student_idx).no_duplicates()) by {
                    assert forall|a: int, b: int|
                        0 <= a < b < m0.push(student_idx).len() implies m0.push(student_idx)[a]
                        != m0.push(student_idx)[b] by {
                        if b == m0.len() as int {
                            assert(m0.push(student_idx)[a] == m0[a]);
                            assert(m0.contains(m0[a]));
                        }
                    }
                }
            }
        }
    }
    assert(entries_ok(groups1, rows1)) by {
        assert forall|i: int, u: int|
            0 <= i < rows1.len() && 0 <= u < rows1[i].len() && (#[trigger] rows1[i][u]) is Some implies entry_ok(
            rows1[i][u].unwrap(),
            u,
            i,
            groups1,
        ) by {
            let e = rows1[i][u].unwrap();
            let m0 = groups0[si]@[gi].student_idxs@;
            let m1 = groups1[si]@[gi].student_idxs@;
            if i == last && u == t {
                assert(e == (s, g));
                assert(groups1[si]@[gi].slot == t);
                assert(idx_in(m1, i)) by {
                    assert(m1[m0.len() as int] == student_idx);
                }
            } else {
                assert(rows1[i][u] == rows0[i][u]);
                assert(entry_ok(e, u, i, groups0));
                if e.0 == s && e.1 == g {
                    // the group's slot is t, so u == t and the row belongs
                    // to an earlier student, who already holds membership
                    assert(groups0[si]@[gi].slot == u);
                    assert(u == t);
                    assert(i != last);
                    assert(idx_in(m0, i));
                    assert(idx_in(m1, i)) by {
                        let q = choose|q: int| 0 <= q < m0.len() && (#[trigger] m0[q]) == i;
                        assert(m1[q] == m0[q]);
                    }
                } else {
                    assert(groups1[e.0 as int]@[e.1 as int] == groups0[e.0 as int]@[e.1 as int]);
                }
            }
        }
    }
    assert(members_ok(groups1, rows1)) by {
        assert forall|s2: int, g2: int, q: int|
            0 <= s2 < groups1.len() && 0 <= g2 < groups1[s2]@.len() && 0 <= q
                < groups1[s2]@[g2].student_idxs@.len() implies member_entry_ok(
            s2,
            g2,
            #[trigger] groups1[s2]@[g2].student_idxs@[q],
            groups1,
            rows1,
        ) by {
            let m = groups1[s2]@[g2].student_idxs@[q];
            if s2 == si && g2 == gi && q == groups0[si]@[gi].student_idxs@.len() as int {
                assert(m == student_idx);
                assert(rows1[last][t] == Some((s, g)));
            } else {
                assert(groups1[s2]@[g2].student_idxs@[q] == groups0[s2]@[g2].student_idxs@[q]);
                assert(member_entry_ok(s2, g2, m, groups0, rows0));
                let slot2 = groups0[s2]@[g2].slot as int;
                assert(rows0[m as int][slot2] is Some);
                if m as int == last {
                    assert(mask_row(ps, t)[slot2] is Some);
                    assert(slot2 < t);
                    assert(rows1[last][slot2] == rows0[last][slot2]);
                } else {
                    assert(rows1[m as int] == rows0[m as int]);
                }
                assert(groups1[s2]@[g2].slot == groups0[s2]@[g2].slot);
            }
        }
    }
    assert forall|u: int|
        t + 1 <= u < ts && (#[trigger] ps[u]) is Some implies pers_entry_ok(
        ps[u].unwrap(),
        u,
        groups1,
    ) by {
        let e = ps[u].unwrap();
        assert(pers_entry_ok(e, u, groups0));
        assert(e.0 != s || !((e.1 as int) == gi && u != t)) by {
            if e.0 == s {
                assert(ps[u].unwrap().0 == ps[t].unwrap().0);
                assert(u == t);
            }
        }
        assert(groups1[e.0 as int]@.len() == groups0[e.0 as int]@.len());
        if (e.1 as int) < groups0[e.0 as int]@.len() {
            if e.0 == s && e.1 == g {
                assert(u == t);
                assert(false);
            } else {
                assert(groups1[e.0 as int]@[e.1 as int] == groups0[e.0 as int]@[e.1 as int]);
            }
        }
    }
}

/// Creating the announced fresh group at the entry's slot keeps the state
/// consistent.
proof fn lemma_make_global_fresh(
    groups0: Seq<Vec<Group>>,
    groups1: Seq<Vec<Group>>,
    rows: Seq<Seq<Option<(usize, usize)>>>,
    ps: Seq<Option<(usize, usize)>>,
    subs: Seq<usize>,
    s: usize,
    t: int,
    student_idx: usize,
    ts: int,
)
    requires
        state_ok(groups0, rows.push(mask_row(ps, t)), ts),
        student_idx as int == rows.len(),
        ps.len() == ts,
        0 <= t < ts,
        ps[t] is Some,
        ps[t].unwrap().0 == s,
        (s as int) < groups0.len(),
        ps[t].unwrap().1 as int == groups0[s as int]@.len(),
        forall|t1: int, t2: int|
            0 <= t1 < ts && 0 <= t2 < ts && (#[trigger] ps[t1]) is Some && (#[trigger] ps[t2]) is Some
                && ps[t1].unwrap().0 == ps[t2].unwrap().0 ==> t1 == t2,
        forall|u: int|
            t <= u < ts && (#[trigger] ps[u]) is Some ==> pers_entry_ok(
                ps[u].unwrap(),
                u,
                groups0,
            ),
        groups1.len() == groups0.len(),
        forall|s2: int|
            0 <= s2 < groups0.len() && s2 != s as int ==> (#[trigger] groups1[s2]) == groups0[s2],
        groups1[s as int]@.len() == groups0[s as int]@.len() + 1,
        forall|g2: int|
            0 <= g2 < groups0[s as int]@.len() ==> (#[trigger] groups1[s as int]@[g2])
                == groups0[s as int]@[g2],
        groups1[s as int]@[groups0[s as int]@.len() as int].slot == t,
        groups1[s as int]@[groups0[s as int]@.len() as int].student_idxs@ == seq![student_idx],
    ensures
        state_ok(groups1, rows.push(mask_row(ps, t + 1)), ts),
        forall|u: int|
            t + 1 <= u < ts && (#[trigger] ps[u]) is Some ==> pers_entry_ok(
                ps[u].unwrap(),
                u,
                groups1,
            ),
        groups1[s as int]@.len() == groups0[s as int]@.len() + 1,
        forall|s2: int|
            0 <= s2 < groups0.len() && s2 != s as int ==> (#[trigger] groups1[s2])@.len()
                == groups0[s2]@.len(),
{
    let rows0 = rows.push(mask_row(ps, t));
    let rows1 = rows.push(mask_row(ps, t + 1));
    let si = s as int;
    let gnew = groups0[si]@.len() as int;
    let last = rows.len() as int;
    let e0 = ps[t].unwrap();
    assert(e0 == (s, e0.1));
    assert(e0.1 as int == gnew);
    assert(rows1.len() == rows0.len());
    assert(forall|i: int| 0 <= i < rows.len() ==> #[trigger] rows1[i] == rows[i] && rows0[i] == rows[i]);
    assert(rows1[last] =~= rows0[last].update(t, ps[t])) by {
        assert forall|u: int| 0 <= u < ts implies rows1[last][u] == rows0[last].update(t, ps[t])[u] by {
            if u == t {
                assert(mask_row(ps, t + 1)[u] == ps[t]);
            }
        }
    }
    assert(forall|s2: int, g2: int|
        0 <= s2 < groups0.len() && 0 <= g2 < groups0[s2]@.len() ==> (#[trigger] groups1[s2]@[g2])
            == groups0[s2]@[g2]);
    assert(groups1[si]@[gnew].slot == t);
    assert(groups1[si]@[gnew].student_idxs@ == seq![student_idx]);
    assert(no_group_at(groups0, si, t)) by {
        assert(pers_entry_ok(ps[t].unwrap(), t, groups0));
    }
    assert(slots_distinct(groups1)) by {
        assert forall|s2: int, g1: int, g2: int|
            0 <= s2 < groups1.len() && 0 <= g1 < g2 < groups1[s2]@.len() implies ((
        #[trigger] groups1[s2]@[g1]).slot as int) != ((#[trigger] groups1[s2]@[g2]).slot as int) by {
            if s2 == si && g2 == gnew {
                assert(groups1[s2]@[g1] == groups0[s2]@[g1]);
                assert(((groups0[s2]@[g1]).slot as int) != t);
            } else {
                assert(groups1[s2]@[g1] == groups0[s2]@[g1]);
                assert(groups1[s2]@[g2] == groups0[s2]@[g2]);
                assert(((groups0[s2]@[g1]).slot as int) != ((groups0[s2]@[g2]).slot as int));
            }
        }
    }
    assert(groups_wf(groups1, rows1.len() as int, ts)) by {
        assert forall|s2: int, g2: int|
            0 <= s2 < groups1.len() && 0 <= g2 < groups1[s2]@.len() implies group_wf(
            #[trigger] groups1[s2]@[g2],
            rows1.len() as int,
            ts,
        ) by {
            if s2 == si && g2 == gnew {
                assert(groups1[s2]@[g2].student_idxs@ =~= seq![student_idx]);
                assert(groups1[s2]@[g2].student_idxs@.no_duplicates());
            } else {
                assert(groups1[s2]@[g2] == groups0[s2]@[g2]);
                assert(group_wf(groups0[s2]@[g2], rows0.len() as int, ts));
            }
        }
    }
    assert(entries_ok(groups1, rows1)) by {
        assert forall|i: int, u: int|
            0 <= i < rows1.len() && 0 <= u < rows1[i].len() && (#[trigger] rows1[i][u]) is Some implies entry_ok(
            rows1[i][u].unwrap(),
            u,
            i,
            groups1,
        ) by {
            let e = rows1[i][u].unwrap();
            if i == last && u == t {
                assert(e == e0);
                assert(groups1[si]@[gnew].slot == t);
                assert(idx_in(groups1[si]@[gnew].student_idxs@, i)) by {
                    assert(groups1[si]@[gnew].student_idxs@[0] == student_idx);
                }
            } else {
                assert(rows1[i][u] == rows0[i][u]);
                assert(entry_ok(e, u, i, groups0));
                assert(groups1[e.0 as int]@[e.1 as int] == groups0[e.0 as int]@[e.1 as int]);
            }
        }
    }
    assert(members_ok(groups1, rows1)) by {
        assert forall|s2: int, g2: int, q: int|
            0 <= s2 < groups1.len() && 0 <= g2 < groups1[s2]@.len() && 0 <= q
                < groups1[s2]@[g2].student_idxs@.len() implies member_entry_ok(
            s2,
            g2,
            #[trigger] groups1[s2]@[g2].student_idxs@[q],
            groups1,
            rows1,
        ) by {
            let m = groups1[s2]@[g2].student_idxs@[q];
            if s2 == si && g2 == gnew {
                assert(groups1[s2]@[g2].student_idxs@ =~= seq![student_idx]);
                assert(m == student_idx);
                assert(rows1[last][t] == ps[t]);
            } else {
                assert(groups1[s2]@[g2] == groups0[s2]@[g2]);
                assert(member_entry_ok(s2, g2, m, groups0, rows0));
                let slot2 = groups0[s2]@[g2].slot as int;
                assert(rows0[m as int][slot2] is Some);
                if m as int == last {
                    assert(mask_row(ps, t)[slot2] is Some);
                    assert(slot2 < t);
                    assert(rows1[last][slot2] == rows0[last][slot2]);
                } else {
                    assert(rows1[m as int] == rows0[m as int]);
                }
            }
        }
    }
    assert forall|u: int|
        t + 1 <= u < ts && (#[trigger] ps[u]) is Some implies pers_entry_ok(
        ps[u].unwrap(),
        u,
        groups1,
    ) by {
        let e = ps[u].unwrap();
        assert(pers_entry_ok(e, u, groups0));
        if e.0 == s {
            assert(ps[u].unwrap().0 == ps[t].unwrap().0);
            assert(u == t);
            assert(false);
        } else {
            assert(groups1[e.0 as int] == groups0[e.0 as int]);
        }
    }
}

} // verus!
