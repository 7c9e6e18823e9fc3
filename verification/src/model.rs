//! Input and output types of the engine, together with the mathematical
//! model that the contracts are stated over: well-formedness of the input,
//! the invariants tying the group registry to the finished schedules, and
//! the properties promised of every solved timetable.

use vstd::prelude::*;

verus! {

/// One student of the input roster: an identifier (unique across the
/// roster) and the ordered list of requested subjects (no duplicates).
pub struct StudentInfo {
    pub id: String,
    pub subjects: Vec<String>,
}

impl StudentInfo {
    pub fn new(id: String, subjects: Vec<String>) -> (r: StudentInfo)
        ensures
            r.id == id,
            r.subjects == subjects,
    {
        StudentInfo { id, subjects }
    }
}

/// The whole input of one solve call.
pub struct TimetableInfo {
    pub max_groups: u8,
    pub students: Vec<StudentInfo>,
    pub daily_lesson_capacity: u8,
}

/// One student's finished schedule: entry `t` holds the subject and the
/// group index occupying slot `t`, if any.
pub struct Student {
    pub id: String,
    pub slots: Vec<Option<(String, usize)>>,
}

/// The outcome of a solve call: either a complete schedule, or the single
/// failure value meaning that the displacement search exhausted all slots
/// for some student.
pub enum TimetableResult {
    Solved { subjects: Vec<Vec<String>>, slots_by_student_id: Vec<Student> },
    Unsolved,
}

/// A group of students taking one subject together: its assigned slot and
/// its members, as indices into the roster.
pub struct Group {
    pub slot: usize,
    pub student_idxs: Vec<usize>,
}

/// The week has exactly 5 days, so this many slots exist in all.
pub open spec fn total_slots_of(info: TimetableInfo) -> int {
    info.daily_lesson_capacity as int * 5
}

/// A roster entry is well formed when its subjects are pairwise distinct
/// and fit into the week.
pub open spec fn student_info_wf(si: StudentInfo, ts: int) -> bool {
    &&& si.subjects@.len() <= ts
    &&& forall|k1: int, k2: int|
        0 <= k1 < k2 < si.subjects@.len() ==> (#[trigger] si.subjects@[k1])@ != (
        #[trigger] si.subjects@[k2])@
}

/// The engine's precondition: positive capacities, a non-empty roster,
/// unique student identifiers, and well-formed subject lists.
pub open spec fn info_wf(info: TimetableInfo) -> bool {
    &&& info.max_groups >= 1
    &&& info.daily_lesson_capacity >= 1
    &&& info.students@.len() >= 1
    &&& forall|i: int|
        0 <= i < info.students@.len() ==> student_info_wf(
            #[trigger] info.students@[i],
            total_slots_of(info),
        )
    &&& forall|i: int, j: int|
        0 <= i < j < info.students@.len() ==> (#[trigger] info.students@[i]).id@ != (
        #[trigger] info.students@[j]).id@
}

/// How many entries of a slot array are occupied.
pub open spec fn count_some<T>(s: Seq<Option<T>>) -> nat
    decreases s.len(),
{
    if s.len() == 0 {
        0
    } else {
        count_some(s.drop_last()) + if s.last() is Some {
            1nat
        } else {
            0nat
        }
    }
}

pub proof fn lemma_count_some_update<T>(s: Seq<Option<T>>, i: int, v: Option<T>)
    requires
        0 <= i < s.len(),
    ensures
        count_some(s.update(i, v)) == count_some(s) as int - (if s[i] is Some {
            1int
        } else {
            0int
        }) + (if v is Some {
            1int
        } else {
            0int
        }),
    decreases s.len(),
{
    let s2 = s.update(i, v);
    assert(s2.len() == s.len());
    if i == s.len() - 1 {
        assert(s2.drop_last() =~= s.drop_last());
        assert(s2.last() == v);
    } else {
        assert(s2.drop_last() =~= s.drop_last().update(i, v));
        lemma_count_some_update(s.drop_last(), i, v);
        assert(s2.last() == s.last());
    }
}

pub proof fn lemma_count_some_none<T>(s: Seq<Option<T>>)
    requires
        forall|t: int| 0 <= t < s.len() ==> (#[trigger] s[t]) is None,
    ensures
        count_some(s) == 0,
    decreases s.len(),
{
    if s.len() > 0 {
        assert(forall|t: int|
            0 <= t < s.drop_last().len() ==> (#[trigger] s.drop_last()[t]) is None);
        lemma_count_some_none(s.drop_last());
    }
}

pub proof fn lemma_count_some_all<T>(s: Seq<Option<T>>)
    requires
        forall|t: int| 0 <= t < s.len() ==> (#[trigger] s[t]) is Some,
    ensures
        count_some(s) == s.len(),
    decreases s.len(),
{
    if s.len() > 0 {
        assert(forall|t: int|
            0 <= t < s.drop_last().len() ==> (#[trigger] s.drop_last()[t]) is Some);
        lemma_count_some_all(s.drop_last());
    }
}

/// Two slot arrays occupied at exactly the same positions hold equally
/// many entries.
pub proof fn lemma_count_some_pointwise<A, B>(a: Seq<Option<A>>, b: Seq<Option<B>>)
    requires
        a.len() == b.len(),
        forall|t: int| 0 <= t < a.len() ==> ((#[trigger] a[t]) is Some <==> (#[trigger] b[t]) is Some),
    ensures
        count_some(a) == count_some(b),
    decreases a.len(),
{
    if a.len() > 0 {
        assert(forall|t: int|
            0 <= t < a.drop_last().len() ==> ((#[trigger] a.drop_last()[t]) is Some <==> (
            #[trigger] b.drop_last()[t]) is Some)) by {
            assert(forall|t: int| 0 <= t < a.len() - 1 ==> a.drop_last()[t] == a[t] && b.drop_last()[t] == b[t]);
        }
        lemma_count_some_pointwise(a.drop_last(), b.drop_last());
        assert(a.last() == a[a.len() - 1] && b.last() == b[b.len() - 1]);
    }
}

/// A group is well formed when its slot lies in the week and its member
/// list is a non-empty duplicate-free list of roster indices.
pub open spec fn group_wf(gr: Group, nstud: int, ts: int) -> bool {
    &&& (gr.slot as int) < ts
    &&& gr.student_idxs@.no_duplicates()
    &&& gr.student_idxs@.len() >= 1
    &&& forall|k: int|
        0 <= k < gr.student_idxs@.len() ==> (#[trigger] gr.student_idxs@[k] as int) < nstud
}

pub open spec fn groups_wf(groups: Seq<Vec<Group>>, nstud: int, ts: int) -> bool {
    forall|s: int, g: int|
        0 <= s < groups.len() && 0 <= g < groups[s]@.len() ==> group_wf(
            #[trigger] groups[s]@[g],
            nstud,
            ts,
        )
}

/// The roster index `i` appears on the member list.
pub open spec fn idx_in(mem: Seq<usize>, i: int) -> bool {
    exists|q: int| 0 <= q < mem.len() && (#[trigger] mem[q]) == i
}

/// An occupied entry of a finished schedule points at an existing group,
/// sits exactly at that group's slot, and its owner is on the group's
/// member list.
pub open spec fn entry_ok(e: (usize, usize), t: int, i: int, groups: Seq<Vec<Group>>) -> bool {
    &&& (e.0 as int) < groups.len()
    &&& (e.1 as int) < groups[e.0 as int]@.len()
    &&& groups[e.0 as int]@[e.1 as int].slot == t
    &&& idx_in(groups[e.0 as int]@[e.1 as int].student_idxs@, i)
}

pub open spec fn entries_ok(groups: Seq<Vec<Group>>, rows: Seq<Seq<Option<(usize, usize)>>>) -> bool {
    forall|i: int, t: int|
        0 <= i < rows.len() && 0 <= t < rows[i].len() && (#[trigger] rows[i][t]) is Some
            ==> entry_ok(rows[i][t].unwrap(), t, i, groups)
}

/// A member of a group has that group's entry in their own schedule, at
/// the group's slot.
pub open spec fn member_entry_ok(
    s: int,
    g: int,
    m: usize,
    groups: Seq<Vec<Group>>,
    rows: Seq<Seq<Option<(usize, usize)>>>,
) -> bool {
    &&& (m as int) < rows.len()
    &&& (groups[s]@[g].slot as int) < rows[m as int].len()
    &&& rows[m as int][groups[s]@[g].slot as int] is Some
    &&& rows[m as int][groups[s]@[g].slot as int].unwrap().0 == s
    &&& rows[m as int][groups[s]@[g].slot as int].unwrap().1 == g
}

pub open spec fn members_ok(groups: Seq<Vec<Group>>, rows: Seq<Seq<Option<(usize, usize)>>>) -> bool {
    forall|s: int, g: int, k: int|
        0 <= s < groups.len() && 0 <= g < groups[s]@.len() && 0 <= k
            < groups[s]@[g].student_idxs@.len() ==> member_entry_ok(
            s,
            g,
            #[trigger] groups[s]@[g].student_idxs@[k],
            groups,
            rows,
        )
}

/// The schedules of the finished students, as plain sequences.
pub open spec fn rows_view(done: Seq<Vec<Option<(usize, usize)>>>) -> Seq<
    Seq<Option<(usize, usize)>>,
> {
    Seq::new(done.len(), |i: int| done[i]@)
}

/// A schedule row with only its entries before `t` kept: the part of the
/// current student's schedule that `make_global` has folded in so far.
pub open spec fn mask_row(row: Seq<Option<(usize, usize)>>, t: int) -> Seq<Option<(usize, usize)>> {
    Seq::new(row.len(), |u: int| if u < t { row[u] } else { None })
}

/// The invariant of a solve call: the group registry and the schedules of
/// the students finished so far agree with each other.
pub open spec fn state_ok(
    groups: Seq<Vec<Group>>,
    rows: Seq<Seq<Option<(usize, usize)>>>,
    ts: int,
) -> bool {
    &&& forall|i: int| 0 <= i < rows.len() ==> (#[trigger] rows[i]).len() == ts
    &&& groups_wf(groups, rows.len() as int, ts)
    &&& slots_distinct(groups)
    &&& entries_ok(groups, rows)
    &&& members_ok(groups, rows)
}

/// Some entry of the row holds the given subject.
pub open spec fn subject_present(row: Seq<Option<(usize, usize)>>, s: usize) -> bool {
    exists|t: int| 0 <= t < row.len() && (#[trigger] row[t]) is Some && row[t].unwrap().0 == s
}

/// A finished schedule row carries exactly the given subjects: every
/// occupied entry holds one of them, each of them occupies exactly one
/// slot, and no subject appears twice.
pub open spec fn row_matches(row: Seq<Option<(usize, usize)>>, subs: Seq<usize>) -> bool {
    &&& forall|t: int|
        0 <= t < row.len() && (#[trigger] row[t]) is Some ==> exists|k: int|
            0 <= k < subs.len() && subs[k] == row[t].unwrap().0
    &&& forall|k: int| 0 <= k < subs.len() ==> subject_present(row, #[trigger] subs[k])
    &&& forall|t1: int, t2: int|
        0 <= t1 < row.len() && 0 <= t2 < row.len() && (#[trigger] row[t1]) is Some && (
        #[trigger] row[t2]) is Some && row[t1].unwrap().0 == row[t2].unwrap().0 ==> t1 == t2
}

pub open spec fn rows_match(rows: Seq<Seq<Option<(usize, usize)>>>, ids: Seq<Seq<usize>>) -> bool {
    &&& rows.len() <= ids.len()
    &&& forall|i: int| 0 <= i < rows.len() ==> row_matches(#[trigger] rows[i], ids[i])
}

/// Moving a group's single entry of a schedule row from its old slot to a
/// free slot leaves the row carrying the same subjects, once each.
pub proof fn lemma_row_matches_relocate(
    row: Seq<Option<(usize, usize)>>,
    subs: Seq<usize>,
    o: int,
    n: int,
    s: usize,
    g: usize,
)
    requires
        row_matches(row, subs),
        0 <= o < row.len(),
        0 <= n < row.len(),
        o != n,
        row[o] == Some((s, g)),
        row[n] is None,
    ensures
        row_matches(row.update(o, None::<(usize, usize)>).update(n, Some((s, g))), subs),
{
    let row2 = row.update(o, None::<(usize, usize)>).update(n, Some((s, g)));
    assert(row2[n] == Some((s, g)));
    // every occupied entry of the new row holds a requested subject
    assert forall|t: int| 0 <= t < row2.len() && (#[trigger] row2[t]) is Some implies exists|k: int|
        0 <= k < subs.len() && subs[k] == row2[t].unwrap().0 by {
        if t == n {
            assert(row[o] is Some);
        } else {
            assert(row2[t] == row[t]);
        }
    }
    // every requested subject still occupies some slot
    assert forall|k: int| 0 <= k < subs.len() implies subject_present(row2, #[trigger] subs[k]) by {
        assert(subject_present(row, subs[k]));
        let t0 = choose|t: int|
            0 <= t < row.len() && (#[trigger] row[t]) is Some && row[t].unwrap().0 == subs[k];
        if t0 == o {
            assert(row2[n] is Some && row2[n].unwrap().0 == subs[k]);
        } else {
            assert(row2[t0] == row[t0]);
        }
    }
    // no subject appears at two slots of the new row
    assert forall|t1: int, t2: int|
        0 <= t1 < row2.len() && 0 <= t2 < row2.len() && (#[trigger] row2[t1]) is Some && (
        #[trigger] row2[t2]) is Some && row2[t1].unwrap().0 == row2[t2].unwrap().0 implies t1
        == t2 by {
        if t1 != t2 {
            if t1 == n || t2 == n {
                let tother = if t1 == n { t2 } else { t1 };
                assert(row2[tother] == row[tother]);
                assert(row[tother].unwrap().0 == s);
                assert(row[o].unwrap().0 == s);
                assert(tother == o);
                assert(row2[o] is None);
            } else {
                assert(row2[t1] == row[t1] && row2[t2] == row[t2]);
            }
        }
    }
}

/// No group of the given subject is assigned to slot `t`.
pub open spec fn no_group_at(groups: Seq<Vec<Group>>, s: int, t: int) -> bool {
    forall|g: int| 0 <= g < groups[s]@.len() ==> ((#[trigger] groups[s]@[g]).slot as int) != t
}

/// Groups of one subject never share a slot.
pub open spec fn slots_distinct(groups: Seq<Vec<Group>>) -> bool {
    forall|s: int, g1: int, g2: int|
        0 <= s < groups.len() && 0 <= g1 < g2 < groups[s]@.len() ==> ((
        #[trigger] groups[s]@[g1]).slot as int) != ((#[trigger] groups[s]@[g2]).slot as int)
}

/// An entry of the student currently being placed: it points at an
/// existing group and sits at that group's slot, or it announces a fresh
/// group (index one past the subject's current group list) that
/// `make_global` will create at this very slot -- a slot where no group
/// of that subject sits yet.
pub open spec fn pers_entry_ok(e: (usize, usize), t: int, groups: Seq<Vec<Group>>) -> bool {
    &&& (e.0 as int) < groups.len()
    &&& ((e.1 as int) < groups[e.0 as int]@.len() && groups[e.0 as int]@[e.1 as int].slot == t) || (
    (e.1 as int) == groups[e.0 as int]@.len() && no_group_at(groups, e.0 as int, t))
}

/// The working state of the student currently being placed, after the
/// first `j` requested subjects have been handled.
pub open spec fn pers_ok(
    ps: Seq<Option<(usize, usize)>>,
    groups: Seq<Vec<Group>>,
    subs: Seq<usize>,
    j: int,
    ts: int,
) -> bool {
    &&& ps.len() == ts
    &&& count_some(ps) == j
    &&& forall|t: int|
        0 <= t < ps.len() && (#[trigger] ps[t]) is Some ==> pers_entry_ok(ps[t].unwrap(), t, groups)
    &&& forall|t: int|
        0 <= t < ps.len() && (#[trigger] ps[t]) is Some ==> exists|k: int|
            0 <= k < j && subs[k] == ps[t].unwrap().0
    &&& forall|k: int| 0 <= k < j ==> subject_present(ps, #[trigger] subs[k])
    &&& forall|t1: int, t2: int|
        0 <= t1 < ps.len() && 0 <= t2 < ps.len() && (#[trigger] ps[t1]) is Some && (
        #[trigger] ps[t2]) is Some && ps[t1].unwrap().0 == ps[t2].unwrap().0 ==> t1 == t2
}

/// Placing the next requested subject into a free slot advances the
/// working state by one subject, provided every already-placed entry is
/// still consistent with the (possibly relocated) registry.
pub proof fn lemma_pers_insert(
    ps: Seq<Option<(usize, usize)>>,
    groups: Seq<Vec<Group>>,
    subs: Seq<usize>,
    j: int,
    t0: int,
    e: (usize, usize),
    ts: int,
)
    requires
        ps.len() == ts,
        count_some(ps) == j,
        0 <= j < subs.len(),
        forall|k1: int, k2: int| 0 <= k1 < k2 < subs.len() ==> (#[trigger] subs[k1]) != (#[trigger] subs[k2]),
        forall|t: int|
            0 <= t < ps.len() && (#[trigger] ps[t]) is Some ==> pers_entry_ok(
                ps[t].unwrap(),
                t,
                groups,
            ),
        forall|t: int|
            0 <= t < ps.len() && (#[trigger] ps[t]) is Some ==> exists|k: int|
                0 <= k < j && subs[k] == ps[t].unwrap().0,
        forall|k: int| 0 <= k < j ==> subject_present(ps, #[trigger] subs[k]),
        forall|t1: int, t2: int|
            0 <= t1 < ps.len() && 0 <= t2 < ps.len() && (#[trigger] ps[t1]) is Some && (
            #[trigger] ps[t2]) is Some && ps[t1].unwrap().0 == ps[t2].unwrap().0 ==> t1 == t2,
        0 <= t0 < ts,
        ps[t0] is None,
        e.0 == subs[j],
        pers_entry_ok(e, t0, groups),
    ensures
        pers_ok(ps.update(t0, Some(e)), groups, subs, j + 1, ts),
{
    let ps2 = ps.update(t0, Some(e));
    lemma_count_some_update(ps, t0, Some(e));
    // no already-placed entry holds the subject being placed
    assert forall|t: int| 0 <= t < ps.len() && (#[trigger] ps[t]) is Some implies ps[t].unwrap().0
        != subs[j] by {
        let k = choose|k: int| 0 <= k < j && subs[k] == ps[t].unwrap().0;
        assert(subs[k] != subs[j]);
    }
    assert forall|t: int|
        0 <= t < ps2.len() && (#[trigger] ps2[t]) is Some implies pers_entry_ok(
        ps2[t].unwrap(),
        t,
        groups,
    ) && exists|k: int| 0 <= k < j + 1 && subs[k] == ps2[t].unwrap().0 by {
        if t == t0 {
            assert(subs[j] == ps2[t].unwrap().0);
        } else {
            assert(ps2[t] == ps[t]);
            let k = choose|k: int| 0 <= k < j && subs[k] == ps[t].unwrap().0;
            assert(subs[k] == ps2[t].unwrap().0);
        }
    }
    assert forall|k: int| 0 <= k < j + 1 implies subject_present(ps2, #[trigger] subs[k]) by {
        if k < j {
            let t = choose|t: int|
                0 <= t < ps.len() && (#[trigger] ps[t]) is Some && ps[t].unwrap().0 == subs[k];
            assert(ps2[t] == ps[t]);
        } else {
            assert(ps2[t0] is Some && ps2[t0].unwrap().0 == subs[j]);
        }
    }
    assert forall|t1: int, t2: int|
        0 <= t1 < ps2.len() && 0 <= t2 < ps2.len() && (#[trigger] ps2[t1]) is Some && (
        #[trigger] ps2[t2]) is Some && ps2[t1].unwrap().0 == ps2[t2].unwrap().0 implies t1 == t2 by {
        if t1 != t2 {
            if t1 == t0 || t2 == t0 {
                let tother = if t1 == t0 { t2 } else { t1 };
                assert(ps2[tother] == ps[tother]);
                assert(ps[tother].unwrap().0 == subs[j]);
            }
        }
    }
}

/// Swapping one placed entry to a free slot and putting the next subject
/// into the vacated slot advances the working state by one subject.
pub proof fn lemma_pers_move_insert(
    ps: Seq<Option<(usize, usize)>>,
    groups: Seq<Vec<Group>>,
    subs: Seq<usize>,
    j: int,
    o: int,
    p: int,
    e2: (usize, usize),
    ts: int,
)
    requires
        ps.len() == ts,
        count_some(ps) == j,
        0 <= j < subs.len(),
        forall|k1: int, k2: int| 0 <= k1 < k2 < subs.len() ==> (#[trigger] subs[k1]) != (#[trigger] subs[k2]),
        forall|t: int|
            0 <= t < ps.len() && t != o && (#[trigger] ps[t]) is Some ==> pers_entry_ok(
                ps[t].unwrap(),
                t,
                groups,
            ),
        forall|t: int|
            0 <= t < ps.len() && (#[trigger] ps[t]) is Some ==> exists|k: int|
                0 <= k < j && subs[k] == ps[t].unwrap().0,
        forall|k: int| 0 <= k < j ==> subject_present(ps, #[trigger] subs[k]),
        forall|t1: int, t2: int|
            0 <= t1 < ps.len() && 0 <= t2 < ps.len() && (#[trigger] ps[t1]) is Some && (
            #[trigger] ps[t2]) is Some && ps[t1].unwrap().0 == ps[t2].unwrap().0 ==> t1 == t2,
        0 <= o < ts,
        0 <= p < ts,
        o != p,
        ps[o] is Some,
        ps[p] is None,
        pers_entry_ok(ps[o].unwrap(), p, groups),
        e2.0 == subs[j],
        pers_entry_ok(e2, o, groups),
    ensures
        pers_ok(ps.update(p, ps[o]).update(o, Some(e2)), groups, subs, j + 1, ts),
{
    let ps2 = ps.update(p, ps[o]).update(o, Some(e2));
    lemma_count_some_update(ps, p, ps[o]);
    lemma_count_some_update(ps.update(p, ps[o]), o, Some(e2));
    assert(ps.update(p, ps[o])[o] == ps[o]);
    assert forall|t: int| 0 <= t < ps.len() && (#[trigger] ps[t]) is Some implies ps[t].unwrap().0
        != subs[j] by {
        let k = choose|k: int| 0 <= k < j && subs[k] == ps[t].unwrap().0;
        assert(subs[k] != subs[j]);
    }
    assert forall|t: int|
        0 <= t < ps2.len() && (#[trigger] ps2[t]) is Some implies pers_entry_ok(
        ps2[t].unwrap(),
        t,
        groups,
    ) && exists|k: int| 0 <= k < j + 1 && subs[k] == ps2[t].unwrap().0 by {
        if t == o {
            assert(ps2[t] == Some(e2));
            assert(subs[j] == ps2[t].unwrap().0);
        } else if t == p {
            assert(ps2[t] == ps[o]);
            let k = choose|k: int| 0 <= k < j && subs[k] == ps[o].unwrap().0;
            assert(subs[k] == ps2[t].unwrap().0);
        } else {
            assert(ps2[t] == ps[t]);
            let k = choose|k: int| 0 <= k < j && subs[k] == ps[t].unwrap().0;
            assert(subs[k] == ps2[t].unwrap().0);
        }
    }
    assert forall|k: int| 0 <= k < j + 1 implies subject_present(ps2, #[trigger] subs[k]) by {
        if k < j {
            let t = choose|t: int|
                0 <= t < ps.len() && (#[trigger] ps[t]) is Some && ps[t].unwrap().0 == subs[k];
            if t == o {
                assert(ps2[p] == ps[o]);
                assert(ps2[p] is Some && ps2[p].unwrap().0 == subs[k]);
            } else {
                assert(ps2[t] == ps[t]);
            }
        } else {
            assert(ps2[o] is Some && ps2[o].unwrap().0 == subs[j]);
        }
    }
    assert forall|t1: int, t2: int|
        0 <= t1 < ps2.len() && 0 <= t2 < ps2.len() && (#[trigger] ps2[t1]) is Some && (
        #[trigger] ps2[t2]) is Some && ps2[t1].unwrap().0 == ps2[t2].unwrap().0 implies t1 == t2 by {
        if t1 != t2 {
            // translate each position back to where its entry sat before
            if t1 == o || t2 == o {
                let tother = if t1 == o { t2 } else { t1 };
                assert(ps2[tother].unwrap().0 == subs[j]);
                if tother == p {
                    assert(ps2[p] == ps[o]);
                    assert(ps[o].unwrap().0 != subs[j]);
                } else {
                    assert(ps2[tother] == ps[tother]);
                    assert(ps[tother].unwrap().0 != subs[j]);
                }
                assert(false);
            } else if t1 == p || t2 == p {
                let tother = if t1 == p { t2 } else { t1 };
                assert(ps2[p] == ps[o]);
                assert(ps2[tother] == ps[tother]);
                assert(ps[o].unwrap().0 == ps[tother].unwrap().0);
                assert(o == tother);
                assert(false);
            } else {
                assert(ps2[t1] == ps[t1] && ps2[t2] == ps[t2]);
            }
        }
    }
}

/// A completed working state is a finished schedule row for the same
/// subjects.
pub proof fn lemma_pers_row_matches(
    ps: Seq<Option<(usize, usize)>>,
    groups: Seq<Vec<Group>>,
    subs: Seq<usize>,
    ts: int,
)
    requires
        pers_ok(ps, groups, subs, subs.len() as int, ts),
    ensures
        row_matches(ps, subs),
{
}

/// A roster in which no student requests more than one subject.
pub open spec fn single_subject_roster(info: TimetableInfo) -> bool {
    forall|i: int|
        0 <= i < info.students@.len() ==> (#[trigger] info.students@[i]).subjects@.len() <= 1
}

/// On such a roster every request is met in slot 0 by group 0 of its
/// subject: students sharing a subject share one group at one slot.
pub open spec fn packed_single(info: TimetableInfo, studs: Vec<Student>) -> bool {
    forall|i: int, t: int|
        0 <= i < studs@.len() && 0 <= t < studs@[i].slots@.len() ==> (((
        #[trigger] studs@[i].slots@[t]) is Some <==> (t == 0 && info.students@[i].subjects@.len()
            == 1)) && (studs@[i].slots@[t] is Some ==> studs@[i].slots@[t].unwrap().0@
            == info.students@[i].subjects@[0]@ && studs@[i].slots@[t].unwrap().1 == 0))
}

/// Some entry of a finished schedule holds the named subject.
pub open spec fn subject_listed(slots: Seq<Option<(String, usize)>>, name: Seq<char>) -> bool {
    exists|t: int|
        0 <= t < slots.len() && (#[trigger] slots[t]) is Some && slots[t].unwrap().0@ == name
}

/// Some student's schedule holds the named subject at slot `t`.
pub open spec fn some_student_has(studs: Seq<Student>, t: int, name: Seq<char>) -> bool {
    exists|i: int|
        0 <= i < studs.len() && 0 <= t < (#[trigger] studs[i]).slots@.len() && studs[i].slots@[t]
            is Some && studs[i].slots@[t].unwrap().0@ == name
}

/// Everything a `Solved` result promises.
pub open spec fn solved_ok(info: TimetableInfo, subjects: Vec<Vec<String>>, studs: Vec<Student>) -> bool {
    let ts = total_slots_of(info);
    &&& subjects@.len() == ts
    &&& studs@.len() == info.students@.len()
    &&& forall|i: int| 0 <= i < studs@.len() ==> (#[trigger] studs@[i]).id@ == info.students@[i].id@
    &&& forall|i: int| 0 <= i < studs@.len() ==> (#[trigger] studs@[i]).slots@.len() == ts
    // each student's count of occupied entries equals their subject count
    &&& forall|i: int|
        0 <= i < studs@.len() ==> count_some((#[trigger] studs@[i]).slots@)
            == info.students@[i].subjects@.len()
    // every occupied entry holds a requested subject
    &&& forall|i: int, t: int|
        0 <= i < studs@.len() && 0 <= t < studs@[i].slots@.len() && (
        #[trigger] studs@[i].slots@[t]) is Some ==> exists|k: int|
            0 <= k < info.students@[i].subjects@.len()
                && (#[trigger] info.students@[i].subjects@[k])@ == studs@[i].slots@[t].unwrap().0@
    // every requested subject occupies some slot
    &&& forall|i: int, k: int|
        0 <= i < studs@.len() && 0 <= k < info.students@[i].subjects@.len() ==> subject_listed(
            studs@[i].slots@,
            (#[trigger] info.students@[i].subjects@[k])@,
        )
    // a student holds at most one slot per subject
    &&& forall|i: int, t1: int, t2: int|
        0 <= i < studs@.len() && 0 <= t1 < studs@[i].slots@.len() && 0 <= t2
            < studs@[i].slots@.len() && (#[trigger] studs@[i].slots@[t1]) is Some && (
        #[trigger] studs@[i].slots@[t2]) is Some && studs@[i].slots@[t1].unwrap().0@
            == studs@[i].slots@[t2].unwrap().0@ ==> t1 == t2
    // one group, one slot: the same (subject, group) pair never sits at two
    // different slots, neither within one schedule nor across two
    &&& forall|i: int, j: int, t: int, u: int|
        0 <= i < studs@.len() && 0 <= j < studs@.len() && 0 <= t < studs@[i].slots@.len() && 0 <= u
            < studs@[j].slots@.len() && (#[trigger] studs@[i].slots@[t]) is Some && (
        #[trigger] studs@[j].slots@[u]) is Some && studs@[i].slots@[t].unwrap().0@
            == studs@[j].slots@[u].unwrap().0@ && studs@[i].slots@[t].unwrap().1
            == studs@[j].slots@[u].unwrap().1 ==> t == u
    // the group cap: a group index never reaches max_groups, so each
    // subject has at most max_groups distinct groups
    &&& forall|i: int, t: int|
        0 <= i < studs@.len() && 0 <= t < studs@[i].slots@.len() && (
        #[trigger] studs@[i].slots@[t]) is Some ==> (studs@[i].slots@[t].unwrap().1 as int)
            < info.max_groups as int
    // one slot, one group per subject: two students holding one subject at
    // one slot hold it in the same group
    &&& forall|i: int, j: int, t: int|
        0 <= i < studs@.len() && 0 <= j < studs@.len() && 0 <= t < studs@[i].slots@.len() && t
            < studs@[j].slots@.len() && (#[trigger] studs@[i].slots@[t]) is Some && (
        #[trigger] studs@[j].slots@[t]) is Some && studs@[i].slots@[t].unwrap().0@
            == studs@[j].slots@[t].unwrap().0@ ==> studs@[i].slots@[t].unwrap().1
            == studs@[j].slots@[t].unwrap().1
    // no slot of the global table lists one subject twice
    &&& forall|t: int, k1: int, k2: int|
        0 <= t < subjects@.len() && 0 <= k1 < k2 < subjects@[t]@.len() ==> (
        #[trigger] subjects@[t]@[k1])@ != (#[trigger] subjects@[t]@[k2])@
    // the global table lists a subject at a slot exactly when some student
    // holds that subject there
    &&& forall|t: int, k: int|
        0 <= t < subjects@.len() && 0 <= k < subjects@[t]@.len() ==> some_student_has(
            studs@,
            t,
            (#[trigger] subjects@[t]@[k])@,
        )
    &&& forall|i: int, t: int|
        0 <= i < studs@.len() && 0 <= t < studs@[i].slots@.len() && (
        #[trigger] studs@[i].slots@[t]) is Some ==> exists|k: int|
            0 <= k < subjects@[t]@.len() && (#[trigger] subjects@[t]@[k])@
                == studs@[i].slots@[t].unwrap().0@
}

/// What `solve_timetable` promises of its result.
pub open spec fn solve_post(info: TimetableInfo, r: TimetableResult) -> bool {
    match r {
        TimetableResult::Solved { subjects, slots_by_student_id } => solved_ok(
            info,
            subjects,
            slots_by_student_id,
        ),
        TimetableResult::Unsolved => true,
    }
}

} // verus!
