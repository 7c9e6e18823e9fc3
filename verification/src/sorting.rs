//! The ascending-attendance sorter: candidate (subject, group) pairs are
//! ordered by the member count of the group they point at, smallest first,
//! so that the displacement search tries the cheapest groups to move first.

use vstd::prelude::*;
use vstd::multiset::Multiset;

use crate::model::Group;

verus! {

/// The member count a candidate pair points at: 0 when the group index
/// does not (yet) exist.
pub open spec fn spec_attendance(c: (usize, usize), groups: Seq<Vec<Group>>) -> nat {
    if (c.1 as int) < groups[c.0 as int]@.len() {
        groups[c.0 as int]@[c.1 as int].student_idxs@.len()
    } else {
        0
    }
}

/// Member count of the group a candidate `(subject, group index)` pair
/// points at; 0 when no group with that index exists yet.
pub fn attendance(candidate: (usize, usize), groups_by_subject: &Vec<Vec<Group>>) -> (r: usize)
    requires
        (candidate.0 as int) < groups_by_subject@.len(),
    ensures
        r == spec_attendance(candidate, groups_by_subject@),
{
    let row = &groups_by_subject[candidate.0];
    if candidate.1 < row.len() {
        row[candidate.1].student_idxs.len()
    } else {
        0
    }
}

/// The candidate list is ordered by attendance, ascending.
pub open spec fn sorted_by_attendance(cands: Seq<(usize, usize)>, groups: Seq<Vec<Group>>) -> bool {
    forall|a: int, b: int|
        0 <= a < b < cands.len() ==> spec_attendance(#[trigger] cands[a], groups)
            <= spec_attendance(#[trigger] cands[b], groups)
}

pub open spec fn cands_in_bounds(cands: Seq<(usize, usize)>, groups: Seq<Vec<Group>>) -> bool {
    forall|k: int| 0 <= k < cands.len() ==> ((#[trigger] cands[k]).0 as int) < groups.len()
}

/// The first `m` elements are ordered by attendance, ascending.
pub open spec fn sorted_prefix(cands: Seq<(usize, usize)>, m: int, groups: Seq<Vec<Group>>) -> bool {
    forall|a: int, b: int|
        0 <= a < b < m && b < cands.len() ==> spec_attendance(#[trigger] cands[a], groups)
            <= spec_attendance(#[trigger] cands[b], groups)
}

/// Elements `j..m` are ordered, and nothing before `j` exceeds anything
/// strictly after `j`: the state of an insertion pass with a hole at `j`.
pub open spec fn sorted_gap(cands: Seq<(usize, usize)>, j: int, m: int, groups: Seq<Vec<Group>>) -> bool {
    &&& forall|a: int, b: int|
        j <= a < b < m && b < cands.len() ==> spec_attendance(#[trigger] cands[a], groups)
            <= spec_attendance(#[trigger] cands[b], groups)
    &&& forall|a: int, b: int|
        0 <= a < j && j < b < m && b < cands.len() ==> spec_attendance(#[trigger] cands[a], groups)
            <= spec_attendance(#[trigger] cands[b], groups)
}

/// When the element just before the hole does not exceed the element at
/// the hole, the whole prefix up to `m` is ordered.
pub proof fn lemma_sorted_join(cands: Seq<(usize, usize)>, j: int, m: int, groups: Seq<Vec<Group>>)
    requires
        0 < j < m,
        m <= cands.len(),
        sorted_prefix(cands, j, groups),
        sorted_gap(cands, j, m, groups),
        spec_attendance(cands[j - 1], groups) <= spec_attendance(cands[j], groups),
    ensures
        sorted_prefix(cands, m, groups),
{
    assert forall|a: int, b: int| 0 <= a < b < m && b < cands.len() implies spec_attendance(
        cands[a],
        groups,
    ) <= spec_attendance(cands[b], groups) by {
        if b < j {
        } else if a >= j {
        } else if b == j {
            if a < j - 1 {
                assert(spec_attendance(cands[a], groups) <= spec_attendance(cands[j - 1], groups));
            }
        } else {
            // a < j < b
        }
    }
}

/// Sorts the candidate list by ascending attendance (an insertion sort;
/// any comparison sort yielding the same ascending order is acceptable,
/// stability is not required).  The sorted list holds exactly the same
/// pairs as the input, as a multiset.
pub fn sort_by_ascending_attendance(
    candidates: &mut Vec<(usize, usize)>,
    groups_by_subject: &Vec<Vec<Group>>,
)
    requires
        cands_in_bounds(old(candidates)@, groups_by_subject@),
    ensures
        final(candidates)@.len() == old(candidates)@.len(),
        final(candidates)@.to_multiset() == old(candidates)@.to_multiset(),
        sorted_by_attendance(final(candidates)@, groups_by_subject@),
        cands_in_bounds(final(candidates)@, groups_by_subject@),
{
    let n = candidates.len();
    let mut i: usize = 1;
    if n <= 1 {
        return ;
    }
    while i < n
        invariant
            1 <= i <= n,
            n == candidates@.len(),
            candidates@.to_multiset() == old(candidates)@.to_multiset(),
            cands_in_bounds(candidates@, groups_by_subject@),
            sorted_prefix(candidates@, i as int, groups_by_subject@),
        decreases n - i,
    {
        let mut j: usize = i;
        loop
            invariant_except_break
                0 <= j <= i < n,
                n == candidates@.len(),
                candidates@.to_multiset() == old(candidates)@.to_multiset(),
                cands_in_bounds(candidates@, groups_by_subject@),
                sorted_prefix(candidates@, j as int, groups_by_subject@),
                sorted_gap(candidates@, j as int, i as int + 1, groups_by_subject@),
            ensures
                n == candidates@.len(),
                candidates@.to_multiset() == old(candidates)@.to_multiset(),
                cands_in_bounds(candidates@, groups_by_subject@),
                sorted_prefix(candidates@, i as int + 1, groups_by_subject@),
            decreases j,
        {
            if j == 0 {
                break ;
            }
            let before = attendance(candidates[j - 1], groups_by_subject);
            let here = attendance(candidates[j], groups_by_subject);
            if before <= here {
                proof {
                    lemma_sorted_join(candidates@, j as int, i as int + 1, groups_by_subject@);
                }
                break ;
            }
            let ghost pre = candidates@;
            let tmp = candidates[j - 1];
            let tmp2 = candidates[j];
            candidates.set(j - 1, tmp2);
            candidates.set(j, tmp);
            proof {
                assert(candidates@ =~= pre.update(j as int, pre[j as int - 1]).update(
                    j as int - 1,
                    pre[j as int],
                ));
                assert(candidates@.to_multiset() == pre.to_multiset()) by {
                    lemma_swap_multiset(pre, j as int - 1, j as int);
                    assert(pre.update(j as int - 1, pre[j as int]).update(
                        j as int,
                        pre[j as int - 1],
                    ) =~= pre.update(j as int, pre[j as int - 1]).update(
                        j as int - 1,
                        pre[j as int],
                    ));
                }
            }
            j = j - 1;
        }
        i = i + 1;
    }
}

/// Swapping two elements of a sequence keeps its multiset of elements.
pub proof fn lemma_swap_multiset<T>(s: Seq<T>, a: int, b: int)
    requires
        0 <= a < b < s.len(),
    ensures
        s.update(a, s[b]).update(b, s[a]).to_multiset() == s.to_multiset(),
{
    let s2 = s.update(a, s[b]).update(b, s[a]);
    s.to_multiset_ensures();
    s2.to_multiset_ensures();
    assert forall|x: T| s.to_multiset().count(x) == s2.to_multiset().count(x) by {
        lemma_multiset_count_eq_filter(s, x);
        lemma_multiset_count_eq_filter(s2, x);
        lemma_filter_swap(s, a, b, x);
    }
    assert(s.to_multiset() =~= s2.to_multiset());
}

/// The number of occurrences of `x` in a sequence, as a spec recursion.
pub open spec fn occ_count<T>(s: Seq<T>, x: T) -> nat
    decreases s.len(),
{
    if s.len() == 0 {
        0
    } else {
        occ_count(s.drop_last(), x) + if s.last() == x {
            1nat
        } else {
            0nat
        }
    }
}

pub proof fn lemma_multiset_count_eq_filter<T>(s: Seq<T>, x: T)
    ensures
        s.to_multiset().count(x) == occ_count(s, x),
    decreases s.len(),
{
    s.to_multiset_ensures();
    if s.len() == 0 {
        assert(s.to_multiset() =~= Multiset::<T>::empty());
    } else {
        lemma_multiset_count_eq_filter(s.drop_last(), x);
        assert(s =~= s.drop_last().push(s.last()));
        s.drop_last().to_multiset_ensures();
        assert(s.drop_last().push(s.last()).to_multiset() =~= s.drop_last().to_multiset().insert(
            s.last(),
        ));
    }
}

pub proof fn lemma_filter_swap<T>(s: Seq<T>, a: int, b: int, x: T)
    requires
        0 <= a < b < s.len(),
    ensures
        occ_count(s.update(a, s[b]).update(b, s[a]), x) == occ_count(s, x),
{
    let s2 = s.update(a, s[b]).update(b, s[a]);
    lemma_occ_update(s, a, s[b], x);
    lemma_occ_update(s.update(a, s[b]), b, s[a], x);
    assert(s.update(a, s[b])[b] == s[b]);
}

pub proof fn lemma_occ_update<T>(s: Seq<T>, i: int, v: T, x: T)
    requires
        0 <= i < s.len(),
    ensures
        occ_count(s.update(i, v), x) == occ_count(s, x) as int - (if s[i] == x {
            1int
        } else {
            0int
        }) + (if v == x {
            1int
        } else {
            0int
        }),
    decreases s.len(),
{
    let s2 = s.update(i, v);
    if i == s.len() - 1 {
        assert(s2.drop_last() =~= s.drop_last());
        assert(s2.last() == v);
    } else {
        assert(s2.drop_last() =~= s.drop_last().update(i, v));
        lemma_occ_update(s.drop_last(), i, v, x);
        assert(s2.last() == s.last());
    }
}

} // verus!
