//! Ranking order by merge sort.

use crate::ranking::distinct_ids;
use crate::ranking::ranks_before;
use crate::search::SearchResult;
use vstd::prelude::*;

verus! {

/// No result comes after a later one in the ranking order.
pub open spec fn in_order(results: Seq<SearchResult>) -> bool {
    forall|i: int, j: int|
        0 <= i < j < results.len() ==> !ranks_before(#[trigger] results[j], #[trigger] results[i])
}

/// Whether `a` comes before `b` in the ranking.
pub fn comes_before(a: &SearchResult, b: &SearchResult) -> (before: bool)
    ensures
        before == ranks_before(*a, *b),
{
    a.score > b.score || (a.score == b.score && a.product_id < b.product_id)
}

/// Where a list holds the elements of two others, the list with one more
/// element holds those of the two with that element added to either.
proof fn lemma_push_add(
    merged: Seq<SearchResult>,
    left: Seq<SearchResult>,
    right: Seq<SearchResult>,
    next: SearchResult,
)
    requires
        merged.to_multiset() == left.to_multiset().add(right.to_multiset()),
    ensures
        merged.push(next).to_multiset() == left.push(next).to_multiset().add(right.to_multiset()),
        merged.push(next).to_multiset() == left.to_multiset().add(right.push(next).to_multiset()),
{
    broadcast use vstd::multiset::group_multiset_axioms;

    vstd::seq_lib::to_multiset_build(merged, next);
    vstd::seq_lib::to_multiset_build(left, next);
    vstd::seq_lib::to_multiset_build(right, next);
    assert(merged.push(next).to_multiset() =~= left.push(next).to_multiset().add(
        right.to_multiset(),
    ));
    assert(merged.push(next).to_multiset() =~= left.to_multiset().add(
        right.push(next).to_multiset(),
    ));
}

/// Merges two lists that are in order into one that is in order.
fn merge(left: &Vec<SearchResult>, right: &Vec<SearchResult>) -> (merged: Vec<SearchResult>)
    requires
        in_order(left@),
        in_order(right@),
    ensures
        in_order(merged@),
        merged@.to_multiset() == left@.to_multiset().add(right@.to_multiset()),
{
    broadcast use vstd::seq_lib::group_to_multiset_ensures;

    let mut merged: Vec<SearchResult> = Vec::new();
    let mut i: usize = 0;
    let mut j: usize = 0;
    proof {
        assert(left@.take(0) =~= Seq::<SearchResult>::empty());
        assert(right@.take(0) =~= Seq::<SearchResult>::empty());
        assert(merged@.to_multiset() =~= left@.take(0).to_multiset().add(
            right@.take(0).to_multiset(),
        ));
    }
    while i < left.len() || j < right.len()
        invariant
            i <= left@.len(),
            j <= right@.len(),
            in_order(left@),
            in_order(right@),
            in_order(merged@),
            merged@.to_multiset() == left@.take(i as int).to_multiset().add(
                right@.take(j as int).to_multiset(),
            ),
            forall|k: int|
                0 <= k < merged@.len() && i < left@.len() ==> !ranks_before(
                    left@[i as int],
                    #[trigger] merged@[k],
                ),
            forall|k: int|
                0 <= k < merged@.len() && j < right@.len() ==> !ranks_before(
                    right@[j as int],
                    #[trigger] merged@[k],
                ),
        decreases left@.len() - i + right@.len() - j,
    {
        let ghost before = merged@;
        let take_left = if i == left.len() {
            false
        } else if j == right.len() {
            true
        } else {
            !comes_before(&right[j], &left[i])
        };
        if take_left {
            let next = left[i];
            merged.push(next);
            proof {
                assert(left@.take(i + 1) =~= left@.take(i as int).push(next));
                lemma_push_add(before, left@.take(i as int), right@.take(j as int), next);
                assert(merged@.to_multiset() =~= left@.take(i + 1).to_multiset().add(
                    right@.take(j as int).to_multiset(),
                ));
                assert forall|a: int, b: int| 0 <= a < b < merged@.len() implies !ranks_before(
                    #[trigger] merged@[b],
                    #[trigger] merged@[a],
                ) by {
                    if b < before.len() {
                        assert(!ranks_before(before[b], before[a]));
                    } else {
                        assert(merged@[a] == before[a]);
                    }
                }
                assert forall|k: int|
                    0 <= k < merged@.len() && i + 1 < left@.len() implies !ranks_before(
                    left@[i + 1],
                    #[trigger] merged@[k],
                ) by {
                    assert(!ranks_before(left@[i + 1], left@[i as int]));
                    if k < before.len() {
                        assert(merged@[k] == before[k]);
                    }
                }
                assert forall|k: int|
                    0 <= k < merged@.len() && j < right@.len() implies !ranks_before(
                    right@[j as int],
                    #[trigger] merged@[k],
                ) by {
                    if k < before.len() {
                        assert(merged@[k] == before[k]);
                    }
                }
            }
            i += 1;
        } else {
            let next = right[j];
            merged.push(next);
            proof {
                assert(right@.take(j + 1) =~= right@.take(j as int).push(next));
                lemma_push_add(before, left@.take(i as int), right@.take(j as int), next);
                assert(merged@.to_multiset() =~= left@.take(i as int).to_multiset().add(
                    right@.take(j + 1).to_multiset(),
                ));
                assert forall|a: int, b: int| 0 <= a < b < merged@.len() implies !ranks_before(
                    #[trigger] merged@[b],
                    #[trigger] merged@[a],
                ) by {
                    if b < before.len() {
                        assert(!ranks_before(before[b], before[a]));
                    } else {
                        assert(merged@[a] == before[a]);
                    }
                }
                assert forall|k: int|
                    0 <= k < merged@.len() && j + 1 < right@.len() implies !ranks_before(
                    right@[j + 1],
                    #[trigger] merged@[k],
                ) by {
                    assert(!ranks_before(right@[j + 1], right@[j as int]));
                    if k < before.len() {
                        assert(merged@[k] == before[k]);
                    }
                }
                assert forall|k: int|
                    0 <= k < merged@.len() && i < left@.len() implies !ranks_before(
                    left@[i as int],
                    #[trigger] merged@[k],
                ) by {
                    if k < before.len() {
                        assert(merged@[k] == before[k]);
                    }
                }
            }
            j += 1;
        }
    }
    proof {
        assert(left@.take(i as int) =~= left@);
        assert(right@.take(j as int) =~= right@);
    }
    merged
}

/// Sorts the results from `lo` up to `hi` into ranking order.
fn sort_range(results: &Vec<SearchResult>, lo: usize, hi: usize) -> (sorted: Vec<SearchResult>)
    requires
        lo <= hi <= results@.len(),
    ensures
        in_order(sorted@),
        sorted@.to_multiset() == results@.subrange(lo as int, hi as int).to_multiset(),
    decreases hi - lo,
{
    broadcast use vstd::seq_lib::group_to_multiset_ensures;

    let ghost part = results@.subrange(lo as int, hi as int);
    if hi - lo == 0 {
        let sorted: Vec<SearchResult> = Vec::new();
        assert(part =~= Seq::<SearchResult>::empty());
        assert(sorted@ =~= part);
        sorted
    } else if hi - lo == 1 {
        let mut sorted: Vec<SearchResult> = Vec::new();
        sorted.push(results[lo]);
        assert(sorted@ =~= part);
        sorted
    } else {
        let mid = lo + (hi - lo) / 2;
        let left = sort_range(results, lo, mid);
        let right = sort_range(results, mid, hi);
        proof {
            let a = results@.subrange(lo as int, mid as int);
            let b = results@.subrange(mid as int, hi as int);
            assert(part =~= a + b);
            vstd::seq_lib::lemma_multiset_commutative(a, b);
        }
        merge(&left, &right)
    }
}

/// Puts the results of distinct records in ranking order.
pub(crate) fn in_rank_order(results: &Vec<SearchResult>) -> (ordered: Vec<SearchResult>)
    requires
        distinct_ids(results@),
    ensures
        ordered@.len() == results@.len(),
        forall|i: int, j: int|
            0 <= i < j < ordered@.len() ==> ranks_before(
                #[trigger] ordered@[i],
                #[trigger] ordered@[j],
            ),
        forall|i: int| 0 <= i < ordered@.len() ==> results@.contains(#[trigger] ordered@[i]),
        forall|i: int| 0 <= i < results@.len() ==> ordered@.contains(#[trigger] results@[i]),
{
    let ordered = sort_range(results, 0, results.len());
    proof {
        broadcast use vstd::seq_lib::group_to_multiset_ensures;

        let given = results@;
        let sorted = ordered@;
        assert(given.subrange(0, given.len() as int) =~= given);
        assert(given.no_duplicates()) by {
            assert forall|a: int, b: int|
                0 <= a < given.len() && 0 <= b < given.len() && a != b implies given[a]
                != given[b] by {
                if a < b {
                    assert(given[a].product_id != given[b].product_id);
                } else {
                    assert(given[b].product_id != given[a].product_id);
                }
            }
        }
        given.lemma_multiset_has_no_duplicates();
        sorted.lemma_multiset_has_no_duplicates_conv();
        vstd::seq_lib::to_multiset_len(given);
        vstd::seq_lib::to_multiset_len(sorted);
        assert forall|i: int| 0 <= i < sorted.len() implies given.contains(#[trigger] sorted[i]) by {
            assert(sorted.contains(sorted[i]));
            assert(sorted.to_multiset().count(sorted[i]) > 0);
        }
        assert forall|i: int| 0 <= i < given.len() implies sorted.contains(#[trigger] given[i]) by {
            assert(given.contains(given[i]));
            assert(given.to_multiset().count(given[i]) > 0);
        }
        assert forall|i: int, j: int| 0 <= i < j < sorted.len() implies ranks_before(
            #[trigger] sorted[i],
            #[trigger] sorted[j],
        ) by {
            assert(!ranks_before(sorted[j], sorted[i]));
            assert(sorted[i] != sorted[j]);
            assert(given.contains(sorted[i]));
            assert(given.contains(sorted[j]));
            let a = choose|a: int| 0 <= a < given.len() && given[a] == sorted[i];
            let b = choose|b: int| 0 <= b < given.len() && given[b] == sorted[j];
            if a < b {
                assert(given[a].product_id != given[b].product_id);
            } else if b < a {
                assert(given[b].product_id != given[a].product_id);
            }
        }
    }
    ordered
}

} // verus!
