//! What a ranking is: the score of a record for a query, the order of the
//! results, and what holds of every ranking.
//!
//! A query is tokenized like a record. The score of a record is the sum,
//! over the query's tokens, of the frequency of the token in the record
//! times a constant boost. The records with a positive score are ranked by
//! descending score, records of equal score by ascending identifier, and
//! the ranking is cut at the requested length.

use crate::scoring::BOOST;
use crate::search::SearchResult;
use crate::table::frequency;
use vstd::prelude::*;

verus! {

/// The score of a record for a token stream: for each token, the frequency
/// of the token in the record times the boost.
pub open spec fn score_of(
    postings: Map<Seq<char>, Map<u32, nat>>,
    tokens: Seq<Seq<char>>,
    id: u32,
) -> nat
    decreases tokens.len(),
{
    if tokens.len() == 0 {
        0
    } else {
        score_of(postings, tokens.drop_last(), id) + frequency(postings, tokens.last(), id)
            * BOOST as nat
    }
}

/// The order of the ranking: the higher score first, and of two equal
/// scores the lower identifier first.
pub open spec fn ranks_before(a: SearchResult, b: SearchResult) -> bool {
    a.score > b.score || (a.score == b.score && a.product_id < b.product_id)
}

/// Whether a record is among the results.
pub open spec fn ranked(results: Seq<SearchResult>, id: u32) -> bool {
    exists|i: int| 0 <= i < results.len() && (#[trigger] results[i]).product_id == id
}

/// Whether every result ranks before a record with the given score.
pub open spec fn outranked(results: Seq<SearchResult>, id: u32, score: nat) -> bool {
    forall|i: int|
        0 <= i < results.len() ==> (#[trigger] results[i]).score > score || (results[i].score
            == score && results[i].product_id < id)
}

/// No record has two results.
pub open spec fn distinct_ids(results: Seq<SearchResult>) -> bool {
    forall|i: int, j: int|
        0 <= i < j < results.len() ==> (#[trigger] results[i]).product_id != (
        #[trigger] results[j]).product_id
}

/// Whether `results` is the ranking of a query, cut at `top_k`: every
/// result is a record with a positive score and carries that score, the
/// results are in ranking order, and a record with a positive score is
/// only left out when `top_k` results rank before it.
pub open spec fn is_ranking(
    results: Seq<SearchResult>,
    postings: Map<Seq<char>, Map<u32, nat>>,
    tokens: Seq<Seq<char>>,
    top_k: nat,
) -> bool {
    &&& results.len() <= top_k
    &&& forall|i: int|
        0 <= i < results.len() ==> (#[trigger] results[i]).score > 0 && results[i].score
            == score_of(postings, tokens, results[i].product_id)
    &&& forall|i: int, j: int|
        0 <= i < j < results.len() ==> ranks_before(#[trigger] results[i], #[trigger] results[j])
    &&& forall|id: u32| #[trigger]
        score_of(postings, tokens, id) > 0 ==> ranked(results, id) || (results.len() == top_k
            && outranked(results, id, score_of(postings, tokens, id)))
}

/// The records that a token stream matches: those with a positive score.
pub open spec fn matching_records(postings: Map<Seq<char>, Map<u32, nat>>, tokens: Seq<Seq<char>>) -> Set<
    u32,
> {
    Set::new(|id: u32| score_of(postings, tokens, id) > 0)
}

/// The ranking of a token stream, cut at `top_k`.
pub open spec fn ranking_of(
    postings: Map<Seq<char>, Map<u32, nat>>,
    tokens: Seq<Seq<char>>,
    top_k: nat,
) -> Seq<SearchResult> {
    choose|results: Seq<SearchResult>| is_ranking(results, postings, tokens, top_k)
}

/// What a ranking promises its reader: the scores do not increase from one
/// position to the next, there are no more than `top_k` results, and every
/// result is a different record that matches the query.
pub proof fn lemma_ranking_order(
    results: Seq<SearchResult>,
    postings: Map<Seq<char>, Map<u32, nat>>,
    tokens: Seq<Seq<char>>,
    top_k: nat,
)
    requires
        is_ranking(results, postings, tokens, top_k),
    ensures
        forall|i: int, j: int|
            0 <= i <= j < results.len() ==> (#[trigger] results[i]).score >= (
            #[trigger] results[j]).score,
        results.len() <= top_k,
        forall|i: int|
            0 <= i < results.len() ==> score_of(postings, tokens, (#[trigger] results[i]).product_id)
                > 0,
        distinct_ids(results),
{
    assert forall|i: int, j: int| 0 <= i <= j < results.len() implies (#[trigger] results[i]).score
        >= (#[trigger] results[j]).score by {
        if i < j {
            assert(ranks_before(results[i], results[j]));
        }
    }
    assert forall|i: int, j: int| 0 <= i < j < results.len() implies (#[trigger] results[i]).product_id
        != (#[trigger] results[j]).product_id by {
        assert(ranks_before(results[i], results[j]));
    }
}

/// The length of a ranking: all the matching records where they are fewer
/// than `top_k`, and `top_k` results otherwise.
pub proof fn lemma_ranking_length(
    results: Seq<SearchResult>,
    postings: Map<Seq<char>, Map<u32, nat>>,
    tokens: Seq<Seq<char>>,
    top_k: nat,
)
    requires
        is_ranking(results, postings, tokens, top_k),
    ensures
        matching_records(postings, tokens).finite(),
        results.len() <= matching_records(postings, tokens).len(),
        results.len() == if matching_records(postings, tokens).len() < top_k {
            matching_records(postings, tokens).len()
        } else {
            top_k
        },
{
    let matching = matching_records(postings, tokens);
    let ids = results.map_values(|result: SearchResult| result.product_id);
    broadcast use vstd::set_lib::full_set_properties;

    assert(Set::<u32>::full().finite());
    vstd::set_lib::lemma_len_subset(matching, Set::<u32>::full());
    lemma_ranking_order(results, postings, tokens, top_k);
    assert(ids.no_duplicates()) by {
        assert forall|i: int, j: int| 0 <= i < ids.len() && 0 <= j < ids.len() && i != j implies ids[i]
            != ids[j] by {
            if i < j {
                assert(results[i].product_id != results[j].product_id);
            } else {
                assert(results[j].product_id != results[i].product_id);
            }
        }
    }
    ids.unique_seq_to_set();
    assert(ids.to_set().subset_of(matching)) by {
        assert forall|id: u32| ids.to_set().contains(id) implies matching.contains(id) by {
            let i = choose|i: int| 0 <= i < ids.len() && ids[i] == id;
            assert(score_of(postings, tokens, results[i].product_id) > 0);
        }
    }
    vstd::set_lib::lemma_len_subset(ids.to_set(), matching);
    if results.len() < top_k {
        assert(ids.to_set() =~= matching) by {
            assert forall|id: u32| matching.contains(id) implies ids.to_set().contains(id) by {
                assert(score_of(postings, tokens, id) > 0);
                assert(ranked(results, id));
                let i = choose|i: int| 0 <= i < results.len() && (#[trigger] results[i]).product_id == id;
                assert(ids[i] == id);
            }
        }
    }
}

/// Where two rankings of a query agree before `i`, the result of `a` at
/// `i` does not rank before that of `b`: else `b` would miss a record that
/// belongs before its own result.
proof fn lemma_ranking_misses(
    a: Seq<SearchResult>,
    b: Seq<SearchResult>,
    postings: Map<Seq<char>, Map<u32, nat>>,
    tokens: Seq<Seq<char>>,
    top_k: nat,
    i: int,
)
    requires
        is_ranking(a, postings, tokens, top_k),
        is_ranking(b, postings, tokens, top_k),
        0 <= i < a.len(),
        i < b.len(),
        forall|j: int| 0 <= j < i ==> a[j] == b[j],
    ensures
        !ranks_before(a[i], b[i]),
{
    let id = a[i].product_id;
    assert(score_of(postings, tokens, id) > 0);
    if ranks_before(a[i], b[i]) {
        if ranked(b, id) {
            let q = choose|q: int| 0 <= q < b.len() && (#[trigger] b[q]).product_id == id;
            assert(b[q] == a[i]);
            if q < i {
                assert(a[q] == b[q]);
                assert(ranks_before(a[q], a[i]));
            } else if q > i {
                assert(ranks_before(b[i], b[q]));
            }
        } else {
            assert(outranked(b, id, score_of(postings, tokens, id)));
            assert(b[i].score > a[i].score || (b[i].score == a[i].score && b[i].product_id < id));
        }
    }
}

/// Two sequences of results that both are the ranking of a query, cut at
/// `top_k`, hold the same result at every position that both have.
proof fn lemma_ranking_agrees(
    a: Seq<SearchResult>,
    b: Seq<SearchResult>,
    postings: Map<Seq<char>, Map<u32, nat>>,
    tokens: Seq<Seq<char>>,
    top_k: nat,
    i: int,
)
    requires
        is_ranking(a, postings, tokens, top_k),
        is_ranking(b, postings, tokens, top_k),
        0 <= i < a.len(),
        i < b.len(),
    ensures
        a[i] == b[i],
    decreases i,
{
    assert forall|j: int| 0 <= j < i implies a[j] == b[j] by {
        lemma_ranking_agrees(a, b, postings, tokens, top_k, j);
    }
    if a[i] != b[i] {
        assert(a[i].product_id != b[i].product_id);
        lemma_ranking_misses(a, b, postings, tokens, top_k, i);
        lemma_ranking_misses(b, a, postings, tokens, top_k, i);
    }
}

/// Of two rankings of a query, the second is not longer than the first.
proof fn lemma_ranking_not_longer(
    a: Seq<SearchResult>,
    b: Seq<SearchResult>,
    postings: Map<Seq<char>, Map<u32, nat>>,
    tokens: Seq<Seq<char>>,
    top_k: nat,
)
    requires
        is_ranking(a, postings, tokens, top_k),
        is_ranking(b, postings, tokens, top_k),
    ensures
        b.len() <= a.len(),
{
    if a.len() < b.len() {
        let extra = b[a.len() as int];
        let id = extra.product_id;
        assert(score_of(postings, tokens, id) > 0);
        assert(ranked(a, id));
        let q = choose|q: int| 0 <= q < a.len() && (#[trigger] a[q]).product_id == id;
        lemma_ranking_agrees(a, b, postings, tokens, top_k, q);
        assert(b[q] == extra);
        assert(ranks_before(b[q], b[a.len() as int]));
    }
}

/// A query has one ranking: what makes a ranking leaves no choice.
pub proof fn lemma_ranking_is_unique(
    a: Seq<SearchResult>,
    b: Seq<SearchResult>,
    postings: Map<Seq<char>, Map<u32, nat>>,
    tokens: Seq<Seq<char>>,
    top_k: nat,
)
    requires
        is_ranking(a, postings, tokens, top_k),
        is_ranking(b, postings, tokens, top_k),
    ensures
        a == b,
{
    lemma_ranking_not_longer(a, b, postings, tokens, top_k);
    lemma_ranking_not_longer(b, a, postings, tokens, top_k);
    assert forall|i: int| 0 <= i < a.len() implies a[i] == b[i] by {
        lemma_ranking_agrees(a, b, postings, tokens, top_k, i);
    }
    assert(a =~= b);
}

/// A sequence of results that is a ranking of a token stream is the
/// ranking of it.
pub proof fn lemma_ranking_of(
    results: Seq<SearchResult>,
    postings: Map<Seq<char>, Map<u32, nat>>,
    tokens: Seq<Seq<char>>,
    top_k: nat,
)
    requires
        is_ranking(results, postings, tokens, top_k),
    ensures
        results == ranking_of(postings, tokens, top_k),
{
    lemma_ranking_is_unique(results, ranking_of(postings, tokens, top_k), postings, tokens, top_k);
}

} // verus!
