//! Query-time search: ranks the records that a query matches and joins the
//! results to the stored records.

use crate::index::lemma_inverted_frequency;
use crate::index::InvertedIndex;
use crate::model::Product;
use crate::model::ProductView;
use crate::ranking::is_ranking;
use crate::ranking::lemma_ranking_length;
use crate::ranking::lemma_ranking_of;
use crate::ranking::lemma_ranking_order;
use crate::ranking::matching_records;
use crate::ranking::outranked;
use crate::ranking::ranked;
use crate::ranking::ranking_of;
use crate::ranking::ranks_before;
use crate::ranking::score_of;
use crate::scoring::accumulate;
use crate::sorting::in_rank_order;
use crate::table::frequency;
use crate::table::PostingsMap;
use crate::tokenizer::strings_view;
use crate::tokenizer::tokenize;
use crate::tokenizer::tokens_of;
use vstd::prelude::*;

verus! {

/// A record with its score for a query.
#[derive(Debug, Clone, Copy, PartialEq, Eq, Structural)]
pub struct SearchResult {
    pub product_id: u32,
    pub score: u128,
}

/// Ranks the records that a token stream matches in a table of postings,
/// and returns the first `top_k` of the ranking.
pub fn rank(table: &PostingsMap, tokens: &Vec<String>, top_k: usize) -> (results: Vec<SearchResult>)
    requires
        table.wf(),
    ensures
        is_ranking(results@, table@, strings_view(tokens@), top_k as nat),
        results@ == ranking_of(table@, strings_view(tokens@), top_k as nat),
{
    let ghost stream = strings_view(tokens@);
    let scores = accumulate(table, tokens);
    let mut results = in_rank_order(&scores);
    let ghost ordered = results@;
    results.truncate(top_k);
    proof {
        let cut = results@;
        assert forall|i: int| 0 <= i < cut.len() implies (#[trigger] cut[i]).score > 0 && cut[i].score
            == score_of(table@, stream, cut[i].product_id) by {
            assert(cut[i] == ordered[i]);
            assert(scores@.contains(ordered[i]));
            let o = choose|o: int| 0 <= o < scores@.len() && scores@[o] == ordered[i];
            assert(scores@[o].score > 0);
        }
        assert forall|i: int, j: int| 0 <= i < j < cut.len() implies ranks_before(
            #[trigger] cut[i],
            #[trigger] cut[j],
        ) by {
            assert(cut[i] == ordered[i] && cut[j] == ordered[j]);
        }
        assert forall|id: u32| #[trigger] score_of(table@, stream, id) > 0 implies ranked(cut, id)
            || (cut.len() == top_k && outranked(cut, id, score_of(table@, stream, id))) by {
            assert(ranked(scores@, id));
            let o = choose|o: int| 0 <= o < scores@.len() && (#[trigger] scores@[o]).product_id == id;
            assert(ordered.contains(scores@[o]));
            let q = choose|q: int| 0 <= q < ordered.len() && ordered[q] == scores@[o];
            if q < cut.len() {
                assert(cut[q].product_id == id);
            } else {
                assert forall|i: int| 0 <= i < cut.len() implies (#[trigger] cut[i]).score
                    > score_of(table@, stream, id) || (cut[i].score == score_of(table@, stream, id)
                    && cut[i].product_id < id) by {
                    assert(cut[i] == ordered[i]);
                    assert(ranks_before(ordered[i], ordered[q]));
                }
            }
        }
        lemma_ranking_of(cut, table@, stream, top_k as nat);
    }
    results
}

/// The records of a list of results with their scores, in the order of the
/// results. A result whose record is not stored is left out.
pub open spec fn hydrated(results: Seq<SearchResult>, records: Map<u32, ProductView>) -> Seq<
    (ProductView, u128),
> {
    results.filter(|result: SearchResult| records.contains_key(result.product_id)).map_values(
        |result: SearchResult| (records[result.product_id], result.score),
    )
}

/// The records and scores of a list of hits.
pub open spec fn hits_view(hits: Seq<(Product, u128)>) -> Seq<(ProductView, u128)> {
    hits.map_values(|hit: (Product, u128)| (hit.0@, hit.1))
}

/// Where the record of every result is stored, no result is left out.
pub proof fn lemma_hydrated_all(results: Seq<SearchResult>, records: Map<u32, ProductView>)
    requires
        forall|i: int|
            0 <= i < results.len() ==> records.contains_key((#[trigger] results[i]).product_id),
    ensures
        hydrated(results, records).len() == results.len(),
        forall|i: int|
            0 <= i < results.len() ==> #[trigger] hydrated(results, records)[i] == (
                records[results[i].product_id],
                results[i].score,
            ),
    decreases results.len(),
{
    reveal(Seq::filter);
    let stored = |result: SearchResult| records.contains_key(result.product_id);
    if results.len() > 0 {
        let rest = results.drop_last();
        assert forall|i: int| 0 <= i < rest.len() implies records.contains_key(
            (#[trigger] rest[i]).product_id,
        ) by {
            assert(records.contains_key(results[i].product_id));
        }
        lemma_hydrated_all(rest, records);
        assert(records.contains_key(results[results.len() - 1].product_id));
        assert(results.filter(stored) == rest.filter(stored).push(results.last()));
        assert forall|i: int| 0 <= i < results.len() implies #[trigger] hydrated(results, records)[i]
            == (records[results[i].product_id], results[i].score) by {
            if i < rest.len() {
                assert(hydrated(rest, records)[i] == (records[rest[i].product_id], rest[i].score));
                assert(results.filter(stored)[i] == rest.filter(stored)[i]);
            }
        }
    }
}

/// A record with a positive score is stored in the index.
pub proof fn lemma_scored_is_stored(index: &InvertedIndex, tokens: Seq<Seq<char>>, id: u32)
    requires
        index.wf(),
        score_of(index.postings(), tokens, id) > 0,
    ensures
        index.records().contains_key(id),
    decreases tokens.len(),
{
    index.lemma_postings_inverted();
    if tokens.len() > 0 {
        if frequency(index.postings(), tokens.last(), id) > 0 {
            lemma_inverted_frequency(index.records(), tokens.last(), id);
        } else {
            lemma_scored_is_stored(index, tokens.drop_last(), id);
        }
    }
}

/// Joins results to the stored records: each result whose record is
/// stored gives the record and the result's score, in the order of the
/// results. A result whose record is no longer stored is dropped.
pub fn hydrate(index: &InvertedIndex, results: &Vec<SearchResult>) -> (hits: Vec<(Product, u128)>)
    ensures
        hits_view(hits@) == hydrated(results@, index.records()),
{
    let ghost records = index.records();
    let ghost stored = |result: SearchResult| records.contains_key(result.product_id);
    let ghost joined = |result: SearchResult| (records[result.product_id], result.score);
    let mut hits: Vec<(Product, u128)> = Vec::new();
    let mut i: usize = 0;
    proof {
        reveal(Seq::filter);
        assert(results@.take(0) =~= Seq::<SearchResult>::empty());
        assert(hits_view(hits@) =~= results@.take(0).filter(stored).map_values(joined));
    }
    while i < results.len()
        invariant
            i <= results@.len(),
            records == index.records(),
            stored == |result: SearchResult| records.contains_key(result.product_id),
            joined == |result: SearchResult| (records[result.product_id], result.score),
            hits_view(hits@) == results@.take(i as int).filter(stored).map_values(joined),
        decreases results@.len() - i,
    {
        let result = results[i];
        let ghost before = hits_view(hits@);
        proof {
            reveal(Seq::filter);
            assert(results@.take(i + 1).drop_last() =~= results@.take(i as int));
            assert(results@.take(i + 1).last() == result);
        }
        match index.get_product(&result.product_id) {
            Some(product) => {
                hits.push((product, result.score));
                assert(hits_view(hits@) =~= before.push(joined(result)));
                assert(hits_view(hits@) =~= results@.take(i + 1).filter(stored).map_values(joined));
            },
            None => {},
        }
        i += 1;
    }
    assert(results@.take(i as int) =~= results@);
    hits
}

/// Answers queries over one index.
pub struct Searcher<'a> {
    pub index: &'a InvertedIndex,
}

impl<'a> Searcher<'a> {
    /// A searcher over `index`.
    pub fn new(index: &'a InvertedIndex) -> (searcher: Searcher<'a>)
        ensures
            searcher.index == index,
    {
        Searcher { index }
    }

    /// The ranking of the records that match a query, cut at `top_k`. It
    /// is computed on one snapshot of the index. A query without terms
    /// matches nothing. The scores do not increase along the ranking, and
    /// there are no more results than `top_k` and than matching records.
    pub fn search(&self, query: &str, top_k: usize) -> (results: Vec<SearchResult>)
        requires
            self.index.wf(),
        ensures
            results@ == ranking_of(self.index.postings(), tokens_of(query@), top_k as nat),
            is_ranking(results@, self.index.postings(), tokens_of(query@), top_k as nat),
            forall|i: int, j: int|
                0 <= i <= j < results@.len() ==> (#[trigger] results@[i]).score >= (
                #[trigger] results@[j]).score,
            results@.len() <= top_k,
            results@.len() <= matching_records(self.index.postings(), tokens_of(query@)).len(),
    {
        let tokens = tokenize(query);
        let results = if tokens.is_empty() {
            Vec::new()
        } else {
            let snapshot = self.index.get_index_snapshot();
            rank(&snapshot, &tokens, top_k)
        };
        proof {
            let postings = self.index.postings();
            if tokens@.len() == 0 {
                assert(tokens_of(query@) =~= Seq::<Seq<char>>::empty());
                assert(is_ranking(results@, postings, tokens_of(query@), top_k as nat));
            }
            lemma_ranking_of(results@, postings, tokens_of(query@), top_k as nat);
            lemma_ranking_order(results@, postings, tokens_of(query@), top_k as nat);
            lemma_ranking_length(results@, postings, tokens_of(query@), top_k as nat);
        }
        results
    }

    /// The ranking of the records that match a query, cut at `top_k`, each
    /// result joined to its stored record: the records in ranking order,
    /// each with its score.
    pub fn search_products(&self, query: &str, top_k: usize) -> (hits: Vec<(Product, u128)>)
        requires
            self.index.wf(),
        ensures
            hits_view(hits@) == hydrated(
                ranking_of(self.index.postings(), tokens_of(query@), top_k as nat),
                self.index.records(),
            ),
            hits@.len() == ranking_of(
                self.index.postings(),
                tokens_of(query@),
                top_k as nat,
            ).len(),
    {
        let results = self.search(query, top_k);
        let hits = hydrate(self.index, &results);
        proof {
            let ranking = results@;
            assert forall|i: int| 0 <= i < ranking.len() implies self.index.records().contains_key(
                (#[trigger] ranking[i]).product_id,
            ) by {
                lemma_scored_is_stored(self.index, tokens_of(query@), ranking[i].product_id);
            }
            lemma_hydrated_all(ranking, self.index.records());
            assert(hits_view(hits@).len() == hits@.len());
        }
        hits
    }
}

} // verus!
