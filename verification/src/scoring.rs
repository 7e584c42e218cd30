//! Score accumulation: the scores of all records for a token stream, from
//! the posting lists of its tokens.

use crate::postings::lemma_freq_absent;
use crate::postings::posting_freq;
use crate::postings::postings_wf;
use crate::postings::Posting;
use crate::ranking::distinct_ids;
use crate::ranking::ranked;
use crate::ranking::score_of;
use crate::search::SearchResult;
use crate::table::frequency;
use crate::table::PostingsMap;
use crate::tokenizer::strings_view;
use std::collections::HashMap;
use vstd::prelude::*;

verus! {

broadcast use vstd::std_specs::hash::group_hash_axioms;

/// What one occurrence of a query token in a record adds to the record's
/// score.
pub const BOOST: u64 = 1;

/// The score that a map of scores holds for a record, 0 when it holds
/// none.
pub open spec fn held_score(scores: Map<u32, u128>, id: u32) -> nat {
    if scores.contains_key(id) {
        scores[id] as nat
    } else {
        0
    }
}

/// The scores under accumulation: every score is positive, and `order`
/// lists the records that have one, each once.
pub open spec fn tallied(scores: Map<u32, u128>, order: Seq<u32>) -> bool {
    &&& order.no_duplicates()
    &&& forall|id: u32| #[trigger] scores.contains_key(id) <==> order.contains(id)
    &&& forall|id: u32| #[trigger] scores.contains_key(id) ==> scores[id] > 0
}

/// The score of a record is bounded by the number of tokens: no frequency
/// exceeds `u64::MAX`.
pub proof fn lemma_score_bound(table: &PostingsMap, tokens: Seq<Seq<char>>, id: u32)
    ensures
        score_of(table@, tokens, id) <= tokens.len() * u64::MAX,
    decreases tokens.len(),
{
    if tokens.len() > 0 {
        lemma_score_bound(table, tokens.drop_last(), id);
        table.lemma_view_frequency(tokens.last(), id);
        assert((tokens.len() - 1) * u64::MAX + u64::MAX == tokens.len() * u64::MAX)
            by (nonlinear_arith);
    }
}

/// The largest score that `tokens` query tokens can give a record fits in
/// `u128`.
proof fn lemma_score_fits(tokens: nat)
    requires
        tokens <= u64::MAX,
    ensures
        tokens * u64::MAX <= u128::MAX,
{
    assert(tokens * u64::MAX <= u64::MAX * u64::MAX) by (nonlinear_arith)
        requires
            tokens <= u64::MAX,
    ;
    assert(u64::MAX * u64::MAX <= u128::MAX) by (nonlinear_arith);
}

/// Adds an amount to the score held for a record, starting from 0 when
/// none is held for it.
fn add_score(scores: &mut HashMap<u32, u128>, order: &mut Vec<u32>, id: u32, amount: u128)
    requires
        tallied(old(scores)@, old(order)@),
        amount > 0,
        held_score(old(scores)@, id) + amount <= u128::MAX,
    ensures
        tallied(final(scores)@, final(order)@),
        forall|other: u32|
            held_score(final(scores)@, other) == #[trigger] held_score(old(scores)@, other)
                + if other == id {
                amount as nat
            } else {
                0
            },
{
    let held = match scores.get(&id) {
        Some(score) => Some(*score),
        None => None,
    };
    match held {
        Some(score) => {
            scores.insert(id, score + amount);
            proof {
                assert forall|other: u32| #[trigger]
                    scores@.contains_key(other) <==> order@.contains(other) by {
                    assert(old(scores)@.contains_key(other) <==> order@.contains(other));
                }
            }
        },
        None => {
            scores.insert(id, amount);
            order.push(id);
            proof {
                let before = old(order)@;
                let after = order@;
                assert(after.drop_last() =~= before);
                assert forall|other: u32| #[trigger]
                    scores@.contains_key(other) <==> after.contains(other) by {
                    assert(old(scores)@.contains_key(other) <==> before.contains(other));
                    if after.contains(other) {
                        let k = choose|k: int| 0 <= k < after.len() && after[k] == other;
                        if k < before.len() {
                            assert(before[k] == other);
                        }
                    }
                    if before.contains(other) {
                        let k = choose|k: int| 0 <= k < before.len() && before[k] == other;
                        assert(after[k] == other);
                    }
                    if other == id {
                        assert(after[after.len() - 1] == id);
                    }
                }
                assert forall|a: int, b: int|
                    0 <= a < after.len() && 0 <= b < after.len() && a != b implies after[a]
                    != after[b] by {
                    if a < before.len() && b < before.len() {
                        assert(before[a] != before[b]);
                    } else if a < before.len() {
                        assert(before.contains(before[a]));
                    } else {
                        assert(before.contains(before[b]));
                    }
                }
            }
        },
    }
}

/// Adds to the scores what the postings of one query token contribute.
fn add_postings(
    scores: &mut HashMap<u32, u128>,
    order: &mut Vec<u32>,
    postings: &Vec<Posting>,
    Ghost(base): Ghost<spec_fn(u32) -> nat>,
    Ghost(limit): Ghost<nat>,
)
    requires
        tallied(old(scores)@, old(order)@),
        postings@.len() == 0 || postings_wf(postings@),
        forall|id: u32| held_score(old(scores)@, id) == #[trigger] base(id),
        forall|id: u32| #[trigger] base(id) <= limit,
        limit + u64::MAX <= u128::MAX,
    ensures
        tallied(final(scores)@, final(order)@),
        forall|id: u32|
            held_score(final(scores)@, id) == #[trigger] base(id) + posting_freq(postings@, id)
                * BOOST as nat,
{
    let mut j: usize = 0;
    proof {
        assert(postings@.take(0) =~= Seq::<Posting>::empty());
    }
    while j < postings.len()
        invariant
            j <= postings@.len(),
            tallied(scores@, order@),
            postings@.len() == 0 || postings_wf(postings@),
            forall|id: u32| #[trigger] base(id) <= limit,
            limit + u64::MAX <= u128::MAX,
            forall|id: u32|
                held_score(scores@, id) == #[trigger] base(id) + posting_freq(
                    postings@.take(j as int),
                    id,
                ) * BOOST as nat,
        decreases postings@.len() - j,
    {
        let posting = postings[j];
        let ghost seen = postings@.take(j as int);
        let ghost before = scores@;
        proof {
            assert(postings@.take(j + 1).drop_last() =~= seen);
            assert(postings@.take(j + 1).last() == posting);
            assert forall|k: int| 0 <= k < seen.len() implies (#[trigger] seen[k]).product_id
                != posting.product_id by {
                assert(postings@[k].product_id != postings@[j as int].product_id);
            }
            lemma_freq_absent(seen, posting.product_id);
            assert(held_score(before, posting.product_id) == base(posting.product_id));
            assert(postings@[j as int].freq > 0);
        }
        let amount: u128 = posting.freq as u128 * BOOST as u128;
        add_score(scores, order, posting.product_id, amount);
        proof {
            assert forall|id: u32|
                held_score(scores@, id) == #[trigger] base(id) + posting_freq(
                    postings@.take(j + 1),
                    id,
                ) * BOOST as nat by {
                assert(held_score(scores@, id) == held_score(before, id) + if id
                    == posting.product_id {
                    amount as nat
                } else {
                    0
                });
                assert(held_score(before, id) == base(id) + posting_freq(seen, id) * BOOST as nat);
            }
        }
        j += 1;
    }
    assert(postings@.take(j as int) =~= postings@);
}

/// The score of every record for a token stream: one result for each
/// record with a positive score.
pub(crate) fn accumulate(table: &PostingsMap, tokens: &Vec<String>) -> (results: Vec<SearchResult>)
    requires
        table.wf(),
    ensures
        distinct_ids(results@),
        forall|i: int|
            0 <= i < results@.len() ==> (#[trigger] results@[i]).score > 0 && results@[i].score
                == score_of(table@, strings_view(tokens@), results@[i].product_id),
        forall|id: u32| #[trigger]
            score_of(table@, strings_view(tokens@), id) > 0 ==> ranked(results@, id),
{
    let ghost stream = strings_view(tokens@);
    let mut scores: HashMap<u32, u128> = HashMap::new();
    let mut order: Vec<u32> = Vec::new();
    let mut i: usize = 0;
    proof {
        assert(stream.take(0) =~= Seq::<Seq<char>>::empty());
    }
    while i < tokens.len()
        invariant
            i <= tokens@.len(),
            table.wf(),
            stream == strings_view(tokens@),
            tallied(scores@, order@),
            forall|id: u32|
                held_score(scores@, id) == #[trigger] score_of(table@, stream.take(i as int), id),
        decreases tokens@.len() - i,
    {
        let token = &tokens[i];
        let ghost seen = stream.take(i as int);
        let ghost base = |id: u32| score_of(table@, seen, id);
        let ghost limit = i as nat * u64::MAX as nat;
        proof {
            assert(stream.take(i + 1).drop_last() =~= seen);
            assert(stream.take(i + 1).last() == token@);
            assert forall|id: u32| #[trigger] base(id) <= limit by {
                lemma_score_bound(table, seen, id);
            }
            lemma_score_fits((i + 1) as nat);
            assert((i + 1) * u64::MAX == i * u64::MAX + u64::MAX) by (nonlinear_arith);
            assert forall|id: u32|
                frequency(table@, token@, id) == posting_freq(table.lookup(token@), id) by {
                table.lemma_view_frequency(token@, id);
            }
        }
        match table.get(token) {
            Some(postings) => {
                add_postings(&mut scores, &mut order, postings, Ghost(base), Ghost(limit));
            },
            None => {},
        }
        proof {
            assert forall|id: u32|
                held_score(scores@, id) == #[trigger] score_of(table@, stream.take(i + 1), id) by {
                assert(frequency(table@, token@, id) == posting_freq(table.lookup(token@), id));
                assert(score_of(table@, stream.take(i + 1), id) == base(id) + frequency(
                    table@,
                    token@,
                    id,
                ) * BOOST as nat);
            }
        }
        i += 1;
    }
    assert(stream.take(i as int) =~= stream);
    let mut results: Vec<SearchResult> = Vec::new();
    let mut k: usize = 0;
    while k < order.len()
        invariant
            k <= order@.len(),
            tallied(scores@, order@),
            results@.len() == k,
            forall|j: int|
                0 <= j < k ==> (#[trigger] results@[j]).product_id == order@[j] && results@[j].score
                    == scores@[order@[j]],
        decreases order@.len() - k,
    {
        let id = order[k];
        assert(order@.contains(order@[k as int]));
        match scores.get(&id) {
            Some(score) => {
                results.push(SearchResult { product_id: id, score: *score });
            },
            None => {},
        }
        k += 1;
    }
    proof {
        assert forall|a: int, b: int| 0 <= a < b < results@.len() implies (#[trigger] results@[a]).product_id
            != (#[trigger] results@[b]).product_id by {
            assert(order@[a] != order@[b]);
        }
        assert forall|j: int| 0 <= j < results@.len() implies (#[trigger] results@[j]).score > 0
            && results@[j].score == score_of(table@, stream, results@[j].product_id) by {
            assert(order@.contains(order@[j]));
            assert(scores@.contains_key(order@[j]));
            assert(held_score(scores@, order@[j]) == score_of(table@, stream, order@[j]));
        }
        assert forall|id: u32| #[trigger] score_of(table@, stream, id) > 0 implies ranked(
            results@,
            id,
        ) by {
            assert(held_score(scores@, id) > 0);
            assert(order@.contains(id));
            let j = choose|j: int| 0 <= j < order@.len() && order@[j] == id;
            assert(results@[j].product_id == id);
        }
    }
    results
}

} // verus!
