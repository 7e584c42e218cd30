//! Posting lists: the records under one term, each with its frequency.

use vstd::prelude::*;

verus! {

/// One record under one term: the record's identifier and how often the
/// term occurs in the record.
#[derive(Debug, Clone, Copy, PartialEq, Eq, Structural)]
pub struct Posting {
    pub product_id: u32,
    pub freq: u64,
}

/// The frequency that a posting list holds for a record, 0 when the list
/// has no posting for it.
pub open spec fn posting_freq(postings: Seq<Posting>, id: u32) -> nat
    decreases postings.len(),
{
    if postings.len() == 0 {
        0
    } else if postings.last().product_id == id {
        postings.last().freq as nat
    } else {
        posting_freq(postings.drop_last(), id)
    }
}

/// A posting list as it is kept in the table: not empty, at most one
/// posting per record, and no posting with frequency 0.
pub open spec fn postings_wf(postings: Seq<Posting>) -> bool {
    &&& postings.len() > 0
    &&& forall|j: int| 0 <= j < postings.len() ==> (#[trigger] postings[j]).freq > 0
    &&& forall|j: int, k: int|
        0 <= j < k < postings.len() ==> (#[trigger] postings[j]).product_id != (
        #[trigger] postings[k]).product_id
}

/// A posting list without the postings of one record.
pub open spec fn without(postings: Seq<Posting>, id: u32) -> Seq<Posting> {
    postings.filter(|p: Posting| p.product_id != id)
}

/// Whether a posting list has a posting for a record.
pub open spec fn has_posting(postings: Seq<Posting>, id: u32) -> bool {
    exists|j: int| 0 <= j < postings.len() && (#[trigger] postings[j]).product_id == id
}

/// Whether `j` is the position of the first posting of a record in a list.
pub open spec fn is_first_posting(postings: Seq<Posting>, id: u32, j: int) -> bool {
    &&& 0 <= j < postings.len()
    &&& postings[j].product_id == id
    &&& forall|k: int| 0 <= k < j ==> (#[trigger] postings[k]).product_id != id
}

/// The position of the first posting of a record in a list that has one.
pub open spec fn posting_position(postings: Seq<Posting>, id: u32) -> int {
    choose|j: int| is_first_posting(postings, id, j)
}

/// A posting list after a posting was recorded in it: the record's first
/// posting is overwritten in place, or else the posting is appended.
pub open spec fn upserted(postings: Seq<Posting>, posting: Posting) -> Seq<Posting> {
    if has_posting(postings, posting.product_id) {
        postings.update(posting_position(postings, posting.product_id), posting)
    } else {
        postings.push(posting)
    }
}

/// A list without postings for a record holds frequency 0 for it.
pub proof fn lemma_freq_absent(postings: Seq<Posting>, id: u32)
    requires
        !has_posting(postings, id),
    ensures
        posting_freq(postings, id) == 0,
    decreases postings.len(),
{
    if postings.len() > 0 {
        let rest = postings.drop_last();
        assert(postings[postings.len() - 1].product_id != id);
        assert forall|j: int| 0 <= j < rest.len() implies (#[trigger] rest[j]).product_id
            != id by {
            assert(postings[j].product_id != id);
        }
        lemma_freq_absent(rest, id);
    }
}

/// In a list with at most one posting per record, the frequency held for
/// a record is that of its posting.
pub proof fn lemma_freq_at(postings: Seq<Posting>, j: int)
    requires
        0 <= j < postings.len(),
        forall|a: int, b: int|
            0 <= a < b < postings.len() ==> (#[trigger] postings[a]).product_id != (
            #[trigger] postings[b]).product_id,
    ensures
        posting_freq(postings, postings[j].product_id) == postings[j].freq,
    decreases postings.len(),
{
    let end = postings.len() - 1;
    if j != end {
        let rest = postings.drop_last();
        assert(postings[j].product_id != postings[end].product_id);
        assert forall|a: int, b: int| 0 <= a < b < rest.len() implies (#[trigger] rest[a]).product_id
            != (#[trigger] rest[b]).product_id by {
            assert(postings[a].product_id != postings[b].product_id);
        }
        assert(rest[j] == postings[j]);
        lemma_freq_at(rest, j);
    }
}

/// A frequency held by a list is that of a posting, so within `u64`.
pub proof fn lemma_freq_bound(postings: Seq<Posting>, id: u32)
    ensures
        posting_freq(postings, id) <= u64::MAX,
    decreases postings.len(),
{
    if postings.len() > 0 && postings.last().product_id != id {
        lemma_freq_bound(postings.drop_last(), id);
    }
}

/// Every posting of `without(postings, id)` is a posting of `postings` for
/// another record, and the list is no longer than `postings`.
pub proof fn lemma_without_members(postings: Seq<Posting>, id: u32)
    ensures
        without(postings, id).len() <= postings.len(),
        forall|j: int|
            0 <= j < without(postings, id).len() ==> {
                &&& (#[trigger] without(postings, id)[j]).product_id != id
                &&& postings.contains(without(postings, id)[j])
            },
    decreases postings.len(),
{
    reveal(Seq::filter);
    if postings.len() > 0 {
        let rest = postings.drop_last();
        lemma_without_members(rest, id);
        assert forall|j: int| 0 <= j < without(postings, id).len() implies {
            &&& (#[trigger] without(postings, id)[j]).product_id != id
            &&& postings.contains(without(postings, id)[j])
        } by {
            if j < without(rest, id).len() {
                let k = choose|k: int| 0 <= k < rest.len() && rest[k] == without(rest, id)[j];
                assert(postings[k] == without(postings, id)[j]);
            } else {
                assert(postings[postings.len() - 1] == without(postings, id)[j]);
            }
        }
    }
}

/// Removing a record's postings sets its frequency to 0 and leaves the
/// frequencies of the other records as they were.
pub proof fn lemma_without_freq(postings: Seq<Posting>, id: u32, other: u32)
    ensures
        posting_freq(without(postings, id), other) == if other == id {
            0
        } else {
            posting_freq(postings, other)
        },
    decreases postings.len(),
{
    reveal(Seq::filter);
    if postings.len() > 0 {
        let rest = postings.drop_last();
        lemma_without_freq(rest, id, other);
        if postings.last().product_id != id {
            assert(without(postings, id).drop_last() =~= without(rest, id));
        }
    }
}

/// Removing a record's postings keeps the list free of repeated records
/// and of zero frequencies.
pub proof fn lemma_without_keeps_order(postings: Seq<Posting>, id: u32)
    requires
        forall|j: int| 0 <= j < postings.len() ==> (#[trigger] postings[j]).freq > 0,
        forall|j: int, k: int|
            0 <= j < k < postings.len() ==> (#[trigger] postings[j]).product_id != (
            #[trigger] postings[k]).product_id,
    ensures
        forall|j: int|
            0 <= j < without(postings, id).len() ==> (#[trigger] without(postings, id)[j]).freq
                > 0,
        forall|j: int, k: int|
            0 <= j < k < without(postings, id).len() ==> (#[trigger] without(
                postings,
                id,
            )[j]).product_id != (#[trigger] without(postings, id)[k]).product_id,
    decreases postings.len(),
{
    reveal(Seq::filter);
    if postings.len() > 0 {
        let rest = postings.drop_last();
        let end = postings.len() - 1;
        assert forall|j: int| 0 <= j < rest.len() implies (#[trigger] rest[j]).freq > 0 by {
            assert(postings[j].freq > 0);
        }
        assert forall|j: int, k: int| 0 <= j < k < rest.len() implies (#[trigger] rest[j]).product_id
            != (#[trigger] rest[k]).product_id by {
            assert(postings[j].product_id != postings[k].product_id);
        }
        lemma_without_keeps_order(rest, id);
        lemma_without_members(rest, id);
        let kept = without(postings, id);
        assert forall|j: int| 0 <= j < kept.len() implies (#[trigger] kept[j]).freq > 0 by {
            if j < without(rest, id).len() {
                assert(kept[j] == without(rest, id)[j]);
            } else {
                assert(kept[j] == postings[end]);
            }
        }
        assert forall|j: int, k: int| 0 <= j < k < kept.len() implies (#[trigger] kept[j]).product_id
            != (#[trigger] kept[k]).product_id by {
            if k < without(rest, id).len() {
                assert(kept[j] == without(rest, id)[j]);
                assert(kept[k] == without(rest, id)[k]);
            } else {
                assert(kept[k] == postings[end]);
                assert(kept[j] == without(rest, id)[j]);
                let a = choose|a: int| 0 <= a < rest.len() && rest[a] == without(rest, id)[j];
                assert(postings[a].product_id != postings[end].product_id);
            }
        }
    }
}

/// In a list with at most one posting per record, the position of a
/// record's posting is the position of its only posting.
pub proof fn lemma_position_unique(postings: Seq<Posting>, j: int)
    requires
        0 <= j < postings.len(),
        forall|a: int, b: int|
            0 <= a < b < postings.len() ==> (#[trigger] postings[a]).product_id != (
            #[trigger] postings[b]).product_id,
    ensures
        posting_position(postings, postings[j].product_id) == j,
{
    let id = postings[j].product_id;
    assert(is_first_posting(postings, id, j)) by {
        assert forall|k: int| 0 <= k < j implies (#[trigger] postings[k]).product_id != id by {
            assert(postings[k].product_id != postings[j].product_id);
        }
    }
    let at = posting_position(postings, id);
    assert(is_first_posting(postings, id, at));
    if at < j {
        assert(postings[at].product_id != postings[j].product_id);
    } else if j < at {
        assert(postings[j].product_id != postings[at].product_id);
    }
}

/// Recording a posting sets the frequency of its record and leaves the
/// frequencies of the other records as they were.
pub proof fn lemma_upserted_freq(postings: Seq<Posting>, posting: Posting, other: u32)
    requires
        forall|j: int, k: int|
            0 <= j < k < postings.len() ==> (#[trigger] postings[j]).product_id != (
            #[trigger] postings[k]).product_id,
    ensures
        posting_freq(upserted(postings, posting), other) == if other == posting.product_id {
            posting.freq as nat
        } else {
            posting_freq(postings, other)
        },
{
    let after = upserted(postings, posting);
    lemma_upserted_distinct(postings, posting);
    if has_posting(postings, posting.product_id) {
        let found = choose|j: int|
            0 <= j < postings.len() && (#[trigger] postings[j]).product_id == posting.product_id;
        lemma_position_unique(postings, found);
        let at = posting_position(postings, posting.product_id);
        if other == posting.product_id {
            lemma_freq_at(after, at);
        } else if has_posting(postings, other) {
            let j = choose|j: int|
                0 <= j < postings.len() && (#[trigger] postings[j]).product_id == other;
            assert(after[j] == postings[j]);
            lemma_freq_at(after, j);
            lemma_freq_at(postings, j);
        } else {
            assert forall|j: int| 0 <= j < after.len() implies (#[trigger] after[j]).product_id
                != other by {
                if j != at {
                    assert(postings[j].product_id != other);
                }
            }
            lemma_freq_absent(after, other);
            lemma_freq_absent(postings, other);
        }
    } else {
        assert(after.drop_last() =~= postings);
    }
}

/// Recording a posting keeps the list free of repeated records.
pub proof fn lemma_upserted_distinct(postings: Seq<Posting>, posting: Posting)
    requires
        forall|j: int, k: int|
            0 <= j < k < postings.len() ==> (#[trigger] postings[j]).product_id != (
            #[trigger] postings[k]).product_id,
    ensures
        upserted(postings, posting).len() > 0,
        forall|j: int, k: int|
            0 <= j < k < upserted(postings, posting).len() ==> (#[trigger] upserted(
                postings,
                posting,
            )[j]).product_id != (#[trigger] upserted(postings, posting)[k]).product_id,
{
    let after = upserted(postings, posting);
    if has_posting(postings, posting.product_id) {
        let found = choose|j: int|
            0 <= j < postings.len() && (#[trigger] postings[j]).product_id == posting.product_id;
        lemma_position_unique(postings, found);
        assert forall|j: int, k: int| 0 <= j < k < after.len() implies (#[trigger] after[j]).product_id
            != (#[trigger] after[k]).product_id by {
            assert(postings[j].product_id != postings[k].product_id);
            assert(after[j].product_id == postings[j].product_id);
            assert(after[k].product_id == postings[k].product_id);
        }
    } else {
        assert forall|j: int, k: int| 0 <= j < k < after.len() implies (#[trigger] after[j]).product_id
            != (#[trigger] after[k]).product_id by {
            assert(after[j] == postings[j]);
            if k < postings.len() {
                assert(after[k] == postings[k]);
            } else {
                assert(postings[j].product_id != posting.product_id);
            }
        }
    }
}

/// Recording a posting with a positive frequency in a well-formed or empty
/// list gives a well-formed list.
pub proof fn lemma_upserted_wf(postings: Seq<Posting>, posting: Posting)
    requires
        postings.len() == 0 || postings_wf(postings),
        posting.freq > 0,
    ensures
        postings_wf(upserted(postings, posting)),
{
    let after = upserted(postings, posting);
    lemma_upserted_distinct(postings, posting);
    if has_posting(postings, posting.product_id) {
        let found = choose|j: int|
            0 <= j < postings.len() && (#[trigger] postings[j]).product_id == posting.product_id;
        lemma_position_unique(postings, found);
    }
    assert forall|j: int| 0 <= j < after.len() implies (#[trigger] after[j]).freq > 0 by {
        if has_posting(postings, posting.product_id) {
            if j != posting_position(postings, posting.product_id) {
                assert(postings[j].freq > 0);
            }
        } else if j < postings.len() {
            assert(postings[j].freq > 0);
        }
    }
}

/// Copies a posting list without the postings of one record.
pub fn retain_others(postings: &Vec<Posting>, id: u32) -> (kept: Vec<Posting>)
    ensures
        kept@ == without(postings@, id),
{
    let mut kept: Vec<Posting> = Vec::new();
    let mut j: usize = 0;
    proof {
        reveal(Seq::filter);
        assert(postings@.take(0) =~= Seq::<Posting>::empty());
    }
    while j < postings.len()
        invariant
            j <= postings.len(),
            kept@ == without(postings@.take(j as int), id),
        decreases postings.len() - j,
    {
        proof {
            reveal(Seq::filter);
            assert(postings@.take(j + 1).drop_last() =~= postings@.take(j as int));
        }
        let posting = postings[j];
        if posting.product_id != id {
            kept.push(posting);
        }
        j += 1;
    }
    assert(postings@.take(j as int) =~= postings@);
    kept
}

/// Records a posting in a list: overwrites the record's posting where the
/// list has one, appends the posting where it has none.
pub fn upsert_posting(postings: &mut Vec<Posting>, posting: Posting)
    ensures
        final(postings)@ == upserted(old(postings)@, posting),
{
    let mut j: usize = 0;
    while j < postings.len()
        invariant
            j <= postings.len(),
            postings@ == old(postings)@,
            forall|k: int| 0 <= k < j ==> (#[trigger] postings@[k]).product_id != posting.product_id,
        decreases postings.len() - j,
    {
        if postings[j].product_id == posting.product_id {
            proof {
                assert(is_first_posting(postings@, posting.product_id, j as int));
                let at = posting_position(postings@, posting.product_id);
                assert(is_first_posting(postings@, posting.product_id, at));
                if at < j {
                    assert(postings@[at].product_id != posting.product_id);
                }
                assert(at == j);
            }
            postings.set(j, posting);
            return;
        }
        j += 1;
    }
    postings.push(posting);
}

} // verus!
