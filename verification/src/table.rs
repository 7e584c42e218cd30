//! The term-to-postings table: each term of the vocabulary with the
//! posting list of the records that contain it.

use crate::postings::lemma_freq_bound;
use crate::postings::lemma_upserted_wf;
use crate::postings::lemma_without_keeps_order;
use crate::postings::posting_freq;
use crate::postings::postings_wf;
use crate::postings::retain_others;
use crate::postings::upsert_posting;
use crate::postings::upserted;
use crate::postings::without;
use crate::postings::Posting;
use vstd::hash_map::StringHashMap;
use vstd::prelude::*;

verus! {

/// The frequency that a term-to-postings map holds for a term and a
/// record, 0 when the record has no posting under the term.
pub open spec fn frequency(postings: Map<Seq<char>, Map<u32, nat>>, term: Seq<char>, id: u32) -> nat {
    if postings.contains_key(term) && postings[term].contains_key(id) {
        postings[term][id]
    } else {
        0
    }
}

/// Whether a term is one of a list of terms.
pub open spec fn listed(terms: Seq<String>, term: Seq<char>) -> bool {
    exists|i: int| 0 <= i < terms.len() && (#[trigger] terms[i])@ == term
}

/// Whether a term is one of the first `count` terms of a list.
pub open spec fn listed_before(terms: Seq<String>, count: int, term: Seq<char>) -> bool {
    exists|k: int| 0 <= k < count && k < terms.len() && (#[trigger] terms[k])@ == term
}

/// No term is listed twice.
pub open spec fn distinct_terms(terms: Seq<String>) -> bool {
    forall|i: int, j: int| 0 <= i < j < terms.len() ==> (#[trigger] terms[i])@ != (#[trigger] terms[j])@
}

/// A table from terms to posting lists. It is what the index keeps and
/// what a snapshot of the index is.
pub struct PostingsMap {
    lists: StringHashMap<Vec<Posting>>,
    vocabulary: Vec<String>,
}

impl View for PostingsMap {
    type V = Map<Seq<char>, Map<u32, nat>>;

    /// The table as a map from each term of the vocabulary to the
    /// frequency of the term in each record that contains it.
    open spec fn view(&self) -> Map<Seq<char>, Map<u32, nat>> {
        Map::new(
            |term: Seq<char>| self.lookup(term).len() > 0,
            |term: Seq<char>|
                Map::new(
                    |id: u32| posting_freq(self.lookup(term), id) > 0,
                    |id: u32| posting_freq(self.lookup(term), id),
                ),
        )
    }
}

impl PostingsMap {
    /// The invariant of the table: the vocabulary lists the terms that
    /// have a posting list, each once, and every posting list is well
    /// formed, so no term is kept with an empty list.
    pub closed spec fn wf(&self) -> bool {
        &&& distinct_terms(self.vocabulary@)
        &&& forall|term: Seq<char>| #[trigger]
            self.lists@.contains_key(term) <==> listed(self.vocabulary@, term)
        &&& forall|term: Seq<char>| #[trigger]
            self.lists@.contains_key(term) ==> postings_wf(self.lists@[term]@)
    }

    /// The posting list of a term, empty when the term is not in the
    /// vocabulary.
    pub closed spec fn lookup(&self, term: Seq<char>) -> Seq<Posting> {
        if self.lists@.contains_key(term) {
            self.lists@[term]@
        } else {
            Seq::empty()
        }
    }

    /// The frequency of a term in a record, 0 when the record has no
    /// posting under the term.
    pub open spec fn frequency(&self, term: Seq<char>, id: u32) -> nat {
        posting_freq(self.lookup(term), id)
    }

    /// The posting list of a term of the vocabulary is well formed.
    pub proof fn lemma_lookup_wf(&self, term: Seq<char>)
        requires
            self.wf(),
            self.lookup(term).len() > 0,
        ensures
            postings_wf(self.lookup(term)),
    {
    }

    /// The frequencies of the table's view are those of its posting
    /// lists.
    pub proof fn lemma_view_frequency(&self, term: Seq<char>, id: u32)
        ensures
            frequency(self@, term, id) == self.frequency(term, id),
            self.frequency(term, id) <= u64::MAX,
    {
        lemma_freq_bound(self.lookup(term), id);
    }

    /// An empty table.
    pub fn new() -> (table: PostingsMap)
        ensures
            table.wf(),
            forall|term: Seq<char>| table.lookup(term) == Seq::<Posting>::empty(),
            table@ == Map::<Seq<char>, Map<u32, nat>>::empty(),
    {
        let table = PostingsMap { lists: StringHashMap::new(), vocabulary: Vec::new() };
        assert(table@ =~= Map::<Seq<char>, Map<u32, nat>>::empty());
        table
    }

    /// The number of terms of the vocabulary.
    pub fn len(&self) -> (count: usize)
        requires
            self.wf(),
        ensures
            self@.dom().finite(),
            count == self@.dom().len(),
    {
        proof {
            let terms = self.vocabulary@.map_values(|term: String| term@);
            assert(terms.no_duplicates()) by {
                assert forall|i: int, j: int|
                    0 <= i < terms.len() && 0 <= j < terms.len() && i != j implies terms[i]
                    != terms[j] by {
                    if i < j {
                        assert(self.vocabulary@[i]@ != self.vocabulary@[j]@);
                    } else {
                        assert(self.vocabulary@[j]@ != self.vocabulary@[i]@);
                    }
                }
            }
            terms.unique_seq_to_set();
            assert(terms.to_set() =~= self@.dom()) by {
                assert forall|term: Seq<char>| terms.to_set().contains(term)
                    <==> self@.dom().contains(term) by {
                    if terms.contains(term) {
                        let i = choose|i: int| 0 <= i < terms.len() && terms[i] == term;
                        assert(self.vocabulary@[i]@ == term);
                        assert(listed(self.vocabulary@, term));
                        assert(self.lists@.contains_key(term));
                    }
                    if self@.dom().contains(term) {
                        assert(self.lists@.contains_key(term));
                        assert(listed(self.vocabulary@, term));
                        let i = choose|i: int|
                            0 <= i < self.vocabulary@.len() && (#[trigger] self.vocabulary@[i])@
                                == term;
                        assert(terms[i] == term);
                    }
                }
            }
        }
        self.vocabulary.len()
    }

    /// The posting list of a term, or `None` when the term is not in the
    /// vocabulary.
    pub fn get(&self, term: &String) -> (found: Option<&Vec<Posting>>)
        requires
            self.wf(),
        ensures
            match found {
                Some(postings) => postings@ == self.lookup(term@) && postings_wf(postings@),
                None => self.lookup(term@) == Seq::<Posting>::empty(),
            },
    {
        self.lists.get(term.as_str())
    }

    /// Records a posting under a term: the term enters the vocabulary if
    /// it is new, and the record's posting under the term is overwritten
    /// or appended.
    pub fn upsert(&mut self, term: String, posting: Posting)
        requires
            old(self).wf(),
            posting.freq > 0,
        ensures
            final(self).wf(),
            final(self).lookup(term@) == upserted(old(self).lookup(term@), posting),
            forall|other: Seq<char>|
                other != term@ ==> final(self).lookup(other) == old(self).lookup(other),
    {
        let held = match self.lists.get(term.as_str()) {
            Some(postings) => Some(postings.clone()),
            None => None,
        };
        proof {
            lemma_upserted_wf(self.lookup(term@), posting);
        }
        match held {
            Some(mut postings) => {
                upsert_posting(&mut postings, posting);
                self.lists.insert(term, postings);
                proof {
                    assert forall|other: Seq<char>| #[trigger]
                        self.lists@.contains_key(other) <==> listed(self.vocabulary@, other) by {
                        assert(old(self).lists@.contains_key(other) <==> listed(
                            self.vocabulary@,
                            other,
                        ));
                    }
                }
            },
            None => {
                let mut postings: Vec<Posting> = Vec::new();
                postings.push(posting);
                assert(postings@ =~= upserted(Seq::<Posting>::empty(), posting));
                self.lists.insert(term.clone(), postings);
                self.vocabulary.push(term);
                proof {
                    let before = old(self).vocabulary@;
                    let after = self.vocabulary@;
                    assert(!listed(before, term@));
                    assert forall|i: int, j: int| 0 <= i < j < after.len() implies (
                    #[trigger] after[i])@ != (#[trigger] after[j])@ by {
                        assert(after[i] == before[i]);
                        if j < before.len() {
                            assert(after[j] == before[j]);
                        }
                    }
                    assert forall|other: Seq<char>| #[trigger]
                        self.lists@.contains_key(other) <==> listed(after, other) by {
                        assert(old(self).lists@.contains_key(other) <==> listed(before, other));
                        if listed(after, other) {
                            let i = choose|i: int|
                                0 <= i < after.len() && (#[trigger] after[i])@ == other;
                            if i < before.len() {
                                assert(before[i]@ == other);
                            }
                        }
                        if listed(before, other) {
                            let i = choose|i: int|
                                0 <= i < before.len() && (#[trigger] before[i])@ == other;
                            assert(after[i]@ == other);
                        }
                        if other == term@ {
                            assert(after[after.len() - 1]@ == other);
                        }
                    }
                }
            },
        }
    }

    /// Removes the postings of a record from every posting list, and from
    /// the vocabulary every term whose list is left empty.
    pub fn remove_record(&mut self, id: u32)
        requires
            old(self).wf(),
        ensures
            final(self).wf(),
            forall|term: Seq<char>|
                final(self).lookup(term) == without(#[trigger] old(self).lookup(term), id),
    {
        let ghost terms = self.vocabulary@;
        let ghost given = self.lists@;
        let mut kept: Vec<String> = Vec::new();
        let mut i: usize = 0;
        while i < self.vocabulary.len()
            invariant
                i <= terms.len(),
                self.vocabulary@ == terms,
                terms == old(self).vocabulary@,
                given == old(self).lists@,
                old(self).wf(),
                distinct_terms(kept@),
                forall|term: Seq<char>| #[trigger]
                    self.lists@.contains_key(term) ==> listed(terms, term),
                forall|k: int|
                    i <= k < terms.len() ==> self.lists@.contains_key((#[trigger] terms[k])@)
                        && self.lists@[terms[k]@]@ == given[terms[k]@]@,
                forall|k: int|
                    0 <= k < i ==> (self.lists@.contains_key((#[trigger] terms[k])@) <==> without(
                        given[terms[k]@]@,
                        id,
                    ).len() > 0),
                forall|k: int|
                    0 <= k < i && self.lists@.contains_key((#[trigger] terms[k])@)
                        ==> self.lists@[terms[k]@]@ == without(given[terms[k]@]@, id),
                forall|term: Seq<char>| #[trigger]
                    listed(kept@, term) ==> listed_before(terms, i as int, term),
                forall|k: int|
                    0 <= k < i && self.lists@.contains_key((#[trigger] terms[k])@) ==> listed(
                        kept@,
                        terms[k]@,
                    ),
                forall|term: Seq<char>| #[trigger]
                    listed(kept@, term) ==> self.lists@.contains_key(term),
            decreases terms.len() - i,
        {
            let term = self.vocabulary[i].clone();
            let ghost before = self.lists@;
            let ghost kept_before = kept@;
            proof {
                assert(listed(terms, terms[i as int]@));
                assert(given.contains_key(term@));
                assert forall|k: int| 0 <= k < terms.len() && k != i implies (#[trigger] terms[k])@
                    != term@ by {
                    if k < i {
                        assert(terms[k]@ != terms[i as int]@);
                    } else {
                        assert(terms[i as int]@ != terms[k]@);
                    }
                }
                assert(!listed(kept_before, term@)) by {
                    if listed(kept_before, term@) {
                        assert(listed_before(terms, i as int, term@));
                        let k = choose|k: int|
                            0 <= k < i && k < terms.len() && (#[trigger] terms[k])@ == term@;
                        assert(terms[k]@ != term@);
                    }
                }
            }
            let postings = match self.lists.get(term.as_str()) {
                Some(list) => retain_others(list, id),
                None => Vec::new(),
            };
            if postings.len() > 0 {
                self.lists.insert(term.clone(), postings);
                kept.push(term);
                proof {
                    let after = kept@;
                    assert forall|a: int, b: int| 0 <= a < b < after.len() implies (
                    #[trigger] after[a])@ != (#[trigger] after[b])@ by {
                        assert(after[a] == kept_before[a]);
                        if b < kept_before.len() {
                            assert(after[b] == kept_before[b]);
                        } else {
                            assert(listed(kept_before, kept_before[a]@));
                        }
                    }
                    assert forall|other: Seq<char>| #[trigger]
                        listed(after, other) implies listed_before(terms, i + 1, other)
                        && self.lists@.contains_key(other) by {
                        let a = choose|a: int| 0 <= a < after.len() && (#[trigger] after[a])@ == other;
                        if a < kept_before.len() {
                            assert(kept_before[a]@ == other);
                            assert(listed(kept_before, other));
                            assert(listed_before(terms, i as int, other));
                            let k = choose|k: int|
                                0 <= k < i && k < terms.len() && (#[trigger] terms[k])@ == other;
                            assert(terms[k]@ == other);
                            assert(before.contains_key(other));
                        } else {
                            assert(terms[i as int]@ == other);
                        }
                    }
                    assert forall|k: int|
                        0 <= k < i + 1 && self.lists@.contains_key((#[trigger] terms[k])@) implies listed(
                        after,
                        terms[k]@,
                    ) by {
                        if k < i {
                            assert(terms[k]@ != term@);
                            assert(before.contains_key(terms[k]@));
                            assert(listed(kept_before, terms[k]@));
                            let a = choose|a: int|
                                0 <= a < kept_before.len() && (#[trigger] kept_before[a])@
                                    == terms[k]@;
                            assert(after[a]@ == terms[k]@);
                        } else {
                            assert(after[after.len() - 1]@ == terms[k]@);
                        }
                    }
                    assert forall|k: int| 0 <= k < i + 1 implies (self.lists@.contains_key(
                        (#[trigger] terms[k])@,
                    ) <==> without(given[terms[k]@]@, id).len() > 0) by {
                        if k < i {
                            assert(terms[k]@ != term@);
                            assert(before.contains_key(terms[k]@) <==> without(
                                given[terms[k]@]@,
                                id,
                            ).len() > 0);
                        }
                    }
                }
            } else {
                self.lists.remove(term.as_str());
                proof {
                    assert forall|k: int| 0 <= k < i + 1 implies (self.lists@.contains_key(
                        (#[trigger] terms[k])@,
                    ) <==> without(given[terms[k]@]@, id).len() > 0) by {
                        if k < i {
                            assert(terms[k]@ != term@);
                            assert(before.contains_key(terms[k]@) <==> without(
                                given[terms[k]@]@,
                                id,
                            ).len() > 0);
                        }
                    }
                    assert forall|k: int|
                        0 <= k < i + 1 && self.lists@.contains_key((#[trigger] terms[k])@) implies listed(
                        kept@,
                        terms[k]@,
                    ) by {
                        assert(terms[k]@ != term@);
                        assert(before.contains_key(terms[k]@));
                    }
                    assert forall|other: Seq<char>| #[trigger]
                        listed(kept@, other) implies listed_before(terms, i + 1, other)
                        && self.lists@.contains_key(other) by {
                        assert(listed_before(terms, i as int, other));
                        let k = choose|k: int|
                            0 <= k < i && k < terms.len() && (#[trigger] terms[k])@ == other;
                        assert(terms[k]@ == other);
                        assert(before.contains_key(other));
                    }
                }
            }
            proof {
                assert forall|k: int| i + 1 <= k < terms.len() implies self.lists@.contains_key(
                    (#[trigger] terms[k])@,
                ) && self.lists@[terms[k]@]@ == given[terms[k]@]@ by {
                    assert(terms[k]@ != term@);
                    assert(before.contains_key(terms[k]@) && before[terms[k]@]@
                        == given[terms[k]@]@);
                }
                assert forall|k: int|
                    0 <= k < i + 1 && self.lists@.contains_key(
                        (#[trigger] terms[k])@,
                    ) implies self.lists@[terms[k]@]@ == without(given[terms[k]@]@, id) by {
                    if k < i {
                        assert(terms[k]@ != term@);
                        assert(before.contains_key(terms[k]@));
                    }
                }
                assert forall|other: Seq<char>| #[trigger]
                    self.lists@.contains_key(other) implies listed(terms, other) by {
                    if other != term@ {
                        assert(before.contains_key(other));
                    }
                }
            }
            i += 1;
        }
        self.vocabulary = kept;
        proof {
            assert forall|term: Seq<char>| #[trigger]
                self.lists@.contains_key(term) <==> listed(self.vocabulary@, term) by {
                if self.lists@.contains_key(term) {
                    assert(listed(terms, term));
                    let k = choose|k: int| 0 <= k < terms.len() && (#[trigger] terms[k])@ == term;
                    assert(self.lists@.contains_key(terms[k]@));
                }
            }
            assert forall|term: Seq<char>| #[trigger]
                self.lists@.contains_key(term) implies postings_wf(self.lists@[term]@) by {
                assert(listed(terms, term));
                let k = choose|k: int| 0 <= k < terms.len() && (#[trigger] terms[k])@ == term;
                assert(self.lists@.contains_key(terms[k]@));
                assert(given.contains_key(term));
                lemma_without_keeps_order(given[term]@, id);
            }
            assert forall|term: Seq<char>|
                self.lookup(term) == without(#[trigger] old(self).lookup(term), id) by {
                reveal(Seq::filter);
                if given.contains_key(term) {
                    assert(listed(terms, term));
                    let k = choose|k: int| 0 <= k < terms.len() && (#[trigger] terms[k])@ == term;
                    assert(self.lists@.contains_key(terms[k]@) <==> without(
                        given[terms[k]@]@,
                        id,
                    ).len() > 0);
                    if !self.lists@.contains_key(term) {
                        assert(without(given[term]@, id) =~= Seq::<Posting>::empty());
                    }
                } else {
                    if self.lists@.contains_key(term) {
                        assert(listed(terms, term));
                    }
                    assert(without(Seq::<Posting>::empty(), id) =~= Seq::<Posting>::empty());
                }
            }
        }
    }

    /// A copy of the table.
    pub fn snapshot(&self) -> (copy: PostingsMap)
        requires
            self.wf(),
        ensures
            copy.wf(),
            forall|term: Seq<char>| copy.lookup(term) == self.lookup(term),
            copy@ == self@,
    {
        let mut lists: StringHashMap<Vec<Posting>> = StringHashMap::new();
        let mut vocabulary: Vec<String> = Vec::new();
        let mut i: usize = 0;
        while i < self.vocabulary.len()
            invariant
                i <= self.vocabulary@.len(),
                self.wf(),
                vocabulary@.len() == i,
                forall|k: int| 0 <= k < i ==> (#[trigger] vocabulary@[k])@ == self.vocabulary@[k]@,
                forall|term: Seq<char>| #[trigger]
                    lists@.contains_key(term) <==> listed(vocabulary@, term),
                forall|term: Seq<char>| #[trigger]
                    lists@.contains_key(term) ==> self.lists@.contains_key(term) && lists@[term]@
                        == self.lists@[term]@,
            decreases self.vocabulary@.len() - i,
        {
            let term = &self.vocabulary[i];
            let ghost before = vocabulary@;
            let ghost held = lists@;
            proof {
                assert(listed(self.vocabulary@, self.vocabulary@[i as int]@));
            }
            let postings = match self.lists.get(term.as_str()) {
                Some(list) => list.clone(),
                None => Vec::new(),
            };
            lists.insert(term.clone(), postings);
            vocabulary.push(term.clone());
            proof {
                let after = vocabulary@;
                assert forall|other: Seq<char>| #[trigger]
                    lists@.contains_key(other) <==> listed(after, other) by {
                    assert(held.contains_key(other) <==> listed(before, other));
                    if listed(after, other) {
                        let k = choose|k: int| 0 <= k < after.len() && (#[trigger] after[k])@ == other;
                        if k < before.len() {
                            assert(before[k]@ == other);
                        }
                    }
                    if listed(before, other) {
                        let k = choose|k: int|
                            0 <= k < before.len() && (#[trigger] before[k])@ == other;
                        assert(after[k]@ == other);
                    }
                    if other == term@ {
                        assert(after[after.len() - 1]@ == other);
                    }
                }
            }
            i += 1;
        }
        let copy = PostingsMap { lists, vocabulary };
        proof {
            assert forall|term: Seq<char>| #[trigger]
                copy.lists@.contains_key(term) <==> self.lists@.contains_key(term) by {
                if self.lists@.contains_key(term) {
                    assert(listed(self.vocabulary@, term));
                    let k = choose|k: int|
                        0 <= k < self.vocabulary@.len() && (#[trigger] self.vocabulary@[k])@
                            == term;
                    assert(copy.vocabulary@[k]@ == term);
                }
            }
            assert forall|i: int, j: int| 0 <= i < j < copy.vocabulary@.len() implies (
            #[trigger] copy.vocabulary@[i])@ != (#[trigger] copy.vocabulary@[j])@ by {
                assert(self.vocabulary@[i]@ != self.vocabulary@[j]@);
            }
            assert forall|term: Seq<char>| copy.lookup(term) == self.lookup(term) by {
                assert(copy.lists@.contains_key(term) <==> self.lists@.contains_key(term));
            }
            assert(copy@ =~~= self@);
        }
        copy
    }
}

} // verus!
