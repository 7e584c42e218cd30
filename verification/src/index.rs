//! The inverted index: the stored records and, derived from them, the
//! posting lists of every term.

use crate::frequency::counts_view;
use crate::frequency::distinct_terms_of;
use crate::frequency::lemma_distinct_terms;
use crate::frequency::lemma_occurrences_concat;
use crate::frequency::occurrences;
use crate::frequency::term_counts;
use crate::frequency::term_frequencies;
use crate::frequency::TermCount;
use crate::model::Product;
use crate::model::ProductView;
use crate::postings::lemma_freq_at;
use crate::postings::lemma_upserted_freq;
use crate::postings::lemma_without_freq;
use crate::postings::posting_freq;
pub use crate::postings::Posting;
use crate::table::frequency;
use crate::table::PostingsMap;
use crate::tokenizer::strings_view;
use crate::tokenizer::tokenize;
use crate::tokenizer::tokens_of;
use std::collections::HashMap;
use vstd::prelude::*;

verus! {

broadcast use vstd::std_specs::hash::group_hash_axioms;

/// The terms of an optional text field: none when the field is absent.
pub open spec fn optional_tokens(text: Option<Seq<char>>) -> Seq<Seq<char>> {
    match text {
        Some(t) => tokens_of(t),
        None => Seq::empty(),
    }
}

/// The token stream of a record: the terms of its name, then of its brand,
/// its category and its description.
pub open spec fn record_terms(record: ProductView) -> Seq<Seq<char>> {
    tokens_of(record.name) + optional_tokens(record.brand) + optional_tokens(record.category)
        + optional_tokens(record.description)
}

/// How often a term occurs in the stored record of an identifier, 0 when
/// no record is stored under it.
pub open spec fn record_frequency(
    records: Map<u32, ProductView>,
    term: Seq<char>,
    id: u32,
) -> nat {
    if records.contains_key(id) {
        occurrences(record_terms(records[id]), term)
    } else {
        0
    }
}

/// The inversion of a set of records: each term that occurs in some record
/// mapped to the records it occurs in, each with the term's frequency.
pub open spec fn inverted(records: Map<u32, ProductView>) -> Map<Seq<char>, Map<u32, nat>> {
    Map::new(
        |term: Seq<char>| exists|id: u32| record_frequency(records, term, id) > 0,
        |term: Seq<char>|
            Map::new(
                |id: u32| record_frequency(records, term, id) > 0,
                |id: u32| record_frequency(records, term, id),
            ),
    )
}

/// The inversion of a set of records holds, for every term and record, the
/// frequency of the term in the record.
pub proof fn lemma_inverted_frequency(records: Map<u32, ProductView>, term: Seq<char>, id: u32)
    ensures
        frequency(inverted(records), term, id) == record_frequency(records, term, id),
{
}

/// The frequency of a term in a record counts the occurrences of the term
/// in all four fields.
pub proof fn lemma_frequency_spans_fields(record: ProductView, term: Seq<char>)
    ensures
        occurrences(record_terms(record), term) == occurrences(tokens_of(record.name), term)
            + occurrences(optional_tokens(record.brand), term) + occurrences(
            optional_tokens(record.category),
            term,
        ) + occurrences(optional_tokens(record.description), term),
{
    let name = tokens_of(record.name);
    let brand = optional_tokens(record.brand);
    let category = optional_tokens(record.category);
    let description = optional_tokens(record.description);
    lemma_occurrences_concat(name, brand, term);
    lemma_occurrences_concat(name + brand, category, term);
    lemma_occurrences_concat(name + brand + category, description, term);
}

/// The token stream of a record.
pub fn record_tokens(product: &Product) -> (terms: Vec<String>)
    ensures
        strings_view(terms@) == record_terms(product@),
{
    let mut terms = tokenize(product.name.as_str());
    append_field(&mut terms, &product.brand);
    append_field(&mut terms, &product.category);
    append_field(&mut terms, &product.description);
    terms
}

/// Appends the terms of an optional text field to a token stream.
fn append_field(terms: &mut Vec<String>, field: &Option<String>)
    ensures
        strings_view(final(terms)@) == strings_view(old(terms)@) + optional_tokens(
            crate::model::field_view(*field),
        ),
{
    match field {
        Some(text) => {
            let mut more = tokenize(text.as_str());
            let ghost added = more@;
            terms.append(&mut more);
            assert(strings_view(terms@) =~= strings_view(old(terms)@) + strings_view(added));
        },
        None => {
            assert(strings_view(terms@) =~= strings_view(old(terms)@) + Seq::<Seq<char>>::empty());
        },
    }
}

/// Whether one of the first `k` counts is that of `term`.
spec fn counted(counts: Seq<TermCount>, k: int, term: Seq<char>) -> bool {
    exists|j: int| 0 <= j < k && j < counts.len() && (#[trigger] counts[j]).term@ == term
}

/// The index: the records by identifier, and the posting lists that their
/// text gives.
pub struct InvertedIndex {
    index: PostingsMap,
    products: HashMap<u32, Product>,
}

impl Default for InvertedIndex {
    fn default() -> (index: InvertedIndex)
        ensures
            index.wf(),
            index.records() == Map::<u32, ProductView>::empty(),
            index.postings() == Map::<Seq<char>, Map<u32, nat>>::empty(),
    {
        InvertedIndex::new()
    }
}

impl InvertedIndex {
    /// The stored records by identifier.
    pub closed spec fn records(&self) -> Map<u32, ProductView> {
        self.products@.map_values(|product: Product| product@)
    }

    /// The posting lists: each term of the vocabulary mapped to the
    /// frequency of the term in each record that contains it.
    pub closed spec fn postings(&self) -> Map<Seq<char>, Map<u32, nat>> {
        self.index@
    }

    /// The invariant of the index: the posting lists are well formed and
    /// hold, for every term and record, the frequency of the term in the
    /// stored record.
    pub closed spec fn wf(&self) -> bool {
        &&& self.index.wf()
        &&& forall|term: Seq<char>, id: u32| #[trigger]
            self.index.frequency(term, id) == record_frequency(self.records(), term, id)
    }

    /// The posting lists of a well-formed index are the inversion of its
    /// records: a term is in the vocabulary exactly when it occurs in a
    /// stored record, and a record has a posting under a term exactly when
    /// the term occurs in it, with the number of its occurrences.
    pub proof fn lemma_postings_inverted(&self)
        requires
            self.wf(),
        ensures
            self.postings() == inverted(self.records()),
    {
        let records = self.records();
        assert forall|term: Seq<char>|
            self.index.lookup(term).len() > 0 <==> exists|id: u32|
                record_frequency(records, term, id) > 0 by {
            if self.index.lookup(term).len() > 0 {
                self.index.lemma_lookup_wf(term);
                let first = self.index.lookup(term)[0];
                lemma_freq_at(self.index.lookup(term), 0);
                assert(self.index.frequency(term, first.product_id) > 0);
                assert(record_frequency(records, term, first.product_id) > 0);
            }
            if exists|id: u32| record_frequency(records, term, id) > 0 {
                let id = choose|id: u32| record_frequency(records, term, id) > 0;
                assert(self.index.frequency(term, id) > 0);
            }
        }
        assert forall|term: Seq<char>, id: u32|
            posting_freq(self.index.lookup(term), id) == record_frequency(records, term, id) by {
            assert(self.index.frequency(term, id) == record_frequency(records, term, id));
        }
        assert(self.postings() =~~= inverted(records));
    }

    /// What the inversion means for a well-formed index: no term of the
    /// vocabulary has an empty posting list, every posting belongs to a
    /// stored record, and every term of a stored record has that record's
    /// posting with the number of the term's occurrences.
    pub proof fn lemma_postings_consistent(&self)
        requires
            self.wf(),
        ensures
            forall|term: Seq<char>| #[trigger]
                self.postings().contains_key(term) ==> exists|id: u32|
                    self.postings()[term].contains_key(id),
            forall|term: Seq<char>, id: u32|
                self.postings().contains_key(term) && #[trigger] self.postings()[term].contains_key(
                    id,
                ) ==> self.records().contains_key(id) && self.postings()[term][id] > 0,
            forall|term: Seq<char>, id: u32|
                self.records().contains_key(id) && #[trigger] occurrences(
                    record_terms(self.records()[id]),
                    term,
                ) > 0 ==> self.postings().contains_key(term) && self.postings()[term].contains_key(
                    id,
                ) && self.postings()[term][id] == occurrences(
                    record_terms(self.records()[id]),
                    term,
                ),
    {
        self.lemma_postings_inverted();
        let records = self.records();
        assert forall|term: Seq<char>| #[trigger]
            self.postings().contains_key(term) implies exists|id: u32|
            self.postings()[term].contains_key(id) by {
            let id = choose|id: u32| record_frequency(records, term, id) > 0;
            assert(self.postings()[term].contains_key(id));
        }
        assert forall|term: Seq<char>, id: u32|
            records.contains_key(id) && #[trigger] occurrences(record_terms(records[id]), term)
                > 0 implies self.postings().contains_key(term) && self.postings()[term].contains_key(
            id,
        ) && self.postings()[term][id] == occurrences(record_terms(records[id]), term) by {
            assert(record_frequency(records, term, id) > 0);
        }
    }

    /// An index without records.
    pub fn new() -> (index: InvertedIndex)
        ensures
            index.wf(),
            index.records() == Map::<u32, ProductView>::empty(),
            index.postings() == Map::<Seq<char>, Map<u32, nat>>::empty(),
    {
        let index = InvertedIndex { index: PostingsMap::new(), products: HashMap::new() };
        assert(index.records() =~= Map::<u32, ProductView>::empty());
        index
    }

    /// Stores a record under its identifier, in place of the record that
    /// was stored under it, and indexes its text: afterwards the record
    /// has a posting under exactly the terms of its own text, each with
    /// the number of the term's occurrences. The postings that an earlier
    /// record of the same identifier left are gone.
    pub fn add_product(&mut self, product: Product)
        requires
            old(self).wf(),
        ensures
            final(self).wf(),
            final(self).records() == old(self).records().insert(product.id, product@),
            final(self).postings() == inverted(final(self).records()),
    {
        let id = product.id;
        let ghost record = product@;
        let ghost before = self.records();
        let ghost stream = record_terms(record);
        let terms = record_tokens(&product);
        let counts = term_frequencies(&terms);
        self.index.remove_record(id);
        proof {
            assert forall|term: Seq<char>, other: u32| #[trigger]
                self.index.frequency(term, other) == if other == id {
                    0
                } else {
                    record_frequency(before, term, other)
                } by {
                lemma_without_freq(old(self).index.lookup(term), id, other);
                assert(old(self).index.frequency(term, other) == record_frequency(
                    before,
                    term,
                    other,
                ));
            }
        }
        self.products.insert(id, product);
        let ghost after = self.records();
        proof {
            assert(after =~= before.insert(id, record));
            lemma_distinct_terms(stream);
            assert(counts_view(counts@).len() == counts@.len());
            assert(term_counts(stream).len() == distinct_terms_of(stream).len());
            assert forall|k: int| 0 <= k < counts@.len() implies (#[trigger] counts@[k]).term@
                == distinct_terms_of(stream)[k] && counts@[k].count == occurrences(
                stream,
                counts@[k].term@,
            ) by {
                assert(counts_view(counts@)[k] == term_counts(stream)[k]);
            }
        }
        let mut k: usize = 0;
        while k < counts.len()
            invariant
                k <= counts@.len(),
                self.index.wf(),
                self.records() == after,
                after == before.insert(id, record),
                stream == record_terms(record),
                counts@.len() == distinct_terms_of(stream).len(),
                forall|j: int|
                    0 <= j < counts@.len() ==> (#[trigger] counts@[j]).term@ == distinct_terms_of(
                        stream,
                    )[j] && counts@[j].count == occurrences(stream, counts@[j].term@),
                forall|term: Seq<char>, other: u32|
                    other != id ==> #[trigger] self.index.frequency(term, other)
                        == record_frequency(before, term, other),
                forall|term: Seq<char>| #[trigger]
                    self.index.frequency(term, id) == if counted(counts@, k as int, term) {
                        occurrences(stream, term)
                    } else {
                        0
                    },
            decreases counts@.len() - k,
        {
            let entry = &counts[k];
            let posting = Posting { product_id: id, freq: entry.count };
            let ghost table = self.index;
            proof {
                lemma_distinct_terms(stream);
                assert(distinct_terms_of(stream).contains(entry.term@));
                assert(posting.freq > 0);
            }
            self.index.upsert(entry.term.clone(), posting);
            proof {
                assert forall|term: Seq<char>, other: u32| #[trigger]
                    self.index.frequency(term, other) == if term == entry.term@ && other == id {
                        posting.freq as nat
                    } else {
                        table.frequency(term, other)
                    } by {
                    if term == entry.term@ {
                        if table.lookup(term).len() > 0 {
                            table.lemma_lookup_wf(term);
                        }
                        lemma_upserted_freq(table.lookup(term), posting, other);
                    }
                }
                assert forall|term: Seq<char>| #[trigger]
                    self.index.frequency(term, id) == if counted(counts@, k + 1, term) {
                        occurrences(stream, term)
                    } else {
                        0
                    } by {
                    if term == entry.term@ {
                        assert(counted(counts@, k + 1, term));
                    } else {
                        assert(table.frequency(term, id) == if counted(counts@, k as int, term) {
                            occurrences(stream, term)
                        } else {
                            0
                        });
                        if counted(counts@, k + 1, term) {
                            let j = choose|j: int|
                                0 <= j < k + 1 && j < counts@.len() && (#[trigger] counts@[j]).term@
                                    == term;
                            assert(counted(counts@, k as int, term));
                        }
                    }
                }
            }
            k += 1;
        }
        proof {
            assert forall|term: Seq<char>, other: u32| #[trigger]
                self.index.frequency(term, other) == record_frequency(after, term, other) by {
                if other == id {
                    if !counted(counts@, k as int, term) {
                        if occurrences(stream, term) > 0 {
                            assert(distinct_terms_of(stream).contains(term));
                            let j = choose|j: int|
                                0 <= j < distinct_terms_of(stream).len() && distinct_terms_of(
                                    stream,
                                )[j] == term;
                            assert(counts@[j].term@ == term);
                        }
                    }
                } else {
                    assert(record_frequency(after, term, other) == record_frequency(
                        before,
                        term,
                        other,
                    ));
                }
            }
            self.lemma_postings_inverted();
        }
    }

    /// Removes the record of an identifier and every posting of it; a term
    /// that only this record contained leaves the vocabulary. Nothing
    /// changes when no record is stored under the identifier.
    pub fn remove_product(&mut self, product_id: u32)
        requires
            old(self).wf(),
        ensures
            final(self).wf(),
            final(self).records() == old(self).records().remove(product_id),
            final(self).postings() == inverted(final(self).records()),
    {
        let ghost before = self.records();
        self.products.remove(&product_id);
        self.index.remove_record(product_id);
        proof {
            let after = self.records();
            assert(after =~= before.remove(product_id));
            assert forall|term: Seq<char>, other: u32| #[trigger]
                self.index.frequency(term, other) == record_frequency(after, term, other) by {
                lemma_without_freq(old(self).index.lookup(term), product_id, other);
                assert(old(self).index.frequency(term, other) == record_frequency(
                    before,
                    term,
                    other,
                ));
            }
            self.lemma_postings_inverted();
        }
    }

    /// A copy of the posting lists as they are now. Later changes of the
    /// index do not reach it.
    pub fn get_index_snapshot(&self) -> (snapshot: PostingsMap)
        requires
            self.wf(),
        ensures
            snapshot.wf(),
            snapshot@ == self.postings(),
    {
        self.index.snapshot()
    }

    /// A copy of the record of an identifier, or `None` when none is
    /// stored under it.
    pub fn get_product(&self, product_id: &u32) -> (found: Option<Product>)
        ensures
            match found {
                Some(product) => self.records().contains_key(*product_id) && product@
                    == self.records()[*product_id],
                None => !self.records().contains_key(*product_id),
            },
    {
        match self.products.get(product_id) {
            Some(product) => Some(product.clone()),
            None => None,
        }
    }
}

/// Indexing the same record a second time changes nothing: the records
/// and the posting lists after the second call are those after the first.
/// No frequency is doubled.
pub proof fn lemma_add_is_idempotent(
    start: InvertedIndex,
    once: InvertedIndex,
    twice: InvertedIndex,
    product: Product,
)
    requires
        start.wf(),
        once.wf(),
        once.records() == start.records().insert(product.id, product@),
        twice.wf(),
        twice.records() == once.records().insert(product.id, product@),
    ensures
        twice.records() == once.records(),
        twice.postings() == once.postings(),
{
    assert(twice.records() =~= once.records());
    once.lemma_postings_inverted();
    twice.lemma_postings_inverted();
}

/// Indexing a second version of a record replaces the first: the index is
/// as if only the second version had been added. The stored record is the
/// second version, its postings are those of the second version's text,
/// and it has no posting under a term that only the first version
/// contained.
pub proof fn lemma_add_replaces(
    start: InvertedIndex,
    first: InvertedIndex,
    second: InvertedIndex,
    old_version: Product,
    new_version: Product,
)
    requires
        old_version.id == new_version.id,
        start.wf(),
        first.wf(),
        first.records() == start.records().insert(old_version.id, old_version@),
        second.wf(),
        second.records() == first.records().insert(new_version.id, new_version@),
    ensures
        second.records() == start.records().insert(new_version.id, new_version@),
        second.records()[new_version.id] == new_version@,
        second.postings() == inverted(start.records().insert(new_version.id, new_version@)),
        forall|term: Seq<char>| #[trigger]
            frequency(second.postings(), term, new_version.id) == occurrences(
                record_terms(new_version@),
                term,
            ),
        forall|term: Seq<char>|
            occurrences(record_terms(new_version@), term) == 0 ==> !(#[trigger] second.postings().contains_key(
                term,
            ) && second.postings()[term].contains_key(new_version.id)),
        forall|term: Seq<char>, other: u32|
            other != new_version.id ==> #[trigger] frequency(second.postings(), term, other)
                == frequency(start.postings(), term, other),
{
    assert(second.records() =~= start.records().insert(new_version.id, new_version@));
    start.lemma_postings_inverted();
    second.lemma_postings_inverted();
    assert forall|term: Seq<char>, other: u32| #[trigger]
        frequency(second.postings(), term, other) == record_frequency(
            second.records(),
            term,
            other,
        ) by {
        lemma_inverted_frequency(second.records(), term, other);
    }
    assert forall|term: Seq<char>, other: u32| other != new_version.id implies #[trigger] frequency(
        second.postings(),
        term,
        other,
    ) == frequency(start.postings(), term, other) by {
        lemma_inverted_frequency(start.records(), term, other);
    }
}

/// Removing a record is complete: the record is no longer stored, no
/// posting list holds a posting of it, a term that only this record
/// contained has left the vocabulary, and the postings of the other
/// records are as they were.
pub proof fn lemma_remove_is_complete(start: InvertedIndex, after: InvertedIndex, id: u32)
    requires
        start.wf(),
        after.wf(),
        after.records() == start.records().remove(id),
    ensures
        !after.records().contains_key(id),
        forall|term: Seq<char>|
            !(#[trigger] after.postings().contains_key(term) && after.postings()[term].contains_key(
                id,
            )),
        forall|term: Seq<char>|
            start.postings().contains_key(term) && (forall|other: u32| #[trigger]
                start.postings()[term].contains_key(other) ==> other == id)
                ==> !#[trigger] after.postings().contains_key(term),
        forall|term: Seq<char>, other: u32|
            other != id ==> #[trigger] frequency(after.postings(), term, other) == frequency(
                start.postings(),
                term,
                other,
            ),
{
    start.lemma_postings_inverted();
    after.lemma_postings_inverted();
    assert forall|term: Seq<char>|
        start.postings().contains_key(term) && (forall|other: u32| #[trigger]
            start.postings()[term].contains_key(other) ==> other == id)
            implies !#[trigger] after.postings().contains_key(term) by {
        if after.postings().contains_key(term) {
            let other = choose|other: u32| record_frequency(after.records(), term, other) > 0;
            assert(other != id);
            assert(record_frequency(start.records(), term, other) > 0);
            assert(start.postings()[term].contains_key(other));
        }
    }
    assert forall|term: Seq<char>, other: u32| other != id implies #[trigger] frequency(
        after.postings(),
        term,
        other,
    ) == frequency(start.postings(), term, other) by {
        lemma_inverted_frequency(start.records(), term, other);
        lemma_inverted_frequency(after.records(), term, other);
    }
}

} // verus!
