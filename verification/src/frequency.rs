//! Term frequency: how often each term occurs in a token stream.

use crate::tokenizer::strings_view;
use vstd::hash_map::StringHashMap;
use vstd::prelude::*;

verus! {

/// The number of positions of a token stream that hold a term.
pub open spec fn occurrences(tokens: Seq<Seq<char>>, term: Seq<char>) -> nat {
    tokens.filter(|token: Seq<char>| token == term).len()
}

/// The terms of a token stream, each once, in the order in which they
/// first occur.
pub open spec fn distinct_terms_of(tokens: Seq<Seq<char>>) -> Seq<Seq<char>>
    decreases tokens.len(),
{
    if tokens.len() == 0 {
        Seq::empty()
    } else {
        let earlier = distinct_terms_of(tokens.drop_last());
        if earlier.contains(tokens.last()) {
            earlier
        } else {
            earlier.push(tokens.last())
        }
    }
}

/// The terms of a token stream in the order in which they first occur,
/// each with the number of its occurrences.
pub open spec fn term_counts(tokens: Seq<Seq<char>>) -> Seq<(Seq<char>, nat)> {
    distinct_terms_of(tokens).map_values(|term: Seq<char>| (term, occurrences(tokens, term)))
}

/// A term with the number of its occurrences.
#[derive(Debug)]
pub struct TermCount {
    pub term: String,
    pub count: u64,
}

/// The terms and numbers of a sequence of counts.
pub open spec fn counts_view(counts: Seq<TermCount>) -> Seq<(Seq<char>, nat)> {
    counts.map_values(|entry: TermCount| (entry.term@, entry.count as nat))
}

/// One more token: the occurrences of that token grow by one, those of the
/// other terms stay.
pub proof fn lemma_occurrences_push(tokens: Seq<Seq<char>>, token: Seq<char>, term: Seq<char>)
    ensures
        occurrences(tokens.push(token), term) == occurrences(tokens, term) + if token == term {
            1nat
        } else {
            0nat
        },
{
    reveal(Seq::filter);
    assert(tokens.push(token).drop_last() =~= tokens);
}

/// A term occurs no more often than there are tokens.
pub proof fn lemma_occurrences_bound(tokens: Seq<Seq<char>>, term: Seq<char>)
    ensures
        occurrences(tokens, term) <= tokens.len(),
{
    tokens.lemma_filter_len(|token: Seq<char>| token == term);
}

/// The occurrences in a concatenation are those of its parts together.
pub proof fn lemma_occurrences_concat(a: Seq<Seq<char>>, b: Seq<Seq<char>>, term: Seq<char>)
    ensures
        occurrences(a + b, term) == occurrences(a, term) + occurrences(b, term),
{
    Seq::filter_distributes_over_add(a, b, |token: Seq<char>| token == term);
}

/// The distinct terms of a token stream are exactly the terms that occur
/// in it, and none of them is listed twice.
pub proof fn lemma_distinct_terms(tokens: Seq<Seq<char>>)
    ensures
        distinct_terms_of(tokens).no_duplicates(),
        forall|term: Seq<char>|
            #[trigger] distinct_terms_of(tokens).contains(term) <==> occurrences(tokens, term) > 0,
    decreases tokens.len(),
{
    reveal(Seq::filter);
    if tokens.len() > 0 {
        let rest = tokens.drop_last();
        let earlier = distinct_terms_of(rest);
        let all = distinct_terms_of(tokens);
        lemma_distinct_terms(rest);
        assert forall|term: Seq<char>| #[trigger] all.contains(term) <==> occurrences(tokens, term)
            > 0 by {
            assert(rest.push(tokens.last()) =~= tokens);
            lemma_occurrences_push(rest, tokens.last(), term);
            assert(earlier.contains(term) <==> occurrences(rest, term) > 0);
            if !earlier.contains(tokens.last()) {
                if all.contains(term) {
                    let k = choose|k: int| 0 <= k < all.len() && all[k] == term;
                    if k < earlier.len() {
                        assert(earlier[k] == term);
                    }
                }
                if earlier.contains(term) {
                    let k = choose|k: int| 0 <= k < earlier.len() && earlier[k] == term;
                    assert(all[k] == term);
                }
                if term == tokens.last() {
                    assert(all[all.len() - 1] == term);
                }
            }
        }
        if !earlier.contains(tokens.last()) {
            assert forall|i: int, j: int| 0 <= i < all.len() && 0 <= j < all.len() && i != j implies all[i]
                != all[j] by {
                if i < earlier.len() && j < earlier.len() {
                    assert(earlier[i] != earlier[j]);
                } else if i < earlier.len() {
                    assert(earlier[i] == all[i]);
                    assert(earlier.contains(all[i]));
                } else {
                    assert(earlier[j] == all[j]);
                    assert(earlier.contains(all[j]));
                }
            }
        }
    }
}

/// Counts the occurrences of each term of a token stream.
pub fn term_frequencies(tokens: &Vec<String>) -> (counts: Vec<TermCount>)
    ensures
        counts_view(counts@) == term_counts(strings_view(tokens@)),
{
    let ghost stream = strings_view(tokens@);
    let mut tally: StringHashMap<u64> = StringHashMap::new();
    let mut order: Vec<String> = Vec::new();
    let mut i: usize = 0;
    proof {
        assert(stream.take(0) =~= Seq::<Seq<char>>::empty());
        assert(strings_view(order@) =~= distinct_terms_of(stream.take(0)));
    }
    while i < tokens.len()
        invariant
            i <= tokens.len(),
            stream == strings_view(tokens@),
            strings_view(order@) == distinct_terms_of(stream.take(i as int)),
            forall|term: Seq<char>| #[trigger]
                tally@.contains_key(term) <==> distinct_terms_of(stream.take(i as int)).contains(
                    term,
                ),
            forall|term: Seq<char>| #[trigger]
                tally@.contains_key(term) ==> tally@[term] == occurrences(
                    stream.take(i as int),
                    term,
                ),
        decreases tokens.len() - i,
    {
        let token = &tokens[i];
        let ghost seen = stream.take(i as int);
        let ghost next = stream.take(i + 1);
        let ghost held = tally@;
        let ghost listed = strings_view(order@);
        proof {
            assert(next.drop_last() =~= seen);
            assert(next.last() == token@);
            assert(seen.push(token@) =~= next);
            lemma_distinct_terms(seen);
            lemma_occurrences_bound(seen, token@);
            assert forall|term: Seq<char>|
                occurrences(next, term) == occurrences(seen, term) + if token@ == term {
                    1nat
                } else {
                    0nat
                } by {
                lemma_occurrences_push(seen, token@, term);
            }
        }
        let count = match tally.get(token.as_str()) {
            Some(count) => Some(*count),
            None => None,
        };
        match count {
            Some(count) => {
                tally.insert(token.clone(), count + 1);
                assert(distinct_terms_of(next) == distinct_terms_of(seen));
            },
            None => {
                tally.insert(token.clone(), 1);
                order.push(token.clone());
                proof {
                    assert(distinct_terms_of(next) == distinct_terms_of(seen).push(token@));
                    assert(strings_view(order@) =~= listed.push(token@));
                    assert forall|term: Seq<char>| #[trigger]
                        tally@.contains_key(term) <==> distinct_terms_of(next).contains(term) by {
                        assert(held.contains_key(term) <==> distinct_terms_of(seen).contains(term));
                        let grown = distinct_terms_of(next);
                        if grown.contains(term) {
                            let k = choose|k: int| 0 <= k < grown.len() && grown[k] == term;
                            if k < distinct_terms_of(seen).len() {
                                assert(distinct_terms_of(seen)[k] == term);
                            }
                        }
                        if distinct_terms_of(seen).contains(term) {
                            let k = choose|k: int|
                                0 <= k < distinct_terms_of(seen).len() && distinct_terms_of(seen)[k]
                                    == term;
                            assert(grown[k] == term);
                        }
                        if term == token@ {
                            assert(grown[grown.len() - 1] == term);
                        }
                    }
                }
            },
        }
        i += 1;
    }
    assert(stream.take(i as int) =~= stream);
    let mut counts: Vec<TermCount> = Vec::new();
    let mut k: usize = 0;
    while k < order.len()
        invariant
            k <= order@.len(),
            counts@.len() == k,
            strings_view(order@) == distinct_terms_of(stream),
            forall|term: Seq<char>| #[trigger]
                tally@.contains_key(term) <==> distinct_terms_of(stream).contains(term),
            forall|term: Seq<char>| #[trigger]
                tally@.contains_key(term) ==> tally@[term] == occurrences(stream, term),
            forall|j: int|
                0 <= j < k ==> (#[trigger] counts@[j]).term@ == order@[j]@ && counts@[j].count
                    == occurrences(stream, order@[j]@),
        decreases order@.len() - k,
    {
        let term = order[k].clone();
        proof {
            assert(strings_view(order@)[k as int] == term@);
            assert(distinct_terms_of(stream).contains(term@));
        }
        match tally.get(term.as_str()) {
            Some(count) => {
                counts.push(TermCount { term, count: *count });
            },
            None => {},
        }
        k += 1;
    }
    proof {
        assert(counts_view(counts@).len() == term_counts(stream).len());
        assert forall|j: int| 0 <= j < counts@.len() implies counts_view(counts@)[j] == term_counts(
            stream,
        )[j] by {
            assert(strings_view(order@)[j] == order@[j]@);
        }
        assert(counts_view(counts@) =~= term_counts(stream));
    }
    counts
}

} // verus!
