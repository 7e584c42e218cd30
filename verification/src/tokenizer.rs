//! Text normalization: raw text to an ordered sequence of comparable terms.
//!
//! A text is lowercased, every character that is neither a word character
//! nor whitespace becomes a space, the result is split on whitespace, the
//! stopwords are dropped and each remaining word is stemmed. Lowercasing,
//! pattern replacement, splitting and stemming are done by `std`, `regex`
//! and `rust_stemmers`; their results are named below and the contracts of
//! this module are stated over those names.

use regex::Regex;
use rust_stemmers::Algorithm;
use rust_stemmers::Stemmer;
use vstd::prelude::*;

verus! {

/// The language whose stemming rules are applied to the words of a text.
#[derive(Debug, Clone, Copy, PartialEq, Eq, Structural)]
pub enum Language {
    Portuguese,
}

/// What `str::to_lowercase` returns for a text.
pub uninterp spec fn lowercase_of(text: Seq<char>) -> Seq<char>;

/// What `regex::Regex::replace_all` returns when the regex compiled from
/// `pattern` is applied to `text` with `replacement`; `None` when
/// `regex::Regex::new` rejects the pattern.
pub uninterp spec fn replaced_of(
    pattern: Seq<char>,
    text: Seq<char>,
    replacement: Seq<char>,
) -> Option<Seq<char>>;

/// The words that `str::split_whitespace` yields for a text, in order.
pub uninterp spec fn whitespace_split_of(text: Seq<char>) -> Seq<Seq<char>>;

/// What `rust_stemmers::Stemmer::stem` returns for a word when the stemmer
/// was created for the algorithm of `language`.
pub uninterp spec fn stem_of(language: Language, word: Seq<char>) -> Seq<char>;

/// The character sequences of a sequence of strings.
pub open spec fn strings_view(strings: Seq<String>) -> Seq<Seq<char>> {
    strings.map_values(|s: String| s@)
}

/// The characters of an optional string.
pub open spec fn optional_view(text: Option<String>) -> Option<Seq<char>> {
    match text {
        Some(s) => Some(s@),
        None => None,
    }
}

/// `str::to_lowercase`: the lowercase form of a text. The contract only
/// names the result.
#[verifier::external_body]
fn lowercase(text: &str) -> (lowered: String)
    ensures
        lowered@ == lowercase_of(text@),
{
    text.to_lowercase()
}

/// `regex::Regex::new` followed by `regex::Regex::replace_all`: every
/// non-overlapping match of `pattern` in `text` replaced by `replacement`,
/// or `None` when the pattern does not compile. The contract only names the
/// result.
#[verifier::external_body]
fn replace_all(pattern: &str, text: &str, replacement: &str) -> (replaced: Option<String>)
    ensures
        optional_view(replaced) == replaced_of(pattern@, text@, replacement@),
{
    match Regex::new(pattern) {
        Ok(re) => Some(re.replace_all(text, replacement).into_owned()),
        Err(_) => None,
    }
}

/// `str::split_whitespace`: the maximal runs of non-whitespace characters
/// of a text, in order, each copied into a `String`. The contract only
/// names the result.
#[verifier::external_body]
fn split_whitespace(text: &str) -> (words: Vec<String>)
    ensures
        strings_view(words@) == whitespace_split_of(text@),
{
    text.split_whitespace().map(String::from).collect()
}

/// `rust_stemmers::Stemmer::create` followed by
/// `rust_stemmers::Stemmer::stem`: the stem of a word under the Snowball
/// algorithm of the given language. The contract only names the result.
#[verifier::external_body]
fn stem(language: Language, word: &str) -> (stemmed: String)
    ensures
        stemmed@ == stem_of(language, word@),
{
    let algorithm = match language {
        Language::Portuguese => Algorithm::Portuguese,
    };
    Stemmer::create(algorithm).stem(word).into_owned()
}

/// The pattern of the characters that separate words besides whitespace:
/// anything that is neither a word character nor whitespace.
pub const SEPARATOR_PATTERN: &'static str = "[^\\w\\s]";

/// What a separator is replaced by.
pub const SEPARATOR_REPLACEMENT: &'static str = " ";

/// The high-frequency function words that are never indexed.
pub open spec fn stopwords() -> Seq<Seq<char>> {
    seq![
        "a"@, "o"@, "as"@, "os"@, "um"@, "uma"@, "de"@, "do"@, "da"@, "dos"@, "das"@, "em"@,
        "para"@, "por"@, "com"@, "sem"@, "e"@, "ou"@, "que"@, "se"@, "no"@, "na"@, "nos"@,
        "nas"@,
    ]
}

/// Whether a word is one of the [`stopwords`], compared character by
/// character.
pub open spec fn is_stopword(word: Seq<char>) -> bool {
    stopwords().contains(word)
}

/// The stem of a word in the language of the indexed text.
pub open spec fn stemmed(word: Seq<char>) -> Seq<char> {
    stem_of(Language::Portuguese, word)
}

/// The candidate words of a text: the whitespace-separated words of its
/// lowercase form with every separator turned into a space. There are none
/// when the separator pattern is rejected.
pub open spec fn candidates_of(text: Seq<char>) -> Seq<Seq<char>> {
    match replaced_of(SEPARATOR_PATTERN@, lowercase_of(text), SEPARATOR_REPLACEMENT@) {
        Some(cleaned) => whitespace_split_of(cleaned),
        None => Seq::empty(),
    }
}

/// The terms of a sequence of candidate words: the stopwords are dropped
/// before stemming, and each remaining word is replaced by its stem.
pub open spec fn terms_of(candidates: Seq<Seq<char>>) -> Seq<Seq<char>> {
    candidates.filter(|word: Seq<char>| !is_stopword(word)).map_values(
        |word: Seq<char>| stemmed(word),
    )
}

/// The terms of a text. The empty text has none.
pub open spec fn tokens_of(text: Seq<char>) -> Seq<Seq<char>> {
    if text.len() == 0 {
        Seq::empty()
    } else {
        terms_of(candidates_of(text))
    }
}

/// Tokenizing is a function of the text: two results for the same text
/// hold the same terms in the same order.
pub proof fn lemma_tokenize_is_deterministic(first: Vec<String>, second: Vec<String>, text: Seq<char>)
    requires
        strings_view(first@) == tokens_of(text),
        strings_view(second@) == tokens_of(text),
    ensures
        strings_view(first@) == strings_view(second@),
{
}

/// The empty text has no terms.
pub proof fn lemma_empty_text_has_no_terms()
    ensures
        tokens_of(Seq::<char>::empty()) == Seq::<Seq<char>>::empty(),
{
}

/// Whether a term is the stem of one of the candidate words that are not
/// stopwords.
pub open spec fn comes_from(candidates: Seq<Seq<char>>, term: Seq<char>) -> bool {
    exists|j: int|
        0 <= j < candidates.len() && !is_stopword(#[trigger] candidates[j]) && term == stemmed(
            candidates[j],
        )
}

/// Every term is the stem of a candidate word that is not a stopword.
pub proof fn lemma_terms_are_stems(candidates: Seq<Seq<char>>)
    ensures
        terms_of(candidates).len() <= candidates.len(),
        forall|i: int|
            0 <= i < terms_of(candidates).len() ==> comes_from(
                candidates,
                #[trigger] terms_of(candidates)[i],
            ),
    decreases candidates.len(),
{
    reveal(Seq::filter);
    if candidates.len() > 0 {
        let rest = candidates.drop_last();
        lemma_terms_are_stems(rest);
        assert forall|i: int| 0 <= i < terms_of(candidates).len() implies comes_from(
            candidates,
            #[trigger] terms_of(candidates)[i],
        ) by {
            if i < terms_of(rest).len() {
                assert(terms_of(candidates)[i] == terms_of(rest)[i]);
                assert(comes_from(rest, terms_of(rest)[i]));
                let j = choose|j: int|
                    0 <= j < rest.len() && !is_stopword(#[trigger] rest[j]) && terms_of(rest)[i]
                        == stemmed(rest[j]);
                assert(candidates[j] == rest[j]);
            } else {
                let j = candidates.len() - 1;
                assert(!is_stopword(candidates[j]));
                assert(terms_of(candidates)[i] == stemmed(candidates[j]));
            }
        }
    } else {
        assert(terms_of(candidates).len() == 0);
    }
}

/// No stopword is among the terms of a text, provided that no stem of a
/// candidate word that is kept reads like a stopword. Stopwords are
/// tested before stemming, so a kept word whose stem reads like a
/// stopword does give that stem as a term.
pub proof fn lemma_no_stopword_among_terms(text: Seq<char>)
    requires
        forall|j: int|
            0 <= j < candidates_of(text).len() && !is_stopword(#[trigger] candidates_of(text)[j])
                ==> !is_stopword(stemmed(candidates_of(text)[j])),
    ensures
        forall|i: int| 0 <= i < tokens_of(text).len() ==> !is_stopword(#[trigger] tokens_of(text)[i]),
{
    let candidates = candidates_of(text);
    lemma_terms_are_stems(candidates);
    assert forall|i: int| 0 <= i < tokens_of(text).len() implies !is_stopword(
        #[trigger] tokens_of(text)[i],
    ) by {
        assert(comes_from(candidates, terms_of(candidates)[i]));
    }
}

/// The stopwords as owned strings.
pub fn stopword_list() -> (list: Vec<String>)
    ensures
        strings_view(list@) == stopwords(),
{
    let mut list: Vec<String> = Vec::new();
    list.push("a".to_owned());
    list.push("o".to_owned());
    list.push("as".to_owned());
    list.push("os".to_owned());
    list.push("um".to_owned());
    list.push("uma".to_owned());
    list.push("de".to_owned());
    list.push("do".to_owned());
    list.push("da".to_owned());
    list.push("dos".to_owned());
    list.push("das".to_owned());
    list.push("em".to_owned());
    list.push("para".to_owned());
    list.push("por".to_owned());
    list.push("com".to_owned());
    list.push("sem".to_owned());
    list.push("e".to_owned());
    list.push("ou".to_owned());
    list.push("que".to_owned());
    list.push("se".to_owned());
    list.push("no".to_owned());
    list.push("na".to_owned());
    list.push("nos".to_owned());
    list.push("nas".to_owned());
    assert(strings_view(list@) =~= stopwords());
    list
}

/// Whether `word` equals one of the strings of `list`.
pub fn is_listed(list: &Vec<String>, word: &String) -> (found: bool)
    ensures
        found == strings_view(list@).contains(word@),
{
    let mut i: usize = 0;
    while i < list.len()
        invariant
            i <= list.len(),
            forall|j: int| 0 <= j < i ==> strings_view(list@)[j] != word@,
        decreases list.len() - i,
    {
        if list[i] == *word {
            assert(strings_view(list@)[i as int] == word@);
            return true;
        }
        i += 1;
    }
    false
}

/// Turns candidate words into terms: drops the stopwords, then stems what
/// is left.
pub fn normalize(candidates: &Vec<String>) -> (terms: Vec<String>)
    ensures
        strings_view(terms@) == terms_of(strings_view(candidates@)),
{
    let stop = stopword_list();
    let ghost words = strings_view(candidates@);
    let ghost kept = |word: Seq<char>| !is_stopword(word);
    let ghost to_stem = |word: Seq<char>| stemmed(word);
    let mut terms: Vec<String> = Vec::new();
    let mut i: usize = 0;
    proof {
        reveal(Seq::filter);
        assert(words.take(0) =~= Seq::<Seq<char>>::empty());
        assert(strings_view(terms@) =~= words.take(0).filter(kept).map_values(to_stem));
    }
    while i < candidates.len()
        invariant
            i <= candidates.len(),
            words == strings_view(candidates@),
            kept == |word: Seq<char>| !is_stopword(word),
            to_stem == |word: Seq<char>| stemmed(word),
            strings_view(stop@) == stopwords(),
            strings_view(terms@) == words.take(i as int).filter(kept).map_values(to_stem),
        decreases candidates.len() - i,
    {
        let word = &candidates[i];
        let ghost before = strings_view(terms@);
        proof {
            reveal(Seq::filter);
            assert(words.take(i + 1).drop_last() =~= words.take(i as int));
            assert(words.take(i + 1).last() == word@);
        }
        if !is_listed(&stop, word) {
            let term = stem(Language::Portuguese, word.as_str());
            terms.push(term);
            assert(strings_view(terms@) =~= before.push(stemmed(word@)));
            assert(strings_view(terms@) =~= words.take(i + 1).filter(kept).map_values(to_stem));
        }
        i += 1;
    }
    assert(words.take(i as int) =~= words);
    terms
}

/// Splits a text into its normalized terms, in order of appearance.
/// Duplicates are kept: they are what term frequency counts. No text
/// makes it fail: a text without words, and any text should the separator
/// pattern be rejected, has no terms.
pub fn tokenize(text: &str) -> (terms: Vec<String>)
    ensures
        strings_view(terms@) == tokens_of(text@),
{
    if text.is_empty() {
        let terms: Vec<String> = Vec::new();
        assert(strings_view(terms@) =~= Seq::<Seq<char>>::empty());
        return terms;
    }
    let lowered = lowercase(text);
    match replace_all(SEPARATOR_PATTERN, lowered.as_str(), SEPARATOR_REPLACEMENT) {
        Some(cleaned) => {
            let candidates = split_whitespace(cleaned.as_str());
            normalize(&candidates)
        },
        None => {
            let terms: Vec<String> = Vec::new();
            proof {
                reveal(Seq::filter);
                assert(strings_view(terms@) =~= terms_of(Seq::<Seq<char>>::empty()));
            }
            terms
        },
    }
}

} // verus!
