//! Splitting text into normalized tokens: Unicode words, lower-cased, stemmed.
use rust_stemmers::{Algorithm, Stemmer};
use unicode_segmentation::UnicodeSegmentation;
use vstd::prelude::*;

verus! {

/// The words that `unicode_segmentation`'s `unicode_words` yields for a text, in order.
pub uninterp spec fn unicode_words(text: Seq<char>) -> Seq<Seq<char>>;

/// The result of `str::to_lowercase` on a word.
pub uninterp spec fn lowercased(word: Seq<char>) -> Seq<char>;

/// The stem that the Russian Snowball stemmer of `rust_stemmers` gives a word.
pub uninterp spec fn russian_stem(word: Seq<char>) -> Seq<char>;

/// The character sequences of a list of strings.
pub open spec fn views_of(words: Seq<String>) -> Seq<Seq<char>> {
    Seq::new(words.len(), |i: int| words[i]@)
}

/// The canonical form of one word: lower-cased, then stemmed.
pub open spec fn normalized(word: Seq<char>) -> Seq<char> {
    russian_stem(lowercased(word))
}

/// The canonical forms of a list of words, in the same order, duplicates kept.
pub open spec fn normalized_all(words: Seq<Seq<char>>) -> Seq<Seq<char>> {
    Seq::new(words.len(), |i: int| normalized(words[i]))
}

/// The tokens of a text: one per word occurrence, in order of occurrence.
pub open spec fn tokens_of(text: Seq<char>) -> Seq<Seq<char>> {
    normalized_all(unicode_words(text))
}

/// Calls `UnicodeSegmentation::unicode_words` and collects the words as owned
/// strings. Assumed, not proved: the words depend on the text alone, so they
/// are the sequence named `unicode_words`; and since a word holds at least one
/// alphanumeric character, a text without characters has no words.
#[verifier::external_body]
fn split_words(text: &str) -> (words: Vec<String>)
    ensures
        views_of(words@) == unicode_words(text@),
        text@.len() == 0 ==> words@.len() == 0,
{
    text.unicode_words().map(|w| w.to_owned()).collect()
}

/// Calls `str::to_lowercase`. Assumed, not proved: the result depends on the
/// word alone, so it is the sequence named `lowercased`.
#[verifier::external_body]
fn lowercase(word: &str) -> (lower: String)
    ensures
        lower@ == lowercased(word@),
{
    word.to_lowercase()
}

/// Calls `Stemmer::stem` on a stemmer that `Stemmer::create` made for
/// `Algorithm::Russian`. Assumed, not proved: the stem depends on the word
/// alone, so it is the sequence named `russian_stem`.
#[verifier::external_body]
fn stem_russian(word: &str) -> (stem: String)
    ensures
        stem@ == russian_stem(word@),
{
    Stemmer::create(Algorithm::Russian).stem(word).into_owned()
}

/// Normalizes one word.
pub fn normalize_word(word: &str) -> (token: String)
    ensures
        token@ == normalized(word@),
{
    let lower = lowercase(word);
    stem_russian(lower.as_str())
}

/// Normalizes every word of a list, keeping order and duplicates.
pub fn normalize_words(words: &Vec<String>) -> (tokens: Vec<String>)
    ensures
        views_of(tokens@) == normalized_all(views_of(words@)),
{
    let mut tokens: Vec<String> = Vec::new();
    let mut i: usize = 0;
    while i < words.len()
        invariant
            i <= words.len(),
            tokens.len() == i,
            forall|k: int| 0 <= k < i ==> (#[trigger] tokens[k])@ == normalized(words[k]@),
        decreases words.len() - i,
    {
        let token = normalize_word(words[i].as_str());
        tokens.push(token);
        i += 1;
    }
    assert(views_of(tokens@) =~= normalized_all(views_of(words@)));
    tokens
}

/// Splits a text into its tokens. A text without characters has none.
pub fn break_words(example: &str) -> (tokens: Vec<String>)
    ensures
        views_of(tokens@) == tokens_of(example@),
        example@.len() == 0 ==> tokens@.len() == 0,
{
    let words = split_words(example);
    let tokens = normalize_words(&words);
    proof {
        assert(views_of(tokens@).len() == tokens@.len());
        assert(views_of(words@).len() == words@.len());
    }
    tokens
}

} // verus!
