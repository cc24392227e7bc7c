//! Sentence and word boundaries.

use unicode_segmentation::UnicodeSegmentation;
use vstd::prelude::*;

verus! {

/// The sentences of a text, in reading order: what `unicode_sentences`
/// of the unicode-segmentation crate yields for it.
pub uninterp spec fn sentences_of(text: Seq<char>) -> Seq<Seq<char>>;

/// The words of a text, in reading order: what `unicode_words` of the
/// unicode-segmentation crate yields for it.
pub uninterp spec fn words_of(text: Seq<char>) -> Seq<Seq<char>>;

/// Calls `UnicodeSegmentation::unicode_sentences` and copies each
/// sentence it yields into a `String`.
///
/// The boundary rules are those of UAX #29 and its tables, so the
/// result is only named: the same text always gives the same sentences.
#[verifier::external_body]
pub(crate) fn unicode_sentences(src: &str) -> (out: Vec<String>)
    ensures
        out.deep_view() == sentences_of(src@),
{
    src.unicode_sentences().map(String::from).collect()
}

/// Calls `UnicodeSegmentation::unicode_words` and copies each word it
/// yields into a `String`.
///
/// The boundary rules are those of UAX #29 and its tables, so the
/// result is only named: the same text always gives the same words.
#[verifier::external_body]
pub(crate) fn unicode_words(src: &str) -> (out: Vec<String>)
    ensures
        out.deep_view() == words_of(src@),
{
    src.unicode_words().map(String::from).collect()
}

} // verus!
