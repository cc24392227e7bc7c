//! Languages, and how the language of a text is detected.

use lingua::LanguageDetectorBuilder;
use vstd::prelude::*;

verus! {

/// The languages a text can be recognised as.
#[derive(Debug, Clone, Copy, PartialEq, Eq, Hash, Structural)]
pub enum Language {
    English,
    Chinese,
}

/// Runs lingua's `LanguageDetector::detect_language_of` on `src`, with a
/// detector that `LanguageDetectorBuilder::from_languages` and `build`
/// make for exactly the `candidates`.
///
/// Nothing is claimed of the answer: it depends on lingua's statistical
/// models and rules. The builder panics on an empty list of languages, so
/// at least one candidate is required.
#[verifier::external_body]
pub(crate) fn detect_language_of(candidates: &Vec<Language>, src: &str) -> (found: Option<Language>)
    requires
        candidates.len() > 0,
{
    let languages: Vec<lingua::Language> = candidates.iter().map(|l| match l {
        Language::English => lingua::Language::English,
        Language::Chinese => lingua::Language::Chinese,
    }).collect();
    let detector = LanguageDetectorBuilder::from_languages(&languages).build();
    match detector.detect_language_of(src) {
        Some(lingua::Language::English) => Some(Language::English),
        Some(lingua::Language::Chinese) => Some(Language::Chinese),
        None => None,
    }
}

} // verus!
