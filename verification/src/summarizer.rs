//! The summarizer: language, reading and summary.

use crate::document::{
    is_reading, lemma_summary_all, lemma_summary_none, lemma_words_in_push, summary_of,
    vocabulary_of, words_in, Document,
};
use crate::error::SumError;
use crate::language::{detect_language_of, Language};
use crate::segment::{sentences_of, unicode_sentences, unicode_words, words_of};
use crate::select::max_n;
use crate::vocabulary::{
    learn, lemma_learn_concat, lemma_learn_distinct, lemma_learn_holds, lemma_spells_stable, spells,
    Vocabulary,
};
use vstd::prelude::*;
use vstd::string::StringExecFns;

verus! {

/// Summarizes texts of one language.
pub struct Summarizer {
    lang: Option<Language>,
}

impl View for Summarizer {
    type V = Option<Language>;

    /// The language the summarizer works in, if one is set.
    closed spec fn view(&self) -> Option<Language> {
        self.lang
    }
}

impl Default for Summarizer {
    /// A summarizer whose language is not set yet.
    fn default() -> (s: Self)
        ensures
            s@ is None,
    {
        Summarizer { lang: None }
    }
}

impl Summarizer {
    /// A summarizer for texts in `lang`.
    pub fn new(lang: Language) -> (s: Self)
        ensures
            s@ == Some(lang),
    {
        Summarizer { lang: Some(lang) }
    }

    /// The language the summarizer works in, if one is set.
    pub fn get_lang(&self) -> (lang: &Option<Language>)
        ensures
            *lang == self@,
    {
        &self.lang
    }

    /// Takes over the outcome of a language detection: a detected language
    /// becomes the summarizer's language, and a miss is reported as
    /// `NoLangFit` and leaves the summarizer as it was.
    pub fn adopt(&mut self, found: Option<Language>) -> (res: Result<(), SumError>)
        ensures
            found is Some ==> res is Ok && final(self)@ == found,
            found is None ==> res == Err::<(), SumError>(SumError::NoLangFit) && final(self)@
                == old(self)@,
    {
        match found {
            Some(lang) => {
                self.lang = Some(lang);
                Ok(())
            },
            None => Err(SumError::NoLangFit),
        }
    }

    /// The ids of the words of `src`, in reading order. Words that `tokens`
    /// does not hold yet are added to it, each with the next free id. The
    /// words are found in the same way for every language; without a
    /// language nothing is read.
    pub fn tokenize(&self, src: &str, tokens: &mut Vocabulary) -> (sequence: Option<Vec<usize>>)
        ensures
            self@ is None ==> sequence is None && final(tokens)@ == old(tokens)@,
            self@ is Some ==> sequence is Some && final(tokens)@ == learn(
                old(tokens)@,
                words_of(src@),
            ) && spells(final(tokens)@, words_of(src@), sequence->0@)
                && final(tokens)@.no_duplicates(),
    {
        match self.lang {
            Some(_) => {
                let words = unicode_words(src);
                Some(tokens.encode(&words))
            },
            None => None,
        }
    }

    /// Detects whether `src` is English or Chinese and sets the
    /// summarizer's language accordingly.
    ///
    /// Which language is found is decided by the detector; whatever it
    /// answers, success means that a language is now set, and failure is
    /// `NoLangFit` with the summarizer unchanged.
    pub fn detect(&mut self, src: &str) -> (res: Result<(), SumError>)
        ensures
            res is Ok ==> final(self)@ is Some,
            res is Err ==> res == Err::<(), SumError>(SumError::NoLangFit) && final(self)@
                == old(self)@,
    {
        let candidates = vec![Language::English, Language::Chinese];
        let found = detect_language_of(&candidates, src);
        self.adopt(found)
    }

    /// Cuts `src` into sentences and numbers the words of each with one
    /// vocabulary for the whole text.
    pub fn read(&self, src: &str) -> (doc: Document)
        ensures
            doc.texts() == sentences_of(src@),
            is_reading(self@, doc.texts(), doc.tokens()),
    {
        let sentences = unicode_sentences(src);
        let ghost texts = sentences.deep_view();
        let mut tokens = Vocabulary::new();
        let mut sequences: Vec<Vec<usize>> = Vec::new();
        let mut k: usize = 0;
        proof {
            assert(texts.take(0) =~= Seq::<Seq<char>>::empty());
            assert(words_in(texts.take(0)) =~= Seq::<Seq<char>>::empty());
        }
        while k < sentences.len()
            invariant
                k <= sentences.len(),
                texts == sentences.deep_view(),
                sequences.len() == k,
                self@ is Some ==> tokens@ == vocabulary_of(texts.take(k as int)),
                self@ is Some ==> forall|i: int|
                    0 <= i < k ==> spells(tokens@, words_of(texts[i]), #[trigger] sequences@[i]@),
                self@ is Some ==> forall|i: int, j: int|
                    0 <= i < k && 0 <= j < words_of(texts[i]).len() ==> tokens@.contains(
                        #[trigger] words_of(texts[i])[j],
                    ),
                self@ is None ==> forall|i: int|
                    0 <= i < k ==> (#[trigger] sequences@[i])@.len() == 0,
            decreases sentences.len() - k,
        {
            let ghost before = tokens@;
            let ghost words = words_of(texts[k as int]);
            let ghost earlier = sequences@;
            let sequence = match self.tokenize(sentences[k].as_str(), &mut tokens) {
                Some(sequence) => sequence,
                None => Vec::new(),
            };
            sequences.push(sequence);
            proof {
                assert(texts[k as int] == sentences@[k as int]@);
                if self@ is Some {
                    assert(texts.take(k + 1) =~= texts.take(k as int).push(texts[k as int]));
                    lemma_words_in_push(texts.take(k as int), texts[k as int]);
                    lemma_learn_concat(Seq::empty(), words_in(texts.take(k as int)), words);
                    lemma_learn_distinct(Seq::empty(), words_in(texts.take(k as int)));
                    lemma_learn_holds(before, words);
                    assert forall|i: int| 0 <= i < k + 1 implies spells(
                        tokens@,
                        words_of(texts[i]),
                        #[trigger] sequences@[i]@,
                    ) by {
                        if i < k {
                            assert(sequences@[i] == earlier[i]);
                            lemma_spells_stable(before, words, words_of(texts[i]), earlier[i]@);
                        }
                    }
                    assert forall|i: int, j: int|
                        0 <= i < k + 1 && 0 <= j < words_of(
                            texts[i],
                        ).len() implies tokens@.contains(#[trigger] words_of(texts[i])[j]) by {
                        if i == k {
                            assert(words.contains(words[j]));
                        }
                    }
                } else {
                    assert forall|i: int| 0 <= i < k + 1 implies (#[trigger] sequences@[i])@.len()
                        == 0 by {
                        if i < k {
                            assert(sequences@[i] == earlier[i]);
                        }
                    }
                }
            }
            k += 1;
        }
        proof {
            assert(texts.take(k as int) =~= texts);
            let cells = sequences.deep_view();
            assert forall|i: int| 0 <= i < texts.len() implies if self@ is Some {
                spells(vocabulary_of(texts), words_of(texts[i]), #[trigger] cells[i])
            } else {
                (#[trigger] cells[i]).len() == 0
            } by {
                assert(cells[i] == sequences@[i]@);
            }
        }
        Document::pair(sentences, sequences)
    }

    /// The summary of `doc`: its `n` best sentences, or all of them if
    /// there are fewer, joined in document order without a separator.
    ///
    /// `scores` rates the sentences, one score for each in document
    /// order; a greater number is a better score, and of two sentences
    /// with the same score the earlier one is the better.
    pub fn fit(&self, doc: &Document, scores: &Vec<u64>, n: usize) -> (summary: String)
        requires
            scores.len() == doc.texts().len(),
        ensures
            summary@ == summary_of(doc.texts(), scores@, n as nat),
            n >= doc.texts().len() ==> summary@ == doc.texts().flatten(),
            n == 0 ==> summary@ == Seq::<char>::empty(),
    {
        let picked = max_n(scores, n);
        let sentences = doc.sentences();
        let ghost texts = doc.texts();
        let ghost part = |i: usize| texts[i as int];
        let mut summary = String::new();
        let mut a: usize = 0;
        proof {
            assert(picked@.take(0).map_values(part) =~= Seq::<Seq<char>>::empty());
        }
        while a < picked.len()
            invariant
                a <= picked.len(),
                texts == sentences.deep_view(),
                part == |i: usize| texts[i as int],
                forall|b: int| 0 <= b < picked.len() ==> #[trigger] picked@[b] < sentences.len(),
                summary@ == picked@.take(a as int).map_values(part).flatten(),
            decreases picked.len() - a,
        {
            proof {
                let chosen = picked@.take(a as int).map_values(part);
                let next = part(picked@[a as int]);
                assert(picked@.take(a + 1).map_values(part) =~= chosen.push(next));
                chosen.lemma_flatten_push(next);
                assert(texts[picked@[a as int] as int] == sentences@[picked@[a as int] as int]@);
            }
            summary.append(sentences[picked[a]].as_str());
            a += 1;
        }
        proof {
            assert(picked@.take(a as int) =~= picked@);
            if n >= texts.len() {
                lemma_summary_all(texts, scores@, n as nat);
            }
            if n == 0 {
                lemma_summary_none(texts, scores@);
            }
        }
        summary
    }
}

} // verus!
