//! A text cut into sentences, and what a summary of it is.

use crate::language::Language;
use crate::overlap::{is_overlap_matrix, overlap_matrix};
use crate::segment::words_of;
use crate::select::{all_indices, is_top, lemma_top_all, lemma_top_none, lemma_top_unique, top};
use crate::vocabulary::{learn, lemma_ids_contiguous, lemma_spells_flatten, spells};
use vstd::prelude::*;

verus! {

/// All the words of the `sentences`, in reading order.
pub open spec fn words_in(sentences: Seq<Seq<char>>) -> Seq<Seq<char>> {
    sentences.map_values(|s: Seq<char>| words_of(s)).flatten()
}

/// The vocabulary of a document: the distinct words of its sentences in
/// the order in which they are first seen.
pub open spec fn vocabulary_of(sentences: Seq<Seq<char>>) -> Seq<Seq<char>> {
    learn(Seq::empty(), words_in(sentences))
}

/// Whether `tokens` holds, for each of the `sentences`, the ids that its
/// words have in the vocabulary of the whole document. Without a language
/// no word is read and every sequence is empty.
pub open spec fn is_reading(
    lang: Option<Language>,
    sentences: Seq<Seq<char>>,
    tokens: Seq<Seq<usize>>,
) -> bool {
    &&& tokens.len() == sentences.len()
    &&& forall|i: int|
        0 <= i < sentences.len() ==> if lang is Some {
            spells(vocabulary_of(sentences), words_of(sentences[i]), #[trigger] tokens[i])
        } else {
            (#[trigger] tokens[i]).len() == 0
        }
}

/// The sentences at the `picked` places, joined without a separator.
pub open spec fn excerpt(sentences: Seq<Seq<char>>, picked: Seq<usize>) -> Seq<char> {
    picked.map_values(|i: usize| sentences[i as int]).flatten()
}

/// The summary of `sentences` that are rated by `scores`: the `n` best of
/// them, or all if there are fewer, joined in document order.
pub open spec fn summary_of(sentences: Seq<Seq<char>>, scores: Seq<u64>, n: nat) -> Seq<char> {
    excerpt(sentences, top(scores, n))
}

/// A text cut into sentences, each with the ids of its words.
pub struct Document {
    sentences: Vec<String>,
    sequences: Vec<Vec<usize>>,
}

impl Document {
    #[verifier::type_invariant]
    spec fn paired(self) -> bool {
        self.sentences.len() == self.sequences.len()
    }

    /// The sentences, in document order.
    pub closed spec fn texts(&self) -> Seq<Seq<char>> {
        self.sentences.deep_view()
    }

    /// The id sequence of each sentence.
    pub closed spec fn tokens(&self) -> Seq<Seq<usize>> {
        self.sequences.deep_view()
    }

    /// A document of the given sentences and id sequences, if there is
    /// one sequence for each sentence.
    pub fn new(sentences: Vec<String>, sequences: Vec<Vec<usize>>) -> (doc: Option<Document>)
        ensures
            doc is Some <==> sentences.len() == sequences.len(),
            doc is Some ==> doc->0.texts() == sentences.deep_view() && doc->0.tokens()
                == sequences.deep_view(),
    {
        if sentences.len() == sequences.len() {
            Some(Document::pair(sentences, sequences))
        } else {
            None
        }
    }

    /// The document of the given sentences and their id sequences.
    pub(crate) fn pair(sentences: Vec<String>, sequences: Vec<Vec<usize>>) -> (doc: Document)
        requires
            sentences.len() == sequences.len(),
        ensures
            doc.texts() == sentences.deep_view(),
            doc.tokens() == sequences.deep_view(),
    {
        Document { sentences, sequences }
    }

    /// The number of sentences.
    pub fn len(&self) -> (n: usize)
        ensures
            n == self.texts().len(),
            n == self.tokens().len(),
    {
        proof {
            use_type_invariant(self);
        }
        self.sentences.len()
    }

    /// The sentences, in document order.
    pub fn sentences(&self) -> (sentences: &Vec<String>)
        ensures
            sentences.deep_view() == self.texts(),
    {
        &self.sentences
    }

    /// The id sequence of each sentence.
    pub fn sequences(&self) -> (sequences: &Vec<Vec<usize>>)
        ensures
            sequences.deep_view() == self.tokens(),
    {
        &self.sequences
    }

    /// The weight of the link between every two sentences: a square
    /// matrix, symmetric, with zeros on its diagonal.
    pub fn overlaps(&self) -> (matrix: Vec<Vec<usize>>)
        ensures
            is_overlap_matrix(self.tokens(), matrix.deep_view()),
            forall|i: int| 0 <= i < matrix.len() ==> (#[trigger] matrix@[i])@[i] == 0,
            forall|i: int, j: int|
                0 <= i < matrix.len() && 0 <= j < matrix.len() ==> #[trigger] matrix@[i]@[j]
                    == matrix@[j]@[i],
    {
        overlap_matrix(&self.sequences)
    }
}

/// The words of a document are those of its earlier sentences followed by
/// those of its last.
pub proof fn lemma_words_in_push(sentences: Seq<Seq<char>>, last: Seq<char>)
    ensures
        words_in(sentences.push(last)) == words_in(sentences) + words_of(last),
{
    let per = |s: Seq<char>| words_of(s);
    assert(sentences.push(last).map_values(per) =~= sentences.map_values(per).push(words_of(last)));
    sentences.map_values(per).lemma_flatten_push(words_of(last));
}

/// Language and sentences decide the id sequences: two readings of the
/// same sentences are equal.
pub proof fn lemma_reading_unique(
    lang: Option<Language>,
    sentences: Seq<Seq<char>>,
    first: Seq<Seq<usize>>,
    second: Seq<Seq<usize>>,
)
    requires
        is_reading(lang, sentences, first),
        is_reading(lang, sentences, second),
    ensures
        first == second,
{
    assert forall|i: int| 0 <= i < first.len() implies first[i] == second[i] by {
        if lang is Some {
            let words = words_of(sentences[i]);
            let known = vocabulary_of(sentences);
            assert(spells(known, words, first[i]));
            assert(spells(known, words, second[i]));
            assert forall|k: int| 0 <= k < words.len() implies first[i][k] == second[i][k] by {
                assert(first[i][k] as nat == crate::vocabulary::id_of(known, words[k]));
                assert(second[i][k] as nat == crate::vocabulary::id_of(known, words[k]));
            }
        }
        assert(first[i] =~= second[i]);
    }
    assert(first =~= second);
}

/// Sentences, scores and count decide the summary: whichever way the `n`
/// best are found, joining them gives the same text.
pub proof fn lemma_summary_unique(
    sentences: Seq<Seq<char>>,
    scores: Seq<u64>,
    n: nat,
    first: Seq<usize>,
    second: Seq<usize>,
)
    requires
        is_top(scores, n, first),
        is_top(scores, n, second),
    ensures
        excerpt(sentences, first) == excerpt(sentences, second),
        excerpt(sentences, first) == summary_of(sentences, scores, n),
{
    lemma_top_unique(scores, n, first, second);
    lemma_top_unique(scores, n, first, top(scores, n));
}

/// Asking for as many sentences as there are, or for more, gives every
/// sentence once, in document order.
pub proof fn lemma_summary_all(sentences: Seq<Seq<char>>, scores: Seq<u64>, n: nat)
    requires
        sentences.len() == scores.len(),
        sentences.len() <= usize::MAX,
        n >= sentences.len(),
    ensures
        top(scores, n) == all_indices(sentences.len()),
        summary_of(sentences, scores, n) == sentences.flatten(),
{
    lemma_top_all(scores, n);
    assert(all_indices(sentences.len()).map_values(|i: usize| sentences[i as int]) =~= sentences);
}

/// Asking for no sentence gives the empty summary, whatever the document.
pub proof fn lemma_summary_none(sentences: Seq<Seq<char>>, scores: Seq<u64>)
    ensures
        summary_of(sentences, scores, 0) == Seq::<char>::empty(),
{
    lemma_top_none(scores);
    let nothing = Seq::<usize>::empty();
    assert(nothing.map_values(|i: usize| sentences[i as int]) =~= Seq::<Seq<char>>::empty());
}

/// The ids of a document that was read in some language are contiguous:
/// taken together, the id sequences spell all the words of the document,
/// every id lies between one and the number of distinct words, and every
/// number in that range is the id of a word of the document.
pub proof fn lemma_reading_contiguous(
    lang: Language,
    sentences: Seq<Seq<char>>,
    tokens: Seq<Seq<usize>>,
)
    requires
        is_reading(Some(lang), sentences, tokens),
    ensures
        spells(vocabulary_of(sentences), words_in(sentences), tokens.flatten()),
        vocabulary_of(sentences).len() == words_in(sentences).to_set().len(),
        forall|k: int|
            0 <= k < tokens.flatten().len() ==> 1 <= #[trigger] tokens.flatten()[k]
                <= vocabulary_of(sentences).len(),
        forall|id: usize|
            1 <= id <= vocabulary_of(sentences).len() ==> #[trigger] tokens.flatten().contains(id),
{
    let parts = sentences.map_values(|s: Seq<char>| words_of(s));
    assert forall|i: int| 0 <= i < parts.len() implies spells(
        vocabulary_of(sentences),
        #[trigger] parts[i],
        tokens[i],
    ) by {
        assert(spells(vocabulary_of(sentences), words_of(sentences[i]), tokens[i]));
    }
    lemma_spells_flatten(vocabulary_of(sentences), parts, tokens);
    lemma_ids_contiguous(words_in(sentences), tokens.flatten());
    crate::vocabulary::lemma_learn_count(words_in(sentences));
}

} // verus!
