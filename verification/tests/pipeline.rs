use summarizer::document::Document;
use summarizer::error::SumError;
use summarizer::language::Language;
use summarizer::language::Language::{Chinese, English};
use summarizer::summarizer::Summarizer;
use summarizer::vocabulary::Vocabulary;

const DAMPING: f64 = 0.8;

/// The relevance of every pair of sentences: shared tokens over the sum of
/// the logarithms of the two lengths, and zero where nothing links them.
fn relevance(doc: &Document) -> Vec<Vec<f64>> {
    let weights = doc.overlaps();
    let sequences = doc.sequences();
    let mut matrix = Vec::new();
    for i in 0..weights.len() {
        let mut row = Vec::new();
        for j in 0..weights.len() {
            if weights[i][j] == 0 {
                row.push(0.0);
            } else {
                let spread = (sequences[i].len() as f64).log10() + (sequences[j].len() as f64).log10();
                row.push(weights[i][j] as f64 / spread);
            }
        }
        matrix.push(row);
    }
    matrix
}

/// One damped score for each sentence.
fn score(doc: &Document) -> Vec<f64> {
    let matrix = relevance(doc);
    let mut total = 0.0;
    for row in &matrix {
        for cell in row {
            total += cell;
        }
    }
    let mut scores = Vec::new();
    for row in &matrix {
        if total == 0.0 {
            scores.push(1.0 - DAMPING);
        } else {
            let mut share = 0.0;
            for cell in row {
                share += cell / total;
            }
            scores.push((1.0 - DAMPING) + DAMPING * share);
        }
    }
    scores
}

/// Scores are positive, so their bit patterns order as they do.
fn keys(scores: &Vec<f64>) -> Vec<u64> {
    let mut keys = Vec::new();
    for s in scores {
        keys.push(s.to_bits());
    }
    keys
}

fn summarize(summarizer: &Summarizer, text: &str, n: usize) -> String {
    let doc = summarizer.read(text);
    let scores = keys(&score(&doc));
    assert_eq!(scores.len(), doc.len());
    summarizer.fit(&doc, &scores, n)
}

const TWO: &str = "This is a simple sentence. This is another simple sentence.";

#[test]
fn test_detect_chinese() {
    let cns_text = "这是一段中文句子，测试一下能否识别。";
    let eng_text = "This is a short Engilsh sentence.";

    let mut summarizer1 = Summarizer::default();
    let mut summarizer2 = Summarizer::default();
    let cns_res = summarizer1.detect(cns_text);
    let eng_res = summarizer2.detect(eng_text);

    // test fit correctly
    assert!(cns_res.is_ok());
    assert!(eng_res.is_ok());

    // test correct language detected
    assert_eq!(summarizer1.get_lang(), &Some(Chinese));
    assert_eq!(summarizer2.get_lang(), &Some(English));
}

#[test]
fn test_english_sequencing() {
    let text = "This is a simple sentence. This is another simple sentence.";
    let mut summarizer = Summarizer::default();
    summarizer.detect(text).expect("Cannot detect language");
    let summary = summarize(&summarizer, text, 5);
    assert_eq!(summary, text);
}

#[test]
fn detect_reports_a_miss_and_keeps_the_language() {
    let mut fresh = Summarizer::default();
    assert_eq!(fresh.detect(""), Err(SumError::NoLangFit));
    assert_eq!(fresh.get_lang(), &None);

    let mut set = Summarizer::new(Chinese);
    assert_eq!(set.detect("12345 !!!"), Err(SumError::NoLangFit));
    assert_eq!(set.get_lang(), &Some(Chinese));
}

#[test]
fn adopt_takes_a_language_or_reports_the_miss() {
    let mut s = Summarizer::default();
    assert_eq!(s.adopt(None), Err(SumError::NoLangFit));
    assert_eq!(s.get_lang(), &None);
    assert_eq!(s.adopt(Some(Language::English)), Ok(()));
    assert_eq!(s.get_lang(), &Some(English));
    assert_eq!(s.adopt(None), Err(SumError::NoLangFit));
    assert_eq!(s.get_lang(), &Some(English));
    assert_eq!(s.adopt(Some(Language::Chinese)), Ok(()));
    assert_eq!(s.get_lang(), &Some(Chinese));
}

#[test]
fn new_sets_the_language() {
    assert_eq!(Summarizer::new(English).get_lang(), &Some(English));
    assert_eq!(Summarizer::new(Chinese).get_lang(), &Some(Chinese));
    assert_eq!(Summarizer::default().get_lang(), &None);
}

#[test]
fn read_cuts_sentences_and_numbers_words() {
    let doc = Summarizer::new(English).read(TWO);
    assert_eq!(doc.len(), 2);
    assert_eq!(
        doc.sentences(),
        &vec!["This is a simple sentence. ".to_string(), "This is another simple sentence.".to_string()]
    );
    assert_eq!(doc.sequences(), &vec![vec![1, 2, 3, 4, 5], vec![1, 2, 6, 4, 5]]);
}

#[test]
fn read_skips_stretches_without_letters_or_digits() {
    let doc = Summarizer::new(English).read("Mr. Fox jumped. [...] The dog was too lazy.");
    assert_eq!(
        doc.sentences(),
        &vec!["Mr. ".to_string(), "Fox jumped. ".to_string(), "The dog was too lazy.".to_string()]
    );
    assert_eq!(doc.sequences(), &vec![vec![1], vec![2, 3], vec![4, 5, 6, 7, 8]]);
}

#[test]
fn read_without_a_language_numbers_nothing() {
    let doc = Summarizer::default().read(TWO);
    assert_eq!(doc.len(), 2);
    assert_eq!(doc.sequences(), &vec![Vec::<usize>::new(), Vec::<usize>::new()]);
    assert_eq!(doc.overlaps(), vec![vec![0, 0], vec![0, 0]]);
}

#[test]
fn read_handles_text_without_spaces_between_words() {
    let doc = Summarizer::new(Chinese).read("这是一段中文句子。这是另一段句子。");
    assert_eq!(doc.len(), 2);
    assert_eq!(doc.sequences()[0], vec![1, 2, 3, 4, 5, 6, 7, 8]);
    assert_eq!(doc.sequences()[1], vec![1, 2, 9, 3, 4, 7, 8]);
}

#[test]
fn tokenize_shares_ids_across_calls() {
    let s = Summarizer::new(English);
    let mut tokens = Vocabulary::new();
    assert_eq!(s.tokenize("The quick (\"brown\") fox can't jump 32.3 feet, right?", &mut tokens),
        Some(vec![1, 2, 3, 4, 5, 6, 7, 8, 9]));
    assert_eq!(tokens.len(), 9);
    assert_eq!(tokens.get("can't"), Some(5));
    assert_eq!(tokens.get("32.3"), Some(7));
    assert_eq!(tokens.get("Quick"), None);
    assert_eq!(s.tokenize("the fox, the quick fox", &mut tokens), Some(vec![10, 4, 10, 2, 4]));
    assert_eq!(tokens.len(), 10);
    assert_eq!(tokens.get("the"), Some(10));
    assert_eq!(tokens.get("The"), Some(1));
}

#[test]
fn tokenize_is_the_same_for_both_languages() {
    let text = "one two 三 two";
    let mut a = Vocabulary::new();
    let mut b = Vocabulary::new();
    assert_eq!(Summarizer::new(English).tokenize(text, &mut a), Some(vec![1, 2, 3, 2]));
    assert_eq!(Summarizer::new(Chinese).tokenize(text, &mut b), Some(vec![1, 2, 3, 2]));
}

#[test]
fn tokenize_without_a_language_reads_nothing() {
    let mut tokens = Vocabulary::new();
    assert_eq!(Summarizer::default().tokenize("some words", &mut tokens), None);
    assert_eq!(tokens.len(), 0);
}

#[test]
fn tokenize_of_nothing_is_empty() {
    let mut tokens = Vocabulary::new();
    assert_eq!(Summarizer::new(English).tokenize("", &mut tokens), Some(vec![]));
    assert_eq!(Summarizer::new(English).tokenize("?! ...", &mut tokens), Some(vec![]));
    assert_eq!(tokens.len(), 0);
}

#[test]
fn two_similar_sentences_tie_and_the_first_wins() {
    let s = Summarizer::new(English);
    let doc = s.read(TWO);
    assert_eq!(doc.len(), 2);
    assert_eq!(doc.overlaps(), vec![vec![0, 4], vec![4, 0]]);
    let matrix = relevance(&doc);
    assert_eq!(matrix[0][1], matrix[1][0]);
    assert_eq!(matrix[0][1], 4.0 / (5f64.log10() + 5f64.log10()));
    assert_eq!(matrix[0][0], 0.0);
    assert_eq!(matrix[1][1], 0.0);
    let scores = score(&doc);
    let tied = (1.0 - DAMPING) + DAMPING * 0.5;
    assert_eq!(scores, vec![tied, tied]);
    assert_eq!(s.fit(&doc, &keys(&scores), 1), "This is a simple sentence. ");
}

#[test]
fn empty_text_gives_an_empty_summary() {
    let s = Summarizer::new(English);
    let doc = s.read("");
    assert_eq!(doc.len(), 0);
    assert!(doc.overlaps().is_empty());
    assert!(score(&doc).is_empty());
    assert_eq!(summarize(&s, "", 5), "");
    assert_eq!(summarize(&s, "", 0), "");
}

#[test]
fn asking_for_no_sentence_gives_an_empty_summary() {
    let s = Summarizer::new(English);
    assert_eq!(summarize(&s, TWO, 0), "");
    assert_eq!(summarize(&s, "One sentence only.", 0), "");
    assert_eq!(summarize(&Summarizer::default(), TWO, 0), "");
}

#[test]
fn asking_for_every_sentence_gives_them_all_in_order() {
    let s = Summarizer::new(English);
    let text = "Cats purr. Dogs bark at cats. Birds sing. Dogs and cats and birds are pets.";
    assert_eq!(s.read(text).len(), 4);
    assert_eq!(summarize(&s, text, 4), text);
    assert_eq!(summarize(&s, text, 5), text);
    assert_eq!(summarize(&s, text, usize::MAX), text);
}

#[test]
fn a_single_sentence_scores_one_minus_damping() {
    let s = Summarizer::new(English);
    let doc = s.read("Only one sentence here.");
    assert_eq!(doc.len(), 1);
    let scores = score(&doc);
    assert_eq!(scores.len(), 1);
    assert_eq!(scores[0], 1.0 - DAMPING);
    assert_eq!(s.fit(&doc, &keys(&scores), 1), "Only one sentence here.");
}

#[test]
fn there_is_one_score_for_each_sentence() {
    let s = Summarizer::new(English);
    for text in ["", "One.", TWO, "A b c. D e f. G h i. A d g."] {
        let doc = s.read(text);
        assert_eq!(score(&doc).len(), doc.len());
        assert_eq!(doc.sentences().len(), doc.len());
        assert_eq!(doc.sequences().len(), doc.len());
    }
}

#[test]
fn the_best_linked_sentences_are_kept_in_document_order() {
    let s = Summarizer::new(English);
    let text = "Red Green Blue. Apples are sweet today. Blue and Green and Red. Red or Green or Blue or black.";
    let doc = s.read(text);
    assert_eq!(doc.sequences(), &vec![
        vec![1, 2, 3],
        vec![4, 5, 6, 7],
        vec![3, 8, 2, 8, 1],
        vec![1, 9, 2, 9, 3, 9, 10],
    ]);
    assert_eq!(doc.overlaps(), vec![
        vec![0, 0, 3, 3],
        vec![0, 0, 0, 0],
        vec![3, 0, 0, 3],
        vec![3, 0, 3, 0],
    ]);
    let scores = score(&doc);
    assert_eq!(scores[1], 1.0 - DAMPING);
    assert!(scores[0] > scores[2] && scores[2] > scores[3] && scores[3] > scores[1]);
    let scores = keys(&scores);
    assert_eq!(s.fit(&doc, &scores, 1), "Red Green Blue. ");
    assert_eq!(s.fit(&doc, &scores, 2), "Red Green Blue. Blue and Green and Red. ");
    assert_eq!(
        s.fit(&doc, &scores, 3),
        "Red Green Blue. Blue and Green and Red. Red or Green or Blue or black."
    );
    assert_eq!(s.fit(&doc, &scores, 4), text);
}

#[test]
fn sentences_of_one_word_are_not_linked() {
    let s = Summarizer::new(English);
    let doc = s.read("Go. Go. Go now.");
    assert_eq!(doc.sequences(), &vec![vec![1], vec![1], vec![1, 2]]);
    assert_eq!(doc.overlaps(), vec![vec![0, 0, 1], vec![0, 0, 1], vec![1, 1, 0]]);
    let matrix = relevance(&doc);
    assert_eq!(matrix[0][1], 0.0);
    assert_eq!(matrix[0][2], 1.0 / 2f64.log10());
    for x in score(&doc) {
        assert!(x.is_finite());
    }
}

#[test]
fn unrelated_sentences_tie_and_the_earliest_are_kept() {
    let s = Summarizer::new(English);
    let text = "Alpha beta. Gamma delta. Epsilon zeta.";
    let doc = s.read(text);
    assert_eq!(score(&doc), vec![1.0 - DAMPING, 1.0 - DAMPING, 1.0 - DAMPING]);
    assert_eq!(summarize(&s, text, 1), "Alpha beta. ");
    assert_eq!(summarize(&s, text, 2), "Alpha beta. Gamma delta. ");
}

#[test]
fn the_same_text_gives_the_same_summary() {
    let s = Summarizer::new(English);
    let text = "Red Green Blue. Apples are sweet today. Blue and Green and Red. Red or Green or Blue or black.";
    for n in 0..6 {
        assert_eq!(summarize(&s, text, n), summarize(&s, text, n));
    }
    let first = s.read(text);
    let second = s.read(text);
    assert_eq!(first.sentences(), second.sentences());
    assert_eq!(first.sequences(), second.sequences());
    assert_eq!(first.overlaps(), second.overlaps());
}

#[test]
fn fit_joins_the_chosen_sentences_without_a_separator() {
    let sentences = vec!["a".to_string(), "bb".to_string(), "ccc".to_string(), "d".to_string()];
    let doc = Document::new(sentences, vec![vec![], vec![], vec![], vec![]]).unwrap();
    let s = Summarizer::default();
    assert_eq!(s.fit(&doc, &vec![1, 9, 9, 3], 0), "");
    assert_eq!(s.fit(&doc, &vec![1, 9, 9, 3], 1), "bb");
    assert_eq!(s.fit(&doc, &vec![1, 9, 9, 3], 2), "bbccc");
    assert_eq!(s.fit(&doc, &vec![1, 9, 9, 3], 3), "bbcccd");
    assert_eq!(s.fit(&doc, &vec![1, 9, 9, 3], 4), "abbcccd");
    assert_eq!(s.fit(&doc, &vec![1, 9, 9, 3], 40), "abbcccd");
    assert_eq!(s.fit(&doc, &vec![7, 0, 0, 8], 2), "ad");
}

#[test]
fn a_document_needs_one_sequence_for_each_sentence() {
    assert!(Document::new(vec!["a".to_string()], vec![]).is_none());
    assert!(Document::new(vec![], vec![vec![1]]).is_none());
    let doc = Document::new(vec!["a".to_string()], vec![vec![1, 2]]).unwrap();
    assert_eq!(doc.len(), 1);
    assert_eq!(doc.sentences(), &vec!["a".to_string()]);
    assert_eq!(doc.sequences(), &vec![vec![1, 2]]);
    assert_eq!(Document::new(vec![], vec![]).unwrap().len(), 0);
}
