use summarizer::overlap::{common_tokens, overlap_matrix};
use summarizer::select::max_n;
use summarizer::vocabulary::Vocabulary;

fn words(list: &[&str]) -> Vec<String> {
    let mut out = Vec::new();
    for w in list {
        out.push(w.to_string());
    }
    out
}

#[test]
fn ids_start_at_one_and_follow_first_sight() {
    let mut v = Vocabulary::new();
    assert_eq!(v.len(), 0);
    assert_eq!(v.encode(&words(&["b", "a", "b", "c", "a"])), vec![1, 2, 1, 3, 2]);
    assert_eq!(v.len(), 3);
    assert_eq!(v.get("b"), Some(1));
    assert_eq!(v.get("a"), Some(2));
    assert_eq!(v.get("c"), Some(3));
    assert_eq!(v.get("d"), None);
}

#[test]
fn ids_are_a_range_as_long_as_the_distinct_words() {
    let text = words(&["to", "be", "or", "not", "to", "be", "that", "is", "the", "question", "is"]);
    let mut v = Vocabulary::new();
    let ids = v.encode(&text);
    assert_eq!(v.len(), 8);
    for id in 1..=8 {
        assert!(ids.contains(&id));
    }
    for id in &ids {
        assert!(1 <= *id && *id <= 8);
    }
}

#[test]
fn reading_again_changes_nothing() {
    let text = words(&["x", "y", "x", "z"]);
    let mut v = Vocabulary::new();
    let first = v.encode(&text);
    let second = v.encode(&text);
    assert_eq!(first, vec![1, 2, 1, 3]);
    assert_eq!(second, first);
    assert_eq!(v.len(), 3);

    let mut other = Vocabulary::new();
    assert_eq!(other.encode(&text), first);
}

#[test]
fn words_differ_by_case_and_form() {
    let mut v = Vocabulary::new();
    assert_eq!(v.encode(&words(&["Word", "word", "WORD", "words", "word"])), vec![1, 2, 3, 4, 2]);
}

#[test]
fn intern_gives_the_known_id_or_the_next() {
    let mut v = Vocabulary::new();
    assert_eq!(v.intern("one".to_string()), 1);
    assert_eq!(v.intern("two".to_string()), 2);
    assert_eq!(v.intern("one".to_string()), 1);
    assert_eq!(v.intern("".to_string()), 3);
    assert_eq!(v.len(), 3);
    assert_eq!(v.encode(&words(&[])), Vec::<usize>::new());
    assert_eq!(v.len(), 3);
}

#[test]
fn shared_tokens_count_once() {
    assert_eq!(common_tokens(&vec![1, 2, 3, 4, 5], &vec![1, 2, 6, 4, 5]), 4);
    assert_eq!(common_tokens(&vec![1, 1, 1], &vec![1, 1]), 1);
    assert_eq!(common_tokens(&vec![1, 2, 2, 3], &vec![2, 3, 3, 3, 4]), 2);
    assert_eq!(common_tokens(&vec![1, 2], &vec![3, 4]), 0);
    assert_eq!(common_tokens(&vec![], &vec![3, 4]), 0);
    assert_eq!(common_tokens(&vec![], &vec![]), 0);
    assert_eq!(common_tokens(&vec![7, 8, 9], &vec![9, 8, 7, 7]), 3);
}

#[test]
fn shared_tokens_do_not_depend_on_the_order_of_the_two() {
    let a = vec![5, 1, 5, 2, 9];
    let b = vec![9, 9, 2, 7];
    assert_eq!(common_tokens(&a, &b), 2);
    assert_eq!(common_tokens(&b, &a), 2);
}

#[test]
fn the_matrix_is_symmetric_with_an_empty_diagonal() {
    let sequences = vec![vec![1, 2, 3], vec![3, 4], vec![], vec![4], vec![4], vec![1, 1, 4, 3]];
    let m = overlap_matrix(&sequences);
    assert_eq!(m, vec![
        vec![0, 1, 0, 0, 0, 2],
        vec![1, 0, 0, 1, 1, 2],
        vec![0, 0, 0, 0, 0, 0],
        vec![0, 1, 0, 0, 0, 1],
        vec![0, 1, 0, 0, 0, 1],
        vec![2, 2, 0, 1, 1, 0],
    ]);
    for i in 0..m.len() {
        assert_eq!(m[i][i], 0);
        for j in 0..m.len() {
            assert_eq!(m[i][j], m[j][i]);
        }
    }
    assert_eq!(overlap_matrix(&vec![]), Vec::<Vec<usize>>::new());
    assert_eq!(overlap_matrix(&vec![vec![1, 2]]), vec![vec![0]]);
}

#[test]
fn the_best_are_picked_and_listed_in_document_order() {
    let scores = vec![10, 50, 30, 40, 20];
    assert_eq!(max_n(&scores, 0), Vec::<usize>::new());
    assert_eq!(max_n(&scores, 1), vec![1]);
    assert_eq!(max_n(&scores, 2), vec![1, 3]);
    assert_eq!(max_n(&scores, 3), vec![1, 2, 3]);
    assert_eq!(max_n(&scores, 4), vec![1, 2, 3, 4]);
    assert_eq!(max_n(&scores, 5), vec![0, 1, 2, 3, 4]);
    assert_eq!(max_n(&scores, 6), vec![0, 1, 2, 3, 4]);
    assert_eq!(max_n(&scores, usize::MAX), vec![0, 1, 2, 3, 4]);
}

#[test]
fn among_equal_scores_the_earliest_goes_first() {
    assert_eq!(max_n(&vec![7, 7], 1), vec![0]);
    assert_eq!(max_n(&vec![1, 7, 7, 7], 2), vec![1, 2]);
    assert_eq!(max_n(&vec![3, 3, 3, 3], 3), vec![0, 1, 2]);
    assert_eq!(max_n(&vec![5, 9, 5, 9, 5], 3), vec![0, 1, 3]);
    assert_eq!(max_n(&vec![0, u64::MAX, 0], 1), vec![1]);
}

#[test]
fn nothing_to_pick_from_gives_nothing() {
    assert_eq!(max_n(&vec![], 0), Vec::<usize>::new());
    assert_eq!(max_n(&vec![], 3), Vec::<usize>::new());
}
