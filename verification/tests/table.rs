use enwordle::feedback::feedback;
use enwordle::table::{FeedbackTable, TableError};
use enwordle::{Word, WORD_LEN};

fn word(text: &str) -> Word {
    let mut w = [0u8; WORD_LEN];
    w.copy_from_slice(text.as_bytes());
    w
}

fn words(texts: &[&str]) -> Vec<Word> {
    texts.iter().map(|t| word(t)).collect()
}

fn table(texts: &[&str]) -> FeedbackTable {
    match FeedbackTable::build(words(texts)) {
        Ok(t) => t,
        Err(e) => panic!("no table: {:?}", e),
    }
}

const TOY: [&str; 4] = ["ccccc", "aaaaa", "aaaab", "ddddd"];

#[test]
fn build_refuses_an_empty_dictionary() {
    match FeedbackTable::build(Vec::new()) {
        Err(e) => assert_eq!(e, TableError::EmptyDictionary),
        Ok(_) => panic!("a table of no words"),
    }
}

#[test]
fn build_takes_a_single_word() {
    let t = table(&["crane"]);
    assert_eq!(t.len(), 1);
    assert_eq!(t.code(0, 0), 242);
}

#[test]
fn table_holds_the_feedback_of_every_pair() {
    let texts = ["stirs", "wrist", "crane", "react", "aabbb", "ababa", "allee", "eagle"];
    let t = table(&texts);
    assert_eq!(t.len(), texts.len());
    for i in 0..texts.len() {
        assert_eq!(t.word(i), word(texts[i]));
        for j in 0..texts.len() {
            assert_eq!(t.code(i, j), feedback(&word(texts[i]), &word(texts[j])));
        }
    }
}

#[test]
fn table_codes_of_the_toy_dictionary() {
    let t = table(&TOY);
    let expected: [[u8; 4]; 4] = [
        [242, 0, 0, 0],
        [0, 242, 240, 0],
        [0, 240, 242, 0],
        [0, 0, 0, 242],
    ];
    for i in 0..4 {
        for j in 0..4 {
            assert_eq!(t.code(i, j), expected[i][j]);
        }
    }
}

#[test]
fn table_diagonal_is_solved() {
    let t = table(&["stirs", "wrist", "crane", "aaaaa"]);
    for i in 0..t.len() {
        assert_eq!(t.code(i, i), 242);
    }
}

#[test]
fn table_is_not_symmetric() {
    let t = table(&["stirs", "wrist"]);
    assert_eq!(t.code(0, 1), 129);
    assert_eq!(t.code(1, 0), 49);
}

#[test]
fn find_gives_the_first_index() {
    let t = table(&["crane", "slate", "crane", "trace"]);
    assert_eq!(t.find(&word("crane")), Some(0));
    assert_eq!(t.find(&word("slate")), Some(1));
    assert_eq!(t.find(&word("trace")), Some(3));
    assert_eq!(t.find(&word("react")), None);
}

#[test]
fn all_words_counts_from_zero() {
    let t = table(&TOY);
    assert_eq!(t.all_words(), vec![0, 1, 2, 3]);
    assert!(t.contains_all(&t.all_words()));
}

#[test]
fn contains_all_tests_every_index() {
    let t = table(&TOY);
    assert!(t.contains_all(&vec![]));
    assert!(t.contains_all(&vec![3, 0, 3]));
    assert!(!t.contains_all(&vec![0, 4]));
    assert!(!t.contains_all(&vec![usize::MAX]));
}

#[test]
fn filter_keeps_what_agrees_in_order() {
    let t = table(&TOY);
    let all = t.all_words();
    assert_eq!(t.filter(&all, 0, 0), vec![1, 2, 3]);
    assert_eq!(t.filter(&all, 0, 242), vec![0]);
    assert_eq!(t.filter(&all, 1, 240), vec![2]);
    assert_eq!(t.filter(&all, 1, 0), vec![0, 3]);
    assert_eq!(t.filter(&vec![3, 2, 1, 3], 0, 0), vec![3, 2, 1, 3]);
    assert_eq!(t.filter(&vec![3, 0, 1], 1, 0), vec![3, 0]);
    assert_eq!(all, vec![0, 1, 2, 3]);
}

#[test]
fn filter_may_keep_nothing() {
    let t = table(&TOY);
    let all = t.all_words();
    assert_eq!(t.filter(&all, 0, 129), Vec::<usize>::new());
    assert_eq!(t.filter(&Vec::new(), 0, 0), Vec::<usize>::new());
}

#[test]
fn filter_twice_is_filter_once() {
    let texts = ["stirs", "wrist", "crane", "react", "aabbb", "ababa", "allee", "eagle"];
    let t = table(&texts);
    let all = t.all_words();
    for chosen in 0..t.len() {
        for observed in 0..243usize {
            let once = t.filter(&all, chosen, observed as u8);
            let twice = t.filter(&once, chosen, observed as u8);
            assert_eq!(once, twice);
        }
    }
}

#[test]
fn filter_keeps_the_true_answer() {
    let texts = ["stirs", "wrist", "crane", "react", "aabbb", "ababa", "allee", "eagle"];
    let t = table(&texts);
    let all = t.all_words();
    for chosen in 0..t.len() {
        for answer in 0..t.len() {
            let kept = t.filter(&all, chosen, t.code(chosen, answer));
            assert!(kept.contains(&answer));
        }
    }
}

#[test]
fn histogram_counts_the_codes() {
    let t = table(&TOY);
    let all = t.all_words();
    let h = t.histogram(0, &all);
    assert_eq!(h.len(), 243);
    assert_eq!(h[0], 3);
    assert_eq!(h[242], 1);
    assert_eq!(h.iter().sum::<usize>(), 4);
    let h = t.histogram(1, &all);
    assert_eq!(h[0], 2);
    assert_eq!(h[240], 1);
    assert_eq!(h[242], 1);
    assert_eq!(h.iter().filter(|c| **c > 0).count(), 3);
    let h = t.histogram(1, &vec![2, 2, 0]);
    assert_eq!(h[240], 2);
    assert_eq!(h[0], 1);
    assert_eq!(h[242], 0);
}

#[test]
fn histogram_of_one_possibility_has_one_count() {
    let t = table(&TOY);
    for candidate in 0..4 {
        for only in 0..4 {
            let h = t.histogram(candidate, &vec![only]);
            assert_eq!(h.iter().sum::<usize>(), 1);
            assert_eq!(h[t.code(candidate, only) as usize], 1);
        }
    }
}

#[test]
fn histogram_bucket_is_the_size_of_the_filtered_set() {
    let texts = ["stirs", "wrist", "crane", "react", "aabbb", "ababa", "allee", "eagle"];
    let t = table(&texts);
    let all = t.all_words();
    for candidate in 0..t.len() {
        let h = t.histogram(candidate, &all);
        for code in 0..243usize {
            assert_eq!(h[code], t.filter(&all, candidate, code as u8).len());
        }
    }
}
