use enwordle::group::parse_group;
use enwordle::session::{advance, select, settled, split_words, Outcome, Selection, SHOWN};
use enwordle::table::FeedbackTable;
use enwordle::{Word, WORD_LEN};

fn word(text: &str) -> Word {
    let mut w = [0u8; WORD_LEN];
    w.copy_from_slice(text.as_bytes());
    w
}

fn table(texts: &[&str]) -> FeedbackTable {
    match FeedbackTable::build(texts.iter().map(|t| word(t)).collect()) {
        Ok(t) => t,
        Err(e) => panic!("no table: {:?}", e),
    }
}

const TOY: [&str; 4] = ["ccccc", "aaaaa", "aaaab", "ddddd"];

#[test]
fn split_words_cuts_at_every_sixth_byte() {
    assert_eq!(split_words(b"crane\nslate\ntrace\n"), vec![word("crane"), word("slate"), word("trace")]);
    assert_eq!(split_words(b"crane\nslate\ntrace"), vec![word("crane"), word("slate"), word("trace")]);
    assert_eq!(split_words(b"crane slate"), vec![word("crane"), word("slate")]);
    assert_eq!(split_words(b"craneXslateYtr"), vec![word("crane"), word("slate")]);
}

#[test]
fn split_words_drops_what_is_no_whole_word() {
    assert_eq!(split_words(b""), Vec::<Word>::new());
    assert_eq!(split_words(b"cran"), Vec::<Word>::new());
    assert_eq!(split_words(b"crane"), vec![word("crane")]);
    assert_eq!(split_words(b"crane\n"), vec![word("crane")]);
    assert_eq!(split_words(b"crane\nslat"), vec![word("crane")]);
    assert_eq!(split_words(b"crane\nslate"), vec![word("crane"), word("slate")]);
}

#[test]
fn split_words_counts_by_length() {
    for n in 0..40usize {
        let bytes = vec![b'a'; n];
        assert_eq!(split_words(&bytes).len(), (n + 1) / 6);
    }
}

#[test]
fn shown_rows() {
    assert_eq!(SHOWN, 9);
}

#[test]
fn select_zero_quits() {
    let t = table(&TOY);
    let ranking = vec![(1, 30), (2, 30), (0, 10), (3, 10)];
    assert_eq!(select(&t, &ranking, Some(0), b"0"), Selection::Quit);
    assert_eq!(select(&t, &Vec::new(), Some(0), b"0"), Selection::Quit);
}

#[test]
fn select_number_picks_from_the_ranking() {
    let t = table(&TOY);
    let ranking = vec![(1, 30), (2, 30), (0, 10), (3, 10)];
    assert_eq!(select(&t, &ranking, Some(1), b"1"), Selection::Guess(1));
    assert_eq!(select(&t, &ranking, Some(3), b"3"), Selection::Guess(0));
    assert_eq!(select(&t, &ranking, Some(4), b"4"), Selection::Guess(3));
    assert_eq!(select(&t, &ranking, Some(5), b"5"), Selection::NotRanked);
    assert_eq!(select(&t, &ranking, Some(usize::MAX), b"x"), Selection::NotRanked);
    assert_eq!(select(&t, &ranking, Some(12345), b"12345"), Selection::NotRanked);
}

#[test]
fn select_text_is_looked_up() {
    let t = table(&TOY);
    let ranking = vec![(1, 30), (2, 30)];
    assert_eq!(select(&t, &ranking, None, b"ddddd"), Selection::Guess(3));
    assert_eq!(select(&t, &ranking, None, b"ccccc"), Selection::Guess(0));
    assert_eq!(select(&t, &ranking, None, b"crane"), Selection::UnknownWord);
    assert_eq!(select(&t, &ranking, None, b"cccc"), Selection::WrongLength);
    assert_eq!(select(&t, &ranking, None, b"cccccc"), Selection::WrongLength);
    assert_eq!(select(&t, &ranking, None, b""), Selection::WrongLength);
}

#[test]
fn settled_below_two() {
    assert!(settled(&vec![]));
    assert!(settled(&vec![7]));
    assert!(!settled(&vec![7, 8]));
    assert!(!settled(&vec![0, 1, 2]));
}

#[test]
fn advance_solves_on_all_correct() {
    let t = table(&TOY);
    let all = t.all_words();
    assert!(matches!(advance(&t, &all, 1, 242), Outcome::Solved));
    assert!(matches!(advance(&t, &Vec::new(), 1, 242), Outcome::Solved));
}

#[test]
fn advance_narrows() {
    let t = table(&TOY);
    let all = t.all_words();
    match advance(&t, &all, 1, 0) {
        Outcome::Narrowed(kept) => assert_eq!(kept, vec![0, 3]),
        other => panic!("{:?}", other),
    }
    match advance(&t, &all, 1, 240) {
        Outcome::Narrowed(kept) => assert_eq!(kept, vec![2]),
        other => panic!("{:?}", other),
    }
}

#[test]
fn advance_reports_that_nothing_agrees() {
    let t = table(&TOY);
    let all = t.all_words();
    assert!(matches!(advance(&t, &all, 1, 129), Outcome::NoMatch));
    assert!(matches!(advance(&t, &Vec::new(), 1, 0), Outcome::NoMatch));
}

#[test]
fn a_session_on_the_toy_dictionary() {
    let t = table(&TOY);
    let mut conforming = t.all_words();
    // The answer is `ddddd`; the player guesses `aaaaa`, then `ccccc`.
    let answer = 3;
    for guess in [1usize, 0] {
        assert!(!settled(&conforming));
        let typed = enwordle::string_for_group(&t.code(guess, answer));
        let observed = match parse_group(typed.as_bytes()) {
            Some(code) => code,
            None => panic!("not a response: {}", typed),
        };
        match advance(&t, &conforming, guess, observed) {
            Outcome::Narrowed(kept) => {
                assert!(kept.contains(&answer));
                assert!(kept.len() < conforming.len());
                conforming = kept;
            }
            other => panic!("{:?}", other),
        }
    }
    assert_eq!(conforming, vec![3]);
    assert!(settled(&conforming));
    assert!(matches!(advance(&t, &conforming, 3, t.code(3, answer)), Outcome::Solved));
}
