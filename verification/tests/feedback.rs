use enwordle::feedback::feedback;
use enwordle::group::{parse_group, SOLVED};
use enwordle::{groups_for_words, string_for_group, Word, GROUP_COUNT, WORD_LEN};

fn groupstr_for_strings(a: &str, b: &str) -> (String, String) {
    let bufa = a.as_bytes();
    let mut worda = [0 as u8; WORD_LEN];
    worda.copy_from_slice(&bufa);

    let bufb = b.as_bytes();
    let mut wordb = [0 as u8; WORD_LEN];
    wordb.copy_from_slice(&bufb);

    let (groupa, groupb) = groups_for_words(&worda, &wordb);
    let stra = string_for_group(&groupa);
    let strb = string_for_group(&groupb);
    (stra, strb)
}

fn word(text: &str) -> Word {
    let mut w = [0u8; WORD_LEN];
    w.copy_from_slice(text.as_bytes());
    w
}

fn marks(guess: &str, target: &str) -> String {
    string_for_group(&feedback(&word(guess), &word(target)))
}

#[test]
fn grouping() {
    let (stra, strb) = groupstr_for_strings(&"stirs", &"wrist");
    assert!(stra == "11210");
    assert!(strb == "01211");
}

#[test]
fn own_guess_is_solved() {
    for text in ["crane", "aaaaa", "stirs", "allee", "zzzzy"] {
        let w = word(text);
        assert_eq!(feedback(&w, &w), SOLVED);
        assert_eq!(feedback(&w, &w), 242);
        assert_eq!(feedback(&w, &w) as usize, GROUP_COUNT - 1);
        assert_eq!(groups_for_words(&w, &w), (242, 242));
    }
}

#[test]
fn distinct_letters_need_no_counting() {
    assert_eq!(marks("crane", "react"), "11201");
    assert_eq!(feedback(&word("crane"), &word("react")), 127);
    assert_eq!(marks("abcde", "fghij"), "00000");
    assert_eq!(feedback(&word("abcde"), &word("fghij")), 0);
    assert_eq!(marks("abcde", "eabcd"), "11111");
    assert_eq!(marks("crane", "crate"), "22202");
}

#[test]
fn distinct_guess_against_repeated_target() {
    // Only the guess has to be free of repeats for the simple rule to hold.
    assert_eq!(marks("abcde", "aaaaa"), "20000");
    assert_eq!(marks("bacde", "aaaab"), "12000");
}

#[test]
fn repeated_letters_are_capped() {
    assert_eq!(marks("aabbb", "ababa"), "21120");
    assert_eq!(marks("ababa", "aabbb"), "21120");
    assert_eq!(marks("speed", "abide"), "00101");
    assert_eq!(marks("speed", "erase"), "10110");
    assert_eq!(marks("allee", "eagle"), "11012");
    for (guess, target) in [("aabbb", "ababa"), ("speed", "abide"), ("allee", "eagle"), ("aaaaa", "abcde")] {
        let shown = marks(guess, target);
        for letter in b'a'..=b'z' {
            let marked = guess
                .bytes()
                .zip(shown.bytes())
                .filter(|(g, m)| *g == letter && *m != b'0')
                .count();
            let held = target.bytes().filter(|t| *t == letter).count();
            assert!(marked <= held);
        }
    }
}

#[test]
fn first_unclaimed_letter_is_claimed_and_no_other() {
    // Both `a` of the guess find an `a` of their own in the target.
    assert_eq!(marks("aacde", "xxaaz"), "11000");
    assert_eq!(marks("xxaaz", "aacde"), "00110");
    assert_eq!(groups_for_words(&word("aacde"), &word("xxaaz")), (108, 12));
}

#[test]
fn codes_of_a_pair_are_those_of_both_directions() {
    let texts = ["stirs", "wrist", "crane", "react", "aabbb", "ababa", "allee", "eagle"];
    for a in texts {
        for b in texts {
            let (forth, back) = groups_for_words(&word(a), &word(b));
            assert_eq!(forth, feedback(&word(a), &word(b)));
            assert_eq!(back, feedback(&word(b), &word(a)));
            assert!((forth as usize) < GROUP_COUNT);
        }
    }
    assert_eq!(groups_for_words(&word("stirs"), &word("wrist")), (129, 49));
}

#[test]
fn string_for_group_writes_five_digits() {
    assert_eq!(string_for_group(&0), "00000");
    assert_eq!(string_for_group(&1), "00001");
    assert_eq!(string_for_group(&2), "00002");
    assert_eq!(string_for_group(&3), "00010");
    assert_eq!(string_for_group(&81), "10000");
    assert_eq!(string_for_group(&129), "11210");
    assert_eq!(string_for_group(&49), "01211");
    assert_eq!(string_for_group(&242), "22222");
}

#[test]
fn string_for_group_keeps_the_low_five_digits() {
    assert_eq!(string_for_group(&243), "00000");
    assert_eq!(string_for_group(&255), "00110");
}

#[test]
fn parse_group_reads_five_digits() {
    assert_eq!(parse_group(b"00000"), Some(0));
    assert_eq!(parse_group(b"11210"), Some(129));
    assert_eq!(parse_group(b"01211"), Some(49));
    assert_eq!(parse_group(b"22222"), Some(242));
    assert_eq!(parse_group(b"10000"), Some(81));
}

#[test]
fn parse_group_refuses_other_text() {
    assert_eq!(parse_group(b""), None);
    assert_eq!(parse_group(b"1121"), None);
    assert_eq!(parse_group(b"112100"), None);
    assert_eq!(parse_group(b"11310"), None);
    assert_eq!(parse_group(b"1121a"), None);
    assert_eq!(parse_group(b"1121/"), None);
    assert_eq!(parse_group(b" 1121"), None);
    assert_eq!(parse_group(b"99999"), None);
}

#[test]
fn parse_group_reads_what_string_for_group_writes() {
    for code in 0..GROUP_COUNT {
        let text = string_for_group(&(code as u8));
        assert_eq!(text.len(), WORD_LEN);
        assert_eq!(parse_group(text.as_bytes()), Some(code as u8));
    }
}
