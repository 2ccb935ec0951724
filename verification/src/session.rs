//! The decisions of a solving session: reading the dictionary, what a player's
//! choice of guess means, and how a turn ends once the game has answered.
//!
//! Nothing here reads or prints. The caller asks the player and hands over what
//! was typed; these functions say what it means.

use vstd::prelude::*;
use crate::group::SOLVED;
use crate::table::{all_below, narrowed, FeedbackTable};
use crate::{Group, Word, WordIndex, WORD_LEN};

verus! {

/// How many of the best guesses a session shows.
pub const SHOWN: usize = 9;

/// What a player's choice of guess means.
#[derive(Clone, Copy, Debug, PartialEq, Eq, Structural)]
pub enum Selection {
    /// The player wants to stop.
    Quit,
    /// The player guesses the word at this index.
    Guess(WordIndex),
    /// The player typed a number beyond the end of the ranking.
    NotRanked,
    /// The player typed text that does not have the length of a word.
    WrongLength,
    /// The player typed a word that the dictionary does not hold.
    UnknownWord,
}

/// How a turn ends.
#[derive(Debug)]
pub enum Outcome {
    /// The game answered that every letter is correct.
    Solved,
    /// No possible answer agrees with what the game answered.
    NoMatch,
    /// These possible answers remain.
    Narrowed(Vec<WordIndex>),
}

/// Where word `k` starts when words of `WORD_LEN` bytes are laid out with one
/// byte between them.
pub open spec fn word_start(k: int) -> int {
    k * (WORD_LEN + 1)
}

/// How many whole words `n` bytes hold, one byte between two words.
pub open spec fn word_count(n: int) -> int {
    (n + 1) / (WORD_LEN + 1)
}

/// Cuts `bytes` into the words of a dictionary. A word is `WORD_LEN` bytes; one
/// byte, whatever it is, separates it from the next. Bytes at the end that do
/// not make a whole word are left out.
pub fn split_words(bytes: &[u8]) -> (words: Vec<Word>)
    ensures
        words@.len() == word_count(bytes@.len() as int),
        forall|k: int, i: int|
            0 <= k < words@.len() && 0 <= i < WORD_LEN ==> #[trigger] words@[k]@[i] == bytes@[word_start(
                k,
            ) + i],
{
    let mut words: Vec<Word> = Vec::new();
    if bytes.len() < WORD_LEN {
        return words;
    }
    let count = (bytes.len() - WORD_LEN) / (WORD_LEN + 1) + 1;
    for k in 0..count
        invariant
            WORD_LEN <= bytes@.len() <= usize::MAX,
            count == word_count(bytes@.len() as int),
            words@.len() == k,
            forall|w: int, i: int|
                0 <= w < words@.len() && 0 <= i < WORD_LEN ==> #[trigger] words@[w]@[i]
                    == bytes@[word_start(w) + i],
    {
        let start = k * (WORD_LEN + 1);
        let mut word: Word = [0;WORD_LEN];
        for i in 0..WORD_LEN
            invariant
                start + WORD_LEN <= bytes@.len() <= usize::MAX,
                forall|j: int| 0 <= j < i ==> word@[j] == bytes@[start + j],
        {
            word[i] = bytes[start + i];
        }
        words.push(word);
    }
    words
}

/// Says what the player's choice of guess means.
///
/// `number` is the text read as a number, where it is one; `text` is the text
/// itself. The number zero means to stop. Another number picks from `ranking`,
/// counting from one. Text that is no number is looked up in the dictionary.
pub fn select(
    table: &FeedbackTable,
    ranking: &Vec<(WordIndex, u32)>,
    number: Option<usize>,
    text: &[u8],
) -> (selection: Selection)
    ensures
        selection == chosen(table@, ranking@, number, text@),
{
    match number {
        Some(n) => {
            if n == 0 {
                Selection::Quit
            } else if n <= ranking.len() {
                Selection::Guess(ranking[n - 1].0)
            } else {
                Selection::NotRanked
            }
        },
        None => {
            if text.len() != WORD_LEN {
                return Selection::WrongLength;
            }
            let mut word: Word = [0;WORD_LEN];
            for i in 0..WORD_LEN
                invariant
                    text@.len() == WORD_LEN,
                    forall|k: int| 0 <= k < i ==> word@[k] == text@[k],
            {
                word[i] = text[i];
            }
            assert(word@ =~= text@);
            match table.find(&word) {
                Some(index) => {
                    proof {
                        lemma_first_index(table@, text@, index as int);
                    }
                    Selection::Guess(index)
                },
                None => Selection::UnknownWord,
            }
        },
    }
}

/// The index of the first word of `dictionary` that `text` spells; only
/// meaningful where there is one.
pub open spec fn first_index(dictionary: Seq<Seq<u8>>, text: Seq<u8>) -> int {
    choose|i: int|
        0 <= i < dictionary.len() && dictionary[i] == text && forall|k: int|
            0 <= k < i ==> dictionary[k] != text
}

/// What a choice of guess means: see `select`.
pub open spec fn chosen(
    dictionary: Seq<Seq<u8>>,
    ranking: Seq<(WordIndex, u32)>,
    number: Option<usize>,
    text: Seq<u8>,
) -> Selection {
    match number {
        Some(n) => if n == 0 {
            Selection::Quit
        } else if n <= ranking.len() {
            Selection::Guess(ranking[n - 1].0)
        } else {
            Selection::NotRanked
        },
        None => if text.len() != WORD_LEN {
            Selection::WrongLength
        } else if dictionary.contains(text) {
            Selection::Guess(first_index(dictionary, text) as usize)
        } else {
            Selection::UnknownWord
        },
    }
}

proof fn lemma_first_index(dictionary: Seq<Seq<u8>>, text: Seq<u8>, index: int)
    requires
        0 <= index < dictionary.len(),
        dictionary[index] == text,
        forall|k: int| 0 <= k < index ==> dictionary[k] != text,
    ensures
        first_index(dictionary, text) == index,
        dictionary.contains(text),
{
    let i = first_index(dictionary, text);
    assert(0 <= i < dictionary.len() && dictionary[i] == text && forall|k: int|
        0 <= k < i ==> dictionary[k] != text);
}

/// Whether so few possible answers remain that there is nothing left to guess:
/// fewer than two.
pub fn settled(conforming: &Vec<WordIndex>) -> (done: bool)
    ensures
        done == (conforming@.len() < 2),
{
    conforming.len() < 2
}

/// Ends a turn: word `guess` was guessed and the game answered `observed`.
///
/// The all-correct code solves the game. Otherwise the possible answers are
/// narrowed to those that agree with the answer; that none remains is an
/// outcome of its own.
pub fn advance(
    table: &FeedbackTable,
    conforming: &Vec<WordIndex>,
    guess: WordIndex,
    observed: Group,
) -> (outcome: Outcome)
    requires
        guess < table@.len(),
        all_below(conforming@, table@.len()),
    ensures
        outcome is Solved <==> observed == SOLVED,
        outcome is NoMatch <==> observed != SOLVED && narrowed(
            table@,
            conforming@,
            guess as int,
            observed as int,
        ).len() == 0,
        outcome matches Outcome::Narrowed(kept) ==> kept@ == narrowed(
            table@,
            conforming@,
            guess as int,
            observed as int,
        ) && all_below(kept@, table@.len()),
{
    if observed == SOLVED {
        return Outcome::Solved;
    }
    let kept = table.filter(conforming, guess, observed);
    if kept.len() == 0 {
        Outcome::NoMatch
    } else {
        Outcome::Narrowed(kept)
    }
}

} // verus!
