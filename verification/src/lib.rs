//! A solver for Wordle-style guessing games: the feedback rule, the table of
//! feedback codes for every pair of dictionary words, the filter that narrows
//! the set of possible answers, and the ranking of candidate guesses.

use vstd::prelude::*;

pub mod feedback;
pub mod grid;
pub mod group;
pub mod rank;
pub mod session;
pub mod table;

pub use crate::feedback::feedback;
pub use crate::feedback::groups_for_words;
pub use crate::group::parse_group;
pub use crate::group::string_for_group;
pub use crate::rank::entropy_list;
pub use crate::rank::rank;
pub use crate::table::FeedbackTable;
pub use crate::table::TableError;

verus! {

/// Number of letters in every word.
pub const WORD_LEN: usize = 5;

/// Number of distinct feedback codes: three outcomes for each letter.
pub const GROUP_COUNT: usize = 243;

/// A word of the dictionary, one byte for each letter.
pub type Word = [u8; WORD_LEN];

/// Position of a word in the dictionary, counted from zero.
pub type WordIndex = usize;

/// A feedback code: the outcomes of the letters as base-3 digits, first letter
/// most significant.
pub type Group = u8;

} // verus!
