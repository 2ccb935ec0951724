//! The feedback table: for every pair of dictionary words, the code that the
//! game answers when the first is guessed and the second is the answer.
//!
//! A table is built once from the dictionary and never changes. Its model is
//! the dictionary itself; the stored codes are those that `feedback_code` gives
//! for the words, which the type's invariant records.

use vstd::prelude::*;
use array2d::Array2D;
use crate::feedback::{feedback_code, groups_for_words, lemma_own_guess_is_solved};
use crate::grid::{cell, filled, put, rows_of};
use crate::group::{lemma_pack_bounds, lemma_pow3_values, SOLVED};
use crate::{Group, Word, WordIndex, GROUP_COUNT, WORD_LEN};

verus! {

/// Why a table cannot be built from a dictionary.
#[derive(Clone, Copy, Debug, PartialEq, Eq, Structural)]
pub enum TableError {
    /// The dictionary holds no word.
    EmptyDictionary,
    /// The dictionary holds so many words that their pairs cannot be stored.
    TooManyWords,
}

/// The letters of the words of a dictionary.
pub open spec fn letters(words: Seq<Word>) -> Seq<Seq<u8>> {
    Seq::new(words.len(), |i: int| words[i]@)
}

/// The code for guessing word `guess` of `dictionary` when word `target` is the
/// answer.
pub open spec fn code_at(dictionary: Seq<Seq<u8>>, guess: int, target: int) -> int {
    feedback_code(dictionary[guess], dictionary[target])
}

/// Whether every index of `indices` names a word of a dictionary of `size`
/// words.
pub open spec fn all_below(indices: Seq<WordIndex>, size: nat) -> bool {
    forall|i: int| 0 <= i < indices.len() ==> indices[i] < size
}

/// The test that a possible answer passes when guessing word `chosen` is
/// answered with the code `observed`: the code of the pair is that code.
pub open spec fn answers_with(dictionary: Seq<Seq<u8>>, chosen: int, observed: int) -> spec_fn(
    WordIndex,
) -> bool {
    |p: WordIndex| code_at(dictionary, chosen, p as int) == observed
}

/// The possible answers that remain of `conforming` after guessing word `chosen`
/// was answered with the code `observed`: those that pass the test, in their
/// old order.
pub open spec fn narrowed(
    dictionary: Seq<Seq<u8>>,
    conforming: Seq<WordIndex>,
    chosen: int,
    observed: int,
) -> Seq<WordIndex> {
    conforming.filter(answers_with(dictionary, chosen, observed))
}

/// How many of the possible answers `conforming` would answer the guess
/// `candidate` with `code`.
pub open spec fn tally(
    dictionary: Seq<Seq<u8>>,
    conforming: Seq<WordIndex>,
    candidate: int,
    code: int,
) -> nat {
    narrowed(dictionary, conforming, candidate, code).len()
}

/// Whether `counts` holds, for every code, the tally of that code for the guess
/// `candidate` over the possible answers `conforming`.
pub open spec fn is_histogram(
    counts: Seq<usize>,
    dictionary: Seq<Seq<u8>>,
    conforming: Seq<WordIndex>,
    candidate: int,
) -> bool {
    &&& counts.len() == GROUP_COUNT
    &&& forall|code: int|
        0 <= code < GROUP_COUNT ==> #[trigger] counts[code] == tally(
            dictionary,
            conforming,
            candidate,
            code,
        )
}

/// The sum of `counts`.
pub open spec fn total(counts: Seq<usize>) -> int
    decreases counts.len(),
{
    if counts.len() == 0 {
        0
    } else {
        total(counts.drop_last()) + counts.last()
    }
}

/// Whether the pair `(row, column)` has been filled in once the rows and columns
/// below `i` are complete and row and column `i` are complete below `j`.
spec fn filled_in(row: int, column: int, i: int, j: int) -> bool {
    ||| row < i
    ||| column < i
    ||| row == i && column < j
    ||| column == i && row < j
}

/// The feedback codes for all pairs of words of a dictionary.
pub struct FeedbackTable {
    words: Vec<Word>,
    codes: Array2D<u8>,
}

impl FeedbackTable {
    #[verifier::type_invariant]
    spec fn well_formed(&self) -> bool {
        &&& self.words@.len() > 0
        &&& rows_of(self.codes).len() == self.words@.len()
        &&& forall|r: int|
            0 <= r < self.words@.len() ==> (#[trigger] rows_of(self.codes)[r]).len()
                == self.words@.len()
        &&& forall|r: int, c: int|
            0 <= r < self.words@.len() && 0 <= c < self.words@.len() ==> #[trigger] rows_of(
                self.codes,
            )[r][c] as int == code_at(letters(self.words@), r, c)
    }

    /// The dictionary that the table was built from: the letters of its words,
    /// in order.
    pub closed spec fn view(&self) -> Seq<Seq<u8>> {
        letters(self.words@)
    }

    /// Builds the table for `words`. The position of a word in `words` is its
    /// index in the table.
    ///
    /// A dictionary without words has no table. Neither has one with so many
    /// words that the number of their pairs exceeds `isize::MAX`.
    ///
    /// The code of a pair and of its reverse are computed together, and a word
    /// against itself needs no computing.
    pub fn build(words: Vec<Word>) -> (built: Result<FeedbackTable, TableError>)
        ensures
            built is Ok <==> 0 < words@.len() && words@.len() * words@.len() <= isize::MAX,
            match built {
                Ok(table) => table@ == letters(words@),
                Err(TableError::EmptyDictionary) => words@.len() == 0,
                Err(TableError::TooManyWords) => words@.len() > 0,
            },
    {
        let size = words.len();
        if size == 0 {
            return Err(TableError::EmptyDictionary);
        }
        let cells = match size.checked_mul(size) {
            Some(cells) => cells,
            None => {
                return Err(TableError::TooManyWords);
            },
        };
        if cells > isize::MAX as usize {
            return Err(TableError::TooManyWords);
        }
        let ghost dictionary = letters(words@);
        let mut codes = filled(0, size, size);
        for i in 0..size
            invariant
                size == words@.len(),
                dictionary == letters(words@),
                rows_of(codes).len() == size,
                forall|r: int| 0 <= r < size ==> (#[trigger] rows_of(codes)[r]).len() == size,
                forall|r: int, c: int|
                    0 <= r < size && 0 <= c < size && filled_in(r, c, i as int, 0)
                        ==> #[trigger] rows_of(codes)[r][c] as int == code_at(dictionary, r, c),
        {
            proof {
                lemma_own_guess_is_solved(dictionary[i as int]);
            }
            put(&mut codes, i, i, SOLVED);
            for j in (i + 1)..size
                invariant
                    i < size,
                    size == words@.len(),
                    dictionary == letters(words@),
                    rows_of(codes).len() == size,
                    forall|r: int| 0 <= r < size ==> (#[trigger] rows_of(codes)[r]).len() == size,
                    forall|r: int, c: int|
                        0 <= r < size && 0 <= c < size && filled_in(r, c, i as int, j as int)
                            ==> #[trigger] rows_of(codes)[r][c] as int == code_at(
                            dictionary,
                            r,
                            c,
                        ),
            {
                let (forth, back) = groups_for_words(&words[i], &words[j]);
                put(&mut codes, i, j, forth);
                put(&mut codes, j, i, back);
            }
        }
        Ok(FeedbackTable { words, codes })
    }

    /// The number of words in the dictionary.
    pub fn len(&self) -> (size: usize)
        ensures
            size == self@.len(),
            size > 0,
    {
        proof {
            use_type_invariant(self);
        }
        self.words.len()
    }

    /// The word at `index` of the dictionary.
    pub fn word(&self, index: WordIndex) -> (word: Word)
        requires
            index < self@.len(),
        ensures
            word@ == self@[index as int],
    {
        self.words[index]
    }

    /// Looks up the code for guessing word `guess` when word `target` is the
    /// answer.
    pub fn code(&self, guess: WordIndex, target: WordIndex) -> (code: Group)
        requires
            guess < self@.len(),
            target < self@.len(),
        ensures
            code as int == code_at(self@, guess as int, target as int),
            code < GROUP_COUNT,
            guess == target ==> code == SOLVED,
    {
        proof {
            use_type_invariant(self);
            lemma_code_bounds(self@[guess as int], self@[target as int]);
            lemma_own_guess_is_solved(self@[guess as int]);
        }
        cell(&self.codes, guess, target)
    }

    /// The index of the first word of the dictionary that equals `word`, if
    /// there is one.
    pub fn find(&self, word: &Word) -> (found: Option<WordIndex>)
        ensures
            match found {
                Some(index) => index < self@.len() && self@[index as int] == word@ && forall|
                    k: int,
                | 0 <= k < index ==> self@[k] != word@,
                None => forall|k: int| 0 <= k < self@.len() ==> self@[k] != word@,
            },
    {
        for index in 0..self.words.len()
            invariant
                forall|k: int| 0 <= k < index ==> self@[k] != word@,
        {
            if same_word(&self.words[index], word) {
                return Some(index);
            }
        }
        None
    }

    /// The indices of all words, in order: the possible answers before any
    /// guess.
    pub fn all_words(&self) -> (indices: Vec<WordIndex>)
        ensures
            indices@.len() == self@.len(),
            forall|i: int| 0 <= i < indices@.len() ==> indices@[i] == i,
            all_below(indices@, self@.len()),
    {
        let mut indices: Vec<WordIndex> = Vec::new();
        for index in 0..self.words.len()
            invariant
                indices@.len() == index,
                forall|i: int| 0 <= i < indices@.len() ==> indices@[i] == i,
        {
            indices.push(index);
        }
        indices
    }

    /// Whether every index of `indices` names a word of the dictionary.
    pub fn contains_all(&self, indices: &Vec<WordIndex>) -> (all: bool)
        ensures
            all == all_below(indices@, self@.len()),
    {
        for i in 0..indices.len()
            invariant
                forall|k: int| 0 <= k < i ==> indices@[k] < self@.len(),
        {
            if indices[i] >= self.words.len() {
                return false;
            }
        }
        true
    }

    /// Narrows the possible answers after guessing word `chosen` was answered
    /// with the code `observed`: keeps, in their old order, exactly those whose
    /// code as answer to that guess is `observed`. `conforming` is not changed.
    pub fn filter(&self, conforming: &Vec<WordIndex>, chosen: WordIndex, observed: Group) -> (kept:
        Vec<WordIndex>)
        requires
            chosen < self@.len(),
            all_below(conforming@, self@.len()),
        ensures
            kept@ == narrowed(self@, conforming@, chosen as int, observed as int),
            all_below(kept@, self@.len()),
            kept@.len() <= conforming@.len(),
    {
        let mut kept: Vec<WordIndex> = Vec::new();
        for i in 0..conforming.len()
            invariant
                chosen < self@.len(),
                all_below(conforming@, self@.len()),
                kept@ == narrowed(self@, conforming@.take(i as int), chosen as int, observed as int),
                all_below(kept@, self@.len()),
                kept@.len() <= i,
        {
            let p = conforming[i];
            proof {
                lemma_narrowed_push(
                    self@,
                    conforming@.take(i as int),
                    p,
                    chosen as int,
                    observed as int,
                );
                assert(conforming@.take(i + 1) =~= conforming@.take(i as int).push(p));
            }
            if self.code(chosen, p) == observed {
                kept.push(p);
            }
        }
        assert(conforming@.take(conforming@.len() as int) =~= conforming@);
        kept
    }

    /// Counts, for every code, how many of the possible answers `conforming`
    /// would answer the guess `candidate` with that code.
    pub fn histogram(&self, candidate: WordIndex, conforming: &Vec<WordIndex>) -> (counts: Vec<
        usize,
    >)
        requires
            candidate < self@.len(),
            all_below(conforming@, self@.len()),
        ensures
            is_histogram(counts@, self@, conforming@, candidate as int),
            total(counts@) == conforming@.len(),
    {
        let mut counts: Vec<usize> = vec![0usize; GROUP_COUNT];
        proof {
            lemma_total_zeros(counts@);
            assert forall|code: int| 0 <= code < GROUP_COUNT implies #[trigger] counts@[code]
                == tally(self@, conforming@.take(0), candidate as int, code) by {
                reveal(Seq::filter);
            }
        }
        for i in 0..conforming.len()
            invariant
                candidate < self@.len(),
                all_below(conforming@, self@.len()),
                counts@.len() == GROUP_COUNT,
                forall|code: int|
                    0 <= code < GROUP_COUNT ==> #[trigger] counts@[code] == tally(
                        self@,
                        conforming@.take(i as int),
                        candidate as int,
                        code,
                    ),
                total(counts@) == i,
        {
            let p = conforming[i];
            let code = self.code(candidate, p);
            let ghost before = counts@;
            proof {
                lemma_total_at_least(before, code as int);
                assert(conforming@.take(i + 1) =~= conforming@.take(i as int).push(p));
                assert forall|k: int| 0 <= k < GROUP_COUNT implies tally(
                    self@,
                    conforming@.take(i + 1),
                    candidate as int,
                    k,
                ) == before[k] + if k == code { 1int } else { 0int } by {
                    lemma_narrowed_push(self@, conforming@.take(i as int), p, candidate as int, k);
                }
            }
            let count = counts[code as usize];
            counts.set(code as usize, count + 1);
            proof {
                lemma_total_update(before, code as int, (count + 1) as usize);
            }
        }
        assert(conforming@.take(conforming@.len() as int) =~= conforming@);
        counts
    }
}

/// Every feedback code of two words of `WORD_LEN` letters is below
/// `GROUP_COUNT`.
pub proof fn lemma_code_bounds(guess: Seq<u8>, target: Seq<u8>)
    requires
        guess.len() == WORD_LEN,
    ensures
        0 <= feedback_code(guess, target) < GROUP_COUNT,
{
    lemma_pack_bounds(crate::feedback::marks(guess, target));
    lemma_pow3_values(WORD_LEN as nat);
}

/// Whether two words have the same letters.
fn same_word(a: &Word, b: &Word) -> (same: bool)
    ensures
        same == (a@ == b@),
{
    for i in 0..WORD_LEN
        invariant
            forall|k: int| 0 <= k < i ==> a@[k] == b@[k],
    {
        if a[i] != b[i] {
            return false;
        }
    }
    assert(a@ =~= b@);
    true
}

proof fn lemma_narrowed_push(
    dictionary: Seq<Seq<u8>>,
    conforming: Seq<WordIndex>,
    p: WordIndex,
    chosen: int,
    observed: int,
)
    ensures
        narrowed(dictionary, conforming.push(p), chosen, observed) == if code_at(
            dictionary,
            chosen,
            p as int,
        ) == observed {
            narrowed(dictionary, conforming, chosen, observed).push(p)
        } else {
            narrowed(dictionary, conforming, chosen, observed)
        },
{
    conforming.lemma_filter_push(p, answers_with(dictionary, chosen, observed));
}

proof fn lemma_total_zeros(counts: Seq<usize>)
    requires
        forall|i: int| 0 <= i < counts.len() ==> counts[i] == 0,
    ensures
        total(counts) == 0,
    decreases counts.len(),
{
    if counts.len() > 0 {
        lemma_total_zeros(counts.drop_last());
    }
}

proof fn lemma_total_at_least(counts: Seq<usize>, i: int)
    requires
        0 <= i < counts.len(),
    ensures
        counts[i] <= total(counts),
    decreases counts.len(),
{
    lemma_total_nonnegative(counts.drop_last());
    if i < counts.len() - 1 {
        lemma_total_at_least(counts.drop_last(), i);
    }
}

proof fn lemma_total_nonnegative(counts: Seq<usize>)
    ensures
        total(counts) >= 0,
    decreases counts.len(),
{
    if counts.len() > 0 {
        lemma_total_nonnegative(counts.drop_last());
    }
}

proof fn lemma_total_update(counts: Seq<usize>, i: int, value: usize)
    requires
        0 <= i < counts.len(),
    ensures
        total(counts.update(i, value)) == total(counts) - counts[i] + value,
    decreases counts.len(),
{
    if i < counts.len() - 1 {
        lemma_total_update(counts.drop_last(), i, value);
        assert(counts.update(i, value).drop_last() =~= counts.drop_last().update(i, value));
    } else {
        assert(counts.update(i, value).drop_last() =~= counts.drop_last());
    }
}

/// Narrowing a set that was already narrowed by the same guess and the same
/// code changes nothing.
pub proof fn lemma_narrowed_twice(
    dictionary: Seq<Seq<u8>>,
    conforming: Seq<WordIndex>,
    chosen: int,
    observed: int,
)
    ensures
        narrowed(dictionary, narrowed(dictionary, conforming, chosen, observed), chosen, observed)
            == narrowed(dictionary, conforming, chosen, observed),
    decreases conforming.len(),
{
    if conforming.len() == 0 {
        reveal(Seq::filter);
    } else {
        let front = conforming.drop_last();
        let p = conforming.last();
        assert(front.push(p) =~= conforming);
        lemma_narrowed_twice(dictionary, front, chosen, observed);
        lemma_narrowed_push(dictionary, front, p, chosen, observed);
        lemma_narrowed_push(
            dictionary,
            narrowed(dictionary, front, chosen, observed),
            p,
            chosen,
            observed,
        );
    }
}

/// With a single possible answer, that answer's code has the tally one and
/// every other code the tally zero, whatever the guess.
pub proof fn lemma_tally_of_one(
    dictionary: Seq<Seq<u8>>,
    only: WordIndex,
    candidate: int,
    code: int,
)
    ensures
        tally(dictionary, seq![only], candidate, code) == if code == code_at(
            dictionary,
            candidate,
            only as int,
        ) {
            1nat
        } else {
            0nat
        },
{
    let empty = Seq::<WordIndex>::empty();
    assert(empty.push(only) =~= seq![only]);
    lemma_narrowed_push(dictionary, empty, only, candidate, code);
    assert(narrowed(dictionary, empty, candidate, code) =~= empty) by {
        reveal(Seq::filter);
    }
}

/// Narrowing by the code that the true answer gives to the guess keeps the true
/// answer.
pub proof fn lemma_narrowed_keeps_answer(
    dictionary: Seq<Seq<u8>>,
    conforming: Seq<WordIndex>,
    chosen: int,
    answer: WordIndex,
)
    requires
        conforming.contains(answer),
    ensures
        narrowed(dictionary, conforming, chosen, code_at(dictionary, chosen, answer as int)).contains(
            answer,
        ),
{
    let observed = code_at(dictionary, chosen, answer as int);
    let i = choose|i: int| 0 <= i < conforming.len() && conforming[i] == answer;
    conforming.lemma_filter_contains(answers_with(dictionary, chosen, observed), i);
}

} // verus!
