//! The feedback rule: what the game answers when `guess` is tried against
//! `target`.
//!
//! Every letter of the guess gets one of three marks. A letter that stands at
//! the same place in the target is `CORRECT`. Of the remaining letters, a letter
//! `x` is `PRESENT` as long as the target still has an unmatched `x` to pair it
//! with, earlier letters of the guess being served first; otherwise it is
//! `ABSENT`.
//!
//! `mark` states this by counting. `feedback` computes it in two passes over the
//! words, the second of which lets each letter of the guess claim a letter of
//! the target, and is proved to give the marks that `mark` states.

use vstd::prelude::*;
use crate::group::{
    lemma_pack_push, lemma_pow3_values, lemma_unpack_pack, pack, pow3, unpack, ABSENT, CORRECT,
    PRESENT, SOLVED,
};
use crate::{Group, Word, GROUP_COUNT, WORD_LEN};

verus! {

/// How many of the first `n` places of `word` hold the letter `x` where `other`
/// holds a different letter: the occurrences of `x` that no exact match uses up.
pub open spec fn loose(word: Seq<u8>, other: Seq<u8>, x: u8, n: int) -> int
    decreases n,
{
    if n <= 0 {
        0
    } else {
        loose(word, other, x, n - 1) + if word[n - 1] == x && other[n - 1] != x {
            1int
        } else {
            0int
        }
    }
}

/// The mark of the letter at place `i` of `guess` when the answer is `target`.
///
/// A letter that is not `CORRECT` is `PRESENT` while fewer loose letters like it
/// stand before it in the guess than the target has loose letters like it.
pub open spec fn mark(guess: Seq<u8>, target: Seq<u8>, i: int) -> u8 {
    if guess[i] == target[i] {
        CORRECT
    } else if loose(guess, target, guess[i], i) < loose(
        target,
        guess,
        guess[i],
        target.len() as int,
    ) {
        PRESENT
    } else {
        ABSENT
    }
}

/// The marks of all letters of `guess`, in order.
pub open spec fn marks(guess: Seq<u8>, target: Seq<u8>) -> Seq<u8> {
    Seq::new(guess.len(), |i: int| mark(guess, target, i))
}

/// The feedback code for `guess` when the answer is `target`.
pub open spec fn feedback_code(guess: Seq<u8>, target: Seq<u8>) -> int {
    pack(marks(guess, target))
}

/// How many of the first `n` places of `target` hold an unmatched `x` that a
/// letter of the guess has already been paired with.
spec fn taken(claimed: Seq<bool>, guess: Seq<u8>, target: Seq<u8>, x: u8, n: int) -> int
    decreases n,
{
    if n <= 0 {
        0
    } else {
        taken(claimed, guess, target, x, n - 1) + if claimed[n - 1] && target[n - 1] == x
            && guess[n - 1] != x {
            1int
        } else {
            0int
        }
    }
}

/// The lesser of two numbers.
spec fn min(a: int, b: int) -> int {
    if a <= b {
        a
    } else {
        b
    }
}

proof fn lemma_taken_bounded(claimed: Seq<bool>, guess: Seq<u8>, target: Seq<u8>, x: u8, n: int)
    ensures
        0 <= taken(claimed, guess, target, x, n) <= loose(target, guess, x, n),
        (forall|j: int| 0 <= j < n && target[j] == x && guess[j] != x ==> claimed[j]) ==> taken(
            claimed,
            guess,
            target,
            x,
            n,
        ) == loose(target, guess, x, n),
        (exists|j: int| 0 <= j < n && target[j] == x && guess[j] != x && !claimed[j]) ==> taken(
            claimed,
            guess,
            target,
            x,
            n,
        ) < loose(target, guess, x, n),
    decreases n,
{
    if n > 0 {
        lemma_taken_bounded(claimed, guess, target, x, n - 1);
        if exists|j: int| 0 <= j < n && target[j] == x && guess[j] != x && !claimed[j] {
            let j = choose|j: int| 0 <= j < n && target[j] == x && guess[j] != x && !claimed[j];
            if j < n - 1 {
                assert(0 <= j < n - 1 && target[j] == x && guess[j] != x && !claimed[j]);
            }
        }
    }
}

proof fn lemma_taken_claim(
    claimed: Seq<bool>,
    guess: Seq<u8>,
    target: Seq<u8>,
    x: u8,
    n: int,
    j: int,
)
    requires
        0 <= j < claimed.len(),
        !claimed[j],
        guess[j] != target[j],
        n <= claimed.len(),
    ensures
        taken(claimed.update(j, true), guess, target, x, n) == taken(claimed, guess, target, x, n)
            + if j < n && target[j] == x {
            1int
        } else {
            0int
        },
    decreases n,
{
    if n > 0 {
        lemma_taken_claim(claimed, guess, target, x, n - 1, j);
    }
}

/// Computes the feedback code for `guess` when the answer is `target`.
///
/// Exact matches are marked first. Then each remaining letter of the guess, in
/// order, looks for the first letter of the target that equals it and that no
/// letter has claimed yet; a letter that finds one claims it.
pub fn feedback(guess: &Word, target: &Word) -> (code: Group)
    ensures
        code as int == feedback_code(guess@, target@),
        code < GROUP_COUNT,
        guess@ == target@ ==> code == SOLVED,
{
    let ghost g = guess@;
    let ghost t = target@;
    let mut found: [u8; WORD_LEN] = [ABSENT;WORD_LEN];
    let mut claimed: [bool; WORD_LEN] = [false;WORD_LEN];
    for i in 0..WORD_LEN
        invariant
            g == guess@,
            t == target@,
            forall|k: int| 0 <= k < i ==> found@[k] == if g[k] == t[k] { CORRECT } else { ABSENT },
            forall|k: int| 0 <= k < i ==> claimed@[k] == (g[k] == t[k]),
            forall|k: int| i <= k < WORD_LEN ==> found@[k] == ABSENT && !claimed@[k],
    {
        if guess[i] == target[i] {
            found[i] = CORRECT;
            claimed[i] = true;
        }
    }
    assert forall|x: u8| #[trigger]
        taken(claimed@, g, t, x, WORD_LEN as int) == min(
            loose(g, t, x, 0),
            loose(t, g, x, WORD_LEN as int),
        ) by {
        lemma_taken_bounded(claimed@, g, t, x, WORD_LEN as int);
        assert(taken(claimed@, g, t, x, WORD_LEN as int) == 0) by {
            reveal_with_fuel(taken, 6);
        }
    }
    for i in 0..WORD_LEN
        invariant
            g == guess@,
            t == target@,
            forall|k: int| 0 <= k < i ==> found@[k] == mark(g, t, k),
            forall|k: int|
                i <= k < WORD_LEN ==> found@[k] == if g[k] == t[k] { CORRECT } else { ABSENT },
            forall|k: int| 0 <= k < WORD_LEN && g[k] == t[k] ==> claimed@[k],
            forall|x: u8| #[trigger]
                taken(claimed@, g, t, x, WORD_LEN as int) == min(
                    loose(g, t, x, i as int),
                    loose(t, g, x, WORD_LEN as int),
                ),
    {
        let ghost before = claimed@;
        let ghost marked_before = found@;
        if found[i] == ABSENT {
            let letter = guess[i];
            let mut j: usize = 0;
            let mut paired = false;
            while j < WORD_LEN && !paired
                invariant
                    g == guess@,
                    t == target@,
                    i < WORD_LEN,
                    j <= WORD_LEN,
                    letter == g[i as int],
                    g[i as int] != t[i as int],
                    forall|k: int| 0 <= k < WORD_LEN && g[k] == t[k] ==> before[k],
                    !paired ==> claimed@ == before && found@[i as int] == ABSENT,
                    !paired ==> forall|k: int| 0 <= k < j ==> before[k] || t[k] != letter,
                    paired ==> found@[i as int] == PRESENT,
                    paired ==> exists|k: int|
                        0 <= k < WORD_LEN && !before[k] && t[k] == letter && claimed@
                            == before.update(k, true),
                    forall|k: int| 0 <= k < WORD_LEN && k != i ==> found@[k] == marked_before[k],
                decreases 2 * (WORD_LEN - j) + if paired { 0int } else { 1int },
            {
                if !claimed[j] && target[j] == letter {
                    found[i] = PRESENT;
                    claimed[j] = true;
                    paired = true;
                } else {
                    j += 1;
                }
            }
            proof {
                let n = WORD_LEN as int;
                if paired {
                    let k = choose|k: int|
                        0 <= k < WORD_LEN && !before[k] && t[k] == letter && claimed@
                            == before.update(k, true);
                    assert(g[k] != t[k]);
                    lemma_taken_bounded(before, g, t, letter, n);
                    assert(taken(before, g, t, letter, n) < loose(t, g, letter, n));
                    assert forall|x: u8| #[trigger]
                        taken(claimed@, g, t, x, n) == min(
                            loose(g, t, x, i + 1),
                            loose(t, g, x, n),
                        ) by {
                        lemma_taken_claim(before, g, t, x, n, k);
                        assert(taken(before, g, t, x, n) == min(
                            loose(g, t, x, i as int),
                            loose(t, g, x, n),
                        ));
                    }
                } else {
                    lemma_taken_bounded(before, g, t, letter, n);
                    assert(taken(before, g, t, letter, n) == loose(t, g, letter, n));
                    assert forall|x: u8| #[trigger]
                        taken(claimed@, g, t, x, n) == min(
                            loose(g, t, x, i + 1),
                            loose(t, g, x, n),
                        ) by {
                        assert(taken(before, g, t, x, n) == min(
                            loose(g, t, x, i as int),
                            loose(t, g, x, n),
                        ));
                    }
                }
            }
        }
    }
    let mut code: Group = 0;
    for i in 0..WORD_LEN
        invariant
            found@ == marks(g, t),
            g.len() == WORD_LEN,
            code as int == pack(found@.take(i as int)),
            (code as int) < pow3(i as nat),
    {
        proof {
            lemma_pack_push(found@.take(i as int), found@[i as int]);
            assert(found@.take(i + 1) =~= found@.take(i as int).push(found@[i as int]));
            lemma_pow3_values(i as nat);
        }
        code = 3 * code + found[i];
    }
    assert(found@.take(WORD_LEN as int) =~= found@);
    proof {
        lemma_pow3_values(WORD_LEN as nat);
        if g == t {
            lemma_own_guess_is_solved(g);
        }
    }
    code
}

/// The codes for a pair of words in both directions: first the code for guessing
/// `a` when the answer is `b`, then the code for guessing `b` when the answer is
/// `a`.
pub fn groups_for_words(a: &Word, b: &Word) -> (codes: (Group, Group))
    ensures
        codes.0 as int == feedback_code(a@, b@),
        codes.1 as int == feedback_code(b@, a@),
{
    (feedback(a, b), feedback(b, a))
}

/// How many of the first `n` places of `word` hold the letter `x`.
pub open spec fn occurrences(word: Seq<u8>, x: u8, n: int) -> int
    decreases n,
{
    if n <= 0 {
        0
    } else {
        occurrences(word, x, n - 1) + if word[n - 1] == x {
            1int
        } else {
            0int
        }
    }
}

/// How many of the first `n` letters of `guess` are the letter `x` with a mark
/// other than `ABSENT`.
pub open spec fn marked(guess: Seq<u8>, target: Seq<u8>, x: u8, n: int) -> int
    decreases n,
{
    if n <= 0 {
        0
    } else {
        marked(guess, target, x, n - 1) + if guess[n - 1] == x && mark(guess, target, n - 1)
            != ABSENT {
            1int
        } else {
            0int
        }
    }
}

/// The mark of the letter at place `i` of `guess` by the rule without counting:
/// `CORRECT` where the target has the letter at the same place, `PRESENT` where
/// it has the letter at all, `ABSENT` where it has not.
pub open spec fn plain_mark(guess: Seq<u8>, target: Seq<u8>, i: int) -> u8 {
    if guess[i] == target[i] {
        CORRECT
    } else if target.contains(guess[i]) {
        PRESENT
    } else {
        ABSENT
    }
}

/// The marks of all letters of `guess` by the rule without counting.
pub open spec fn plain_marks(guess: Seq<u8>, target: Seq<u8>) -> Seq<u8> {
    Seq::new(guess.len(), |i: int| plain_mark(guess, target, i))
}

/// Whether no letter stands at two places of `word`.
pub open spec fn distinct_letters(word: Seq<u8>) -> bool {
    forall|i: int, j: int| 0 <= i < j < word.len() ==> word[i] != word[j]
}

/// How many of the first `n` places hold `x` in both words.
spec fn exact(guess: Seq<u8>, target: Seq<u8>, x: u8, n: int) -> int
    decreases n,
{
    if n <= 0 {
        0
    } else {
        exact(guess, target, x, n - 1) + if guess[n - 1] == x && target[n - 1] == x {
            1int
        } else {
            0int
        }
    }
}

proof fn lemma_loose_sign(word: Seq<u8>, other: Seq<u8>, x: u8, n: int)
    ensures
        loose(word, other, x, n) >= 0,
        loose(word, other, x, n) > 0 <==> exists|j: int|
            0 <= j < n && word[j] == x && other[j] != x,
    decreases n,
{
    if n > 0 {
        lemma_loose_sign(word, other, x, n - 1);
        if loose(word, other, x, n - 1) > 0 {
            let j = choose|j: int| 0 <= j < n - 1 && word[j] == x && other[j] != x;
            assert(0 <= j < n && word[j] == x && other[j] != x);
        } else if word[n - 1] == x && other[n - 1] != x {
            assert(0 <= n - 1 < n && word[n - 1] == x && other[n - 1] != x);
        }
    }
}

proof fn lemma_occurrences_split(guess: Seq<u8>, target: Seq<u8>, x: u8, n: int)
    ensures
        occurrences(target, x, n) == exact(guess, target, x, n) + loose(target, guess, x, n),
    decreases n,
{
    if n > 0 {
        lemma_occurrences_split(guess, target, x, n - 1);
    }
}

proof fn lemma_marked_split(guess: Seq<u8>, target: Seq<u8>, x: u8, n: int)
    requires
        guess.len() == target.len(),
        n <= guess.len(),
    ensures
        marked(guess, target, x, n) == exact(guess, target, x, n) + min(
            loose(guess, target, x, n),
            loose(target, guess, x, target.len() as int),
        ),
    decreases n,
{
    lemma_loose_sign(target, guess, x, target.len() as int);
    if n > 0 {
        lemma_marked_split(guess, target, x, n - 1);
        lemma_loose_sign(guess, target, x, n - 1);
    }
}

/// A word guessed against itself gets the code of a solved game.
pub proof fn lemma_own_guess_is_solved(word: Seq<u8>)
    requires
        word.len() == WORD_LEN,
    ensures
        feedback_code(word, word) == SOLVED,
{
    let m = marks(word, word);
    assert(m =~= seq![CORRECT, CORRECT, CORRECT, CORRECT, CORRECT]);
    reveal_with_fuel(pack, 6);
    assert(m.drop_last() =~= seq![CORRECT, CORRECT, CORRECT, CORRECT]);
    assert(m.drop_last().drop_last() =~= seq![CORRECT, CORRECT, CORRECT]);
    assert(m.drop_last().drop_last().drop_last() =~= seq![CORRECT, CORRECT]);
    assert(m.drop_last().drop_last().drop_last().drop_last() =~= seq![CORRECT]);
}

/// When no letter occurs twice in the guess, the rule needs no counting: a
/// letter is `CORRECT` where the target has it at the same place, `PRESENT`
/// where the target has it elsewhere, and `ABSENT` where the target lacks it.
/// The target may repeat letters.
pub proof fn lemma_distinct_letters_need_no_counting(guess: Seq<u8>, target: Seq<u8>)
    requires
        guess.len() == target.len(),
        distinct_letters(guess),
    ensures
        marks(guess, target) == plain_marks(guess, target),
        feedback_code(guess, target) == pack(plain_marks(guess, target)),
{
    let n = target.len() as int;
    assert forall|i: int| 0 <= i < guess.len() implies mark(guess, target, i) == plain_mark(
        guess,
        target,
        i,
    ) by {
        let x = guess[i];
        lemma_loose_sign(guess, target, x, i);
        lemma_loose_sign(target, guess, x, n);
        if guess[i] != target[i] && target.contains(x) {
            let j = choose|j: int| 0 <= j < target.len() && target[j] == x;
            assert(0 <= j < n && target[j] == x && guess[j] != x);
        }
    }
    assert(marks(guess, target) =~= plain_marks(guess, target));
}

/// The digits of a feedback code are the marks of the letters.
pub proof fn lemma_code_shows_marks(guess: Seq<u8>, target: Seq<u8>)
    ensures
        unpack(feedback_code(guess, target), guess.len()) == marks(guess, target),
{
    lemma_unpack_pack(marks(guess, target));
}

/// However often a letter is repeated, the guess never gets more marks other
/// than `ABSENT` for it than the target has occurrences of it.
pub proof fn lemma_marked_at_most_occurrences(guess: Seq<u8>, target: Seq<u8>, x: u8)
    requires
        guess.len() == target.len(),
    ensures
        marked(guess, target, x, guess.len() as int) <= occurrences(
            target,
            x,
            target.len() as int,
        ),
{
    let n = guess.len() as int;
    lemma_marked_split(guess, target, x, n);
    lemma_occurrences_split(guess, target, x, n);
}

} // verus!
