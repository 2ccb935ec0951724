//! Feedback codes: the marks of the letters of a guess, packed into one number
//! as base-3 digits, and the text form in which a player reads and types them.

use vstd::prelude::*;
use vstd::string::StringExecFns;
use crate::{Group, GROUP_COUNT, WORD_LEN};

verus! {

/// Mark of a letter that the target does not have, or has no more of.
pub const ABSENT: u8 = 0;

/// Mark of a letter that the target has at another place.
pub const PRESENT: u8 = 1;

/// Mark of a letter that stands at the same place in the target.
pub const CORRECT: u8 = 2;

/// The code whose marks are all `CORRECT`.
pub const SOLVED: Group = 242;

/// Three to the power `n`.
pub open spec fn pow3(n: nat) -> int
    decreases n,
{
    if n == 0 {
        1
    } else {
        3 * pow3((n - 1) as nat)
    }
}

/// Whether every element of `digits` is a base-3 digit.
pub open spec fn all_marks(digits: Seq<u8>) -> bool {
    forall|i: int| 0 <= i < digits.len() ==> digits[i] <= CORRECT
}

/// The number whose base-3 digits are `digits`, most significant first.
pub open spec fn pack(digits: Seq<u8>) -> int
    decreases digits.len(),
{
    if digits.len() == 0 {
        0
    } else {
        3 * pack(digits.drop_last()) + digits.last()
    }
}

/// The lowest `n` base-3 digits of `code`, most significant first.
pub open spec fn unpack(code: int, n: nat) -> Seq<u8>
    decreases n,
{
    if n == 0 {
        Seq::empty()
    } else {
        unpack(code / 3, (n - 1) as nat).push((code % 3) as u8)
    }
}

/// The character that shows the mark `d`.
pub open spec fn mark_char(d: u8) -> char {
    if d == ABSENT {
        '0'
    } else if d == PRESENT {
        '1'
    } else {
        '2'
    }
}

/// The text that shows `digits`, one character for each.
pub open spec fn marks_text(digits: Seq<u8>) -> Seq<char> {
    Seq::new(digits.len(), |i: int| mark_char(digits[i]))
}

/// Whether `text` is `WORD_LEN` characters, each of them `0`, `1` or `2`.
pub open spec fn is_response(text: Seq<u8>) -> bool {
    text.len() == WORD_LEN && forall|i: int|
        0 <= i < text.len() ==> 48 <= #[trigger] text[i] && text[i] <= 50
}

/// The marks that the characters of `text` stand for.
pub open spec fn response_marks(text: Seq<u8>) -> Seq<u8> {
    Seq::new(text.len(), |i: int| (text[i] - 48) as u8)
}

/// The powers of three up to the number of codes.
pub proof fn lemma_pow3_values(n: nat)
    requires
        n <= WORD_LEN,
    ensures
        1 <= pow3(n) <= GROUP_COUNT,
        n < WORD_LEN ==> pow3(n) <= 81,
        pow3(WORD_LEN as nat) == GROUP_COUNT,
{
    reveal_with_fuel(pow3, 6);
    assert(n == 0 || n == 1 || n == 2 || n == 3 || n == 4 || n == 5);
}

/// One more digit at the end triples the number and adds the digit.
pub proof fn lemma_pack_push(digits: Seq<u8>, d: u8)
    ensures
        pack(digits.push(d)) == 3 * pack(digits) + d,
{
    assert(digits.push(d).drop_last() =~= digits);
}

/// A sequence of `n` marks packs into a number below `pow3(n)`.
pub proof fn lemma_pack_bounds(digits: Seq<u8>)
    requires
        all_marks(digits),
    ensures
        0 <= pack(digits) < pow3(digits.len()),
    decreases digits.len(),
{
    if digits.len() > 0 {
        lemma_pack_bounds(digits.drop_last());
    }
}

/// Unpacking gives as many digits as were asked for, each of them a mark.
pub proof fn lemma_unpack_shape(code: int, n: nat)
    ensures
        unpack(code, n).len() == n,
        all_marks(unpack(code, n)),
    decreases n,
{
    if n > 0 {
        lemma_unpack_shape(code / 3, (n - 1) as nat);
    }
}

/// Packing marks and unpacking the code gives the marks back.
pub proof fn lemma_unpack_pack(digits: Seq<u8>)
    requires
        all_marks(digits),
    ensures
        unpack(pack(digits), digits.len()) == digits,
    decreases digits.len(),
{
    if digits.len() > 0 {
        let front = digits.drop_last();
        lemma_unpack_pack(front);
        assert((3 * pack(front) + digits.last()) / 3 == pack(front));
        assert((3 * pack(front) + digits.last()) % 3 == digits.last());
        assert(front.push(digits.last()) =~= digits);
    } else {
        assert(unpack(pack(digits), 0) =~= digits);
    }
}

/// Unpacking a code of `n` digits and packing the digits gives the code back.
pub proof fn lemma_pack_unpack(code: int, n: nat)
    requires
        0 <= code < pow3(n),
    ensures
        pack(unpack(code, n)) == code,
    decreases n,
{
    if n > 0 {
        lemma_pack_unpack(code / 3, (n - 1) as nat);
        lemma_pack_push(unpack(code / 3, (n - 1) as nat), (code % 3) as u8);
    }
}

/// The text of a mark.
fn mark_str(d: u8) -> (text: &'static str)
    ensures
        text@ == seq![mark_char(d)],
{
    proof {
        reveal_strlit("0");
        reveal_strlit("1");
        reveal_strlit("2");
    }
    if d == ABSENT {
        "0"
    } else if d == PRESENT {
        "1"
    } else {
        "2"
    }
}

/// Writes a code as its `WORD_LEN` base-3 digits, the mark of the first letter
/// first.
pub fn string_for_group(group: &Group) -> (text: String)
    ensures
        text@ == marks_text(unpack(*group as int, WORD_LEN as nat)),
{
    let ghost digits_of = unpack(*group as int, WORD_LEN as nat);
    let mut digits: [u8; WORD_LEN] = [ABSENT;WORD_LEN];
    let mut rest: u8 = *group;
    let mut i: usize = WORD_LEN;
    while i > 0
        invariant
            i <= WORD_LEN,
            digits_of == unpack(rest as int, i as nat) + digits@.subrange(i as int, WORD_LEN as int),
        decreases i,
    {
        let ghost before = digits@;
        i -= 1;
        digits[i] = rest % 3;
        proof {
            let front = unpack(rest as int / 3, i as nat);
            lemma_unpack_shape(rest as int / 3, i as nat);
            assert(front.push(rest % 3) + before.subrange(i + 1, WORD_LEN as int) =~= front
                + digits@.subrange(i as int, WORD_LEN as int));
        }
        rest = rest / 3;
    }
    assert(digits@ =~= digits_of);
    let mut text = String::new();
    for k in 0..WORD_LEN
        invariant
            digits@ == digits_of,
            text@ == marks_text(digits_of.take(k as int)),
    {
        text.append(mark_str(digits[k]));
        assert(text@ =~= marks_text(digits_of.take(k + 1)));
    }
    assert(digits_of.take(WORD_LEN as int) =~= digits_of) by {
        lemma_unpack_shape(*group as int, WORD_LEN as nat);
    }
    text
}

/// Reads a response typed as `WORD_LEN` digits, each `0`, `1` or `2`, the mark
/// of the first letter first. Any other text is no response.
pub fn parse_group(text: &[u8]) -> (group: Option<Group>)
    ensures
        group is Some <==> is_response(text@),
        group matches Some(code) ==> code as int == pack(response_marks(text@)) && code
            < GROUP_COUNT,
{
    if text.len() != WORD_LEN {
        return None;
    }
    let ghost digits = response_marks(text@);
    let mut code: Group = 0;
    for i in 0..WORD_LEN
        invariant
            text@.len() == WORD_LEN,
            digits == response_marks(text@),
            forall|k: int| 0 <= k < i ==> 48 <= #[trigger] text@[k] && text@[k] <= 50,
            code as int == pack(digits.take(i as int)),
            (code as int) < pow3(i as nat),
    {
        let c = text[i];
        if c < 48 || c > 50 {
            return None;
        }
        proof {
            lemma_pack_push(digits.take(i as int), digits[i as int]);
            assert(digits.take(i + 1) =~= digits.take(i as int).push(digits[i as int]));
            lemma_pow3_values(i as nat);
        }
        code = 3 * code + (c - 48);
    }
    assert(digits.take(WORD_LEN as int) =~= digits);
    proof {
        lemma_pow3_values(WORD_LEN as nat);
    }
    Some(code)
}

} // verus!
