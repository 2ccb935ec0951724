//! Ranking the candidate guesses.
//!
//! A candidate is scored by the histogram of the codes that the possible
//! answers would give it: the more evenly the answers spread over the codes,
//! the more a guess tells. The score itself is the caller's: this module counts
//! the histograms, asks the caller's function for the score of each, and ranks
//! the candidates by score, best first. A score is an unsigned number, and a
//! greater number is a better score.

use vstd::prelude::*;
use crate::table::{all_below, is_histogram, total, FeedbackTable};
use crate::{WordIndex, GROUP_COUNT};

verus! {

/// Whether no entry of `ranking` has a greater score than an entry before it.
pub open spec fn descending(ranking: Seq<(WordIndex, u32)>) -> bool {
    forall|i: int, j: int| 0 <= i < j < ranking.len() ==> ranking[i].1 >= ranking[j].1
}

/// The test that an entry passes when its score is `score`.
pub open spec fn scores(score: u32) -> spec_fn((WordIndex, u32)) -> bool {
    |entry: (WordIndex, u32)| entry.1 == score
}

/// The entries of `entries` whose score is `score`, in their order.
pub open spec fn with_score(entries: Seq<(WordIndex, u32)>, score: u32) -> Seq<(WordIndex, u32)> {
    entries.filter(scores(score))
}

/// Whether `ranking` holds the entries of `entries` ordered by score, best
/// first, with entries of equal score in the order that they have in `entries`.
pub open spec fn is_ranking_of(
    ranking: Seq<(WordIndex, u32)>,
    entries: Seq<(WordIndex, u32)>,
) -> bool {
    &&& descending(ranking)
    &&& forall|score: u32| #[trigger] with_score(ranking, score) == with_score(entries, score)
}

/// Whether `score` may be what the scoring function `f` returns for the guess
/// `candidate`: the function allows it for the histogram of that guess over the
/// possible answers `conforming` and their number.
pub open spec fn may_score<F: Fn(&Vec<usize>, usize) -> u32>(
    f: F,
    dictionary: Seq<Seq<u8>>,
    conforming: Seq<WordIndex>,
    candidate: int,
    score: u32,
) -> bool {
    exists|counts: Vec<usize>|
        is_histogram(counts@, dictionary, conforming, candidate) && #[trigger] call_ensures(
            f,
            (&counts, conforming.len() as usize),
            score,
        )
}

/// Whether `ranking` ranks the possible answers `conforming` as guesses, given
/// that `scored` holds them in their order, each with the score that the
/// scoring function `f` returned for it.
pub open spec fn is_entropy_list<F: Fn(&Vec<usize>, usize) -> u32>(
    ranking: Seq<(WordIndex, u32)>,
    f: F,
    dictionary: Seq<Seq<u8>>,
    conforming: Seq<WordIndex>,
    scored: Seq<(WordIndex, u32)>,
) -> bool {
    &&& scored.len() == conforming.len()
    &&& forall|i: int|
        0 <= i < conforming.len() ==> (#[trigger] scored[i]).0 == conforming[i] && may_score(
            f,
            dictionary,
            conforming,
            conforming[i] as int,
            scored[i].1,
        )
    &&& is_ranking_of(ranking, scored)
}

proof fn lemma_with_score_push(entries: Seq<(WordIndex, u32)>, entry: (WordIndex, u32), score: u32)
    ensures
        with_score(entries.push(entry), score) == if entry.1 == score {
            with_score(entries, score).push(entry)
        } else {
            with_score(entries, score)
        },
{
    entries.lemma_filter_push(entry, scores(score));
}

proof fn lemma_with_score_none(entries: Seq<(WordIndex, u32)>, score: u32)
    requires
        forall|i: int| 0 <= i < entries.len() ==> entries[i].1 != score,
    ensures
        with_score(entries, score) == Seq::<(WordIndex, u32)>::empty(),
    decreases entries.len(),
{
    reveal(Seq::filter);
    if entries.len() > 0 {
        lemma_with_score_none(entries.drop_last(), score);
    } else {
        assert(with_score(entries, score) =~= Seq::<(WordIndex, u32)>::empty());
    }
}

proof fn lemma_with_score_some(entries: Seq<(WordIndex, u32)>, score: u32)
    requires
        with_score(entries, score).len() > 0,
    ensures
        exists|i: int| 0 <= i < entries.len() && entries[i].1 == score,
{
    if forall|i: int| 0 <= i < entries.len() ==> entries[i].1 != score {
        lemma_with_score_none(entries, score);
    }
}

proof fn lemma_with_score_insert(
    ranking: Seq<(WordIndex, u32)>,
    at: int,
    entry: (WordIndex, u32),
    score: u32,
)
    requires
        0 <= at <= ranking.len(),
        forall|i: int| at <= i < ranking.len() ==> ranking[i].1 < entry.1,
    ensures
        with_score(ranking.insert(at, entry), score) == if entry.1 == score {
            with_score(ranking, score).push(entry)
        } else {
            with_score(ranking, score)
        },
{
    let front = ranking.take(at);
    let back = ranking.skip(at);
    let f = scores(score);
    assert(ranking.insert(at, entry) =~= front.push(entry) + back);
    assert(ranking =~= front + back);
    Seq::filter_distributes_over_add(front.push(entry), back, f);
    Seq::filter_distributes_over_add(front, back, f);
    lemma_with_score_push(front, entry, score);
    if entry.1 == score {
        lemma_with_score_none(back, score);
        assert(with_score(front, score).push(entry) + Seq::<(WordIndex, u32)>::empty()
            =~= with_score(front, score).push(entry));
        assert(with_score(front, score) + Seq::<(WordIndex, u32)>::empty() =~= with_score(
            front,
            score,
        ));
    }
}

proof fn lemma_same_groups_same_order(a: Seq<(WordIndex, u32)>, b: Seq<(WordIndex, u32)>)
    requires
        descending(a),
        descending(b),
        forall|score: u32| #[trigger] with_score(a, score) == with_score(b, score),
    ensures
        a == b,
    decreases a.len(),
{
    if a.len() == 0 {
        if b.len() > 0 {
            let low = b.last().1;
            assert(b.drop_last().push(b.last()) =~= b);
            lemma_with_score_push(b.drop_last(), b.last(), low);
            lemma_with_score_none(a, low);
            assert(with_score(a, low) == with_score(b, low));
        }
        assert(a =~= b);
    } else {
        let low = a.last().1;
        let front = a.drop_last();
        assert(front.push(a.last()) =~= a);
        lemma_with_score_push(front, a.last(), low);
        assert(with_score(a, low) == with_score(b, low));
        lemma_with_score_some(b, low);
        let other = b.drop_last();
        let least = b.last().1;
        assert(other.push(b.last()) =~= b);
        lemma_with_score_push(other, b.last(), least);
        assert(with_score(a, least) == with_score(b, least));
        lemma_with_score_some(a, least);
        assert(low == least);
        assert(with_score(front, low).push(a.last()) == with_score(other, low).push(b.last()));
        assert(with_score(front, low).push(a.last()).last() == a.last());
        assert(with_score(front, low).push(a.last()).drop_last() =~= with_score(front, low));
        assert(with_score(other, low).push(b.last()).drop_last() =~= with_score(other, low));
        assert forall|score: u32| #[trigger]
            with_score(front, score) == with_score(other, score) by {
            lemma_with_score_push(front, a.last(), score);
            lemma_with_score_push(other, b.last(), score);
            assert(with_score(a, score) == with_score(b, score));
        }
        lemma_same_groups_same_order(front, other);
        assert(a =~= b);
    }
}

/// There is only one ranking of given entries: two sequences that both rank
/// `entries` are the same sequence.
pub proof fn lemma_ranking_unique(
    a: Seq<(WordIndex, u32)>,
    b: Seq<(WordIndex, u32)>,
    entries: Seq<(WordIndex, u32)>,
)
    requires
        is_ranking_of(a, entries),
        is_ranking_of(b, entries),
    ensures
        a == b,
{
    assert forall|score: u32| #[trigger] with_score(a, score) == with_score(b, score) by {
        assert(with_score(a, score) == with_score(entries, score));
        assert(with_score(b, score) == with_score(entries, score));
    }
    lemma_same_groups_same_order(a, b);
}

proof fn lemma_with_score_remove(entries: Seq<(WordIndex, u32)>, i: int, score: u32)
    requires
        0 <= i < entries.len(),
    ensures
        with_score(entries, score).len() == with_score(entries.remove(i), score).len()
            + if entries[i].1 == score {
            1int
        } else {
            0int
        },
{
    let front = entries.take(i);
    let back = entries.skip(i + 1);
    let f = scores(score);
    assert(entries =~= front.push(entries[i]) + back);
    assert(entries.remove(i) =~= front + back);
    Seq::filter_distributes_over_add(front.push(entries[i]), back, f);
    Seq::filter_distributes_over_add(front, back, f);
    lemma_with_score_push(front, entries[i], score);
}

proof fn lemma_rearranged_same_counts(
    first: Seq<(WordIndex, u32)>,
    second: Seq<(WordIndex, u32)>,
    score: u32,
)
    requires
        first.to_multiset() == second.to_multiset(),
    ensures
        with_score(first, score).len() == with_score(second, score).len(),
    decreases first.len(),
{
    broadcast use vstd::multiset::group_multiset_axioms;

    vstd::seq_lib::to_multiset_len(first);
    vstd::seq_lib::to_multiset_len(second);
    if first.len() == 0 {
        lemma_with_score_none(first, score);
        lemma_with_score_none(second, score);
    } else {
        let entry = first.last();
        let front = first.drop_last();
        assert(front.push(entry) =~= first);
        vstd::seq_lib::to_multiset_build(front, entry);
        vstd::seq_lib::to_multiset_contains(second, entry);
        let i = choose|i: int| 0 <= i < second.len() && second[i] == entry;
        vstd::seq_lib::to_multiset_remove(second, i);
        assert(front.to_multiset() =~= second.remove(i).to_multiset());
        lemma_rearranged_same_counts(front, second.remove(i), score);
        lemma_with_score_push(front, entry, score);
        lemma_with_score_remove(second, i, score);
    }
}

proof fn lemma_same_counts_same_scores(a: Seq<(WordIndex, u32)>, b: Seq<(WordIndex, u32)>)
    requires
        descending(a),
        descending(b),
        forall|score: u32| #[trigger] with_score(a, score).len() == with_score(b, score).len(),
    ensures
        a.len() == b.len(),
        forall|k: int| 0 <= k < a.len() ==> a[k].1 == b[k].1,
    decreases a.len(),
{
    if a.len() == 0 {
        if b.len() > 0 {
            let low = b.last().1;
            assert(b.drop_last().push(b.last()) =~= b);
            lemma_with_score_push(b.drop_last(), b.last(), low);
            lemma_with_score_none(a, low);
            assert(with_score(a, low).len() == with_score(b, low).len());
        }
    } else {
        let low = a.last().1;
        let front = a.drop_last();
        assert(front.push(a.last()) =~= a);
        lemma_with_score_push(front, a.last(), low);
        assert(with_score(a, low).len() == with_score(b, low).len());
        lemma_with_score_some(b, low);
        let other = b.drop_last();
        let least = b.last().1;
        assert(other.push(b.last()) =~= b);
        lemma_with_score_push(other, b.last(), least);
        assert(with_score(a, least).len() == with_score(b, least).len());
        lemma_with_score_some(a, least);
        assert(low == least);
        assert forall|score: u32| #[trigger]
            with_score(front, score).len() == with_score(other, score).len() by {
            lemma_with_score_push(front, a.last(), score);
            lemma_with_score_push(other, b.last(), score);
            assert(with_score(a, score).len() == with_score(b, score).len());
        }
        lemma_same_counts_same_scores(front, other);
    }
}

/// The order in which the entries are handed over matters only among entries of
/// equal score: the rankings of two lists that hold the same entries equally
/// often show the same scores at the same places.
pub proof fn lemma_rearranged_ranking_scores(
    a: Seq<(WordIndex, u32)>,
    b: Seq<(WordIndex, u32)>,
    first: Seq<(WordIndex, u32)>,
    second: Seq<(WordIndex, u32)>,
)
    requires
        is_ranking_of(a, first),
        is_ranking_of(b, second),
        first.to_multiset() == second.to_multiset(),
    ensures
        a.len() == b.len(),
        forall|k: int| 0 <= k < a.len() ==> a[k].1 == b[k].1,
{
    assert forall|score: u32| #[trigger]
        with_score(a, score).len() == with_score(b, score).len() by {
        lemma_rearranged_same_counts(first, second, score);
        assert(with_score(a, score) == with_score(first, score));
        assert(with_score(b, score) == with_score(second, score));
    }
    lemma_same_counts_same_scores(a, b);
}

/// Ranks `entries`, each a candidate with its score, by score, best first.
/// Entries of equal score keep the order that they have in `entries`.
pub fn rank(entries: &Vec<(WordIndex, u32)>) -> (ranking: Vec<(WordIndex, u32)>)
    ensures
        is_ranking_of(ranking@, entries@),
        ranking@.len() == entries@.len(),
        forall|k: int| 0 <= k < ranking@.len() ==> entries@.contains(#[trigger] ranking@[k]),
{
    let mut ranking: Vec<(WordIndex, u32)> = Vec::new();
    proof {
        assert forall|score: u32| #[trigger]
            with_score(ranking@, score) == with_score(entries@.take(0), score) by {
            assert(ranking@ =~= entries@.take(0));
        }
    }
    for i in 0..entries.len()
        invariant
            ranking@.len() == i,
            is_ranking_of(ranking@, entries@.take(i as int)),
            forall|k: int| 0 <= k < ranking@.len() ==> entries@.contains(#[trigger] ranking@[k]),
    {
        let entry = entries[i];
        let mut at: usize = 0;
        while at < ranking.len() && ranking[at].1 >= entry.1
            invariant
                at <= ranking@.len(),
                forall|k: int| 0 <= k < at ==> ranking@[k].1 >= entry.1,
            decreases ranking@.len() - at,
        {
            at += 1;
        }
        let ghost before = ranking@;
        ranking.insert(at, entry);
        proof {
            assert(entries@.take(i + 1) =~= entries@.take(i as int).push(entry));
            assert forall|score: u32| #[trigger]
                with_score(ranking@, score) == with_score(entries@.take(i + 1), score) by {
                lemma_with_score_insert(before, at as int, entry, score);
                lemma_with_score_push(entries@.take(i as int), entry, score);
                assert(with_score(before, score) == with_score(entries@.take(i as int), score));
            }
            assert(entries@[i as int] == entry);
        }
    }
    assert(entries@.take(entries@.len() as int) =~= entries@);
    ranking
}

/// Ranks the possible answers `conforming` as guesses, best first.
///
/// Every possible answer is a candidate. For each, the histogram of the codes
/// that the possible answers would give it is handed to `score`, together with
/// the number of possible answers; the candidates are then ranked by what
/// `score` returned, candidates of equal score in the order of `conforming`.
pub fn entropy_list<F: Fn(&Vec<usize>, usize) -> u32>(
    table: &FeedbackTable,
    conforming: &Vec<WordIndex>,
    score: F,
) -> (ranking: Vec<(WordIndex, u32)>)
    requires
        all_below(conforming@, table@.len()),
        forall|counts: Vec<usize>|
            counts@.len() == GROUP_COUNT && total(counts@) == conforming@.len()
                ==> #[trigger] call_requires(score, (&counts, conforming@.len() as usize)),
    ensures
        ranking@.len() == conforming@.len(),
        exists|scored: Seq<(WordIndex, u32)>| #[trigger]
            is_entropy_list(ranking@, score, table@, conforming@, scored),
        forall|k: int| 0 <= k < ranking@.len() ==> (#[trigger] ranking@[k]).0 < table@.len(),
{
    let size = conforming.len();
    let mut scored: Vec<(WordIndex, u32)> = Vec::new();
    for i in 0..size
        invariant
            size == conforming@.len(),
            all_below(conforming@, table@.len()),
            forall|counts: Vec<usize>|
                counts@.len() == GROUP_COUNT && total(counts@) == conforming@.len()
                    ==> #[trigger] call_requires(score, (&counts, conforming@.len() as usize)),
            scored@.len() == i,
            forall|k: int|
                0 <= k < i ==> (#[trigger] scored@[k]).0 == conforming@[k] && may_score(
                    score,
                    table@,
                    conforming@,
                    conforming@[k] as int,
                    scored@[k].1,
                ),
    {
        let candidate = conforming[i];
        let counts = table.histogram(candidate, conforming);
        assert(conforming@.len() as usize == size);
        let s = score(&counts, size);
        assert(call_ensures(score, (&counts, conforming@.len() as usize), s));
        assert(may_score(score, table@, conforming@, candidate as int, s));
        scored.push((candidate, s));
    }
    let ranking = rank(&scored);
    assert(is_entropy_list(ranking@, score, table@, conforming@, scored@));
    assert forall|k: int| 0 <= k < ranking@.len() implies (#[trigger] ranking@[k]).0
        < table@.len() by {
        let j = choose|j: int| 0 <= j < scored@.len() && scored@[j] == ranking@[k];
        assert(scored@[j].0 == conforming@[j]);
    }
    ranking
}

} // verus!
