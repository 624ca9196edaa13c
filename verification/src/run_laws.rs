//! What the search for runs finds: exactly the runs that the hand holds, each
//! of them once.

use vstd::prelude::*;
use vstd::seq_lib::*;
use crate::card::Card;
use crate::hand::{drawn_from, is_first_occurrence};
use crate::lists::{
    lemma_drawn_from_head, lemma_drawn_from_step, lemma_first_copy, lemma_long_enough_contains,
    lemma_long_enough_distinct, lemma_nothing_is_drawn, lemma_prepend_each_contains,
    lemma_prepend_each_distinct, prepend_each,
};
use crate::runs::{
    continuations, continuations_through, continuations_within, follows_at, goes_on, is_run,
    runs, runs_through, runs_within, stands_for, RunConstraints,
};

verus! {

/// A way to go on lies among those that begin with one of the first `n`
/// cards exactly when it lies among those that begin with one of them.
proof fn lemma_within_contains(
    rules: RunConstraints,
    hand: Seq<Card>,
    last: Card,
    n: int,
    rest: Seq<Card>,
)
    requires
        0 <= n <= hand.len(),
    ensures
        continuations_within(rules, hand, last, n).contains(rest) <==> exists|i: int|
            0 <= i < n && #[trigger] continuations_through(rules, hand, last, i).contains(rest),
    decreases n,
{
    broadcast use lemma_seq_concat_contains_all_elements;

    if n > 0 {
        lemma_within_contains(rules, hand, last, n - 1, rest);
        if continuations_within(rules, hand, last, n).contains(rest) {
            if !continuations_within(rules, hand, last, n - 1).contains(rest) {
                assert(continuations_through(rules, hand, last, n - 1).contains(rest));
            }
        }
    }
}

/// Every way to go on that the search lists obeys the rules card by card and
/// is drawn from the hand.
pub proof fn lemma_continuations_sound(
    rules: RunConstraints,
    hand: Seq<Card>,
    last: Card,
    rest: Seq<Card>,
)
    requires
        continuations(rules, hand, last).contains(rest),
    ensures
        goes_on(rules, last, rest),
        drawn_from(rest, hand),
    decreases hand.len(),
{
    broadcast use lemma_seq_concat_contains_all_elements;

    if rest.len() == 0 {
        lemma_nothing_is_drawn(rest, hand);
    } else {
        let first = seq![Seq::<Card>::empty()];
        if first.contains(rest) {
            let j = choose|j: int| 0 <= j < first.len() && first[j] == rest;
            assert(false);
        }
        lemma_within_contains(rules, hand, last, hand.len() as int, rest);
        let i = choose|i: int|
            0 <= i < hand.len() && #[trigger] continuations_through(
                rules,
                hand,
                last,
                i,
            ).contains(rest);
        let next = rules.advance(last, hand[i]);
        lemma_prepend_each_contains(hand[i], continuations(rules, hand.remove(i), next), rest);
        lemma_continuations_sound(rules, hand.remove(i), next, rest.drop_first());
        lemma_drawn_from_step(rest, hand, i);
    }
}

/// Every way to go on that obeys the rules and is drawn from the hand is
/// listed by the search.
pub proof fn lemma_continuations_complete(
    rules: RunConstraints,
    hand: Seq<Card>,
    last: Card,
    rest: Seq<Card>,
)
    requires
        goes_on(rules, last, rest),
        drawn_from(rest, hand),
    ensures
        continuations(rules, hand, last).contains(rest),
    decreases rest.len(),
{
    broadcast use lemma_seq_concat_contains_all_elements;

    let first = seq![Seq::<Card>::empty()];
    if rest.len() == 0 {
        assert(first[0] =~= rest);
        assert(first.contains(rest));
    } else {
        lemma_drawn_from_head(rest, hand);
        let i = lemma_first_copy(hand, rest[0]);
        let next = rules.advance(last, hand[i]);
        lemma_drawn_from_step(rest, hand, i);
        lemma_continuations_complete(rules, hand.remove(i), next, rest.drop_first());
        lemma_prepend_each_contains(hand[i], continuations(rules, hand.remove(i), next), rest);
        assert(continuations_through(rules, hand, last, i).contains(rest));
        lemma_within_contains(rules, hand, last, hand.len() as int, rest);
    }
}

/// No way to go on is listed twice.
pub proof fn lemma_continuations_distinct(rules: RunConstraints, hand: Seq<Card>, last: Card)
    ensures
        continuations(rules, hand, last).no_duplicates(),
    decreases hand.len(), hand.len() + 1,
{
    let first = seq![Seq::<Card>::empty()];
    let others = continuations_within(rules, hand, last, hand.len() as int);
    lemma_within_distinct(rules, hand, last, hand.len() as int);
    assert forall|i: int, j: int| 0 <= i < first.len() && 0 <= j < others.len() implies first[i]
        != others[j] by {
        assert(others.contains(others[j]));
        lemma_within_contains(rules, hand, last, hand.len() as int, others[j]);
        let k = choose|k: int|
            0 <= k < hand.len() && #[trigger] continuations_through(
                rules,
                hand,
                last,
                k,
            ).contains(others[j]);
        lemma_prepend_each_contains(
            hand[k],
            continuations(rules, hand.remove(k), rules.advance(last, hand[k])),
            others[j],
        );
    }
    lemma_no_dup_in_concat(first, others);
}

/// No way to go on is listed twice among those that begin with one of the
/// first `n` cards.
proof fn lemma_within_distinct(rules: RunConstraints, hand: Seq<Card>, last: Card, n: int)
    requires
        0 <= n <= hand.len(),
    ensures
        continuations_within(rules, hand, last, n).no_duplicates(),
    decreases hand.len(), n,
{
    if n > 0 {
        let i = n - 1;
        let earlier = continuations_within(rules, hand, last, i);
        let added = continuations_through(rules, hand, last, i);
        lemma_within_distinct(rules, hand, last, i);
        if is_first_occurrence(hand, i) && rules.may_follow(last, hand[i]) {
            let next = rules.advance(last, hand[i]);
            lemma_continuations_distinct(rules, hand.remove(i), next);
            lemma_prepend_each_distinct(hand[i], continuations(rules, hand.remove(i), next));
        }
        assert forall|p: int, q: int| 0 <= p < earlier.len() && 0 <= q < added.len() implies
            earlier[p] != added[q] by {
            assert(earlier.contains(earlier[p]));
            lemma_within_contains(rules, hand, last, i, earlier[p]);
            let k = choose|k: int|
                0 <= k < i && #[trigger] continuations_through(rules, hand, last, k).contains(
                    earlier[p],
                );
            lemma_prepend_each_contains(
                hand[k],
                continuations(rules, hand.remove(k), rules.advance(last, hand[k])),
                earlier[p],
            );
            assert(added.contains(added[q]));
            lemma_prepend_each_contains(
                hand[i],
                continuations(rules, hand.remove(i), rules.advance(last, hand[i])),
                added[q],
            );
        }
        lemma_no_dup_in_concat(earlier, added);
    }
}

/// From position `j` on, the cards of `run` follow one another exactly when
/// what lies behind `j` goes on after what `j` stands for.
proof fn lemma_goes_on_from(rules: RunConstraints, run: Seq<Card>, j: int)
    requires
        0 <= j < run.len(),
    ensures
        goes_on(rules, stands_for(rules, run, j), run.skip(j + 1)) <==> forall|k: int|
            j < k < run.len() ==> #[trigger] follows_at(rules, run, k),
    decreases run.len() - j,
{
    let rest = run.skip(j + 1);
    if j + 1 < run.len() {
        lemma_goes_on_from(rules, run, j + 1);
        assert(rest.drop_first() =~= run.skip(j + 2));
        assert(rest[0] == run[j + 1]);
        assert(follows_at(rules, run, j + 1) == rules.may_follow(
            stands_for(rules, run, j),
            run[j + 1],
        ));
        if goes_on(rules, stands_for(rules, run, j), rest) {
            assert forall|k: int| j < k < run.len() implies #[trigger] follows_at(
                rules,
                run,
                k,
            ) by {
                if k > j + 1 {
                }
            }
        }
    }
}

/// A run is a card that may open one, and cards behind it that go on after it.
pub proof fn lemma_run_unfolds(rules: RunConstraints, run: Seq<Card>)
    ensures
        is_run(rules, run) <==> (run.len() >= 1 && rules.may_start(run[0]) && goes_on(
            rules,
            run[0],
            run.drop_first(),
        )),
{
    if run.len() >= 1 {
        lemma_goes_on_from(rules, run, 0);
        assert(run.skip(1) =~= run.drop_first());
    }
}

/// A run lies among those that begin at position `i` exactly when that
/// position holds the first copy of the run's first card and the run is a run
/// of the length asked for that is drawn from the hand.
proof fn lemma_runs_through_contains(
    rules: RunConstraints,
    min_length: nat,
    hand: Seq<Card>,
    i: int,
    run: Seq<Card>,
)
    requires
        0 <= i < hand.len(),
    ensures
        runs_through(rules, min_length, hand, i).contains(run) <==> (is_first_occurrence(hand, i)
            && run.len() >= 1 && run[0] == hand[i] && is_run(rules, run) && run.len()
            >= min_length && drawn_from(run, hand)),
{
    let tails = continuations(rules, hand.remove(i), hand[i]);
    lemma_run_unfolds(rules, run);
    lemma_long_enough_contains(prepend_each(hand[i], tails), min_length, run);
    lemma_prepend_each_contains(hand[i], tails, run);
    if run.len() >= 1 && run[0] == hand[i] {
        lemma_drawn_from_step(run, hand, i);
        if tails.contains(run.drop_first()) {
            lemma_continuations_sound(rules, hand.remove(i), hand[i], run.drop_first());
        }
        if goes_on(rules, hand[i], run.drop_first()) && drawn_from(
            run.drop_first(),
            hand.remove(i),
        ) {
            lemma_continuations_complete(rules, hand.remove(i), hand[i], run.drop_first());
        }
    }
}

/// A run lies among those that begin with one of the first `n` cards exactly
/// when it lies among those that begin with one of them.
proof fn lemma_runs_within_contains(
    rules: RunConstraints,
    min_length: nat,
    hand: Seq<Card>,
    n: int,
    run: Seq<Card>,
)
    requires
        0 <= n <= hand.len(),
    ensures
        runs_within(rules, min_length, hand, n).contains(run) <==> exists|i: int|
            0 <= i < n && #[trigger] runs_through(rules, min_length, hand, i).contains(run),
    decreases n,
{
    broadcast use lemma_seq_concat_contains_all_elements;

    if n > 0 {
        lemma_runs_within_contains(rules, min_length, hand, n - 1, run);
        if runs_within(rules, min_length, hand, n).contains(run) {
            if !runs_within(rules, min_length, hand, n - 1).contains(run) {
                assert(runs_through(rules, min_length, hand, n - 1).contains(run));
            }
        }
    }
}

/// The search finds a sequence of cards exactly when it is a run under the
/// rules, has the length asked for, and is drawn from the hand: each card of
/// the hand serves at most once.
pub proof fn lemma_runs_are_exact(
    rules: RunConstraints,
    min_length: nat,
    hand: Seq<Card>,
    run: Seq<Card>,
)
    ensures
        runs(rules, min_length, hand).contains(run) <==> (is_run(rules, run) && run.len()
            >= min_length && drawn_from(run, hand)),
{
    lemma_runs_within_contains(rules, min_length, hand, hand.len() as int, run);
    if runs(rules, min_length, hand).contains(run) {
        let i = choose|i: int|
            0 <= i < hand.len() && #[trigger] runs_through(rules, min_length, hand, i).contains(
                run,
            );
        lemma_runs_through_contains(rules, min_length, hand, i, run);
    }
    if is_run(rules, run) && run.len() >= min_length && drawn_from(run, hand) {
        lemma_drawn_from_head(run, hand);
        let i = lemma_first_copy(hand, run[0]);
        lemma_runs_through_contains(rules, min_length, hand, i, run);
    }
}

/// No run is listed twice among those that begin with one of the first `n`
/// cards.
proof fn lemma_runs_within_distinct(
    rules: RunConstraints,
    min_length: nat,
    hand: Seq<Card>,
    n: int,
)
    requires
        0 <= n <= hand.len(),
    ensures
        runs_within(rules, min_length, hand, n).no_duplicates(),
    decreases n,
{
    if n > 0 {
        let i = n - 1;
        let earlier = runs_within(rules, min_length, hand, i);
        let added = runs_through(rules, min_length, hand, i);
        lemma_runs_within_distinct(rules, min_length, hand, i);
        if is_first_occurrence(hand, i) && rules.may_start(hand[i]) {
            let tails = continuations(rules, hand.remove(i), hand[i]);
            lemma_continuations_distinct(rules, hand.remove(i), hand[i]);
            lemma_prepend_each_distinct(hand[i], tails);
            lemma_long_enough_distinct(prepend_each(hand[i], tails), min_length);
        }
        assert forall|p: int, q: int| 0 <= p < earlier.len() && 0 <= q < added.len() implies
            earlier[p] != added[q] by {
            assert(earlier.contains(earlier[p]));
            lemma_runs_within_contains(rules, min_length, hand, i, earlier[p]);
            let k = choose|k: int|
                0 <= k < i && #[trigger] runs_through(rules, min_length, hand, k).contains(
                    earlier[p],
                );
            lemma_runs_through_contains(rules, min_length, hand, k, earlier[p]);
            assert(added.contains(added[q]));
            lemma_runs_through_contains(rules, min_length, hand, i, added[q]);
        }
        lemma_no_dup_in_concat(earlier, added);
    }
}

/// The search lists no run twice, however many copies of a card the hand holds.
pub proof fn lemma_runs_are_distinct(rules: RunConstraints, min_length: nat, hand: Seq<Card>)
    ensures
        runs(rules, min_length, hand).no_duplicates(),
{
    lemma_runs_within_distinct(rules, min_length, hand, hand.len() as int);
}

} // verus!
