//! Facts about sequences of cards and lists of runs that the laws of the
//! search rest on.

use vstd::prelude::*;
use vstd::seq_lib::*;
use crate::card::Card;
use crate::hand::{drawn_from, is_first_occurrence};
use crate::runs::long_enough;

verus! {

/// Each list of `lists` with `head` put in front.
pub open spec fn prepend_each<A>(head: A, lists: Seq<Seq<A>>) -> Seq<Seq<A>> {
    Seq::new(lists.len(), |i: int| seq![head] + lists[i])
}

/// A list lies in `prepend_each(head, lists)` exactly when it begins with
/// `head` and what comes after lies in `lists`.
pub proof fn lemma_prepend_each_contains<A>(head: A, lists: Seq<Seq<A>>, list: Seq<A>)
    ensures
        prepend_each(head, lists).contains(list) <==> (list.len() >= 1 && list[0] == head
            && lists.contains(list.drop_first())),
{
    let longer = prepend_each(head, lists);
    if longer.contains(list) {
        let i = choose|i: int| 0 <= i < longer.len() && longer[i] == list;
        assert(list.drop_first() =~= lists[i]);
    }
    if list.len() >= 1 && list[0] == head && lists.contains(list.drop_first()) {
        let j = choose|j: int| 0 <= j < lists.len() && lists[j] == list.drop_first();
        assert(longer[j] =~= list);
    }
}

/// Putting one head in front of lists that differ leaves them different.
pub proof fn lemma_prepend_each_distinct<A>(head: A, lists: Seq<Seq<A>>)
    requires
        lists.no_duplicates(),
    ensures
        prepend_each(head, lists).no_duplicates(),
{
    let longer = prepend_each(head, lists);
    assert forall|i: int, j: int|
        0 <= i < longer.len() && 0 <= j < longer.len() && i != j implies longer[i]
        != longer[j] by {
        if longer[i] == longer[j] {
            assert(longer[i].drop_first() =~= lists[i]);
            assert(longer[j].drop_first() =~= lists[j]);
        }
    }
}

/// Keeping only the runs of some length leaves runs that differ different.
pub proof fn lemma_long_enough_distinct(runs: Seq<Seq<Card>>, min_length: nat)
    requires
        runs.no_duplicates(),
    ensures
        long_enough(runs, min_length).no_duplicates(),
    decreases runs.len(),
{
    reveal(Seq::filter);
    let long = |run: Seq<Card>| run.len() >= min_length;
    if runs.len() > 0 {
        let earlier = runs.drop_last();
        lemma_long_enough_distinct(earlier, min_length);
        let kept = earlier.filter(long);
        if long(runs.last()) {
            assert forall|i: int| 0 <= i < kept.len() implies kept[i] != runs.last() by {
                earlier.lemma_filter_contains_rev(long, kept[i]);
                let j = choose|j: int| 0 <= j < earlier.len() && earlier[j] == kept[i];
                assert(runs[j] == kept[i]);
            }
        }
    }
}

/// A run lies among those that are long enough exactly when it lies in the
/// list and is long enough.
pub proof fn lemma_long_enough_contains(runs: Seq<Seq<Card>>, min_length: nat, run: Seq<Card>)
    ensures
        long_enough(runs, min_length).contains(run) <==> (runs.contains(run) && run.len()
            >= min_length),
{
    let long = |run: Seq<Card>| run.len() >= min_length;
    if runs.contains(run) && run.len() >= min_length {
        let i = choose|i: int| 0 <= i < runs.len() && runs[i] == run;
        runs.lemma_filter_contains(long, i);
    }
    if long_enough(runs, min_length).contains(run) {
        runs.lemma_filter_contains_rev(long, run);
    }
}

/// A card that the hand holds has a first copy there.
pub proof fn lemma_first_copy(hand: Seq<Card>, card: Card) -> (i: int)
    requires
        hand.contains(card),
    ensures
        0 <= i < hand.len(),
        hand[i] == card,
        is_first_occurrence(hand, i),
{
    hand.index_of_first_ensures(card);
    hand.index_of_first(card).unwrap()
}

/// Cards are drawn from a hand exactly when, the first of them taken from
/// some place where the hand holds it, the others are drawn from what is left.
pub proof fn lemma_drawn_from_step(cards: Seq<Card>, hand: Seq<Card>, i: int)
    requires
        cards.len() >= 1,
        0 <= i < hand.len(),
        hand[i] == cards[0],
    ensures
        drawn_from(cards, hand) <==> drawn_from(cards.drop_first(), hand.remove(i)),
{
    broadcast use group_to_multiset_ensures;

    assert(cards.remove(0) =~= cards.drop_first());
    let all = cards.to_multiset();
    let rest = cards.drop_first().to_multiset();
    let whole = hand.to_multiset();
    let left = hand.remove(i).to_multiset();
    assert(rest == all.remove(cards[0]));
    assert(left == whole.remove(hand[i]));
    assert(all.count(cards[0]) > 0);
    assert(whole.count(cards[0]) > 0);
    if drawn_from(cards, hand) {
        assert forall|c: Card| rest.count(c) <= left.count(c) by {
            assert(all.count(c) <= whole.count(c));
        }
    }
    if drawn_from(cards.drop_first(), hand.remove(i)) {
        assert forall|c: Card| all.count(c) <= whole.count(c) by {
            assert(rest.count(c) <= left.count(c));
        }
    }
}

/// The first of the cards that are drawn from a hand lies in the hand.
pub proof fn lemma_drawn_from_head(cards: Seq<Card>, hand: Seq<Card>)
    requires
        cards.len() >= 1,
        drawn_from(cards, hand),
    ensures
        hand.contains(cards[0]),
{
    broadcast use group_to_multiset_ensures;

    assert(cards.contains(cards[0]));
    assert(cards.to_multiset().count(cards[0]) > 0);
    assert(hand.to_multiset().count(cards[0]) > 0);
}

/// No cards at all are drawn from any hand.
pub proof fn lemma_nothing_is_drawn(cards: Seq<Card>, hand: Seq<Card>)
    requires
        cards.len() == 0,
    ensures
        drawn_from(cards, hand),
{
    broadcast use group_to_multiset_ensures;

    assert forall|c: Card| cards.to_multiset().count(c) <= hand.to_multiset().count(c) by {
        assert(!cards.contains(c));
    }
}

/// Cards that are drawn from a hand are no more than the hand holds.
pub proof fn lemma_drawn_from_len(cards: Seq<Card>, hand: Seq<Card>)
    requires
        drawn_from(cards, hand),
    ensures
        cards.len() <= hand.len(),
{
    broadcast use group_to_multiset_ensures;

    let taken = cards.to_multiset();
    let whole = hand.to_multiset();
    assert(whole =~= taken.add(whole.sub(taken)));
    assert(taken.add(whole.sub(taken)).len() == taken.len() + whole.sub(taken).len());
    assert(cards.len() == taken.len());
    assert(hand.len() == whole.len());
}

} // verus!
