//! Hands of cards as sequences, and what it means to take cards out of one.

use vstd::prelude::*;
use crate::card::Card;

verus! {

/// Whether position `i` holds the first copy of its card in `hand`.
pub open spec fn is_first_occurrence(hand: Seq<Card>, i: int) -> bool {
    forall|j: int| 0 <= j < i ==> hand[j] != hand[i]
}

/// Whether every card of `cards` can be drawn from `hand`, each copy in the
/// hand serving at most once.
pub open spec fn drawn_from(cards: Seq<Card>, hand: Seq<Card>) -> bool {
    cards.to_multiset().subset_of(hand.to_multiset())
}

/// Tells whether no earlier position of `hand` holds the card at `i`.
pub fn first_occurrence(hand: &Vec<Card>, i: usize) -> (b: bool)
    requires
        i < hand.len(),
    ensures
        b == is_first_occurrence(hand@, i as int),
{
    let mut j: usize = 0;
    while j < i
        invariant
            j <= i < hand.len(),
            forall|k: int| 0 <= k < j ==> hand@[k] != hand@[i as int],
        decreases i - j,
    {
        if hand[j] == hand[i] {
            return false;
        }
        j += 1;
    }
    true
}

/// A copy of `hand` without the card at position `i`.
pub fn without_index(hand: &Vec<Card>, i: usize) -> (rest: Vec<Card>)
    requires
        i < hand.len(),
    ensures
        rest@ == hand@.remove(i as int),
{
    let mut rest = hand.clone();
    rest.remove(i);
    rest
}

/// What is left of `hand` when the cards of `cards` are taken out one after
/// the other, each from the first place where the hand still holds it. A
/// card that the hand no longer holds is passed over.
pub open spec fn without(hand: Seq<Card>, cards: Seq<Card>) -> Seq<Card>
    decreases cards.len(),
{
    if cards.len() == 0 {
        hand
    } else {
        without(hand, cards.drop_last()).remove_value(cards.last())
    }
}

/// Takes the first copy of `card` out of `hand`, if there is one.
pub fn remove_card(hand: &mut Vec<Card>, card: &Card)
    ensures
        final(hand)@ == old(hand)@.remove_value(*card),
{
    let mut j: usize = 0;
    while j < hand.len()
        invariant
            j <= hand.len(),
            forall|k: int| 0 <= k < j ==> hand@[k] != *card,
            hand@ == old(hand)@,
        decreases hand.len() - j,
    {
        if hand[j] == *card {
            proof {
                hand@.index_of_first_ensures(*card);
                assert(hand@.contains(*card));
                assert(hand@.index_of_first(*card) == Some(j as int));
            }
            hand.remove(j);
            return ;
        }
        j += 1;
    }
    proof {
        hand@.index_of_first_ensures(*card);
    }
}

/// A copy of `hand` without the cards of `cards`.
pub fn remove_cards(hand: &Vec<Card>, cards: &Vec<Card>) -> (rest: Vec<Card>)
    ensures
        rest@ == without(hand@, cards@),
{
    let mut rest = hand.clone();
    let mut k: usize = 0;
    while k < cards.len()
        invariant
            k <= cards.len(),
            rest@ == without(hand@, cards@.take(k as int)),
        decreases cards.len() - k,
    {
        remove_card(&mut rest, &cards[k]);
        assert(cards@.take(k as int + 1).drop_last() =~= cards@.take(k as int));
        k += 1;
    }
    assert(cards@.take(k as int) =~= cards@);
    rest
}

} // verus!
