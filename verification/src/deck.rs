//! Decks, and hands dealt from them at random.

use rand::Rng;
use vstd::prelude::*;
use vstd::multiset::Multiset;
use vstd::seq_lib::*;
use crate::card::Card;
use crate::hand::drawn_from;

verus! {

/// The number of cards in one deck: twelve ranks in each of four suits, and
/// two jokers.
pub const DECK_SIZE: usize = 50;

/// The card at position `j` of a deck: hearts, diamonds, spades and clubs in
/// that order, each from rank 0 to rank 11, then the two jokers. The highest
/// rank, 12, is in no deck.
pub open spec fn deck_card(j: int) -> Card {
    if j < 12 {
        Card::Heart(j as u8)
    } else if j < 24 {
        Card::Diamond((j - 12) as u8)
    } else if j < 36 {
        Card::Spade((j - 24) as u8)
    } else if j < 48 {
        Card::Club((j - 36) as u8)
    } else {
        Card::Joker
    }
}

/// `num_decks` decks, one after the other.
pub open spec fn deck(num_decks: nat) -> Seq<Card> {
    Seq::new(50 * num_decks, |i: int| deck_card(i % 50))
}

/// Whether `cards` is the beginning of a pile of decks.
pub open spec fn begins_decks(cards: Seq<Card>) -> bool {
    forall|i: int| 0 <= i < cards.len() ==> #[trigger] cards[i] == deck_card(i % 50)
}

/// The letter of the suit that comes `k`-th in a deck.
fn suit_in_deck(k: usize) -> (suit: char)
    requires
        k < 4,
    ensures
        Card::is_suit_code(suit),
        forall|n: u8| n < 12 ==> Card::of_code(n, suit) == deck_card(12 * k + n),
{
    if k == 0 {
        'H'
    } else if k == 1 {
        'D'
    } else if k == 2 {
        'S'
    } else {
        'C'
    }
}

/// The outside type `rand::rngs::ThreadRng`, the handle to the random
/// number generator of the running thread. Nothing is known of what it holds.
#[verifier::external_type_specification]
#[verifier::external_body]
pub struct ExThreadRng(rand::rngs::ThreadRng);

/// `rand::thread_rng` hands out the random number generator of the running
/// thread. Nothing is claimed of it.
pub assume_specification[ rand::thread_rng ]() -> (rng: rand::rngs::ThreadRng)
;

/// Draws a position below `len` at random, with `Rng::gen_range` of the
/// crate `rand` on the range from zero up to `len`. The call panics on an
/// empty range, so `len` must not be zero. What is claimed: the result lies
/// in the range. Which position comes is left open.
#[verifier::external_body]
fn random_index(rng: &mut rand::rngs::ThreadRng, len: usize) -> (index: usize)
    requires
        len > 0,
    ensures
        index < len,
{
    rng.gen_range(0..len)
}

/// Moves the card at position `index` of `deck` to the end of `hand`.
pub fn deal_card(deck: &mut Vec<Card>, hand: &mut Vec<Card>, index: usize)
    requires
        index < old(deck).len(),
    ensures
        final(deck)@ == old(deck)@.remove(index as int),
        final(hand)@ == old(hand)@.push(old(deck)@[index as int]),
{
    let card = deck.remove(index);
    hand.push(card);
}

/// The cards of a pile of decks are well formed.
pub proof fn lemma_deck_is_well_formed(num_decks: nat, i: int)
    requires
        0 <= i < deck(num_decks).len(),
    ensures
        deck(num_decks)[i].is_well_formed(),
{
}

impl Card {
    /// Builds `num_decks` decks, one after the other.
    pub fn get_deck(num_decks: usize) -> (cards: Vec<Self>)
        ensures
            cards@ == deck(num_decks as nat),
            cards.len() == 50 * num_decks,
    {
        let mut cards: Vec<Card> = Vec::new();
        let mut d: usize = 0;
        while d < num_decks
            invariant
                d <= num_decks,
                cards.len() == 50 * d,
                begins_decks(cards@),
            decreases num_decks - d,
        {
            let mut k: usize = 0;
            while k < 4
                invariant
                    k <= 4,
                    cards.len() == 50 * d + 12 * k,
                    begins_decks(cards@),
                decreases 4 - k,
            {
                let suit = suit_in_deck(k);
                let mut num: u8 = 0;
                while num < 12
                    invariant
                        k < 4,
                        num <= 12,
                        Card::is_suit_code(suit),
                        forall|n: u8| n < 12 ==> Card::of_code(n, suit) == deck_card(12 * k + n),
                        cards.len() == 50 * d + 12 * k + num,
                        begins_decks(cards@),
                    decreases 12 - num,
                {
                    cards.push(Self::from(num, suit));
                    num += 1;
                }
                k += 1;
            }
            cards.push(Self::joker());
            cards.push(Self::joker());
            d += 1;
        }
        assert(cards@ =~= deck(num_decks as nat));
        cards
    }

    /// Deals `num_cards` cards at random from `num_decks` decks: each card
    /// dealt is taken out of the pile before the next is drawn.
    pub fn get_rand_hand(num_cards: usize, num_decks: usize) -> (hand: Vec<Self>)
        requires
            num_cards <= 50 * num_decks,
        ensures
            hand.len() == num_cards,
            drawn_from(hand@, deck(num_decks as nat)),
            forall|i: int| 0 <= i < hand.len() ==> (#[trigger] hand@[i]).is_well_formed(),
    {
        let mut pile = Self::get_deck(num_decks);
        let mut hand: Vec<Card> = Vec::new();
        let mut rng = rand::thread_rng();
        let ghost whole = pile@.to_multiset();
        proof {
            broadcast use group_to_multiset_ensures;

            assert(hand@.to_multiset() =~= Multiset::<Card>::empty()) by {
                assert forall|c: Card| hand@.to_multiset().count(c) == 0 by {
                    assert(!hand@.contains(c));
                }
            }
            assert(hand@.to_multiset().add(pile@.to_multiset()) =~= whole);
        }
        let mut dealt: usize = 0;
        while dealt < num_cards
            invariant
                dealt <= num_cards <= 50 * num_decks,
                hand.len() == dealt,
                pile.len() == 50 * num_decks - dealt,
                hand@.to_multiset().add(pile@.to_multiset()) == whole,
                whole == deck(num_decks as nat).to_multiset(),
            decreases num_cards - dealt,
        {
            let index = random_index(&mut rng, pile.len());
            let ghost hand_before = hand@;
            let ghost pile_before = pile@;
            deal_card(&mut pile, &mut hand, index);
            proof {
                broadcast use group_to_multiset_ensures;

                assert(pile_before.to_multiset().count(pile_before[index as int]) > 0);
                assert(hand@.to_multiset().add(pile@.to_multiset()) =~= whole);
            }
            dealt += 1;
        }
        proof {
            broadcast use group_to_multiset_ensures;

            let all = deck(num_decks as nat);
            assert forall|c: Card| hand@.to_multiset().count(c) <= whole.count(c) by {
                assert(whole.count(c) == hand@.to_multiset().count(c) + pile@.to_multiset().count(
                    c,
                ));
            }
            assert forall|i: int| 0 <= i < hand.len() implies (#[trigger] hand@[i])
                .is_well_formed() by {
                assert(hand@.contains(hand@[i]));
                assert(hand@.to_multiset().count(hand@[i]) > 0);
                assert(all.to_multiset().count(hand@[i]) > 0);
                assert(all.contains(hand@[i]));
                let j = choose|j: int| 0 <= j < all.len() && all[j] == hand@[i];
                lemma_deck_is_well_formed(num_decks as nat, j);
            }
        }
        hand
    }
}

} // verus!
