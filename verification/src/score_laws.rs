//! What the score of a hand obeys: a hand has one score only, and a hand
//! that still lacks jokers has the score of the hand with one joker more,
//! but for the count of jokers added.

use vstd::prelude::*;
use crate::card::Card;
use crate::eval::{is_best_at, is_score_of, laydown_cost, laydown_size, HandScore};
use crate::joker_laws::{lemma_count_push, with_jokers};
use crate::laydown::laydowns;

verus! {

/// Only one laydown of a list is its best.
pub proof fn lemma_best_is_unique(found: Seq<Seq<Seq<Card>>>, i: int, j: int)
    requires
        is_best_at(found, i),
        is_best_at(found, j),
    ensures
        i == j,
{
    let size_i = laydown_size(found[i]);
    let size_j = laydown_size(found[j]);
    if i < j {
        assert(size_i < size_j);
        assert(size_j <= size_i);
    }
    if j < i {
        assert(size_j < size_i);
        assert(size_i <= size_j);
    }
}

/// A hand has one score only against a requirement.
pub proof fn lemma_score_is_unique(
    first: HandScore,
    second: HandScore,
    hand: Seq<Card>,
    num_foursies: nat,
    num_threesies: nat,
)
    requires
        is_score_of(first, hand, num_foursies, num_threesies),
        is_score_of(second, hand, num_foursies, num_threesies),
    ensures
        first == second,
{
    if let HandScore::Scored { jokers_added: a, max_value: va, max_cost: ca, .. } = first {
        if let HandScore::Scored { jokers_added: b, max_value: vb, max_cost: cb, .. } = second {
            if a < b {
                assert(laydowns(num_foursies, num_threesies, with_jokers(hand, a as nat)).len()
                    == 0);
            }
            if b < a {
                assert(laydowns(num_foursies, num_threesies, with_jokers(hand, b as nat)).len()
                    == 0);
            }
            let found = laydowns(num_foursies, num_threesies, with_jokers(hand, a as nat));
            let i = choose|i: int|
                #[trigger] is_best_at(found, i) && va == laydown_size(found[i]) && ca
                    == laydown_cost(found[i]);
            let j = choose|j: int|
                #[trigger] is_best_at(found, j) && vb == laydown_size(found[j]) && cb
                    == laydown_cost(found[j]);
            lemma_best_is_unique(found, i, j);
        }
    }
}

/// A hand that has a laydown only with jokers added has, with one joker more
/// in it, the same score but for one joker less to add: each joker that is
/// still missing divides the hand's points by ten.
pub proof fn lemma_score_with_a_joker_more(
    score: HandScore,
    hand: Seq<Card>,
    num_foursies: nat,
    num_threesies: nat,
)
    requires
        is_score_of(score, hand, num_foursies, num_threesies),
        score matches HandScore::Scored { jokers_added, .. } && jokers_added > 0,
    ensures
        score matches HandScore::Scored { jokers_added, max_value, num_laydowns, max_cost }
            && is_score_of(
            HandScore::Scored {
                jokers_added: (jokers_added - 1) as usize,
                max_value,
                num_laydowns,
                max_cost,
            },
            hand.push(Card::Joker),
            num_foursies,
            num_threesies,
        ),
{
    let more = hand.push(Card::Joker);
    lemma_count_push(hand, Card::Joker);
    assert forall|n: nat| #[trigger] with_jokers(more, n) == with_jokers(hand, n + 1) by {
        assert(with_jokers(more, n) =~= with_jokers(hand, n + 1));
    }
    if let HandScore::Scored { jokers_added, max_value, num_laydowns, max_cost } = score {
        let fewer_added = (jokers_added - 1) as usize;
        assert(with_jokers(more, fewer_added as nat) == with_jokers(hand, jokers_added as nat));
        assert forall|fewer: nat| fewer < fewer_added implies (#[trigger] laydowns(
            num_foursies,
            num_threesies,
            with_jokers(more, fewer),
        )).len() == 0 by {
            assert(with_jokers(more, fewer) == with_jokers(hand, fewer + 1));
            assert(laydowns(num_foursies, num_threesies, with_jokers(hand, fewer + 1)).len()
                == 0);
        }
    }
}

} // verus!
