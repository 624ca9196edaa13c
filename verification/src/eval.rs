//! Scoring a hand against a requirement of foursies and threesies.

use vstd::prelude::*;
use vstd::seq_lib::*;
use crate::card::Card;
use crate::joker_laws::{
    count_plain, jokers_needed, lemma_count_push, lemma_enough_jokers_make_a_laydown,
    lemma_jokers_cannot_open_runs, with_jokers,
};
use crate::laydown::{get_all_laydown_possibilities, laydowns, laydowns_view};
use crate::laydown_laws::lemma_laydown_cards_come_from_hand;
use crate::runs::runs_view;

verus! {

/// How a hand stands against a requirement of foursies and threesies.
#[derive(Clone, Copy, Debug, PartialEq, Eq, Structural)]
pub enum HandScore {
    /// The hand has fewer cards than runs are asked for.
    TooSmall,
    /// The hand has fewer cards that are no jokers than runs are asked for:
    /// no number of jokers gives it a laydown.
    Hopeless,
    /// The hand has a laydown once `jokers_added` jokers are added to it, and
    /// none with fewer. With them it has `num_laydowns` laydowns; the first
    /// of those with the most cards has `max_value` cards, which count for
    /// `max_cost`.
    Scored { jokers_added: usize, max_value: usize, num_laydowns: usize, max_cost: u128 },
}

impl HandScore {
    /// The score of the hand with its added jokers, in fiftieths of a point:
    /// ten points for each card of the best laydown, a fifth of a point for
    /// each laydown, a fiftieth for each point that the best laydown's cards
    /// count for. Each added joker divides the hand's score by ten.
    pub open spec fn spec_fiftieths(self) -> nat {
        match self {
            HandScore::Scored { max_value, num_laydowns, max_cost, .. } => (500 * max_value + 10
                * num_laydowns + max_cost) as nat,
            _ => 0,
        }
    }

    /// The score of the hand with its added jokers, in fiftieths of a point;
    /// `None` where the hand has no score or the number does not fit.
    pub fn fiftieths(&self) -> (points: Option<u128>)
        ensures
            match points {
                Some(p) => *self is Scored && p == self.spec_fiftieths(),
                None => !(*self is Scored) || self.spec_fiftieths() > u128::MAX,
            },
    {
        match self {
            HandScore::Scored { max_value, num_laydowns, max_cost, .. } => {
                let cards: u128 = 500 * (*max_value as u128) + 10 * (*num_laydowns as u128);
                cards.checked_add(*max_cost)
            },
            _ => None,
        }
    }
}

/// Whether `score` is how `hand` stands against the requirement.
pub open spec fn is_score_of(
    score: HandScore,
    hand: Seq<Card>,
    num_foursies: nat,
    num_threesies: nat,
) -> bool {
    match score {
        HandScore::TooSmall => hand.len() < num_foursies + num_threesies,
        HandScore::Hopeless => hand.len() >= num_foursies + num_threesies && count_plain(hand)
            < num_foursies + num_threesies,
        HandScore::Scored { jokers_added, max_value, num_laydowns, max_cost } => {
            let found = laydowns(
                num_foursies,
                num_threesies,
                with_jokers(hand, jokers_added as nat),
            );
            &&& hand.len() >= num_foursies + num_threesies
            &&& count_plain(hand) >= num_foursies + num_threesies
            &&& jokers_added <= jokers_needed(num_foursies, num_threesies)
            &&& forall|fewer: nat|
                fewer < jokers_added ==> (#[trigger] laydowns(
                    num_foursies,
                    num_threesies,
                    with_jokers(hand, fewer),
                )).len() == 0
            &&& num_laydowns == found.len()
            &&& num_laydowns > 0
            &&& exists|i: int|
                #[trigger] is_best_at(found, i) && max_value == laydown_size(found[i]) && max_cost
                    == laydown_cost(found[i])
        },
    }
}

/// What the cards of `cards` count for together.
pub open spec fn cards_value(cards: Seq<Card>) -> nat
    decreases cards.len(),
{
    if cards.len() == 0 {
        0
    } else {
        cards_value(cards.drop_last()) + cards.last().face_value()
    }
}

/// The number of cards in all runs of `laydown`.
pub open spec fn laydown_size(laydown: Seq<Seq<Card>>) -> nat {
    laydown.flatten().len()
}

/// What the cards in all runs of `laydown` count for together.
pub open spec fn laydown_cost(laydown: Seq<Seq<Card>>) -> nat {
    cards_value(laydown.flatten())
}

/// Whether the laydown at position `i` is the best of `found`: none has more
/// cards, and every laydown before it has fewer.
pub open spec fn is_best_at(found: Seq<Seq<Seq<Card>>>, i: int) -> bool {
    &&& 0 <= i < found.len()
    &&& forall|j: int|
        0 <= j < found.len() ==> laydown_size(#[trigger] found[j]) <= laydown_size(found[i])
    &&& forall|j: int| 0 <= j < i ==> laydown_size(#[trigger] found[j]) < laydown_size(found[i])
}

/// No card counts for more than 256, whatever rank it carries.
pub proof fn lemma_cards_value_bound(cards: Seq<Card>)
    ensures
        cards_value(cards) <= 256 * cards.len(),
    decreases cards.len(),
{
    if cards.len() > 0 {
        lemma_cards_value_bound(cards.drop_last());
    }
}

/// The first runs of a laydown hold the first of its cards.
proof fn lemma_flatten_take(laydown: Seq<Seq<Card>>, j: int)
    requires
        0 <= j < laydown.len(),
    ensures
        laydown.take(j + 1).flatten() == laydown.take(j).flatten() + laydown[j],
        laydown.take(j + 1).flatten().len() <= laydown.flatten().len(),
{
    assert(laydown.take(j + 1) =~= laydown.take(j).push(laydown[j]));
    laydown.take(j).lemma_flatten_push(laydown[j]);
    assert(laydown =~= laydown.take(j + 1) + laydown.skip(j + 1));
    lemma_flatten_concat(laydown.take(j + 1), laydown.skip(j + 1));
}

/// Counts the cards of a laydown and adds up what they count for.
pub fn laydown_totals(laydown: &Vec<Vec<Card>>) -> (totals: (usize, u128))
    requires
        laydown_size(runs_view(*laydown)) <= usize::MAX,
    ensures
        totals.0 == laydown_size(runs_view(*laydown)),
        totals.1 == laydown_cost(runs_view(*laydown)),
{
    let ghost runs = runs_view(*laydown);
    let mut value: usize = 0;
    let mut cost: u128 = 0;
    let mut j: usize = 0;
    while j < laydown.len()
        invariant
            j <= laydown.len(),
            runs == runs_view(*laydown),
            runs.flatten().len() <= usize::MAX,
            value == runs.take(j as int).flatten().len(),
            cost == cards_value(runs.take(j as int).flatten()),
        decreases laydown.len() - j,
    {
        let run = &laydown[j];
        let ghost before = runs.take(j as int).flatten();
        proof {
            lemma_flatten_take(runs, j as int);
            assert(runs[j as int] == run@);
        }
        let mut k: usize = 0;
        while k < run.len()
            invariant
                k <= run.len(),
                before.len() + run.len() <= usize::MAX,
                value == before.len() + k,
                cost == cards_value(before + run@.take(k as int)),
            decreases run.len() - k,
        {
            proof {
                assert(run@.take(k as int + 1) =~= run@.take(k as int).push(run@[k as int]));
                assert(before + run@.take(k as int + 1) =~= (before + run@.take(k as int)).push(
                    run@[k as int],
                ));
                assert((before + run@.take(k as int)).push(run@[k as int]).drop_last() =~= before
                    + run@.take(k as int));
                lemma_cards_value_bound(before + run@.take(k as int));
            }
            value += 1;
            cost += run[k].value() as u128;
            k += 1;
        }
        proof {
            assert(run@.take(k as int) =~= run@);
        }
        j += 1;
    }
    proof {
        assert(runs.take(j as int) =~= runs);
    }
    (value, cost)
}

/// Finds the first of the laydowns with the most cards, and tells how many
/// cards it has and what they count for; two zeros where there is no laydown.
pub fn best_laydown(found: &Vec<Vec<Vec<Card>>>) -> (best: (usize, u128))
    requires
        forall|i: int|
            0 <= i < found.len() ==> laydown_size(#[trigger] laydowns_view(*found)[i])
                <= usize::MAX,
    ensures
        found.len() == 0 ==> best == (0usize, 0u128),
        found.len() > 0 ==> exists|i: int|
            #[trigger] is_best_at(laydowns_view(*found), i) && best.0 == laydown_size(
                laydowns_view(*found)[i],
            ) && best.1 == laydown_cost(laydowns_view(*found)[i]),
{
    let ghost all = laydowns_view(*found);
    let ghost mut at: int = 0;
    let mut max_value: usize = 0;
    let mut max_cost: u128 = 0;
    let mut i: usize = 0;
    while i < found.len()
        invariant
            i <= found.len(),
            all == laydowns_view(*found),
            forall|j: int| 0 <= j < found.len() ==> laydown_size(#[trigger] all[j]) <= usize::MAX,
            i == 0 ==> max_value == 0 && max_cost == 0,
            i > 0 ==> is_best_at(all.take(i as int), at) && max_value == laydown_size(all[at])
                && max_cost == laydown_cost(all[at]),
        decreases found.len() - i,
    {
        assert(all[i as int] == runs_view(found@[i as int]));
        let (value, cost) = laydown_totals(&found[i]);
        let ghost longer = all.take(i as int + 1);
        proof {
            assert forall|j: int| 0 <= j < i implies longer[j] == all.take(i as int)[j] by {}
            assert(longer[i as int] == all[i as int]);
        }
        if value > max_value {
            max_value = value;
            max_cost = cost;
            proof {
                at = i as int;
                assert forall|j: int| 0 <= j < longer.len() implies laydown_size(
                    #[trigger] longer[j],
                ) <= laydown_size(longer[at]) by {
                    if j < i {
                        assert(laydown_size(all.take(i as int)[j]) <= max_value);
                    }
                }
                assert forall|j: int| 0 <= j < at implies laydown_size(#[trigger] longer[j])
                    < laydown_size(longer[at]) by {
                    assert(laydown_size(all.take(i as int)[j]) < value);
                }
            }
        } else {
            proof {
                if i == 0 {
                    at = 0;
                    assert(all[0].flatten().len() == 0);
                }
                assert forall|j: int| 0 <= j < longer.len() implies laydown_size(
                    #[trigger] longer[j],
                ) <= laydown_size(longer[at]) by {
                    if j < i {
                        assert(laydown_size(all.take(i as int)[j]) <= max_value);
                    }
                }
                assert forall|j: int| 0 <= j < at implies laydown_size(#[trigger] longer[j])
                    < laydown_size(longer[at]) by {
                    assert(laydown_size(all.take(i as int)[j]) < max_value);
                }
            }
        }
        i += 1;
    }
    proof {
        assert(all.take(i as int) =~= all);
    }
    (max_value, max_cost)
}

/// Counts the cards of `hand` that are no jokers.
pub fn count_plain_cards(hand: &Vec<Card>) -> (n: usize)
    ensures
        n == count_plain(hand@),
{
    let mut n: usize = 0;
    let mut i: usize = 0;
    proof {
        assert(hand@.take(0) =~= crate::joker_laws::jokers(0));
        crate::joker_laws::lemma_count_of_jokers(0);
    }
    while i < hand.len()
        invariant
            i <= hand.len(),
            n <= i,
            n == count_plain(hand@.take(i as int)),
        decreases hand.len() - i,
    {
        proof {
            assert(hand@.take(i as int + 1) =~= hand@.take(i as int).push(hand@[i as int]));
            lemma_count_push(hand@.take(i as int), hand@[i as int]);
        }
        if !hand[i].is_joker() {
            n += 1;
        }
        i += 1;
    }
    proof {
        assert(hand@.take(i as int) =~= hand@);
    }
    n
}

/// Scores `hand` against a requirement of `num_foursies` foursies and
/// `num_threesies` threesies. A hand without a laydown gets jokers, one
/// after the other, until it has one.
pub fn hand_eval(hand: &Vec<Card>, num_foursies: usize, num_threesies: usize) -> (score:
    HandScore)
    ensures
        is_score_of(score, hand@, num_foursies as nat, num_threesies as nat),
        score is TooSmall <==> hand.len() < num_foursies + num_threesies,
        score is Hopeless ==> forall|added: nat|
            (#[trigger] laydowns(
                num_foursies as nat,
                num_threesies as nat,
                with_jokers(hand@, added),
            )).len() == 0,
{
    if hand.len() < num_foursies || hand.len() - num_foursies < num_threesies {
        return HandScore::TooSmall;
    }
    if count_plain_cards(hand) < num_foursies + num_threesies {
        proof {
            assert forall|added: nat|
                (#[trigger] laydowns(
                    num_foursies as nat,
                    num_threesies as nat,
                    with_jokers(hand@, added),
                )).len() == 0 by {
                lemma_jokers_cannot_open_runs(
                    num_foursies as nat,
                    num_threesies as nat,
                    hand@,
                    added,
                );
            }
        }
        return HandScore::Hopeless;
    }
    let mut new_hand = hand.clone();
    let ghost mut added: nat = 0;
    proof {
        assert(new_hand@ =~= with_jokers(hand@, 0));
    }
    loop
        invariant
            hand.len() >= num_foursies + num_threesies,
            count_plain(hand@) >= num_foursies + num_threesies,
            new_hand@ == with_jokers(hand@, added),
            added <= jokers_needed(num_foursies as nat, num_threesies as nat),
            forall|fewer: nat|
                fewer < added ==> (#[trigger] laydowns(
                    num_foursies as nat,
                    num_threesies as nat,
                    with_jokers(hand@, fewer),
                )).len() == 0,
        decreases jokers_needed(num_foursies as nat, num_threesies as nat) - added,
    {
        let found = get_all_laydown_possibilities(num_foursies, num_threesies, &new_hand);
        if found.len() > 0 {
            proof {
                let all = laydowns_view(found);
                assert forall|i: int| 0 <= i < found.len() implies laydown_size(#[trigger] all[i])
                    <= usize::MAX by {
                    assert(all.contains(all[i]));
                    lemma_laydown_cards_come_from_hand(
                        num_foursies as nat,
                        num_threesies as nat,
                        new_hand@,
                        all[i],
                    );
                    assert(new_hand@.len() == new_hand.len());
                }
            }
            let (max_value, max_cost) = best_laydown(&found);
            return HandScore::Scored {
                jokers_added: new_hand.len() - hand.len(),
                max_value,
                num_laydowns: found.len(),
                max_cost,
            };
        }
        proof {
            lemma_enough_jokers_make_a_laydown(num_foursies as nat, num_threesies as nat, hand@);
        }
        new_hand.push(Card::Joker);
        proof {
            assert(new_hand@ =~= with_jokers(hand@, added + 1));
            added = added + 1;
        }
    }
}

} // verus!
