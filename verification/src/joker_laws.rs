//! How far jokers can help a hand: a run opens with a card that is no joker,
//! so a hand needs as many such cards as runs are asked for; where it has
//! them, enough jokers complete every run.

use vstd::prelude::*;
use vstd::multiset::Multiset;
use vstd::seq_lib::*;
use crate::card::Card;
use crate::hand::{drawn_from, without};
use crate::laydown::{is_laydown_from, is_meld_at, laydowns};
use crate::laydown_laws::{
    foursies_after, is_candidate, lemma_laydown_unfolds, lemma_laydowns_are_exact,
    lemma_without_cards, rank_bound_after, suit_bound_after, threesies_after,
};
use crate::runs::{follows_at, is_run, RunConstraints, RunKind};

verus! {

/// `n` jokers.
pub open spec fn jokers(n: nat) -> Seq<Card> {
    Seq::new(n, |i: int| Card::Joker)
}

/// The hand with `n` jokers added at its end.
pub open spec fn with_jokers(hand: Seq<Card>, n: nat) -> Seq<Card> {
    hand + jokers(n)
}

/// The number of jokers among `cards`.
pub open spec fn count_jokers(cards: Seq<Card>) -> nat {
    cards.to_multiset().count(Card::Joker)
}

/// The number of cards among `cards` that are no jokers.
pub open spec fn count_plain(cards: Seq<Card>) -> nat {
    (cards.len() - count_jokers(cards)) as nat
}

/// The jokers among cards are no more than the cards.
pub proof fn lemma_count_jokers_bound(cards: Seq<Card>)
    ensures
        count_jokers(cards) <= cards.len(),
{
    broadcast use group_to_multiset_ensures;

    assert(cards.to_multiset().count(Card::Joker) <= cards.to_multiset().len());
}

/// One card more is one joker more or one plain card more.
pub proof fn lemma_count_push(cards: Seq<Card>, card: Card)
    ensures
        count_jokers(cards.push(card)) == count_jokers(cards) + if card == Card::Joker {
            1nat
        } else {
            0nat
        },
        count_plain(cards.push(card)) == count_plain(cards) + if card == Card::Joker {
            0nat
        } else {
            1nat
        },
{
    broadcast use group_to_multiset_ensures;

    lemma_count_jokers_bound(cards);
}

/// Two lots of cards side by side hold the jokers and the plain cards of both.
pub proof fn lemma_count_adds(first: Seq<Card>, rest: Seq<Card>)
    ensures
        count_jokers(first + rest) == count_jokers(first) + count_jokers(rest),
        count_plain(first + rest) == count_plain(first) + count_plain(rest),
{
    lemma_multiset_commutative(first, rest);
    lemma_count_jokers_bound(first);
    lemma_count_jokers_bound(rest);
}

/// `n` jokers are `n` jokers and no plain card.
pub proof fn lemma_count_of_jokers(n: nat)
    ensures
        count_jokers(jokers(n)) == n,
        count_plain(jokers(n)) == 0,
    decreases n,
{
    broadcast use group_to_multiset_ensures;

    if n == 0 {
        assert(!jokers(0).contains(Card::Joker));
    } else {
        lemma_count_of_jokers((n - 1) as nat);
        assert(jokers(n) =~= jokers((n - 1) as nat).push(Card::Joker));
        lemma_count_push(jokers((n - 1) as nat), Card::Joker);
    }
}

/// Cards that are drawn from a hand hold no more plain cards than the hand.
pub proof fn lemma_count_plain_grows(cards: Seq<Card>, hand: Seq<Card>)
    requires
        drawn_from(cards, hand),
    ensures
        count_plain(cards) <= count_plain(hand),
{
    broadcast use group_to_multiset_ensures;

    let taken = cards.to_multiset();
    let whole = hand.to_multiset();
    let left = whole.sub(taken);
    assert(whole =~= taken.add(left));
    assert(taken.add(left).len() == taken.len() + left.len());
    assert(left.count(Card::Joker) <= left.len());
    lemma_count_jokers_bound(cards);
    lemma_count_jokers_bound(hand);
}

/// Runs that each open with a plain card hold at least as many plain cards
/// as there are runs.
proof fn lemma_plain_cards_in_runs(runs: Seq<Seq<Card>>)
    requires
        forall|k: int| 0 <= k < runs.len() ==> (#[trigger] runs[k]).len() >= 1 && runs[k][0]
            != Card::Joker,
    ensures
        count_plain(runs.flatten()) >= runs.len(),
    decreases runs.len(),
{
    if runs.len() > 0 {
        let rest = runs.drop_first();
        assert forall|k: int| 0 <= k < rest.len() implies (#[trigger] rest[k]).len() >= 1
            && rest[k][0] != Card::Joker by {
            assert(rest[k] == runs[k + 1]);
        }
        lemma_plain_cards_in_runs(rest);
        lemma_count_adds(runs[0], rest.flatten());
        let run = runs[0];
        assert(run =~= seq![run[0]] + run.drop_first());
        lemma_count_adds(seq![run[0]], run.drop_first());
        assert(seq![run[0]] =~= Seq::<Card>::empty().push(run[0]));
        lemma_count_push(Seq::<Card>::empty(), run[0]);
    }
}

/// A hand with a laydown holds at least as many plain cards as runs are
/// asked for.
pub proof fn lemma_laydown_needs_plain_cards(
    num_foursies: nat,
    num_threesies: nat,
    hand: Seq<Card>,
    laydown: Seq<Seq<Card>>,
)
    requires
        laydowns(num_foursies, num_threesies, hand).contains(laydown),
    ensures
        count_plain(hand) >= num_foursies + num_threesies,
{
    lemma_laydowns_are_exact(num_foursies, num_threesies, hand, laydown);
    assert forall|k: int| 0 <= k < laydown.len() implies (#[trigger] laydown[k]).len() >= 1
        && laydown[k][0] != Card::Joker by {
        assert(is_meld_at(laydown, num_foursies, 0, 0, k));
    }
    lemma_plain_cards_in_runs(laydown);
    lemma_count_plain_grows(laydown.flatten(), hand);
}

/// A hand with fewer plain cards than runs are asked for has no laydown,
/// however many jokers are added to it.
pub proof fn lemma_jokers_cannot_open_runs(
    num_foursies: nat,
    num_threesies: nat,
    hand: Seq<Card>,
    added: nat,
)
    requires
        count_plain(hand) < num_foursies + num_threesies,
    ensures
        laydowns(num_foursies, num_threesies, with_jokers(hand, added)).len() == 0,
{
    let found = laydowns(num_foursies, num_threesies, with_jokers(hand, added));
    if found.len() > 0 {
        assert(found.contains(found[0]));
        lemma_laydown_needs_plain_cards(
            num_foursies,
            num_threesies,
            with_jokers(hand, added),
            found[0],
        );
        lemma_count_adds(hand, jokers(added));
        lemma_count_of_jokers(added);
    }
}

/// The number by which the first card of the next run is bounded: its suit
/// number while foursies are asked for, else its rank.
pub open spec fn opening_key(num_foursies: nat, card: Card) -> u8 {
    if num_foursies > 0 {
        card.suit_rank()
    } else {
        card.face_rank()
    }
}

/// The position among the first `n` of `hand` of the plain card with the
/// least opening key, the first of them where several share it; `-1` where
/// the first `n` cards are all jokers.
pub open spec fn least_plain(num_foursies: nat, hand: Seq<Card>, n: int) -> int
    decreases n,
{
    if n <= 0 {
        -1
    } else {
        let earlier = least_plain(num_foursies, hand, n - 1);
        if hand[n - 1] != Card::Joker && (earlier < 0 || opening_key(num_foursies, hand[n - 1])
            < opening_key(num_foursies, hand[earlier])) {
            n - 1
        } else {
            earlier
        }
    }
}

/// `least_plain` finds a plain card that none of the first `n` undercuts, or
/// else those are all jokers.
proof fn lemma_least_plain(num_foursies: nat, hand: Seq<Card>, n: int)
    requires
        0 <= n <= hand.len(),
    ensures
        -1 <= least_plain(num_foursies, hand, n) < n,
        least_plain(num_foursies, hand, n) >= 0 ==> hand[least_plain(num_foursies, hand, n)]
            != Card::Joker,
        forall|j: int|
            0 <= j < n && #[trigger] hand[j] != Card::Joker ==> least_plain(
                num_foursies,
                hand,
                n,
            ) >= 0 && opening_key(num_foursies, hand[least_plain(num_foursies, hand, n)])
                <= opening_key(num_foursies, hand[j]),
        least_plain(num_foursies, hand, n) < 0 ==> count_plain(hand.take(n)) == 0,
    decreases n,
{
    if n > 0 {
        lemma_least_plain(num_foursies, hand, n - 1);
        assert(hand.take(n) =~= hand.take(n - 1).push(hand[n - 1]));
        lemma_count_push(hand.take(n - 1), hand[n - 1]);
    } else {
        assert(hand.take(0) =~= jokers(0));
        lemma_count_of_jokers(0);
    }
}

/// What taking a run of one plain card and some jokers out of a hand leaves.
proof fn lemma_without_opening_run(hand: Seq<Card>, run: Seq<Card>, n: nat)
    requires
        run == seq![run[0]] + jokers(n),
        run[0] != Card::Joker,
        hand.contains(run[0]),
        count_jokers(hand) >= n,
    ensures
        drawn_from(run, hand),
        count_jokers(without(hand, run)) == count_jokers(hand) - n,
        count_plain(without(hand, run)) == count_plain(hand) - 1,
        forall|c: Card| #[trigger] without(hand, run).contains(c) ==> hand.contains(c),
{
    broadcast use group_to_multiset_ensures;

    let taken = run.to_multiset();
    let whole = hand.to_multiset();
    lemma_multiset_commutative(seq![run[0]], jokers(n));
    lemma_count_of_jokers(n);
    assert(seq![run[0]] =~= Seq::<Card>::empty().push(run[0]));
    assert(seq![run[0]].to_multiset() =~= Multiset::<Card>::empty().insert(run[0]));
    assert forall|c: Card| taken.count(c) <= whole.count(c) by {
        if c != Card::Joker {
            assert(!jokers(n).contains(c));
        }
    }
    lemma_without_cards(hand, run);
    let left = without(hand, run);
    assert(left.to_multiset() == whole.sub(taken));
    assert(whole.sub(taken).len() == whole.len() - taken.len());
    assert(run.len() == n + 1);
    lemma_count_jokers_bound(hand);
    lemma_count_jokers_bound(left);
    assert forall|c: Card| #[trigger] left.contains(c) implies hand.contains(c) by {
        assert(left.to_multiset().count(c) > 0);
        assert(whole.count(c) > 0);
    }
}

/// A plain card followed by jokers is a run of either kind, so long as the
/// card may open one.
proof fn lemma_opening_run_is_run(rules: RunConstraints, card: Card, n: nat)
    requires
        rules.may_start(card),
    ensures
        is_run(rules, seq![card] + jokers(n)),
{
    let run = seq![card] + jokers(n);
    assert forall|k: int| 1 <= k < run.len() implies #[trigger] follows_at(rules, run, k) by {
        assert(run[k] == Card::Joker);
    }
}

/// A hand with at least as many plain cards as runs are asked for, none of
/// them below the bounds, and with three jokers for each foursy and two for
/// each threesy, has a laydown: each run is one plain card and jokers.
proof fn lemma_enough_jokers(
    num_foursies: nat,
    num_threesies: nat,
    hand: Seq<Card>,
    min_suit_num: u8,
    min_num: u8,
) -> (laydown: Seq<Seq<Card>>)
    requires
        count_plain(hand) >= num_foursies + num_threesies,
        count_jokers(hand) >= 3 * num_foursies + 2 * num_threesies,
        forall|c: Card|
            #[trigger] hand.contains(c) && c != Card::Joker ==> c.face_rank() >= min_num && (
            num_foursies > 0 ==> c.suit_rank() >= min_suit_num),
    ensures
        is_laydown_from(num_foursies, num_threesies, hand, min_suit_num, min_num, laydown),
    decreases num_foursies + num_threesies,
{
    if num_foursies + num_threesies == 0 {
        let laydown = Seq::<Seq<Card>>::empty();
        assert(laydown.flatten() =~= Seq::<Card>::empty());
        crate::lists::lemma_nothing_is_drawn(laydown.flatten(), hand);
        laydown
    } else {
        lemma_least_plain(num_foursies, hand, hand.len() as int);
        assert(hand.take(hand.len() as int) =~= hand);
        let i = least_plain(num_foursies, hand, hand.len() as int);
        let card = hand[i];
        let n: nat = if num_foursies > 0 {
            3
        } else {
            2
        };
        let run = seq![card] + jokers(n);
        assert(hand.contains(card));
        lemma_without_opening_run(hand, run, n);
        let rules = if num_foursies > 0 {
            RunConstraints { kind: RunKind::Foursy, lower_bound: min_suit_num }
        } else {
            RunConstraints { kind: RunKind::Threesy, lower_bound: min_num }
        };
        lemma_opening_run_is_run(rules, card, n);
        assert(is_candidate(num_foursies, min_suit_num, min_num, run));
        let left = without(hand, run);
        let f = foursies_after(num_foursies);
        let t = threesies_after(num_foursies, num_threesies);
        let ms = suit_bound_after(num_foursies, min_suit_num, run);
        let mr = rank_bound_after(num_foursies, min_num, run);
        assert forall|c: Card| #[trigger] left.contains(c) && c != Card::Joker implies c.face_rank()
            >= mr && (f > 0 ==> c.suit_rank() >= ms) by {
            assert(hand.contains(c));
            let j = choose|j: int| 0 <= j < hand.len() && hand[j] == c;
            assert(hand[j] != Card::Joker);
        }
        let rest = lemma_enough_jokers(f, t, left, ms, mr);
        let laydown = seq![run] + rest;
        assert(laydown.drop_first() =~= rest);
        lemma_laydown_unfolds(
            num_foursies,
            num_threesies,
            hand,
            min_suit_num,
            min_num,
            laydown,
        );
        laydown
    }
}

/// The most jokers that a hand can need: three for each foursy, two for each
/// threesy.
pub open spec fn jokers_needed(num_foursies: nat, num_threesies: nat) -> nat {
    3 * num_foursies + 2 * num_threesies
}

/// A hand with at least as many plain cards as runs are asked for has a
/// laydown once three jokers for each foursy and two for each threesy are
/// added to it.
pub proof fn lemma_enough_jokers_make_a_laydown(
    num_foursies: nat,
    num_threesies: nat,
    hand: Seq<Card>,
)
    requires
        count_plain(hand) >= num_foursies + num_threesies,
    ensures
        laydowns(
            num_foursies,
            num_threesies,
            with_jokers(hand, jokers_needed(num_foursies, num_threesies)),
        ).len() > 0,
{
    let n = jokers_needed(num_foursies, num_threesies);
    let more = with_jokers(hand, n);
    lemma_count_adds(hand, jokers(n));
    lemma_count_of_jokers(n);
    let laydown = lemma_enough_jokers(num_foursies, num_threesies, more, 0, 0);
    lemma_laydowns_are_exact(num_foursies, num_threesies, more, laydown);
}

} // verus!
