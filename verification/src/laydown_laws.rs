//! What the search for laydowns finds: exactly the laydowns that the hand
//! holds, each of them once; and what follows from that.

use vstd::prelude::*;
use vstd::seq_lib::*;
use vstd::set_lib::*;
use crate::card::Card;
use crate::hand::{drawn_from, without};
use crate::laydown::{
    candidates, is_laydown, is_laydown_from, is_meld_at, laydowns, laydowns_from,
    laydowns_through, laydowns_within,
};
use crate::lists::{lemma_prepend_each_contains, lemma_prepend_each_distinct, prepend_each};
use crate::run_laws::{lemma_runs_are_distinct, lemma_runs_are_exact};
use crate::runs::{is_foursy, is_threesy, RunConstraints, RunKind};

verus! {

/// Taking cards that are drawn from a hand out of it leaves the hand's cards
/// less those.
pub proof fn lemma_without_cards(hand: Seq<Card>, cards: Seq<Card>)
    requires
        drawn_from(cards, hand),
    ensures
        without(hand, cards).to_multiset() == hand.to_multiset().sub(cards.to_multiset()),
    decreases cards.len(),
{
    broadcast use group_to_multiset_ensures;

    if cards.len() == 0 {
        assert forall|c: Card| cards.to_multiset().count(c) == 0 by {
            assert(!cards.contains(c));
        }
        assert(without(hand, cards).to_multiset() =~= hand.to_multiset().sub(
            cards.to_multiset(),
        ));
    } else {
        let earlier = cards.drop_last();
        let card = cards.last();
        assert(cards =~= earlier.push(card));
        assert(cards.to_multiset() == earlier.to_multiset().insert(card));
        assert forall|c: Card|
            earlier.to_multiset().count(c) <= hand.to_multiset().count(c) by {
            assert(cards.to_multiset().count(c) <= hand.to_multiset().count(c));
        }
        lemma_without_cards(hand, earlier);
        let left = without(hand, earlier);
        assert(cards.to_multiset().count(card) <= hand.to_multiset().count(card));
        assert(left.to_multiset().count(card) > 0);
        assert(left.contains(card));
        left.index_of_first_ensures(card);
        let i = left.index_of_first(card).unwrap();
        assert(left.remove_value(card) == left.remove(i));
        assert(without(hand, cards).to_multiset() =~= hand.to_multiset().sub(
            cards.to_multiset(),
        ));
    }
}

/// Two lots of cards are drawn from a hand together exactly when the first is
/// drawn from the hand and the second from what the first leaves.
pub proof fn lemma_drawn_from_split(first: Seq<Card>, rest: Seq<Card>, hand: Seq<Card>)
    ensures
        drawn_from(first + rest, hand) <==> (drawn_from(first, hand) && drawn_from(
            rest,
            without(hand, first),
        )),
{
    lemma_multiset_commutative(first, rest);
    let both = (first + rest).to_multiset();
    assert(both == first.to_multiset().add(rest.to_multiset()));
    if drawn_from(first + rest, hand) {
        assert forall|c: Card|
            first.to_multiset().count(c) <= hand.to_multiset().count(c) by {
            assert(both.count(c) <= hand.to_multiset().count(c));
        }
    }
    if drawn_from(first, hand) {
        lemma_without_cards(hand, first);
        let left = without(hand, first).to_multiset();
        if drawn_from(first + rest, hand) {
            assert forall|c: Card| rest.to_multiset().count(c) <= left.count(c) by {
                assert(both.count(c) <= hand.to_multiset().count(c));
            }
        }
        if drawn_from(rest, without(hand, first)) {
            assert forall|c: Card| both.count(c) <= hand.to_multiset().count(c) by {
                assert(rest.to_multiset().count(c) <= left.count(c));
                assert(first.to_multiset().count(c) <= hand.to_multiset().count(c));
            }
        }
    }
}

/// What is still asked for once the first run of a laydown is chosen: one
/// foursy less while foursies are asked for, else one threesy less.
pub open spec fn foursies_after(num_foursies: nat) -> nat {
    if num_foursies > 0 {
        (num_foursies - 1) as nat
    } else {
        0
    }
}

/// See `foursies_after`.
pub open spec fn threesies_after(num_foursies: nat, num_threesies: nat) -> nat {
    if num_foursies > 0 {
        num_threesies
    } else {
        (num_threesies - 1) as nat
    }
}

/// The least suit number of the next foursy once `run` is chosen.
pub open spec fn suit_bound_after(num_foursies: nat, min_suit_num: u8, run: Seq<Card>) -> u8 {
    if num_foursies > 0 {
        run[0].suit_rank()
    } else {
        min_suit_num
    }
}

/// The least rank of the next threesy once `run` is chosen.
pub open spec fn rank_bound_after(num_foursies: nat, min_num: u8, run: Seq<Card>) -> u8 {
    if num_foursies > 0 {
        min_num
    } else {
        run[0].face_rank()
    }
}

/// Whether `run` is the kind of meld that the requirement asks for first.
pub open spec fn is_candidate(
    num_foursies: nat,
    min_suit_num: u8,
    min_num: u8,
    run: Seq<Card>,
) -> bool {
    if num_foursies > 0 {
        is_foursy(run, min_suit_num)
    } else {
        is_threesy(run, min_num)
    }
}

/// The laydowns that begin with `run` are that run put before the laydowns
/// of what is still asked for.
proof fn lemma_through_unfolds(
    num_foursies: nat,
    num_threesies: nat,
    hand: Seq<Card>,
    min_suit_num: u8,
    min_num: u8,
    run: Seq<Card>,
)
    requires
        num_foursies + num_threesies > 0,
    ensures
        laydowns_through(num_foursies, num_threesies, hand, min_suit_num, min_num, run)
            == prepend_each(
            run,
            laydowns_from(
                foursies_after(num_foursies),
                threesies_after(num_foursies, num_threesies),
                without(hand, run),
                suit_bound_after(num_foursies, min_suit_num, run),
                rank_bound_after(num_foursies, min_num, run),
            ),
        ),
{
}

/// A laydown of a requirement that asks for something is a first run of the
/// kind asked for, drawn from the hand, and behind it a laydown of what is
/// still asked for, from the cards that the first run leaves.
pub proof fn lemma_laydown_unfolds(
    num_foursies: nat,
    num_threesies: nat,
    hand: Seq<Card>,
    min_suit_num: u8,
    min_num: u8,
    laydown: Seq<Seq<Card>>,
)
    requires
        num_foursies + num_threesies > 0,
    ensures
        is_laydown_from(num_foursies, num_threesies, hand, min_suit_num, min_num, laydown) <==> (
        laydown.len() >= 1 && is_candidate(num_foursies, min_suit_num, min_num, laydown[0])
            && drawn_from(laydown[0], hand) && is_laydown_from(
            foursies_after(num_foursies),
            threesies_after(num_foursies, num_threesies),
            without(hand, laydown[0]),
            suit_bound_after(num_foursies, min_suit_num, laydown[0]),
            rank_bound_after(num_foursies, min_num, laydown[0]),
            laydown.drop_first(),
        )),
{
    if laydown.len() >= 1 {
        let rest = laydown.drop_first();
        let f = foursies_after(num_foursies);
        let ms = suit_bound_after(num_foursies, min_suit_num, laydown[0]);
        let mr = rank_bound_after(num_foursies, min_num, laydown[0]);
        assert(laydown.flatten() == laydown[0] + rest.flatten());
        lemma_drawn_from_split(laydown[0], rest.flatten(), hand);
        assert(is_meld_at(laydown, num_foursies, min_suit_num, min_num, 0) == is_candidate(
            num_foursies,
            min_suit_num,
            min_num,
            laydown[0],
        ));
        assert forall|k: int| 1 <= k < laydown.len() implies is_meld_at(
            laydown,
            num_foursies,
            min_suit_num,
            min_num,
            k,
        ) == is_meld_at(rest, f, ms, mr, k - 1) by {
            assert(rest[k - 1] == laydown[k]);
            if k >= 2 {
                assert(rest[k - 2] == laydown[k - 1]);
            }
        }
        if is_laydown_from(num_foursies, num_threesies, hand, min_suit_num, min_num, laydown) {
            assert forall|k: int| 0 <= k < rest.len() implies #[trigger] is_meld_at(
                rest,
                f,
                ms,
                mr,
                k,
            ) by {
                assert(is_meld_at(laydown, num_foursies, min_suit_num, min_num, k + 1));
            }
        }
        if is_candidate(num_foursies, min_suit_num, min_num, laydown[0]) && is_laydown_from(
            f,
            threesies_after(num_foursies, num_threesies),
            without(hand, laydown[0]),
            ms,
            mr,
            rest,
        ) {
            assert forall|k: int| 0 <= k < laydown.len() implies #[trigger] is_meld_at(
                laydown,
                num_foursies,
                min_suit_num,
                min_num,
                k,
            ) by {
                if k >= 1 {
                    assert(is_meld_at(rest, f, ms, mr, k - 1));
                }
            }
        }
    }
}

/// A run is a candidate of the search exactly when it is the kind of meld
/// asked for first and is drawn from the hand.
proof fn lemma_candidates_are_exact(
    num_foursies: nat,
    hand: Seq<Card>,
    min_suit_num: u8,
    min_num: u8,
    run: Seq<Card>,
)
    ensures
        candidates(num_foursies, hand, min_suit_num, min_num).contains(run) <==> (is_candidate(
            num_foursies,
            min_suit_num,
            min_num,
            run,
        ) && drawn_from(run, hand)),
        candidates(num_foursies, hand, min_suit_num, min_num).no_duplicates(),
{
    if num_foursies > 0 {
        let rules = RunConstraints { kind: RunKind::Foursy, lower_bound: min_suit_num };
        lemma_runs_are_exact(rules, 4, hand, run);
        lemma_runs_are_distinct(rules, 4, hand);
    } else {
        let rules = RunConstraints { kind: RunKind::Threesy, lower_bound: min_num };
        lemma_runs_are_exact(rules, 3, hand, run);
        lemma_runs_are_distinct(rules, 3, hand);
    }
}

/// A laydown lies among those that begin with one of the first `n`
/// candidates exactly when it begins with one of them and lies among the
/// laydowns that begin with it.
proof fn lemma_within_contains(
    num_foursies: nat,
    num_threesies: nat,
    hand: Seq<Card>,
    min_suit_num: u8,
    min_num: u8,
    n: nat,
    laydown: Seq<Seq<Card>>,
)
    requires
        num_foursies + num_threesies > 0,
        n <= candidates(num_foursies, hand, min_suit_num, min_num).len(),
    ensures
        laydowns_within(num_foursies, num_threesies, hand, min_suit_num, min_num, n).contains(
            laydown,
        ) <==> exists|i: int|
            0 <= i < n && #[trigger] laydowns_through(
                num_foursies,
                num_threesies,
                hand,
                min_suit_num,
                min_num,
                candidates(num_foursies, hand, min_suit_num, min_num)[i],
            ).contains(laydown),
    decreases n,
{
    broadcast use lemma_seq_concat_contains_all_elements;

    if n > 0 {
        let earlier = (n - 1) as nat;
        lemma_within_contains(
            num_foursies,
            num_threesies,
            hand,
            min_suit_num,
            min_num,
            earlier,
            laydown,
        );
        if laydowns_within(
            num_foursies,
            num_threesies,
            hand,
            min_suit_num,
            min_num,
            n,
        ).contains(laydown) {
            if !laydowns_within(
                num_foursies,
                num_threesies,
                hand,
                min_suit_num,
                min_num,
                earlier,
            ).contains(laydown) {
                assert(laydowns_through(
                    num_foursies,
                    num_threesies,
                    hand,
                    min_suit_num,
                    min_num,
                    candidates(num_foursies, hand, min_suit_num, min_num)[n - 1],
                ).contains(laydown));
            }
        }
    }
}

/// The search finds a sequence of runs exactly when it is a laydown of the
/// requirement from the hand.
pub proof fn lemma_laydowns_from_are_exact(
    num_foursies: nat,
    num_threesies: nat,
    hand: Seq<Card>,
    min_suit_num: u8,
    min_num: u8,
    laydown: Seq<Seq<Card>>,
)
    ensures
        laydowns_from(num_foursies, num_threesies, hand, min_suit_num, min_num).contains(laydown)
            <==> is_laydown_from(
            num_foursies,
            num_threesies,
            hand,
            min_suit_num,
            min_num,
            laydown,
        ),
    decreases num_foursies + num_threesies,
{
    let found = laydowns_from(num_foursies, num_threesies, hand, min_suit_num, min_num);
    if num_foursies + num_threesies == 0 {
        if found.contains(laydown) {
            let i = choose|i: int| 0 <= i < found.len() && found[i] == laydown;
            assert(laydown.len() == 0);
        }
        if laydown.len() == 0 {
            assert(found[0] =~= laydown);
            assert(laydown.flatten() =~= Seq::<Card>::empty());
            crate::lists::lemma_nothing_is_drawn(laydown.flatten(), hand);
        }
    } else {
        let runs = candidates(num_foursies, hand, min_suit_num, min_num);
        lemma_within_contains(
            num_foursies,
            num_threesies,
            hand,
            min_suit_num,
            min_num,
            runs.len(),
            laydown,
        );
        lemma_laydown_unfolds(num_foursies, num_threesies, hand, min_suit_num, min_num, laydown);
        let f = foursies_after(num_foursies);
        let t = threesies_after(num_foursies, num_threesies);
        if found.contains(laydown) {
            let i = choose|i: int|
                0 <= i < runs.len() && #[trigger] laydowns_through(
                    num_foursies,
                    num_threesies,
                    hand,
                    min_suit_num,
                    min_num,
                    runs[i],
                ).contains(laydown);
            let run = runs[i];
            let ms = suit_bound_after(num_foursies, min_suit_num, run);
            let mr = rank_bound_after(num_foursies, min_num, run);
            assert(runs.contains(run));
            lemma_candidates_are_exact(num_foursies, hand, min_suit_num, min_num, run);
            lemma_through_unfolds(num_foursies, num_threesies, hand, min_suit_num, min_num, run);
            lemma_prepend_each_contains(
                run,
                laydowns_from(f, t, without(hand, run), ms, mr),
                laydown,
            );
            lemma_laydowns_from_are_exact(f, t, without(hand, run), ms, mr, laydown.drop_first());
        }
        if is_laydown_from(num_foursies, num_threesies, hand, min_suit_num, min_num, laydown) {
            let run = laydown[0];
            let ms = suit_bound_after(num_foursies, min_suit_num, run);
            let mr = rank_bound_after(num_foursies, min_num, run);
            lemma_candidates_are_exact(num_foursies, hand, min_suit_num, min_num, run);
            let i = choose|i: int| 0 <= i < runs.len() && runs[i] == run;
            lemma_through_unfolds(num_foursies, num_threesies, hand, min_suit_num, min_num, run);
            lemma_laydowns_from_are_exact(f, t, without(hand, run), ms, mr, laydown.drop_first());
            lemma_prepend_each_contains(
                run,
                laydowns_from(f, t, without(hand, run), ms, mr),
                laydown,
            );
            assert(laydowns_through(
                num_foursies,
                num_threesies,
                hand,
                min_suit_num,
                min_num,
                runs[i],
            ).contains(laydown));
        }
    }
}

/// No laydown is listed twice.
pub proof fn lemma_laydowns_from_are_distinct(
    num_foursies: nat,
    num_threesies: nat,
    hand: Seq<Card>,
    min_suit_num: u8,
    min_num: u8,
)
    ensures
        laydowns_from(num_foursies, num_threesies, hand, min_suit_num, min_num).no_duplicates(),
    decreases num_foursies + num_threesies, 1nat, 0nat,
{
    if num_foursies + num_threesies > 0 {
        lemma_within_distinct(
            num_foursies,
            num_threesies,
            hand,
            min_suit_num,
            min_num,
            candidates(num_foursies, hand, min_suit_num, min_num).len(),
        );
    }
}

/// No laydown is listed twice among those that begin with one of the first
/// `n` candidates.
proof fn lemma_within_distinct(
    num_foursies: nat,
    num_threesies: nat,
    hand: Seq<Card>,
    min_suit_num: u8,
    min_num: u8,
    n: nat,
)
    requires
        num_foursies + num_threesies > 0,
        n <= candidates(num_foursies, hand, min_suit_num, min_num).len(),
    ensures
        laydowns_within(
            num_foursies,
            num_threesies,
            hand,
            min_suit_num,
            min_num,
            n,
        ).no_duplicates(),
    decreases num_foursies + num_threesies, 0nat, n,
{
    if n > 0 {
        let runs = candidates(num_foursies, hand, min_suit_num, min_num);
        let i = (n - 1) as nat;
        let run = runs[i as int];
        let f = foursies_after(num_foursies);
        let t = threesies_after(num_foursies, num_threesies);
        let ms = suit_bound_after(num_foursies, min_suit_num, run);
        let mr = rank_bound_after(num_foursies, min_num, run);
        let earlier = laydowns_within(num_foursies, num_threesies, hand, min_suit_num, min_num, i);
        let added = laydowns_through(
            num_foursies,
            num_threesies,
            hand,
            min_suit_num,
            min_num,
            run,
        );
        lemma_within_distinct(num_foursies, num_threesies, hand, min_suit_num, min_num, i);
        lemma_through_unfolds(num_foursies, num_threesies, hand, min_suit_num, min_num, run);
        lemma_laydowns_from_are_distinct(f, t, without(hand, run), ms, mr);
        lemma_prepend_each_distinct(run, laydowns_from(f, t, without(hand, run), ms, mr));
        lemma_candidates_are_exact(num_foursies, hand, min_suit_num, min_num, run);
        assert forall|p: int, q: int| 0 <= p < earlier.len() && 0 <= q < added.len() implies
            earlier[p] != added[q] by {
            assert(earlier.contains(earlier[p]));
            lemma_within_contains(
                num_foursies,
                num_threesies,
                hand,
                min_suit_num,
                min_num,
                i,
                earlier[p],
            );
            let k = choose|k: int|
                0 <= k < i && #[trigger] laydowns_through(
                    num_foursies,
                    num_threesies,
                    hand,
                    min_suit_num,
                    min_num,
                    runs[k],
                ).contains(earlier[p]);
            lemma_through_unfolds(
                num_foursies,
                num_threesies,
                hand,
                min_suit_num,
                min_num,
                runs[k],
            );
            lemma_prepend_each_contains(
                runs[k],
                laydowns_from(
                    f,
                    t,
                    without(hand, runs[k]),
                    suit_bound_after(num_foursies, min_suit_num, runs[k]),
                    rank_bound_after(num_foursies, min_num, runs[k]),
                ),
                earlier[p],
            );
            assert(added.contains(added[q]));
            lemma_prepend_each_contains(
                run,
                laydowns_from(f, t, without(hand, run), ms, mr),
                added[q],
            );
        }
        lemma_no_dup_in_concat(earlier, added);
    }
}

/// The search finds a sequence of runs exactly when it is a laydown of the
/// requirement from the hand: as many foursies and threesies as asked for,
/// in canonical order, their cards drawn from the hand without any card
/// serving twice.
pub proof fn lemma_laydowns_are_exact(
    num_foursies: nat,
    num_threesies: nat,
    hand: Seq<Card>,
    laydown: Seq<Seq<Card>>,
)
    ensures
        laydowns(num_foursies, num_threesies, hand).contains(laydown) <==> is_laydown(
            num_foursies,
            num_threesies,
            hand,
            laydown,
        ),
{
    lemma_laydowns_from_are_exact(num_foursies, num_threesies, hand, 0, 0, laydown);
}

/// The search lists no laydown twice.
pub proof fn lemma_laydowns_are_distinct(num_foursies: nat, num_threesies: nat, hand: Seq<Card>)
    ensures
        laydowns(num_foursies, num_threesies, hand).no_duplicates(),
{
    lemma_laydowns_from_are_distinct(num_foursies, num_threesies, hand, 0, 0);
}

/// The runs of a laydown that the search finds share no card of the hand:
/// all their cards together are drawn from it, each copy serving at most once.
pub proof fn lemma_laydown_cards_come_from_hand(
    num_foursies: nat,
    num_threesies: nat,
    hand: Seq<Card>,
    laydown: Seq<Seq<Card>>,
)
    requires
        laydowns(num_foursies, num_threesies, hand).contains(laydown),
    ensures
        drawn_from(laydown.flatten(), hand),
        laydown.flatten().len() <= hand.len(),
{
    broadcast use group_to_multiset_ensures;

    lemma_laydowns_are_exact(num_foursies, num_threesies, hand, laydown);
    crate::lists::lemma_drawn_from_len(laydown.flatten(), hand);
}

/// A hand that holds every card of another, copy for copy, has every laydown
/// of the other.
pub proof fn lemma_laydowns_grow_with_hand(
    num_foursies: nat,
    num_threesies: nat,
    smaller: Seq<Card>,
    larger: Seq<Card>,
)
    requires
        drawn_from(smaller, larger),
    ensures
        laydowns(num_foursies, num_threesies, smaller).to_set().subset_of(
            laydowns(num_foursies, num_threesies, larger).to_set(),
        ),
        laydowns(num_foursies, num_threesies, smaller).len() <= laydowns(
            num_foursies,
            num_threesies,
            larger,
        ).len(),
{
    let few = laydowns(num_foursies, num_threesies, smaller);
    let many = laydowns(num_foursies, num_threesies, larger);
    assert forall|laydown: Seq<Seq<Card>>| few.to_set().contains(laydown) implies many.to_set()
        .contains(laydown) by {
        lemma_laydowns_are_exact(num_foursies, num_threesies, smaller, laydown);
        lemma_laydowns_are_exact(num_foursies, num_threesies, larger, laydown);
        let cards = laydown.flatten().to_multiset();
        assert forall|c: Card| cards.count(c) <= larger.to_multiset().count(c) by {
            assert(cards.count(c) <= smaller.to_multiset().count(c));
            assert(smaller.to_multiset().count(c) <= larger.to_multiset().count(c));
        }
    }
    lemma_laydowns_are_distinct(num_foursies, num_threesies, smaller);
    lemma_laydowns_are_distinct(num_foursies, num_threesies, larger);
    few.unique_seq_to_set();
    many.unique_seq_to_set();
    seq_to_set_is_finite(many);
    lemma_len_subset(few.to_set(), many.to_set());
}

/// Searching the same cards again finds the same laydowns: which laydowns a
/// hand has, and how many, depends on the cards it holds and not on their
/// order.
pub proof fn lemma_same_cards_same_laydowns(
    num_foursies: nat,
    num_threesies: nat,
    hand: Seq<Card>,
    other: Seq<Card>,
)
    requires
        hand.to_multiset() == other.to_multiset(),
    ensures
        laydowns(num_foursies, num_threesies, hand).to_set() == laydowns(
            num_foursies,
            num_threesies,
            other,
        ).to_set(),
        laydowns(num_foursies, num_threesies, hand).len() == laydowns(
            num_foursies,
            num_threesies,
            other,
        ).len(),
{
    lemma_laydowns_grow_with_hand(num_foursies, num_threesies, hand, other);
    lemma_laydowns_grow_with_hand(num_foursies, num_threesies, other, hand);
    assert(laydowns(num_foursies, num_threesies, hand).to_set() =~= laydowns(
        num_foursies,
        num_threesies,
        other,
    ).to_set());
}

/// A joker more in the hand, wherever it is put, never makes the laydowns
/// fewer: every laydown of the hand is still one with the joker added.
pub proof fn lemma_joker_never_hurts(
    num_foursies: nat,
    num_threesies: nat,
    hand: Seq<Card>,
    at: int,
)
    requires
        0 <= at <= hand.len(),
    ensures
        laydowns(num_foursies, num_threesies, hand).len() <= laydowns(
            num_foursies,
            num_threesies,
            hand.insert(at, Card::Joker),
        ).len(),
        laydowns(num_foursies, num_threesies, hand).to_set().subset_of(
            laydowns(num_foursies, num_threesies, hand.insert(at, Card::Joker)).to_set(),
        ),
{
    broadcast use group_to_multiset_ensures;

    let more = hand.insert(at, Card::Joker);
    assert forall|c: Card| hand.to_multiset().count(c) <= more.to_multiset().count(c) by {}
    lemma_laydowns_grow_with_hand(num_foursies, num_threesies, hand, more);
}

} // verus!
