//! Laydowns: every way to meet a requirement of so many foursies and so many
//! threesies with runs drawn from one hand.

use vstd::prelude::*;
use crate::card::Card;
use crate::hand::{drawn_from, remove_cards, without};
use crate::laydown_laws::{
    lemma_laydowns_are_distinct, lemma_laydowns_are_exact, lemma_laydowns_from_are_distinct,
    lemma_laydowns_from_are_exact,
};
use crate::lists::prepend_each;
use crate::runs::{
    foursies, get_foursies, get_threesies, is_foursy, is_threesy, runs_view, threesies,
};

verus! {

/// What a list of laydowns holds, as sequences of runs.
pub open spec fn laydowns_view(laydowns: Vec<Vec<Vec<Card>>>) -> Seq<Seq<Seq<Card>>> {
    Seq::new(laydowns@.len(), |i: int| runs_view(laydowns@[i]))
}

/// The runs that may come first in a laydown: foursies as long as one is
/// still asked for, threesies after that.
pub open spec fn candidates(
    num_foursies: nat,
    hand: Seq<Card>,
    min_suit_num: u8,
    min_num: u8,
) -> Seq<Seq<Card>> {
    if num_foursies > 0 {
        foursies(hand, min_suit_num)
    } else {
        threesies(hand, min_num)
    }
}

/// Every laydown of `num_foursies` foursies followed by `num_threesies`
/// threesies from `hand`, where the first foursy begins with a suit number of
/// at least `min_suit_num` and the first threesy with a rank of at least
/// `min_num`, in the order in which the search finds them. Where nothing is
/// asked for, the one laydown is the empty one.
pub open spec fn laydowns_from(
    num_foursies: nat,
    num_threesies: nat,
    hand: Seq<Card>,
    min_suit_num: u8,
    min_num: u8,
) -> Seq<Seq<Seq<Card>>>
    decreases num_foursies + num_threesies, 2nat, 0nat,
{
    if num_foursies + num_threesies == 0 {
        seq![Seq::<Seq<Card>>::empty()]
    } else {
        laydowns_within(
            num_foursies,
            num_threesies,
            hand,
            min_suit_num,
            min_num,
            candidates(num_foursies, hand, min_suit_num, min_num).len(),
        )
    }
}

/// The laydowns that begin with one of the first `n` candidate runs.
pub open spec fn laydowns_within(
    num_foursies: nat,
    num_threesies: nat,
    hand: Seq<Card>,
    min_suit_num: u8,
    min_num: u8,
    n: nat,
) -> Seq<Seq<Seq<Card>>>
    decreases num_foursies + num_threesies, 1nat, n,
{
    if n == 0 || num_foursies + num_threesies == 0 {
        Seq::empty()
    } else {
        laydowns_within(
            num_foursies,
            num_threesies,
            hand,
            min_suit_num,
            min_num,
            (n - 1) as nat,
        ) + laydowns_through(
            num_foursies,
            num_threesies,
            hand,
            min_suit_num,
            min_num,
            candidates(num_foursies, hand, min_suit_num, min_num)[n - 1],
        )
    }
}

/// The laydowns that begin with `run`: the run, and then every laydown of
/// what is still asked for from the cards that the run leaves. The next run
/// of the same kind begins no lower than this one.
pub open spec fn laydowns_through(
    num_foursies: nat,
    num_threesies: nat,
    hand: Seq<Card>,
    min_suit_num: u8,
    min_num: u8,
    run: Seq<Card>,
) -> Seq<Seq<Seq<Card>>>
    decreases num_foursies + num_threesies, 0nat, 0nat,
{
    if num_foursies > 0 {
        prepend_each(
            run,
            laydowns_from(
                (num_foursies - 1) as nat,
                num_threesies,
                without(hand, run),
                run[0].suit_rank(),
                min_num,
            ),
        )
    } else if num_threesies > 0 {
        prepend_each(
            run,
            laydowns_from(
                num_foursies,
                (num_threesies - 1) as nat,
                without(hand, run),
                min_suit_num,
                run[0].face_rank(),
            ),
        )
    } else {
        Seq::empty()
    }
}

/// Every laydown of `num_foursies` foursies followed by `num_threesies`
/// threesies from `hand`, in the order in which the search finds them.
pub open spec fn laydowns(num_foursies: nat, num_threesies: nat, hand: Seq<Card>) -> Seq<
    Seq<Seq<Card>>,
> {
    laydowns_from(num_foursies, num_threesies, hand, 0, 0)
}

/// Whether the run at position `k` of `laydown` is what the requirement asks
/// for there: one of the `num_foursies` foursies first, a threesy after them.
/// The first run of a kind begins no lower than `min_suit_num` (foursy) or
/// `min_num` (threesy), each further one no lower than the run before it.
pub open spec fn is_meld_at(
    laydown: Seq<Seq<Card>>,
    num_foursies: nat,
    min_suit_num: u8,
    min_num: u8,
    k: int,
) -> bool {
    if k < num_foursies {
        is_foursy(
            laydown[k],
            if k == 0 {
                min_suit_num
            } else {
                laydown[k - 1][0].suit_rank()
            },
        )
    } else {
        is_threesy(
            laydown[k],
            if k == num_foursies {
                min_num
            } else {
                laydown[k - 1][0].face_rank()
            },
        )
    }
}

/// Whether `laydown` meets the requirement from `hand`: it has as many runs
/// as are asked for, each is the meld asked for at its place, and all their
/// cards together are drawn from the hand, so that no card of the hand serves
/// in two runs.
pub open spec fn is_laydown_from(
    num_foursies: nat,
    num_threesies: nat,
    hand: Seq<Card>,
    min_suit_num: u8,
    min_num: u8,
    laydown: Seq<Seq<Card>>,
) -> bool {
    &&& laydown.len() == num_foursies + num_threesies
    &&& forall|k: int|
        0 <= k < laydown.len() ==> #[trigger] is_meld_at(
            laydown,
            num_foursies,
            min_suit_num,
            min_num,
            k,
        )
    &&& drawn_from(laydown.flatten(), hand)
}

/// Whether `laydown` is a laydown of `num_foursies` foursies followed by
/// `num_threesies` threesies from `hand`.
pub open spec fn is_laydown(
    num_foursies: nat,
    num_threesies: nat,
    hand: Seq<Card>,
    laydown: Seq<Seq<Card>>,
) -> bool {
    is_laydown_from(num_foursies, num_threesies, hand, 0, 0, laydown)
}

/// A copy of `runs`.
fn copy_runs(runs: &Vec<Vec<Card>>) -> (copy: Vec<Vec<Card>>)
    ensures
        runs_view(copy) == runs_view(*runs),
{
    let mut copy: Vec<Vec<Card>> = Vec::new();
    let mut j: usize = 0;
    while j < runs.len()
        invariant
            j <= runs.len(),
            copy@.len() == j,
            forall|k: int| 0 <= k < j ==> copy@[k]@ == runs@[k]@,
        decreases runs.len() - j,
    {
        copy.push(runs[j].clone());
        j += 1;
    }
    assert(runs_view(copy) =~= runs_view(*runs));
    copy
}

/// A copy of `laydown` with a copy of `run` put in front.
fn prepended_run(run: &Vec<Card>, laydown: &Vec<Vec<Card>>) -> (longer: Vec<Vec<Card>>)
    ensures
        runs_view(longer) == seq![run@] + runs_view(*laydown),
{
    let mut longer = copy_runs(laydown);
    longer.insert(0, run.clone());
    assert(runs_view(longer) =~= seq![run@] + runs_view(*laydown));
    longer
}

/// Lists every laydown of `num_foursies` foursies and `num_threesies`
/// threesies that `hand` holds.
pub fn get_all_laydown_possibilities(
    num_foursies: usize,
    num_threesies: usize,
    hand: &Vec<Card>,
) -> (found: Vec<Vec<Vec<Card>>>)
    ensures
        laydowns_view(found) == laydowns(num_foursies as nat, num_threesies as nat, hand@),
        forall|laydown: Seq<Seq<Card>>| #[trigger]
            laydowns_view(found).contains(laydown) <==> is_laydown(
                num_foursies as nat,
                num_threesies as nat,
                hand@,
                laydown,
            ),
        laydowns_view(found).no_duplicates(),
{
    proof {
        lemma_laydowns_are_distinct(num_foursies as nat, num_threesies as nat, hand@);
        assert forall|laydown: Seq<Seq<Card>>| #[trigger]
            laydowns(num_foursies as nat, num_threesies as nat, hand@).contains(laydown)
                <==> is_laydown(num_foursies as nat, num_threesies as nat, hand@, laydown) by {
            lemma_laydowns_are_exact(num_foursies as nat, num_threesies as nat, hand@, laydown);
        }
    }
    get_all_laydown_possibilities_helper(num_foursies, num_threesies, hand, &0, &0)
}

/// Lists every laydown of `num_foursies` foursies and `num_threesies`
/// threesies that `hand` holds, the first foursy beginning with a suit number
/// of at least `min_suit_num` and the first threesy with a rank of at least
/// `min_num`.
pub fn get_all_laydown_possibilities_helper(
    num_foursies: usize,
    num_threesies: usize,
    hand: &Vec<Card>,
    min_suit_num: &u8,
    min_num: &u8,
) -> (found: Vec<Vec<Vec<Card>>>)
    ensures
        laydowns_view(found) == laydowns_from(
            num_foursies as nat,
            num_threesies as nat,
            hand@,
            *min_suit_num,
            *min_num,
        ),
        forall|laydown: Seq<Seq<Card>>| #[trigger]
            laydowns_view(found).contains(laydown) <==> is_laydown_from(
                num_foursies as nat,
                num_threesies as nat,
                hand@,
                *min_suit_num,
                *min_num,
                laydown,
            ),
        laydowns_view(found).no_duplicates(),
    decreases num_foursies + num_threesies,
{
    proof {
        lemma_laydowns_from_are_distinct(
            num_foursies as nat,
            num_threesies as nat,
            hand@,
            *min_suit_num,
            *min_num,
        );
        assert forall|laydown: Seq<Seq<Card>>| #[trigger]
            laydowns_from(
                num_foursies as nat,
                num_threesies as nat,
                hand@,
                *min_suit_num,
                *min_num,
            ).contains(laydown) <==> is_laydown_from(
                num_foursies as nat,
                num_threesies as nat,
                hand@,
                *min_suit_num,
                *min_num,
                laydown,
            ) by {
            lemma_laydowns_from_are_exact(
                num_foursies as nat,
                num_threesies as nat,
                hand@,
                *min_suit_num,
                *min_num,
                laydown,
            );
        }
    }
    let mut found: Vec<Vec<Vec<Card>>> = Vec::new();
    if num_foursies > 0 || num_threesies > 0 {
        let runs = if num_foursies > 0 {
            get_foursies(hand, min_suit_num)
        } else {
            get_threesies(hand, min_num)
        };
        assert(laydowns_view(found) =~= Seq::<Seq<Seq<Card>>>::empty());
        assert forall|k: int| 0 <= k < runs.len() implies (#[trigger] runs@[k]).len() >= 1 by {
            assert(runs_view(runs)[k] == runs@[k]@);
            assert(runs_view(runs).contains(runs@[k]@));
        }
        let mut i: usize = 0;
        while i < runs.len()
            invariant
                i <= runs.len(),
                num_foursies > 0 || num_threesies > 0,
                runs_view(runs) == candidates(
                    num_foursies as nat,
                    hand@,
                    *min_suit_num,
                    *min_num,
                ),
                forall|k: int| 0 <= k < runs.len() ==> (#[trigger] runs@[k]).len() >= 1,
                laydowns_view(found) == laydowns_within(
                    num_foursies as nat,
                    num_threesies as nat,
                    hand@,
                    *min_suit_num,
                    *min_num,
                    i as nat,
                ),
            decreases runs.len() - i,
        {
            let run = &runs[i];
            assert(run@ == runs_view(runs)[i as int]);
            let mut new_min_suit_num = *min_suit_num;
            let mut new_min_num = *min_num;
            let mut new_num_foursies = num_foursies;
            let mut new_num_threesies = num_threesies;
            if num_foursies > 0 {
                new_min_suit_num = run[0].get_suit_num();
                new_num_foursies -= 1;
            } else {
                new_min_num = run[0].get_num();
                new_num_threesies -= 1;
            }
            let new_hand = remove_cards(hand, run);
            let more_laydown_possibilities = get_all_laydown_possibilities_helper(
                new_num_foursies,
                new_num_threesies,
                &new_hand,
                &new_min_suit_num,
                &new_min_num,
            );
            let ghost before = laydowns_view(found);
            let ghost added = prepend_each(run@, laydowns_view(more_laydown_possibilities));
            assert(added == laydowns_through(
                num_foursies as nat,
                num_threesies as nat,
                hand@,
                *min_suit_num,
                *min_num,
                run@,
            ));
            let mut k: usize = 0;
            while k < more_laydown_possibilities.len()
                invariant
                    k <= more_laydown_possibilities.len(),
                    added == prepend_each(run@, laydowns_view(more_laydown_possibilities)),
                    laydowns_view(found) == before + added.take(k as int),
                decreases more_laydown_possibilities.len() - k,
            {
                let laydown_possibility = prepended_run(run, &more_laydown_possibilities[k]);
                let ghost so_far = laydowns_view(found);
                found.push(laydown_possibility);
                assert(runs_view(laydown_possibility) == added[k as int]);
                assert(laydowns_view(found) =~= so_far.push(runs_view(laydown_possibility)));
                assert(added.take(k as int + 1) =~= added.take(k as int).push(added[k as int]));
                assert(laydowns_view(found) =~= before + added.take(k as int + 1));
                k += 1;
            }
            assert(added.take(k as int) =~= added);
            i += 1;
        }
    } else {
        found.push(Vec::new());
        assert(laydowns_view(found) =~= seq![Seq::<Seq<Card>>::empty()]) by {
            assert(runs_view(found@[0]) =~= Seq::<Seq<Card>>::empty());
        }
    }
    found
}

} // verus!
