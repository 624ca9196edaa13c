//! Runs: sequences of cards from a hand that follow one another under the
//! rules of a kind of meld, with jokers standing in for missing cards.

use vstd::prelude::*;
use crate::card::Card;
use crate::hand::{drawn_from, first_occurrence, is_first_occurrence, without_index};
use crate::lists::prepend_each;
use crate::run_laws::{
    lemma_continuations_complete, lemma_continuations_distinct, lemma_continuations_sound,
    lemma_runs_are_distinct, lemma_runs_are_exact,
};

verus! {

/// The two kinds of run.
#[derive(Clone, Copy, Debug, PartialEq, Eq, Structural)]
pub enum RunKind {
    /// Cards of one suit in consecutive ranks.
    Foursy,
    /// Cards of one rank, their suits never descending.
    Threesy,
}

/// The rules that a run is searched under: its kind, and the least suit
/// number (foursy) or rank (threesy) that its first card may have.
#[derive(Clone, Copy, Debug, PartialEq, Eq, Structural)]
pub struct RunConstraints {
    pub kind: RunKind,
    pub lower_bound: u8,
}

impl RunConstraints {
    /// Whether `card` may open a run: never a joker, and not below the bound.
    pub open spec fn may_start(self, card: Card) -> bool {
        card != Card::Joker && match self.kind {
            RunKind::Foursy => card.suit_rank() >= self.lower_bound,
            RunKind::Threesy => card.face_rank() >= self.lower_bound,
        }
    }

    /// Whether `card` may lie directly after a card that stands for `last`.
    /// A joker always may.
    pub open spec fn may_follow(self, last: Card, card: Card) -> bool {
        card == Card::Joker || match self.kind {
            RunKind::Foursy => card == last.successor(),
            RunKind::Threesy => card.face_rank() == last.face_rank() && last.suit_rank()
                <= card.suit_rank(),
        }
    }

    /// The card that a joker stands for when it lies after `last`.
    pub open spec fn stand_in(self, last: Card) -> Card {
        match self.kind {
            RunKind::Foursy => last.successor(),
            RunKind::Threesy => last,
        }
    }

    /// The card that `card` stands for when it lies after `last`: itself, or
    /// what the joker replaces.
    pub open spec fn advance(self, last: Card, card: Card) -> Card {
        if card == Card::Joker {
            self.stand_in(last)
        } else {
            card
        }
    }

    /// The rules of a foursy whose first card has a suit number of at least
    /// `min_suit_num`.
    pub fn foursy(min_suit_num: u8) -> (rules: Self)
        ensures
            rules == (RunConstraints { kind: RunKind::Foursy, lower_bound: min_suit_num }),
    {
        RunConstraints { kind: RunKind::Foursy, lower_bound: min_suit_num }
    }

    /// The rules of a threesy whose first card has a rank of at least
    /// `min_num`.
    pub fn threesy(min_num: u8) -> (rules: Self)
        ensures
            rules == (RunConstraints { kind: RunKind::Threesy, lower_bound: min_num }),
    {
        RunConstraints { kind: RunKind::Threesy, lower_bound: min_num }
    }

    /// Tells whether `card` may open a run.
    pub fn can_start(&self, card: &Card) -> (b: bool)
        ensures
            b == self.may_start(*card),
    {
        !card.is_joker() && match self.kind {
            RunKind::Foursy => card.get_suit_num() >= self.lower_bound,
            RunKind::Threesy => card.get_num() >= self.lower_bound,
        }
    }

    /// Tells whether `next_card` may lie directly after a card that stands
    /// for `last_card`.
    pub fn is_next(&self, last_card: &Card, next_card: &Card) -> (b: bool)
        ensures
            b == self.may_follow(*last_card, *next_card),
    {
        next_card.is_joker() || match self.kind {
            RunKind::Foursy => last_card.get_next_card() == *next_card,
            RunKind::Threesy => last_card.get_num() == next_card.get_num()
                && last_card.get_suit_num() <= next_card.get_suit_num(),
        }
    }

    /// The card that a joker stands for when it lies after `last_card`.
    pub fn replace_joker(&self, last_card: &Card) -> (card: Card)
        ensures
            card == self.stand_in(*last_card),
    {
        match self.kind {
            RunKind::Foursy => last_card.get_next_card(),
            RunKind::Threesy => *last_card,
        }
    }
}

/// The card that position `k` of `run` stands for: the card that lies there,
/// or, where a joker lies there, the card that the joker replaces after what
/// the position before stands for. The first card of a run stands for itself.
pub open spec fn stands_for(rules: RunConstraints, run: Seq<Card>, k: int) -> Card
    decreases k,
{
    if k <= 0 {
        run[0]
    } else {
        rules.advance(stands_for(rules, run, k - 1), run[k])
    }
}

/// Whether the card at position `k` of `run` may lie after what the position
/// before it stands for.
pub open spec fn follows_at(rules: RunConstraints, run: Seq<Card>, k: int) -> bool {
    rules.may_follow(stands_for(rules, run, k - 1), run[k])
}

/// Whether `run` is a run under `rules`: its first card may open one, and
/// each further card may follow what its predecessor stands for.
pub open spec fn is_run(rules: RunConstraints, run: Seq<Card>) -> bool {
    &&& run.len() >= 1
    &&& rules.may_start(run[0])
    &&& forall|k: int| 1 <= k < run.len() ==> #[trigger] follows_at(rules, run, k)
}

/// Whether the cards of `rest` may lie, one after the other, behind a card
/// that stands for `last`.
pub open spec fn goes_on(rules: RunConstraints, last: Card, rest: Seq<Card>) -> bool
    decreases rest.len(),
{
    rest.len() == 0 || (rules.may_follow(last, rest[0]) && goes_on(
        rules,
        rules.advance(last, rest[0]),
        rest.drop_first(),
    ))
}

/// The least length of a foursy.
pub const FOURSY_LENGTH: usize = 4;

/// The least length of a threesy.
pub const THREESY_LENGTH: usize = 3;

/// What a list of runs holds, as sequences of cards.
pub open spec fn runs_view(runs: Vec<Vec<Card>>) -> Seq<Seq<Card>> {
    Seq::new(runs@.len(), |i: int| runs@[i]@)
}

/// The runs of `runs` that have at least `min_length` cards, in their order.
pub open spec fn long_enough(runs: Seq<Seq<Card>>, min_length: nat) -> Seq<Seq<Card>> {
    runs.filter(|run: Seq<Card>| run.len() >= min_length)
}

/// Every way to go on after a card that stands for `last` with cards of
/// `hand`, the empty way first. Equal cards of the hand are tried once, in
/// the order in which they first occur.
pub open spec fn continuations(rules: RunConstraints, hand: Seq<Card>, last: Card) -> Seq<
    Seq<Card>,
>
    decreases hand.len(), hand.len() + 1,
{
    seq![Seq::<Card>::empty()] + continuations_within(rules, hand, last, hand.len() as int)
}

/// The ways to go on after `last` that begin with one of the first `n`
/// cards of `hand`.
pub open spec fn continuations_within(
    rules: RunConstraints,
    hand: Seq<Card>,
    last: Card,
    n: int,
) -> Seq<Seq<Card>>
    decreases hand.len(), n,
{
    if n <= 0 || n > hand.len() {
        Seq::empty()
    } else {
        continuations_within(rules, hand, last, n - 1) + continuations_through(
            rules,
            hand,
            last,
            n - 1,
        )
    }
}

/// The ways to go on after `last` that begin with the card at position `i`
/// of `hand`: none unless that is the first copy of a card that may follow.
pub open spec fn continuations_through(
    rules: RunConstraints,
    hand: Seq<Card>,
    last: Card,
    i: int,
) -> Seq<Seq<Card>>
    decreases hand.len(), i,
{
    if 0 <= i < hand.len() && is_first_occurrence(hand, i) && rules.may_follow(last, hand[i]) {
        prepend_each(
            hand[i],
            continuations(rules, hand.remove(i), rules.advance(last, hand[i])),
        )
    } else {
        Seq::empty()
    }
}

/// The runs of at least `min_length` cards that begin with the card at
/// position `i` of `hand`: none unless that is the first copy of a card that
/// may open a run.
pub open spec fn runs_through(
    rules: RunConstraints,
    min_length: nat,
    hand: Seq<Card>,
    i: int,
) -> Seq<Seq<Card>> {
    if 0 <= i < hand.len() && is_first_occurrence(hand, i) && rules.may_start(hand[i]) {
        long_enough(
            prepend_each(hand[i], continuations(rules, hand.remove(i), hand[i])),
            min_length,
        )
    } else {
        Seq::empty()
    }
}

/// The runs of at least `min_length` cards that begin with one of the first
/// `n` cards of `hand`.
pub open spec fn runs_within(
    rules: RunConstraints,
    min_length: nat,
    hand: Seq<Card>,
    n: int,
) -> Seq<Seq<Card>>
    decreases n,
{
    if n <= 0 {
        Seq::empty()
    } else {
        runs_within(rules, min_length, hand, n - 1) + runs_through(
            rules,
            min_length,
            hand,
            n - 1,
        )
    }
}

/// Every run of at least `min_length` cards that `hand` holds under `rules`,
/// in the order in which the search finds them.
pub open spec fn runs(rules: RunConstraints, min_length: nat, hand: Seq<Card>) -> Seq<Seq<Card>> {
    runs_within(rules, min_length, hand, hand.len() as int)
}

/// The foursies of `hand` whose first card has a suit number of at least
/// `min_suit_num`.
pub open spec fn foursies(hand: Seq<Card>, min_suit_num: u8) -> Seq<Seq<Card>> {
    runs(RunConstraints { kind: RunKind::Foursy, lower_bound: min_suit_num }, 4, hand)
}

/// The threesies of `hand` whose first card has a rank of at least `min_num`.
pub open spec fn threesies(hand: Seq<Card>, min_num: u8) -> Seq<Seq<Card>> {
    runs(RunConstraints { kind: RunKind::Threesy, lower_bound: min_num }, 3, hand)
}

/// Whether `run` is a foursy: at least four cards, the first of them no
/// joker and of a suit number of at least `min_suit_num`, each further one
/// either a joker or the successor of what lies before it.
pub open spec fn is_foursy(run: Seq<Card>, min_suit_num: u8) -> bool {
    is_run(RunConstraints { kind: RunKind::Foursy, lower_bound: min_suit_num }, run) && run.len()
        >= 4
}

/// Whether `run` is a threesy: at least three cards, the first of them no
/// joker and of a rank of at least `min_num`, each further one either a joker
/// or a card of that rank whose suit number is not below that of the last
/// card before it that is no joker.
pub open spec fn is_threesy(run: Seq<Card>, min_num: u8) -> bool {
    is_run(RunConstraints { kind: RunKind::Threesy, lower_bound: min_num }, run) && run.len() >= 3
}

/// A copy of `run` with `card` put in front.
fn prepended(card: Card, run: &Vec<Card>) -> (longer: Vec<Card>)
    ensures
        longer@ == seq![card] + run@,
{
    let mut longer = run.clone();
    longer.insert(0, card);
    assert(longer@ =~= seq![card] + run@);
    longer
}

/// Lists every way to go on after `last_card` with cards of `hand`.
pub fn get_runs_helper(hand: &Vec<Card>, last_card: &Card, rules: &RunConstraints) -> (found: Vec<
    Vec<Card>,
>)
    ensures
        runs_view(found) == continuations(*rules, hand@, *last_card),
        forall|rest: Seq<Card>| #[trigger]
            runs_view(found).contains(rest) <==> goes_on(*rules, *last_card, rest) && drawn_from(
                rest,
                hand@,
            ),
        runs_view(found).no_duplicates(),
    decreases hand.len(),
{
    proof {
        lemma_continuations_distinct(*rules, hand@, *last_card);
        assert forall|rest: Seq<Card>| #[trigger]
            continuations(*rules, hand@, *last_card).contains(rest) <==> goes_on(
                *rules,
                *last_card,
                rest,
            ) && drawn_from(rest, hand@) by {
            if continuations(*rules, hand@, *last_card).contains(rest) {
                lemma_continuations_sound(*rules, hand@, *last_card, rest);
            }
            if goes_on(*rules, *last_card, rest) && drawn_from(rest, hand@) {
                lemma_continuations_complete(*rules, hand@, *last_card, rest);
            }
        }
    }
    let mut found: Vec<Vec<Card>> = Vec::new();
    found.push(Vec::new());
    assert(runs_view(found) =~= seq![Seq::<Card>::empty()]);
    let mut i: usize = 0;
    while i < hand.len()
        invariant
            i <= hand.len(),
            runs_view(found) == seq![Seq::<Card>::empty()] + continuations_within(
                *rules,
                hand@,
                *last_card,
                i as int,
            ),
        decreases hand.len() - i,
    {
        let card = hand[i];
        if first_occurrence(hand, i) && rules.is_next(last_card, &card) {
            let my_hand = without_index(hand, i);
            let next_last = if card.is_joker() {
                rules.replace_joker(last_card)
            } else {
                card
            };
            let my_runs = get_runs_helper(&my_hand, &next_last, rules);
            let ghost before = runs_view(found);
            let ghost added = prepend_each(card, runs_view(my_runs));
            assert(added == continuations_through(*rules, hand@, *last_card, i as int));
            let mut k: usize = 0;
            while k < my_runs.len()
                invariant
                    k <= my_runs.len(),
                    added == prepend_each(card, runs_view(my_runs)),
                    runs_view(found) == before + added.take(k as int),
                decreases my_runs.len() - k,
            {
                let my_run = prepended(card, &my_runs[k]);
                let ghost so_far = runs_view(found);
                found.push(my_run);
                assert(my_run@ == added[k as int]);
                assert(runs_view(found) =~= so_far.push(my_run@));
                assert(added.take(k as int + 1) =~= added.take(k as int).push(added[k as int]));
                assert(runs_view(found) =~= before + added.take(k as int + 1));
                k += 1;
            }
            assert(added.take(k as int) =~= added);
            assert(runs_view(found) =~= seq![Seq::<Card>::empty()] + continuations_within(
                *rules,
                hand@,
                *last_card,
                i as int + 1,
            ));
        } else {
            assert(continuations_through(*rules, hand@, *last_card, i as int)
                =~= Seq::<Seq<Card>>::empty());
            assert(runs_view(found) =~= seq![Seq::<Card>::empty()] + continuations_within(
                *rules,
                hand@,
                *last_card,
                i as int + 1,
            ));
        }
        i += 1;
    }
    found
}

/// Lists every run of at least `min_length` cards that `hand` holds under
/// `rules`.
pub fn get_runs(hand: &Vec<Card>, min_length: usize, rules: &RunConstraints) -> (found: Vec<
    Vec<Card>,
>)
    ensures
        runs_view(found) == runs(*rules, min_length as nat, hand@),
        forall|run: Seq<Card>| #[trigger]
            runs_view(found).contains(run) <==> is_run(*rules, run) && run.len() >= min_length
                && drawn_from(run, hand@),
        runs_view(found).no_duplicates(),
{
    proof {
        lemma_runs_are_distinct(*rules, min_length as nat, hand@);
        assert forall|run: Seq<Card>| #[trigger]
            runs(*rules, min_length as nat, hand@).contains(run) <==> is_run(*rules, run)
                && run.len() >= min_length && drawn_from(run, hand@) by {
            lemma_runs_are_exact(*rules, min_length as nat, hand@, run);
        }
    }
    let mut found: Vec<Vec<Card>> = Vec::new();
    assert(runs_view(found) =~= Seq::<Seq<Card>>::empty());
    let mut i: usize = 0;
    while i < hand.len()
        invariant
            i <= hand.len(),
            runs_view(found) == runs_within(*rules, min_length as nat, hand@, i as int),
        decreases hand.len() - i,
    {
        let card = hand[i];
        if first_occurrence(hand, i) && rules.can_start(&card) {
            let my_hand = without_index(hand, i);
            let my_runs = get_runs_helper(&my_hand, &card, rules);
            let ghost before = runs_view(found);
            let ghost added = prepend_each(card, runs_view(my_runs));
            let mut k: usize = 0;
            assert(long_enough(added.take(0), min_length as nat) =~= Seq::<Seq<Card>>::empty())
                by {
                reveal(Seq::filter);
            }
            while k < my_runs.len()
                invariant
                    k <= my_runs.len(),
                    added == prepend_each(card, runs_view(my_runs)),
                    runs_view(found) == before + long_enough(
                        added.take(k as int),
                        min_length as nat,
                    ),
                decreases my_runs.len() - k,
            {
                let my_run = prepended(card, &my_runs[k]);
                let ghost so_far = runs_view(found);
                proof {
                    assert(my_run@ == added[k as int]);
                    assert(added.take(k as int + 1) =~= added.take(k as int).push(
                        added[k as int],
                    ));
                    added.take(k as int).lemma_filter_push(
                        added[k as int],
                        |run: Seq<Card>| run.len() >= min_length as nat,
                    );
                }
                if my_run.len() >= min_length {
                    found.push(my_run);
                    assert(runs_view(found) =~= so_far.push(my_run@));
                    assert(runs_view(found) =~= before + long_enough(
                        added.take(k as int + 1),
                        min_length as nat,
                    ));
                }
                k += 1;
            }
            assert(added.take(k as int) =~= added);
            assert(runs_view(found) =~= runs_within(
                *rules,
                min_length as nat,
                hand@,
                i as int + 1,
            ));
        } else {
            assert(runs_view(found) =~= runs_within(
                *rules,
                min_length as nat,
                hand@,
                i as int + 1,
            ));
        }
        i += 1;
    }
    found
}

/// Lists the foursies of `hand` whose first card has a suit number of at
/// least `min_suit_num`.
pub fn get_foursies(hand: &Vec<Card>, min_suit_num: &u8) -> (found: Vec<Vec<Card>>)
    ensures
        runs_view(found) == foursies(hand@, *min_suit_num),
        forall|run: Seq<Card>| #[trigger]
            runs_view(found).contains(run) <==> is_foursy(run, *min_suit_num) && drawn_from(
                run,
                hand@,
            ),
        runs_view(found).no_duplicates(),
{
    let rules = RunConstraints::foursy(*min_suit_num);
    get_runs(hand, FOURSY_LENGTH, &rules)
}

/// Lists the threesies of `hand` whose first card has a rank of at least
/// `min_num`.
pub fn get_threesies(hand: &Vec<Card>, min_num: &u8) -> (found: Vec<Vec<Card>>)
    ensures
        runs_view(found) == threesies(hand@, *min_num),
        forall|run: Seq<Card>| #[trigger]
            runs_view(found).contains(run) <==> is_threesy(run, *min_num) && drawn_from(
                run,
                hand@,
            ),
        runs_view(found).no_duplicates(),
{
    let rules = RunConstraints::threesy(*min_num);
    get_runs(hand, THREESY_LENGTH, &rules)
}

} // verus!
