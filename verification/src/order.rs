//! The order of cards: by rank first, then by suit, the joker last.

use core::cmp::Ordering;
use vstd::prelude::*;
use crate::card::Card;

verus! {

impl PartialOrd for Card {
    /// Orders two cards by their ordering keys.
    fn partial_cmp(&self, other: &Self) -> (order: Option<Ordering>) {
        let distance = self.compare(other);
        if distance < 0 {
            Some(Ordering::Less)
        } else if distance > 0 {
            Some(Ordering::Greater)
        } else {
            Some(Ordering::Equal)
        }
    }
}

impl vstd::std_specs::cmp::PartialOrdSpecImpl for Card {
    open spec fn obeys_partial_cmp_spec() -> bool {
        true
    }

    open spec fn partial_cmp_spec(&self, other: &Self) -> Option<Ordering> {
        if self.ordering_key() < other.ordering_key() {
            Some(Ordering::Less)
        } else if self.ordering_key() > other.ordering_key() {
            Some(Ordering::Greater)
        } else {
            Some(Ordering::Equal)
        }
    }
}

} // verus!
