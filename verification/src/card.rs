//! Playing cards: four suits of thirteen ranks, and the joker.

use vstd::prelude::*;

verus! {

/// A playing card. A suited card carries its rank, `0` (the ace) to `12`;
/// the joker has neither suit nor rank.
#[derive(Clone, Copy, Debug, PartialEq, Eq, Hash, Structural)]
pub enum Card {
    Heart(u8),
    Diamond(u8),
    Club(u8),
    Spade(u8),
    Joker,
}

impl Card {
    /// A suited card is well formed when its rank is one of the thirteen;
    /// the joker always is.
    pub open spec fn is_well_formed(self) -> bool {
        match self {
            Card::Heart(n) | Card::Diamond(n) | Card::Club(n) | Card::Spade(n) => n <= 12,
            Card::Joker => true,
        }
    }

    /// The number of the suit: hearts 0, diamonds 1, clubs 2, spades 3, the joker 4.
    pub open spec fn suit_rank(self) -> u8 {
        match self {
            Card::Heart(_) => 0,
            Card::Diamond(_) => 1,
            Card::Club(_) => 2,
            Card::Spade(_) => 3,
            Card::Joker => 4,
        }
    }

    /// The rank of a suited card; 13 for the joker.
    pub open spec fn face_rank(self) -> u8 {
        match self {
            Card::Heart(n) | Card::Diamond(n) | Card::Club(n) | Card::Spade(n) => n,
            Card::Joker => 13,
        }
    }

    /// The letter of the suit; `J` for the joker.
    pub open spec fn suit_letter(self) -> char {
        match self {
            Card::Heart(_) => 'H',
            Card::Diamond(_) => 'D',
            Card::Club(_) => 'C',
            Card::Spade(_) => 'S',
            Card::Joker => 'J',
        }
    }

    /// The rank that comes after `n`; after the twelfth comes the ace again.
    pub open spec fn next_rank(n: u8) -> u8 {
        ((n + 1) % 13) as u8
    }

    /// The next card of the same suit, from the king round to the ace. The
    /// joker is its own successor.
    pub open spec fn successor(self) -> Card {
        match self {
            Card::Heart(n) => Card::Heart(Self::next_rank(n)),
            Card::Diamond(n) => Card::Diamond(Self::next_rank(n)),
            Card::Club(n) => Card::Club(Self::next_rank(n)),
            Card::Spade(n) => Card::Spade(Self::next_rank(n)),
            Card::Joker => Card::Joker,
        }
    }

    /// The number by which cards are ordered: the rank first, then the suit.
    pub open spec fn ordering_key(self) -> int {
        5 * self.face_rank() + self.suit_rank()
    }

    /// What the card counts for: the ace 15, a face card 10, the joker 20, and
    /// any other card one more than its rank.
    pub open spec fn face_value(self) -> nat {
        let n = self.face_rank();
        if n == 0 {
            15
        } else if n == 13 {
            20
        } else if 9 <= n <= 12 {
            10
        } else {
            (n + 1) as nat
        }
    }

    /// Whether `suit` is one of the letters that name a suit or the joker, in
    /// either case.
    pub open spec fn is_suit_code(suit: char) -> bool {
        suit == 'H' || suit == 'h' || suit == 'D' || suit == 'd' || suit == 'C' || suit == 'c'
            || suit == 'S' || suit == 's' || suit == 'J' || suit == 'j'
    }

    /// The card that a rank and a suit letter name. The letter of the joker
    /// names the joker whatever the rank.
    pub open spec fn of_code(num: u8, suit: char) -> Card {
        if suit == 'H' || suit == 'h' {
            Card::Heart(num)
        } else if suit == 'D' || suit == 'd' {
            Card::Diamond(num)
        } else if suit == 'C' || suit == 'c' {
            Card::Club(num)
        } else if suit == 'S' || suit == 's' {
            Card::Spade(num)
        } else {
            Card::Joker
        }
    }

    /// Builds the card of rank `num` in the suit that `suit` names.
    pub fn from(num: u8, suit: char) -> (card: Self)
        requires
            num <= 12,
            Self::is_suit_code(suit),
        ensures
            card == Self::of_code(num, suit),
            card.is_well_formed(),
    {
        match suit {
            'H' | 'h' => Self::Heart(num),
            'D' | 'd' => Self::Diamond(num),
            'C' | 'c' => Self::Club(num),
            'S' | 's' => Self::Spade(num),
            _ => Self::Joker,
        }
    }

    /// The joker.
    pub fn joker() -> (card: Self)
        ensures
            card == Card::Joker,
            card.is_well_formed(),
    {
        Self::Joker
    }

    /// The letter of the card's suit; `J` for the joker.
    pub fn get_suit(&self) -> (suit: char)
        ensures
            suit == self.suit_letter(),
    {
        match self {
            Self::Heart(_) => 'H',
            Self::Diamond(_) => 'D',
            Self::Club(_) => 'C',
            Self::Spade(_) => 'S',
            Self::Joker => 'J',
        }
    }

    /// The number of the card's suit; 4 for the joker.
    pub fn get_suit_num(&self) -> (n: u8)
        ensures
            n == self.suit_rank(),
    {
        match self {
            Self::Heart(_) => 0,
            Self::Diamond(_) => 1,
            Self::Club(_) => 2,
            Self::Spade(_) => 3,
            Self::Joker => 4,
        }
    }

    /// The card's rank; 13 for the joker.
    pub fn get_num(&self) -> (n: u8)
        ensures
            n == self.face_rank(),
    {
        match self {
            Self::Heart(n) | Self::Diamond(n) | Self::Club(n) | Self::Spade(n) => *n,
            Self::Joker => 13,
        }
    }

    /// Tells whether the card is the joker.
    pub fn is_joker(&self) -> (b: bool)
        ensures
            b == (*self == Card::Joker),
    {
        match self {
            Self::Joker => true,
            _ => false,
        }
    }

    /// The rank that comes after `n`.
    fn rank_after(n: u8) -> (m: u8)
        ensures
            m == Self::next_rank(n),
            m <= 12,
    {
        ((n as u16 + 1) % 13) as u8
    }

    /// The card's successor.
    pub fn get_next_card(&self) -> (next: Self)
        ensures
            next == self.successor(),
            next.is_well_formed(),
    {
        match self {
            Self::Heart(n) => Self::Heart(Self::rank_after(*n)),
            Self::Diamond(n) => Self::Diamond(Self::rank_after(*n)),
            Self::Club(n) => Self::Club(Self::rank_after(*n)),
            Self::Spade(n) => Self::Spade(Self::rank_after(*n)),
            Self::Joker => Self::Joker,
        }
    }

    /// How far `self` stands from `other` in the order of cards: negative
    /// where it comes first, zero only for the same card.
    pub fn compare(&self, other: &Self) -> (d: isize)
        ensures
            d == self.ordering_key() - other.ordering_key(),
    {
        (5 * (self.get_num() as isize) + self.get_suit_num() as isize) - (5 * (
        other.get_num() as isize) + other.get_suit_num() as isize)
    }

    /// What the card counts for.
    pub fn value(&self) -> (v: usize)
        ensures
            v == self.face_value(),
    {
        let n = self.get_num();
        if n == 0 {
            15
        } else if n == 13 {
            20
        } else if 9 <= n && n <= 12 {
            10
        } else {
            n as usize + 1
        }
    }
}

/// Two cards with the same ordering key are the same card.
pub proof fn lemma_ordering_key_tells_cards_apart(a: Card, b: Card)
    requires
        a.ordering_key() == b.ordering_key(),
    ensures
        a == b,
{
}

} // verus!
