//! Cards as text: a two-digit rank and the letter of the suit, as in `07H`,
//! and `JJJ` for the joker.

use vstd::prelude::*;
use vstd::string::*;
use crate::card::Card;

verus! {

/// The digit that `c` writes, if it writes one.
pub open spec fn digit_of(c: char) -> Option<u8> {
    if c == '0' {
        Some(0u8)
    } else if c == '1' {
        Some(1u8)
    } else if c == '2' {
        Some(2u8)
    } else if c == '3' {
        Some(3u8)
    } else if c == '4' {
        Some(4u8)
    } else if c == '5' {
        Some(5u8)
    } else if c == '6' {
        Some(6u8)
    } else if c == '7' {
        Some(7u8)
    } else if c == '8' {
        Some(8u8)
    } else if c == '9' {
        Some(9u8)
    } else {
        None
    }
}

/// The number that two characters write: two digits, or a plus sign and one
/// digit.
pub open spec fn number_of(first: char, second: char) -> Option<u8> {
    match (digit_of(first), digit_of(second)) {
        (Some(tens), Some(ones)) => Some((10 * tens + ones) as u8),
        (None, Some(ones)) => if first == '+' {
            Some(ones)
        } else {
            None
        },
        _ => None,
    }
}

/// The card that a token names, if it names one. `JJJ` names the joker. Any
/// other token names a card when it begins with a rank of at most 12 and the
/// letter of a suit or of the joker; what follows these three characters is
/// not looked at.
pub open spec fn token_card(token: Seq<char>) -> Option<Card> {
    if token == seq!['J', 'J', 'J'] {
        Some(Card::Joker)
    } else if token.len() >= 3 {
        match number_of(token[0], token[1]) {
            Some(num) => if num <= 12 && Card::is_suit_code(token[2]) {
                Some(Card::of_code(num, token[2]))
            } else {
                None
            },
            None => None,
        }
    } else {
        None
    }
}

/// The cards that the tokens name, in their order; a token that names no
/// card is passed over.
pub open spec fn cards_of_tokens(tokens: Seq<Seq<char>>) -> Seq<Card>
    decreases tokens.len(),
{
    if tokens.len() == 0 {
        Seq::empty()
    } else {
        let before = cards_of_tokens(tokens.drop_last());
        match token_card(tokens.last()) {
            Some(card) => before.push(card),
            None => before,
        }
    }
}

/// What a list of tokens holds, as sequences of characters.
pub open spec fn tokens_view(tokens: Vec<&str>) -> Seq<Seq<char>> {
    Seq::new(tokens@.len(), |i: int| tokens@[i]@)
}

/// The character that writes the digit `d`.
pub open spec fn digit_char(d: int) -> char {
    if d == 0 {
        '0'
    } else if d == 1 {
        '1'
    } else if d == 2 {
        '2'
    } else if d == 3 {
        '3'
    } else if d == 4 {
        '4'
    } else if d == 5 {
        '5'
    } else if d == 6 {
        '6'
    } else if d == 7 {
        '7'
    } else if d == 8 {
        '8'
    } else {
        '9'
    }
}

/// The text of a card: `JJJ` for the joker, else the rank in at least two
/// digits and the letter of the suit.
pub open spec fn label_text(card: Card) -> Seq<char> {
    let n = card.face_rank() as int;
    if card == Card::Joker {
        seq!['J', 'J', 'J']
    } else if n < 100 {
        seq![digit_char(n / 10), digit_char(n % 10), card.suit_letter()]
    } else {
        seq![digit_char(n / 100), digit_char((n / 10) % 10), digit_char(n % 10), card.suit_letter()]
    }
}

/// The text of a well-formed card names that card.
pub proof fn lemma_label_names_card(card: Card)
    requires
        card.is_well_formed(),
    ensures
        token_card(label_text(card)) == Some(card),
{
    let text = label_text(card);
    if card != Card::Joker {
        assert(text[0] == '0' || text[0] == '1');
        assert(text != seq!['J', 'J', 'J']);
    }
}

fn digit_value(c: char) -> (d: Option<u8>)
    ensures
        d == digit_of(c),
{
    match c {
        '0' => Some(0),
        '1' => Some(1),
        '2' => Some(2),
        '3' => Some(3),
        '4' => Some(4),
        '5' => Some(5),
        '6' => Some(6),
        '7' => Some(7),
        '8' => Some(8),
        '9' => Some(9),
        _ => None,
    }
}

fn is_suit_letter(c: char) -> (b: bool)
    ensures
        b == Card::is_suit_code(c),
{
    match c {
        'H' | 'h' | 'D' | 'd' | 'C' | 'c' | 'S' | 's' | 'J' | 'j' => true,
        _ => false,
    }
}

/// Reads one token.
pub fn card_from_token(token: &str) -> (card: Option<Card>)
    ensures
        card == token_card(token@),
{
    let len = token.unicode_len();
    if len < 3 {
        return None;
    }
    let first = token.get_char(0);
    let second = token.get_char(1);
    let third = token.get_char(2);
    if len == 3 && first == 'J' && second == 'J' && third == 'J' {
        assert(token@ =~= seq!['J', 'J', 'J']);
        return Some(Card::joker());
    }
    let num = match (digit_value(first), digit_value(second)) {
        (Some(tens), Some(ones)) => 10 * tens + ones,
        (None, Some(ones)) => {
            if first != '+' {
                return None;
            }
            ones
        },
        _ => {
            return None;
        },
    };
    if num <= 12 && is_suit_letter(third) {
        Some(Card::from(num, third))
    } else {
        None
    }
}

fn digit_text(d: u8) -> (text: &'static str)
    requires
        d <= 9,
    ensures
        text@ == seq![digit_char(d as int)],
{
    proof {
        reveal_strlit("0");
        reveal_strlit("1");
        reveal_strlit("2");
        reveal_strlit("3");
        reveal_strlit("4");
        reveal_strlit("5");
        reveal_strlit("6");
        reveal_strlit("7");
        reveal_strlit("8");
        reveal_strlit("9");
    }
    let text = match d {
        0 => "0",
        1 => "1",
        2 => "2",
        3 => "3",
        4 => "4",
        5 => "5",
        6 => "6",
        7 => "7",
        8 => "8",
        _ => "9",
    };
    assert(text@ =~= seq![digit_char(d as int)]);
    text
}

fn suit_text(card: &Card) -> (text: &'static str)
    ensures
        text@ == seq![card.suit_letter()],
{
    proof {
        reveal_strlit("H");
        reveal_strlit("D");
        reveal_strlit("C");
        reveal_strlit("S");
        reveal_strlit("J");
    }
    let text = match card {
        Card::Heart(_) => "H",
        Card::Diamond(_) => "D",
        Card::Club(_) => "C",
        Card::Spade(_) => "S",
        Card::Joker => "J",
    };
    assert(text@ =~= seq![card.suit_letter()]);
    text
}

impl Card {
    /// Reads a hand from tokens such as `05D` and `JJJ`. A token that names
    /// no card is passed over.
    pub fn hand_from(cards: Vec<&str>) -> (hand: Vec<Self>)
        ensures
            hand@ == cards_of_tokens(tokens_view(cards)),
            forall|i: int| 0 <= i < hand.len() ==> (#[trigger] hand@[i]).is_well_formed(),
    {
        let ghost tokens = tokens_view(cards);
        let mut hand: Vec<Card> = Vec::new();
        let mut i: usize = 0;
        while i < cards.len()
            invariant
                i <= cards.len(),
                tokens == tokens_view(cards),
                hand@ == cards_of_tokens(tokens.take(i as int)),
                forall|k: int| 0 <= k < hand.len() ==> (#[trigger] hand@[k]).is_well_formed(),
            decreases cards.len() - i,
        {
            proof {
                assert(tokens.take(i as int + 1).drop_last() =~= tokens.take(i as int));
                assert(tokens.take(i as int + 1).last() == cards@[i as int]@);
            }
            match card_from_token(cards[i]) {
                Some(card) => {
                    hand.push(card);
                },
                None => {},
            }
            i += 1;
        }
        proof {
            assert(tokens.take(i as int) =~= tokens);
        }
        hand
    }

    /// Writes the card as text: `JJJ` for the joker, else the rank in two
    /// digits and the letter of the suit, as in `07H`.
    pub fn label(&self) -> (text: String)
        ensures
            text@ == label_text(*self),
    {
        let mut text = String::new();
        if self.is_joker() {
            proof {
                reveal_strlit("JJJ");
            }
            text.append("JJJ");
            assert(text@ =~= label_text(*self));
        } else {
            let n = self.get_num();
            if n >= 100 {
                text.append(digit_text(n / 100));
                text.append(digit_text((n / 10) % 10));
            } else {
                text.append(digit_text(n / 10));
            }
            text.append(digit_text(n % 10));
            text.append(suit_text(self));
            assert(text@ =~= label_text(*self));
        }
        text
    }
}

} // verus!
