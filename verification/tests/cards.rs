use mayi_laydown::notation::card_from_token;
use mayi_laydown::Card;
use std::cmp::Ordering;

#[test]
fn from_builds_the_card_of_each_suit_letter() {
    assert_eq!(Card::from(5, 'H'), Card::Heart(5));
    assert_eq!(Card::from(5, 'h'), Card::Heart(5));
    assert_eq!(Card::from(0, 'D'), Card::Diamond(0));
    assert_eq!(Card::from(0, 'd'), Card::Diamond(0));
    assert_eq!(Card::from(12, 'C'), Card::Club(12));
    assert_eq!(Card::from(12, 'c'), Card::Club(12));
    assert_eq!(Card::from(7, 'S'), Card::Spade(7));
    assert_eq!(Card::from(7, 's'), Card::Spade(7));
}

#[test]
fn from_builds_the_joker_whatever_the_rank() {
    assert_eq!(Card::from(0, 'J'), Card::Joker);
    assert_eq!(Card::from(12, 'j'), Card::Joker);
    assert_eq!(Card::joker(), Card::Joker);
}

#[test]
fn getters_tell_suit_and_rank() {
    let cards = [Card::Heart(3), Card::Diamond(4), Card::Club(5), Card::Spade(6), Card::Joker];
    let suits: Vec<char> = cards.iter().map(|c| c.get_suit()).collect();
    let suit_nums: Vec<u8> = cards.iter().map(|c| c.get_suit_num()).collect();
    let nums: Vec<u8> = cards.iter().map(|c| c.get_num()).collect();
    let jokers: Vec<bool> = cards.iter().map(|c| c.is_joker()).collect();
    assert_eq!(suits, vec!['H', 'D', 'C', 'S', 'J']);
    assert_eq!(suit_nums, vec![0, 1, 2, 3, 4]);
    assert_eq!(nums, vec![3, 4, 5, 6, 13]);
    assert_eq!(jokers, vec![false, false, false, false, true]);
}

#[test]
fn next_card_keeps_the_suit_and_wraps_after_the_king() {
    assert_eq!(Card::Heart(0).get_next_card(), Card::Heart(1));
    assert_eq!(Card::Diamond(11).get_next_card(), Card::Diamond(12));
    assert_eq!(Card::Club(12).get_next_card(), Card::Club(0));
    assert_eq!(Card::Spade(12).get_next_card(), Card::Spade(0));
    assert_eq!(Card::Joker.get_next_card(), Card::Joker);
}

#[test]
fn thirteen_steps_lead_back_to_the_card() {
    for rank in 0..13u8 {
        let start = Card::Club(rank);
        let mut card = start;
        for _ in 0..13 {
            card = card.get_next_card();
            assert_eq!(card.get_suit(), 'C');
            assert!(card.get_num() <= 12);
        }
        assert_eq!(card, start);
    }
}

#[test]
fn compare_is_the_difference_of_five_times_rank_plus_suit() {
    assert_eq!(Card::Heart(3).compare(&Card::Diamond(3)), -1);
    assert_eq!(Card::Diamond(3).compare(&Card::Heart(3)), 1);
    assert_eq!(Card::Club(0).compare(&Card::Heart(0)), 2);
    assert_eq!(Card::Joker.compare(&Card::Spade(12)), 6);
    assert_eq!(Card::Heart(0).compare(&Card::Joker), -69);
    assert_eq!(Card::Spade(2).compare(&Card::Heart(3)), -2);
    assert_eq!(Card::Spade(9).compare(&Card::Spade(9)), 0);
}

#[test]
fn compare_is_zero_only_for_equal_cards() {
    let mut cards = vec![Card::Joker];
    for rank in 0..13u8 {
        cards.push(Card::Heart(rank));
        cards.push(Card::Diamond(rank));
        cards.push(Card::Club(rank));
        cards.push(Card::Spade(rank));
    }
    for a in cards.iter() {
        for b in cards.iter() {
            assert_eq!(a.compare(b) == 0, a == b);
            assert_eq!(a.compare(b), -b.compare(a));
        }
    }
}

#[test]
fn cards_are_ordered_by_rank_then_suit_with_the_joker_last() {
    assert!(Card::Heart(3) < Card::Diamond(3));
    assert!(Card::Spade(2) < Card::Heart(3));
    assert!(Card::Spade(12) < Card::Joker);
    assert!(Card::Club(7) > Card::Diamond(7));
    assert!(Card::Club(7) >= Card::Club(7));
    assert_eq!(Card::Heart(1).partial_cmp(&Card::Heart(1)), Some(Ordering::Equal));
    assert_eq!(Card::Heart(1).partial_cmp(&Card::Spade(0)), Some(Ordering::Greater));
    assert_eq!(Card::Heart(1).partial_cmp(&Card::Joker), Some(Ordering::Less));
}

#[test]
fn value_of_each_kind_of_card() {
    assert_eq!(Card::Heart(0).value(), 15);
    assert_eq!(Card::Club(1).value(), 2);
    assert_eq!(Card::Diamond(5).value(), 6);
    assert_eq!(Card::Diamond(8).value(), 9);
    assert_eq!(Card::Spade(9).value(), 10);
    assert_eq!(Card::Spade(10).value(), 10);
    assert_eq!(Card::Heart(11).value(), 10);
    assert_eq!(Card::Club(12).value(), 10);
    assert_eq!(Card::Joker.value(), 20);
}

#[test]
fn label_writes_two_digits_and_the_suit_letter() {
    assert_eq!(Card::Heart(7).label(), "07H");
    assert_eq!(Card::Spade(12).label(), "12S");
    assert_eq!(Card::Diamond(0).label(), "00D");
    assert_eq!(Card::Club(10).label(), "10C");
    assert_eq!(Card::Joker.label(), "JJJ");
}

#[test]
fn label_of_a_rank_beyond_the_suit_still_shows_it() {
    assert_eq!(Card::Heart(13).label(), "13H");
    assert_eq!(Card::Club(200).label(), "200C");
    assert_eq!(Card::Spade(255).label(), "255S");
}

#[test]
fn hand_from_reads_cards_in_order() {
    let hand = Card::hand_from(vec!["03S", "JJJ", "12c", "00H", "03S"]);
    assert_eq!(
        hand,
        vec![Card::Spade(3), Card::Joker, Card::Club(12), Card::Heart(0), Card::Spade(3)]
    );
}

#[test]
fn hand_from_passes_over_tokens_that_name_no_card() {
    let hand = Card::hand_from(vec![
        "xxH", "03S", "", "0", "05", "13H", "99D", "05X", "5 H", "-5H", "JJ", "JJJJ", "jjj", "07D",
    ]);
    assert_eq!(hand, vec![Card::Spade(3), Card::Diamond(7)]);
}

#[test]
fn hand_from_reads_the_forms_of_a_rank_and_the_joker_letter() {
    let hand = Card::hand_from(vec!["+5H", "05Hxyz", "05J", "12j", "+0s"]);
    assert_eq!(
        hand,
        vec![Card::Heart(5), Card::Heart(5), Card::Joker, Card::Joker, Card::Spade(0)]
    );
}

#[test]
fn hand_from_passes_over_tokens_with_other_scripts() {
    let hand = Card::hand_from(vec!["0\u{e9}H", "\u{e9}5H", "05\u{e9}", "\u{20ac}5H", "05H\u{e9}"]);
    assert_eq!(hand, vec![Card::Heart(5)]);
}

#[test]
fn hand_from_nothing_is_an_empty_hand() {
    assert_eq!(Card::hand_from(vec![]), vec![]);
}

#[test]
fn token_of_a_card_names_it() {
    assert_eq!(card_from_token("JJJ"), Some(Card::Joker));
    assert_eq!(card_from_token("11D"), Some(Card::Diamond(11)));
    assert_eq!(card_from_token("13D"), None);
    assert_eq!(card_from_token("1D"), None);
}

#[test]
fn label_of_each_card_is_read_back_as_that_card() {
    let mut cards = vec![Card::Joker];
    for rank in 0..13u8 {
        cards.push(Card::Heart(rank));
        cards.push(Card::Diamond(rank));
        cards.push(Card::Club(rank));
        cards.push(Card::Spade(rank));
    }
    for card in cards {
        let text = card.label();
        assert_eq!(card_from_token(&text), Some(card));
        assert_eq!(Card::hand_from(vec![text.as_str()]), vec![card]);
    }
}
