use mayi_laydown::deck::deal_card;
use mayi_laydown::Card;

fn sorted(mut cards: Vec<Card>) -> Vec<Card> {
    cards.sort_by(|a, b| a.compare(b).cmp(&0));
    cards
}

#[test]
fn one_deck_has_fifty_cards_and_two_have_a_hundred() {
    assert_eq!(Card::get_deck(1).len(), 50);
    assert_eq!(Card::get_deck(2).len(), 100);
}

#[test]
fn no_deck_has_no_cards() {
    assert_eq!(Card::get_deck(0), vec![]);
}

#[test]
fn a_deck_runs_through_hearts_diamonds_spades_clubs_and_two_jokers() {
    let deck = Card::get_deck(1);
    for rank in 0..12usize {
        assert_eq!(deck[rank], Card::Heart(rank as u8));
        assert_eq!(deck[12 + rank], Card::Diamond(rank as u8));
        assert_eq!(deck[24 + rank], Card::Spade(rank as u8));
        assert_eq!(deck[36 + rank], Card::Club(rank as u8));
    }
    assert_eq!(deck[48], Card::Joker);
    assert_eq!(deck[49], Card::Joker);
}

#[test]
fn a_deck_has_no_card_of_the_highest_rank() {
    let deck = Card::get_deck(3);
    assert!(deck.iter().all(|card| card.is_joker() || card.get_num() <= 11));
    assert_eq!(deck.iter().filter(|card| card.is_joker()).count(), 6);
}

#[test]
fn further_decks_repeat_the_first() {
    let one = Card::get_deck(1);
    let three = Card::get_deck(3);
    assert_eq!(three.len(), 150);
    for (i, card) in three.iter().enumerate() {
        assert_eq!(*card, one[i % 50]);
    }
}

#[test]
fn deal_card_moves_the_chosen_card_to_the_hand() {
    let mut deck = vec![Card::Heart(1), Card::Joker, Card::Spade(4)];
    let mut hand = vec![Card::Club(9)];
    deal_card(&mut deck, &mut hand, 1);
    assert_eq!(deck, vec![Card::Heart(1), Card::Spade(4)]);
    assert_eq!(hand, vec![Card::Club(9), Card::Joker]);
    deal_card(&mut deck, &mut hand, 1);
    assert_eq!(deck, vec![Card::Heart(1)]);
    assert_eq!(hand, vec![Card::Club(9), Card::Joker, Card::Spade(4)]);
    deal_card(&mut deck, &mut hand, 0);
    assert_eq!(deck, vec![]);
    assert_eq!(hand, vec![Card::Club(9), Card::Joker, Card::Spade(4), Card::Heart(1)]);
}

#[test]
fn a_random_hand_has_the_number_of_cards_asked_for() {
    assert_eq!(Card::get_rand_hand(0, 0).len(), 0);
    assert_eq!(Card::get_rand_hand(0, 1).len(), 0);
    assert_eq!(Card::get_rand_hand(1, 1).len(), 1);
    assert_eq!(Card::get_rand_hand(10, 1).len(), 10);
    assert_eq!(Card::get_rand_hand(20, 2).len(), 20);
}

#[test]
fn dealing_every_card_gives_the_decks_in_some_order() {
    for _ in 0..20 {
        assert_eq!(sorted(Card::get_rand_hand(50, 1)), sorted(Card::get_deck(1)));
    }
    assert_eq!(sorted(Card::get_rand_hand(100, 2)), sorted(Card::get_deck(2)));
}

#[test]
fn a_random_hand_takes_no_card_more_often_than_the_decks_hold_it() {
    for _ in 0..200 {
        let hand = Card::get_rand_hand(30, 1);
        let mut left = Card::get_deck(1);
        for card in hand {
            let at = left.iter().position(|other| *other == card);
            assert!(at.is_some());
            left.remove(at.unwrap());
        }
        assert_eq!(left.len(), 20);
    }
}

#[test]
fn random_hands_differ() {
    let first = Card::get_rand_hand(50, 1);
    let mut differs = false;
    for _ in 0..20 {
        if Card::get_rand_hand(50, 1) != first {
            differs = true;
        }
    }
    assert!(differs);
}
