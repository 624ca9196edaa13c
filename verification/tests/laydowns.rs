use mayi_laydown::hand::{remove_card, remove_cards};
use mayi_laydown::{
    get_all_laydown_possibilities, get_all_laydown_possibilities_helper, get_foursies,
    get_threesies, Card,
};

fn hand(tokens: Vec<&str>) -> Vec<Card> {
    let cards = Card::hand_from(tokens.clone());
    assert_eq!(cards.len(), tokens.len());
    cards
}

fn laydown(lists: Vec<Vec<&str>>) -> Vec<Vec<Card>> {
    lists.into_iter().map(hand).collect()
}

fn is_drawn_from(cards: &Vec<Card>, hand: &Vec<Card>) -> bool {
    let mut left = hand.clone();
    for card in cards {
        match left.iter().position(|other| other == card) {
            Some(at) => {
                left.remove(at);
            }
            None => return false,
        }
    }
    true
}

fn all_cards(laydown: &Vec<Vec<Card>>) -> Vec<Card> {
    laydown.iter().flat_map(|run| run.iter().copied()).collect()
}

fn has_no_duplicates(laydowns: &Vec<Vec<Vec<Card>>>) -> bool {
    for i in 0..laydowns.len() {
        for j in 0..i {
            if laydowns[i] == laydowns[j] {
                return false;
            }
        }
    }
    true
}

fn same_set(a: &Vec<Vec<Vec<Card>>>, b: &Vec<Vec<Vec<Card>>>) -> bool {
    a.iter().all(|x| b.contains(x)) && b.iter().all(|x| a.contains(x))
}

fn sample_hand() -> Vec<Card> {
    hand(vec!["03D", "12D", "00D", "JJJ", "01D", "11D", "07H", "10H", "08H", "03S", "03D"])
}

fn mixed_hand() -> Vec<Card> {
    hand(vec![
        "04C", "05C", "JJJ", "07C", "08C", "09H", "09D", "09S", "JJJ", "02S", "02H", "02D", "06C",
    ])
}

#[test]
fn remove_card_takes_the_first_copy_only() {
    let mut cards = hand(vec!["03D", "JJJ", "03D", "JJJ"]);
    remove_card(&mut cards, &Card::Joker);
    assert_eq!(cards, hand(vec!["03D", "03D", "JJJ"]));
    remove_card(&mut cards, &Card::Diamond(3));
    assert_eq!(cards, hand(vec!["03D", "JJJ"]));
    remove_card(&mut cards, &Card::Heart(3));
    assert_eq!(cards, hand(vec!["03D", "JJJ"]));
}

#[test]
fn remove_cards_takes_each_card_once() {
    let cards = hand(vec!["03D", "JJJ", "05H", "03D", "JJJ", "03D"]);
    let run = hand(vec!["03D", "JJJ", "03D"]);
    assert_eq!(remove_cards(&cards, &run), hand(vec!["05H", "JJJ", "03D"]));
    assert_eq!(remove_cards(&cards, &vec![]), cards);
    assert_eq!(remove_cards(&cards, &cards), vec![]);
}

#[test]
fn nothing_asked_for_is_met_by_the_empty_laydown() {
    let empty: Vec<Vec<Card>> = vec![];
    assert_eq!(get_all_laydown_possibilities(0, 0, &vec![]), vec![empty.clone()]);
    assert_eq!(get_all_laydown_possibilities(0, 0, &sample_hand()), vec![empty]);
}

#[test]
fn a_hand_without_runs_has_no_laydown() {
    let cards = hand(vec!["00H", "05D", "09S"]);
    let none: Vec<Vec<Vec<Card>>> = vec![];
    assert_eq!(get_all_laydown_possibilities(1, 0, &cards), none);
    assert_eq!(get_all_laydown_possibilities(0, 1, &cards), none);
    assert_eq!(get_all_laydown_possibilities(1, 2, &cards), none);
    assert_eq!(get_all_laydown_possibilities(1, 1, &vec![]), none);
}

#[test]
fn one_run_asked_for_gives_each_run_as_a_laydown() {
    let cards = mixed_hand();
    let foursies = get_foursies(&cards, &0);
    let threesies = get_threesies(&cards, &0);
    let as_laydowns =
        |runs: Vec<Vec<Card>>| runs.into_iter().map(|run| vec![run]).collect::<Vec<_>>();
    assert!(foursies.len() > 1);
    assert!(threesies.len() > 1);
    assert_eq!(get_all_laydown_possibilities(1, 0, &cards), as_laydowns(foursies));
    assert_eq!(get_all_laydown_possibilities(0, 1, &cards), as_laydowns(threesies));
}

#[test]
fn the_sample_hand_has_one_laydown_of_two_foursies_and_a_threesy() {
    let cards = sample_hand();
    assert_eq!(
        get_all_laydown_possibilities(2, 1, &cards),
        vec![laydown(vec![
            vec!["07H", "08H", "JJJ", "10H"],
            vec!["11D", "12D", "00D", "01D"],
            vec!["03D", "03D", "03S"],
        ])]
    );
}

#[test]
fn foursies_come_before_threesies() {
    let cards = hand(vec!["09H", "09D", "09S", "01C", "02C", "03C", "04C"]);
    assert_eq!(
        get_all_laydown_possibilities(1, 1, &cards),
        vec![laydown(vec![vec!["01C", "02C", "03C", "04C"], vec!["09H", "09D", "09S"]])]
    );
}

#[test]
fn foursies_of_two_suits_come_in_one_order_only() {
    let cards = hand(vec!["00D", "01D", "02D", "03D", "00H", "01H", "02H", "03H"]);
    assert_eq!(
        get_all_laydown_possibilities(2, 0, &cards),
        vec![laydown(vec![vec!["00H", "01H", "02H", "03H"], vec!["00D", "01D", "02D", "03D"]])]
    );
}

#[test]
fn threesies_of_two_ranks_come_in_one_order_only() {
    let cards = hand(vec!["09H", "09D", "09S", "02H", "02D", "02S"]);
    assert_eq!(
        get_all_laydown_possibilities(0, 2, &cards),
        vec![laydown(vec![vec!["02H", "02D", "02S"], vec!["09H", "09D", "09S"]])]
    );
}

#[test]
fn foursies_of_one_suit_come_in_both_orders() {
    let cards = hand(vec!["00H", "01H", "02H", "03H", "04H", "05H", "06H", "07H"]);
    assert_eq!(
        get_all_laydown_possibilities(2, 0, &cards),
        vec![
            laydown(vec![vec!["00H", "01H", "02H", "03H"], vec!["04H", "05H", "06H", "07H"]]),
            laydown(vec![vec!["04H", "05H", "06H", "07H"], vec!["00H", "01H", "02H", "03H"]]),
        ]
    );
}

#[test]
fn the_helper_takes_the_bounds_of_the_first_runs() {
    let cards = hand(vec!["00D", "01D", "02D", "03D", "00H", "01H", "02H", "03H"]);
    let hearts = laydown(vec![vec!["00H", "01H", "02H", "03H"]]);
    let diamonds = laydown(vec![vec!["00D", "01D", "02D", "03D"]]);
    assert_eq!(
        get_all_laydown_possibilities_helper(1, 0, &cards, &0, &0),
        vec![diamonds.clone(), hearts]
    );
    assert_eq!(get_all_laydown_possibilities_helper(1, 0, &cards, &1, &0), vec![diamonds]);
    assert_eq!(get_all_laydown_possibilities_helper(1, 0, &cards, &2, &0).len(), 0);

    let ranks = hand(vec!["09H", "09D", "09S", "02H", "02D", "02S"]);
    let nines = laydown(vec![vec!["09H", "09D", "09S"]]);
    assert_eq!(get_all_laydown_possibilities_helper(0, 1, &ranks, &4, &3), vec![nines]);
    assert_eq!(get_all_laydown_possibilities_helper(0, 1, &ranks, &0, &2).len(), 2);
    assert_eq!(get_all_laydown_possibilities_helper(0, 1, &ranks, &0, &10).len(), 0);
}

#[test]
fn runs_of_a_laydown_share_no_card_of_the_hand() {
    let cards = mixed_hand();
    for (foursies, threesies) in [(1, 1), (1, 2), (0, 2), (2, 0), (0, 3)] {
        let found = get_all_laydown_possibilities(foursies, threesies, &cards);
        for laydown in found.iter() {
            assert_eq!(laydown.len(), foursies + threesies);
            assert!(is_drawn_from(&all_cards(laydown), &cards));
            for (k, run) in laydown.iter().enumerate() {
                assert!(run.len() >= if k < foursies { 4 } else { 3 });
                assert!(!run[0].is_joker());
            }
        }
        assert!(has_no_duplicates(&found));
    }
    assert!(get_all_laydown_possibilities(1, 2, &cards).len() > 0);
}

#[test]
fn searching_again_finds_the_same_laydowns() {
    let cards = mixed_hand();
    for (foursies, threesies) in [(0, 0), (1, 0), (0, 1), (1, 1), (1, 2), (0, 2)] {
        let first = get_all_laydown_possibilities(foursies, threesies, &cards);
        let second = get_all_laydown_possibilities(foursies, threesies, &cards);
        assert_eq!(first, second);
    }
}

#[test]
fn the_order_of_the_hand_does_not_change_the_set_of_laydowns() {
    let cards = mixed_hand();
    let mut turned = cards.clone();
    turned.reverse();
    let mut shifted = cards.clone();
    shifted.rotate_left(5);
    for (foursies, threesies) in [(1, 0), (0, 1), (1, 1), (1, 2), (0, 2)] {
        let found = get_all_laydown_possibilities(foursies, threesies, &cards);
        let of_turned = get_all_laydown_possibilities(foursies, threesies, &turned);
        let of_shifted = get_all_laydown_possibilities(foursies, threesies, &shifted);
        assert!(same_set(&found, &of_turned));
        assert!(same_set(&found, &of_shifted));
        assert_eq!(found.len(), of_turned.len());
        assert_eq!(found.len(), of_shifted.len());
    }
}

#[test]
fn a_joker_more_never_makes_the_laydowns_fewer() {
    let hands = vec![
        mixed_hand(),
        sample_hand(),
        hand(vec!["00H", "05D", "09S"]),
        hand(vec!["00H", "01H", "02H"]),
        hand(vec!["09H", "09D", "02H", "02D", "JJJ"]),
        vec![],
    ];
    for cards in hands {
        for (foursies, threesies) in [(0, 0), (1, 0), (0, 1), (1, 1), (0, 2)] {
            let found = get_all_laydown_possibilities(foursies, threesies, &cards);
            for at in [0, cards.len() / 2, cards.len()] {
                let mut more = cards.clone();
                more.insert(at, Card::Joker);
                let with_joker = get_all_laydown_possibilities(foursies, threesies, &more);
                assert!(found.len() <= with_joker.len());
                assert!(found.iter().all(|laydown| with_joker.contains(laydown)));
            }
        }
    }
}

#[test]
fn a_joker_can_make_the_first_laydown() {
    let cards = hand(vec!["00H", "01H", "02H"]);
    assert_eq!(get_all_laydown_possibilities(1, 0, &cards).len(), 0);
    let mut more = cards.clone();
    more.push(Card::Joker);
    assert_eq!(
        get_all_laydown_possibilities(1, 0, &more),
        vec![laydown(vec![vec!["00H", "01H", "02H", "JJJ"]])]
    );
}
