use mayi_laydown::{
    get_foursies, get_runs, get_runs_helper, get_threesies, Card, RunConstraints, RunKind,
};

fn hand(tokens: Vec<&str>) -> Vec<Card> {
    let cards = Card::hand_from(tokens.clone());
    assert_eq!(cards.len(), tokens.len());
    cards
}

fn runs(lists: Vec<Vec<&str>>) -> Vec<Vec<Card>> {
    lists.into_iter().map(hand).collect()
}

fn is_drawn_from(cards: &Vec<Card>, hand: &Vec<Card>) -> bool {
    let mut left = hand.clone();
    for card in cards {
        match left.iter().position(|other| other == card) {
            Some(at) => {
                left.remove(at);
            }
            None => return false,
        }
    }
    true
}

fn follows_rules(rules: &RunConstraints, run: &Vec<Card>) -> bool {
    if run.is_empty() || !rules.can_start(&run[0]) {
        return false;
    }
    let mut last = run[0];
    for card in run.iter().skip(1) {
        if !rules.is_next(&last, card) {
            return false;
        }
        last = if card.is_joker() { rules.replace_joker(&last) } else { *card };
    }
    true
}

fn has_no_duplicates(runs: &Vec<Vec<Card>>) -> bool {
    for i in 0..runs.len() {
        for j in 0..i {
            if runs[i] == runs[j] {
                return false;
            }
        }
    }
    true
}

fn sample_hand() -> Vec<Card> {
    hand(vec!["03D", "12D", "00D", "JJJ", "01D", "11D", "07H", "10H", "08H", "03S", "03D"])
}

#[test]
fn rules_of_a_foursy() {
    let rules = RunConstraints::foursy(1);
    assert_eq!(rules, RunConstraints { kind: RunKind::Foursy, lower_bound: 1 });
    assert!(!rules.can_start(&Card::Joker));
    assert!(!rules.can_start(&Card::Heart(4)));
    assert!(rules.can_start(&Card::Diamond(4)));
    assert!(rules.can_start(&Card::Spade(4)));
    assert!(rules.is_next(&Card::Heart(4), &Card::Heart(5)));
    assert!(rules.is_next(&Card::Heart(12), &Card::Heart(0)));
    assert!(rules.is_next(&Card::Heart(4), &Card::Joker));
    assert!(!rules.is_next(&Card::Heart(4), &Card::Heart(4)));
    assert!(!rules.is_next(&Card::Heart(4), &Card::Heart(6)));
    assert!(!rules.is_next(&Card::Heart(4), &Card::Diamond(5)));
    assert_eq!(rules.replace_joker(&Card::Club(12)), Card::Club(0));
    assert_eq!(rules.replace_joker(&Card::Club(3)), Card::Club(4));
}

#[test]
fn rules_of_a_threesy() {
    let rules = RunConstraints::threesy(5);
    assert_eq!(rules, RunConstraints { kind: RunKind::Threesy, lower_bound: 5 });
    assert!(!rules.can_start(&Card::Joker));
    assert!(!rules.can_start(&Card::Spade(4)));
    assert!(rules.can_start(&Card::Heart(5)));
    assert!(rules.can_start(&Card::Heart(12)));
    assert!(rules.is_next(&Card::Diamond(7), &Card::Diamond(7)));
    assert!(rules.is_next(&Card::Diamond(7), &Card::Spade(7)));
    assert!(rules.is_next(&Card::Diamond(7), &Card::Joker));
    assert!(!rules.is_next(&Card::Diamond(7), &Card::Heart(7)));
    assert!(!rules.is_next(&Card::Diamond(7), &Card::Diamond(8)));
    assert_eq!(rules.replace_joker(&Card::Club(3)), Card::Club(3));
}

#[test]
fn four_cards_in_sequence_are_one_foursy() {
    let cards = hand(vec!["05H", "06H", "07H", "08H"]);
    assert_eq!(get_foursies(&cards, &0), runs(vec![vec!["05H", "06H", "07H", "08H"]]));
}

#[test]
fn three_cards_in_sequence_are_no_foursy() {
    let cards = hand(vec!["05H", "06H", "07H"]);
    assert_eq!(get_foursies(&cards, &0), runs(vec![]));
}

#[test]
fn an_empty_hand_has_no_runs() {
    assert_eq!(get_foursies(&vec![], &0), runs(vec![]));
    assert_eq!(get_threesies(&vec![], &0), runs(vec![]));
}

#[test]
fn foursies_with_a_joker_come_in_the_order_of_the_search() {
    let cards = hand(vec!["05H", "06H", "JJJ", "07H", "08H"]);
    assert_eq!(
        get_foursies(&cards, &0),
        runs(vec![
            vec!["05H", "06H", "JJJ", "08H"],
            vec!["05H", "06H", "07H", "JJJ"],
            vec!["05H", "06H", "07H", "08H"],
            vec!["05H", "06H", "07H", "08H", "JJJ"],
            vec!["05H", "JJJ", "07H", "08H"],
            vec!["06H", "07H", "08H", "JJJ"],
        ])
    );
}

#[test]
fn a_foursy_goes_round_from_the_king_to_the_ace() {
    let cards = hand(vec!["00S", "11S", "01S", "12S"]);
    assert_eq!(get_foursies(&cards, &0), runs(vec![vec!["11S", "12S", "00S", "01S"]]));
}

#[test]
fn a_foursy_may_hold_several_jokers_but_not_begin_with_one() {
    let cards = hand(vec!["JJJ", "04C", "JJJ", "JJJ"]);
    assert_eq!(get_foursies(&cards, &0), runs(vec![vec!["04C", "JJJ", "JJJ", "JJJ"]]));
    let jokers = hand(vec!["JJJ", "JJJ", "JJJ", "JJJ", "JJJ"]);
    assert_eq!(get_foursies(&jokers, &0), runs(vec![]));
    assert_eq!(get_threesies(&jokers, &0), runs(vec![]));
}

#[test]
fn the_least_suit_number_bounds_the_first_card_of_a_foursy() {
    let cards = hand(vec!["05H", "06H", "07H", "08H", "01C", "02C", "03C", "04C"]);
    let hearts = vec!["05H", "06H", "07H", "08H"];
    let clubs = vec!["01C", "02C", "03C", "04C"];
    assert_eq!(get_foursies(&cards, &0), runs(vec![hearts.clone(), clubs.clone()]));
    assert_eq!(get_foursies(&cards, &1), runs(vec![clubs.clone()]));
    assert_eq!(get_foursies(&cards, &2), runs(vec![clubs.clone()]));
    assert_eq!(get_foursies(&cards, &3), runs(vec![]));
    assert_eq!(get_foursies(&cards, &255), runs(vec![]));
}

#[test]
fn the_least_rank_bounds_the_first_card_of_a_threesy() {
    let cards = hand(vec!["03H", "03D", "03S", "09D", "09C", "09S"]);
    let threes = vec!["03H", "03D", "03S"];
    let nines = vec!["09D", "09C", "09S"];
    assert_eq!(get_threesies(&cards, &0), runs(vec![threes.clone(), nines.clone()]));
    assert_eq!(get_threesies(&cards, &3), runs(vec![threes.clone(), nines.clone()]));
    assert_eq!(get_threesies(&cards, &4), runs(vec![nines.clone()]));
    assert_eq!(get_threesies(&cards, &9), runs(vec![nines.clone()]));
    assert_eq!(get_threesies(&cards, &10), runs(vec![]));
}

#[test]
fn equal_cards_give_each_run_once() {
    let cards = hand(vec!["03D", "03D", "03D"]);
    assert_eq!(get_threesies(&cards, &0), runs(vec![vec!["03D", "03D", "03D"]]));
    let with_jokers = hand(vec!["07D", "JJJ", "JJJ"]);
    assert_eq!(get_threesies(&with_jokers, &0), runs(vec![vec!["07D", "JJJ", "JJJ"]]));
}

#[test]
fn suits_of_a_threesy_never_descend() {
    let cards = hand(vec!["03S", "03H", "03D"]);
    assert_eq!(get_threesies(&cards, &0), runs(vec![vec!["03H", "03D", "03S"]]));
}

#[test]
fn a_joker_in_a_threesy_stands_for_the_card_before_it() {
    let cards = hand(vec!["03D", "JJJ", "03H", "03S"]);
    let found = get_threesies(&cards, &0);
    assert!(found.contains(&hand(vec!["03D", "JJJ", "03S"])));
    assert!(found.contains(&hand(vec!["03H", "JJJ", "03D", "03S"])));
    assert!(!found.contains(&hand(vec!["03D", "JJJ", "03H"])));
    assert!(!found.contains(&hand(vec!["03S", "JJJ", "03D"])));
}

#[test]
fn the_diamonds_of_the_sample_hand_hold_the_foursy_round_the_ace() {
    let cards = sample_hand();
    let found = get_foursies(&cards, &0);
    assert!(found.contains(&hand(vec!["11D", "12D", "00D", "01D"])));
    assert!(found.contains(&hand(vec!["11D", "12D", "JJJ", "01D"])));
    assert!(found.contains(&hand(vec!["11D", "JJJ", "00D", "01D"])));
    assert!(found.contains(&hand(vec!["11D", "12D", "00D", "JJJ"])));
    assert!(found.contains(&hand(vec!["11D", "12D", "00D", "01D", "JJJ", "03D"])));
    assert!(found.contains(&hand(vec!["07H", "08H", "JJJ", "10H"])));
}

#[test]
fn foursies_of_the_sample_hand_obey_the_rules() {
    let cards = sample_hand();
    for bound in 0..5u8 {
        let rules = RunConstraints::foursy(bound);
        let found = get_foursies(&cards, &bound);
        assert!(has_no_duplicates(&found));
        for run in found.iter() {
            assert!(run.len() >= 4);
            assert!(is_drawn_from(run, &cards));
            assert!(follows_rules(&rules, run));
            assert!(run[0].get_suit_num() >= bound);
        }
    }
    assert_eq!(get_foursies(&cards, &2).len(), 0);
}

#[test]
fn threesies_of_the_sample_hand_obey_the_rules() {
    let cards = sample_hand();
    for bound in 0..14u8 {
        let rules = RunConstraints::threesy(bound);
        let found = get_threesies(&cards, &bound);
        assert!(has_no_duplicates(&found));
        for run in found.iter() {
            assert!(run.len() >= 3);
            assert!(is_drawn_from(run, &cards));
            assert!(follows_rules(&rules, run));
            assert!(run[0].get_num() >= bound);
        }
    }
}

#[test]
fn five_threes_give_nine_threesies() {
    let cards = hand(vec!["03S", "03D", "03H", "03S", "03D"]);
    let found = get_threesies(&cards, &0);
    assert_eq!(
        found,
        runs(vec![
            vec!["03D", "03S", "03S"],
            vec!["03D", "03D", "03S"],
            vec!["03D", "03D", "03S", "03S"],
            vec!["03H", "03S", "03S"],
            vec!["03H", "03D", "03S"],
            vec!["03H", "03D", "03S", "03S"],
            vec!["03H", "03D", "03D"],
            vec!["03H", "03D", "03D", "03S"],
            vec!["03H", "03D", "03D", "03S", "03S"],
        ])
    );
    assert!(has_no_duplicates(&found));
    for run in found.iter() {
        assert!(run.iter().all(|card| card.get_num() == 3));
        assert!(run.windows(2).all(|pair| pair[0].get_suit_num() <= pair[1].get_suit_num()));
    }
    let lengths: Vec<usize> = found.iter().map(|run| run.len()).collect();
    assert!(lengths.contains(&3) && lengths.contains(&4) && lengths.contains(&5));
}

#[test]
fn every_run_that_the_hand_holds_is_found() {
    let cards = hand(vec!["02C", "03C", "JJJ", "05C", "JJJ", "02C"]);
    let rules = RunConstraints::foursy(0);
    let found = get_foursies(&cards, &0);
    let pool = vec![Card::Club(2), Card::Club(3), Card::Club(5), Card::Joker];
    let mut candidates: Vec<Vec<Card>> = vec![vec![]];
    let mut expected = 0;
    for _ in 0..6 {
        let mut longer = Vec::new();
        for candidate in candidates.iter() {
            for card in pool.iter() {
                let mut next = candidate.clone();
                next.push(*card);
                longer.push(next);
            }
        }
        for candidate in longer.iter() {
            let fits = candidate.len() >= 4
                && is_drawn_from(candidate, &cards)
                && follows_rules(&rules, candidate);
            assert_eq!(found.contains(candidate), fits);
            if fits {
                expected += 1;
            }
        }
        candidates = longer;
    }
    assert_eq!(found.len(), expected);
}

#[test]
fn get_runs_takes_any_least_length() {
    let cards = hand(vec!["05H", "06H", "07H"]);
    let rules = RunConstraints::foursy(0);
    assert_eq!(
        get_runs(&cards, 1, &rules),
        runs(vec![
            vec!["05H"],
            vec!["05H", "06H"],
            vec!["05H", "06H", "07H"],
            vec!["06H"],
            vec!["06H", "07H"],
            vec!["07H"],
        ])
    );
    assert_eq!(get_runs(&cards, 3, &rules), runs(vec![vec!["05H", "06H", "07H"]]));
    assert_eq!(get_runs(&cards, 4, &rules), runs(vec![]));
    assert_eq!(get_runs(&cards, 0, &rules).len(), 6);
}

#[test]
fn get_runs_helper_lists_the_empty_way_first() {
    let rules = RunConstraints::foursy(0);
    let cards = hand(vec!["07H", "06H", "09H", "JJJ"]);
    assert_eq!(
        get_runs_helper(&cards, &Card::Heart(5), &rules),
        runs(vec![
            vec![],
            vec!["06H"],
            vec!["06H", "07H"],
            vec!["06H", "07H", "JJJ"],
            vec!["06H", "07H", "JJJ", "09H"],
            vec!["06H", "JJJ"],
            vec!["JJJ"],
            vec!["JJJ", "07H"],
        ])
    );
    assert_eq!(get_runs_helper(&vec![], &Card::Heart(5), &rules), runs(vec![vec![]]));
}
