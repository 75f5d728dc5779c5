use std::cmp::Ordering;

use holdem::card::Card;
use holdem::error::PokerError;
use holdem::hand::{tie_break_key, Evaluation, HandRank};
use holdem::showdown::{evaluate, CardGroups};

fn cards(text: &str) -> Vec<Card> {
    text.split_whitespace().map(|t| Card::of(t).unwrap()).collect()
}

fn seven(text: &str) -> [Card; 7] {
    let v = cards(text);
    assert_eq!(v.len(), 7);
    [v[0], v[1], v[2], v[3], v[4], v[5], v[6]]
}

fn eval(text: &str) -> Evaluation {
    evaluate(&cards(text)).unwrap()
}

fn check(text: &str, category: HandRank, key: &[u32], hand: &str) {
    let e = eval(text);
    assert_eq!(e.category, category, "category of {}", text);
    assert_eq!(e.key, key.to_vec(), "key of {}", text);
    assert_eq!(e.hand.to_vec(), cards(hand), "hand of {}", text);
    let (c, h) = Card::best_five(&seven(text));
    assert_eq!(c, category);
    assert_eq!(h, e.hand);
}

#[test]
fn wheel_is_five_high() {
    check("AS 2D 3H 4C 5S 9D 9H", HandRank::Straight, &[3], "AS 5S 4C 3H 2D");
}

#[test]
fn quads_take_the_highest_other_card_as_kicker() {
    check("AS AD AH AC 2D 3H 4C", HandRank::Quads, &[12, 2], "AS AH AC AD 4C");
}

#[test]
fn two_trips_make_a_boat() {
    check("AS AD AH KS KD KH 2C", HandRank::Boat, &[12, 11], "AS AH AD KS KH");
}

#[test]
fn straight_flush_beside_a_higher_straight() {
    // A nine-high straight flush in hearts; the ten of spades would make a
    // ten-high straight.
    check("9H 8H 7H 6H 5H TS 2D", HandRank::StraightFlush, &[7], "9H 8H 7H 6H 5H");
}

#[test]
fn straight_flush_beside_a_plain_flush_card() {
    // Six hearts: the ace of hearts is a higher flush card, outside the run.
    check("AH 9H 8H 7H 6H 5H 2D", HandRank::StraightFlush, &[7], "9H 8H 7H 6H 5H");
}

#[test]
fn royal_flush() {
    check("AS KS QS JS TS 2D 2H", HandRank::StraightFlush, &[12], "AS KS QS JS TS");
}

#[test]
fn steel_wheel() {
    check("AD 2D 3D 4D 5D KS KH", HandRank::StraightFlush, &[3], "AD 5D 4D 3D 2D");
}

#[test]
fn steel_wheel_among_six_of_the_suit() {
    check("AD KD 5D 4D 3D 2D 9S", HandRank::StraightFlush, &[3], "AD 5D 4D 3D 2D");
}

#[test]
fn highest_straight_flush_among_seven_of_the_suit() {
    check("9C 8C 7C 6C 5C 4C 3C", HandRank::StraightFlush, &[7], "9C 8C 7C 6C 5C");
}

#[test]
fn six_high_straight_flush_beats_the_steel_wheel() {
    check("AH 6H 5H 4H 3H 2H KD", HandRank::StraightFlush, &[4], "6H 5H 4H 3H 2H");
}

#[test]
fn quads_with_a_pair_beside() {
    check("7S 7H 7D 7C KS KD 2C", HandRank::Quads, &[5, 11], "7S 7H 7C 7D KS");
}

#[test]
fn quads_with_trips_beside() {
    check("2S 2H 2D 2C AS AH AD", HandRank::Quads, &[0, 12], "2S 2H 2C 2D AS");
}

#[test]
fn boat_with_the_pair_above_the_trips() {
    check("KS KD QS QH QD 3C 2H", HandRank::Boat, &[10, 11], "QS QH QD KS KD");
}

#[test]
fn boat_takes_the_higher_of_two_pairs() {
    check("5S 5H 5D 9C 9D JS JH", HandRank::Boat, &[3, 9], "5S 5H 5D JS JH");
}

#[test]
fn boat_beats_a_flush_in_the_same_cards() {
    check("KS KH KD 2S 2H 9S 5S", HandRank::Boat, &[11, 0], "KS KH KD 2S 2H");
}

#[test]
fn flush_takes_the_five_highest_of_the_suit() {
    check("AS JS 9S 7S 4S 3S KD", HandRank::Flush, &[12, 9, 7, 5, 2], "AS JS 9S 7S 4S");
}

#[test]
fn flush_beats_a_straight_in_the_same_cards() {
    check("9H 8H 7H 6C 5H 2H KD", HandRank::Flush, &[7, 6, 5, 3, 0], "9H 8H 7H 5H 2H");
}

#[test]
fn flush_of_seven() {
    check("KD QD 9D 8D 6D 4D 2D", HandRank::Flush, &[11, 10, 7, 6, 4], "KD QD 9D 8D 6D");
}

#[test]
fn straight_takes_the_highest_run() {
    check("9S 8D 7H 6C 5S 4D 3H", HandRank::Straight, &[7], "9S 8D 7H 6C 5S");
}

#[test]
fn straight_to_the_ace() {
    check("AS KD QH JC TS 2D 2H", HandRank::Straight, &[12], "AS KD QH JC TS");
}

#[test]
fn straight_through_a_pair_takes_the_higher_suit() {
    check("9S 8D 8S 7H 6C 5S KD", HandRank::Straight, &[7], "9S 8S 7H 6C 5S");
}

#[test]
fn six_high_straight_beats_the_wheel() {
    check("AS 6D 5H 4C 3S 2D KH", HandRank::Straight, &[4], "6D 5H 4C 3S 2D");
}

#[test]
fn wheel_with_the_king_between() {
    check("AS KD 5H 4C 3S 2D 9H", HandRank::Straight, &[3], "AS 5H 4C 3S 2D");
}

#[test]
fn straight_beats_trips_in_the_same_cards() {
    check("7S 7H 7D 6C 5S 4D 3H", HandRank::Straight, &[5], "7S 6C 5S 4D 3H");
}

#[test]
fn four_to_a_straight_is_no_straight() {
    check("AS KD QH JC 9S 3D 2H", HandRank::HighCard, &[12, 11, 10, 9, 7], "AS KD QH JC 9S");
}

#[test]
fn king_to_two_round_the_corner_is_no_straight() {
    check("KS AD 2H 3C 4S 9D 8H", HandRank::HighCard, &[12, 11, 7, 6, 2], "AD KS 9D 8H 4S");
}

#[test]
fn trips_take_two_kickers() {
    check("QS QH QD AC 9S 4D 2H", HandRank::Trips, &[10, 12, 7], "QS QH QD AC 9S");
}

#[test]
fn two_pair_takes_the_two_highest_pairs() {
    check("KS KD 9H 9C 4S 4D AH", HandRank::TwoPair, &[11, 7, 12], "KS KD 9H 9C AH");
}

#[test]
fn two_pair_kicker_may_come_from_a_third_pair() {
    check("AS AD KH KC QS QD 2H", HandRank::TwoPair, &[12, 11, 10], "AS AD KH KC QS");
}

#[test]
fn two_pair_with_a_low_kicker() {
    check("3S 3D 5H 5C 2S 4D 7H", HandRank::TwoPair, &[3, 1, 5], "5H 5C 3S 3D 7H");
}

#[test]
fn pair_takes_three_kickers() {
    check("8S 8D AH QC 9S 4D 2H", HandRank::Pair, &[6, 12, 10, 7], "8S 8D AH QC 9S");
}

#[test]
fn high_card_takes_the_five_highest() {
    check("AS QD 9H 7C 5S 3D 2H", HandRank::HighCard, &[12, 10, 7, 5, 3], "AS QD 9H 7C 5S");
}

#[test]
fn the_same_cards_twice_give_the_same_result() {
    let text = "KS KD 9H 9C 4S 4D AH";
    assert_eq!(eval(text), eval(text));
}

#[test]
fn the_order_of_the_cards_does_not_matter() {
    let hands = [
        "AS 2D 3H 4C 5S 9D 9H",
        "AS AD AH KS KD KH 2C",
        "9H 8H 7H 6H 5H TS 2D",
        "KS KD 9H 9C 4S 4D AH",
        "AS QD 9H 7C 5S 3D 2H",
        "9S 8D 8S 7H 6C 5S KD",
    ];
    for text in hands {
        let base = cards(text);
        let expected = evaluate(&base).unwrap();
        // every rotation, each of them also reversed
        for shift in 0..7 {
            let mut v = base.clone();
            v.rotate_left(shift);
            assert_eq!(evaluate(&v).unwrap(), expected);
            v.reverse();
            assert_eq!(evaluate(&v).unwrap(), expected);
            v.swap(0, 3);
            v.swap(2, 6);
            assert_eq!(evaluate(&v).unwrap(), expected);
        }
    }
}

#[test]
fn the_hand_is_five_of_the_seven_cards() {
    let hands = [
        "AS 2D 3H 4C 5S 9D 9H",
        "AS AD AH AC 2D 3H 4C",
        "AS AD AH KS KD KH 2C",
        "AS JS 9S 7S 4S 3S KD",
        "QS QH QD AC 9S 4D 2H",
        "AS AD KH KC QS QD 2H",
        "8S 8D AH QC 9S 4D 2H",
        "AS QD 9H 7C 5S 3D 2H",
    ];
    for text in hands {
        let input = cards(text);
        let e = evaluate(&input).unwrap();
        for (i, c) in e.hand.iter().enumerate() {
            assert!(input.contains(c));
            for d in e.hand[..i].iter() {
                assert_ne!(c, d);
            }
        }
    }
}

#[test]
fn fewer_or_more_than_seven_cards_are_refused() {
    assert_eq!(evaluate(&[]), Err(PokerError::InvalidInput));
    assert_eq!(evaluate(&cards("AS")), Err(PokerError::InvalidInput));
    assert_eq!(evaluate(&cards("AS KS QS JS TS")), Err(PokerError::InvalidInput));
    assert_eq!(evaluate(&cards("AS KS QS JS TS 9S")), Err(PokerError::InvalidInput));
    assert_eq!(evaluate(&cards("AS KS QS JS TS 9S 8S 7S")), Err(PokerError::InvalidInput));
}

#[test]
fn a_card_given_twice_is_refused() {
    assert_eq!(evaluate(&cards("AS KS QS JS TS 9S AS")), Err(PokerError::InvalidInput));
    assert_eq!(evaluate(&cards("2D 2D 3H 4C 5S 9D 9H")), Err(PokerError::InvalidInput));
    assert_eq!(evaluate(&cards("2D 3H 4C 5S 9D 9H 9H")), Err(PokerError::InvalidInput));
}

#[test]
fn a_higher_category_wins_whatever_the_keys() {
    let ladder = [
        eval("AS KD QH JC 9S 3D 2H"), // high card, the best there is
        eval("2S 2D 3H 4C 5S 7D 8H"), // pair of twos
        eval("2S 2D 3H 3C 5S 7D 8H"), // twos and threes
        eval("2S 2D 2H 4C 5S 7D 8H"), // three twos
        eval("AS 2D 3H 4C 5S 9D 9H"), // wheel
        eval("7D 5D 4D 3D 2D KS KH"), // seven-high flush
        eval("2S 2D 2H 3C 3S 7D 8H"), // twos full of threes
        eval("2S 2D 2H 2C 3S 4D 5H"), // four twos
        eval("AD 2D 3D 4D 5D KS KH"), // steel wheel
    ];
    let categories = [
        HandRank::HighCard,
        HandRank::Pair,
        HandRank::TwoPair,
        HandRank::Trips,
        HandRank::Straight,
        HandRank::Flush,
        HandRank::Boat,
        HandRank::Quads,
        HandRank::StraightFlush,
    ];
    for (i, e) in ladder.iter().enumerate() {
        assert_eq!(e.category, categories[i]);
        assert_eq!(e.category.to_u32() as usize, i);
    }
    for i in 0..ladder.len() {
        for j in 0..ladder.len() {
            assert_eq!(ladder[i].compare(&ladder[j]), i.cmp(&j));
        }
    }
    // the weakest pair beats the best high card although its key is lower
    assert!(ladder[1].key < ladder[0].key);
    assert_eq!(ladder[1].compare(&ladder[0]), Ordering::Greater);
}

#[test]
fn category_order_follows_strength() {
    assert!(HandRank::HighCard < HandRank::Pair);
    assert!(HandRank::Pair < HandRank::TwoPair);
    assert!(HandRank::TwoPair < HandRank::Trips);
    assert!(HandRank::Trips < HandRank::Straight);
    assert!(HandRank::Straight < HandRank::Flush);
    assert!(HandRank::Flush < HandRank::Boat);
    assert!(HandRank::Boat < HandRank::Quads);
    assert!(HandRank::Quads < HandRank::StraightFlush);
}

#[test]
fn the_key_decides_within_a_category() {
    let better = eval("AS AD KH QC 9S 4D 2H");
    let worse = eval("AH AC KD JC 9D 4S 2C");
    assert_eq!(better.category, HandRank::Pair);
    assert_eq!(worse.category, HandRank::Pair);
    assert_eq!(better.key, vec![12, 11, 10, 7]);
    assert_eq!(worse.key, vec![12, 11, 9, 7]);
    assert_eq!(better.compare(&worse), Ordering::Greater);
    assert_eq!(worse.compare(&better), Ordering::Less);
}

#[test]
fn equal_category_and_key_split_the_pot() {
    let a = eval("AS KD QH JC 9S 3D 2H");
    let b = eval("AH KC QD JS 9D 3C 2S");
    assert_ne!(a.hand, b.hand);
    assert_eq!(a.compare(&b), Ordering::Equal);
    assert_eq!(b.compare(&a), Ordering::Equal);
    assert_eq!(a.compare(&a), Ordering::Equal);
}

#[test]
fn a_key_that_ends_first_is_the_lesser() {
    let hand = seven("AS KD QH JC 9S 3D 2H");
    let five = [hand[0], hand[1], hand[2], hand[3], hand[4]];
    let short = Evaluation { category: HandRank::Pair, key: vec![5], hand: five };
    let long = Evaluation { category: HandRank::Pair, key: vec![5, 1], hand: five };
    assert_eq!(short.compare(&long), Ordering::Less);
    assert_eq!(long.compare(&short), Ordering::Greater);
}

#[test]
fn tie_break_keys_by_category() {
    let h = |text: &str| {
        let v = cards(text);
        [v[0], v[1], v[2], v[3], v[4]]
    };
    assert_eq!(tie_break_key(HandRank::StraightFlush, &h("9H 8H 7H 6H 5H")), vec![7]);
    assert_eq!(tie_break_key(HandRank::StraightFlush, &h("AD 5D 4D 3D 2D")), vec![3]);
    assert_eq!(tie_break_key(HandRank::Quads, &h("7S 7H 7C 7D KS")), vec![5, 11]);
    assert_eq!(tie_break_key(HandRank::Boat, &h("QS QH QD KS KD")), vec![10, 11]);
    assert_eq!(tie_break_key(HandRank::Flush, &h("AS JS 9S 7S 4S")), vec![12, 9, 7, 5, 2]);
    assert_eq!(tie_break_key(HandRank::Straight, &h("AS KD QH JC TS")), vec![12]);
    assert_eq!(tie_break_key(HandRank::Straight, &h("AS 5H 4C 3S 2D")), vec![3]);
    assert_eq!(tie_break_key(HandRank::Trips, &h("QS QH QD AC 9S")), vec![10, 12, 7]);
    assert_eq!(tie_break_key(HandRank::TwoPair, &h("KS KD 9H 9C AH")), vec![11, 7, 12]);
    assert_eq!(tie_break_key(HandRank::Pair, &h("8S 8D AH QC 9S")), vec![6, 12, 10, 7]);
    assert_eq!(tie_break_key(HandRank::HighCard, &h("AS QD 9H 7C 5S")), vec![12, 10, 7, 5, 3]);
}

#[test]
fn is_straight_on_runs() {
    assert!(Card::is_straight(&cards("9S 8D 7H 6C 5S")));
    assert!(Card::is_straight(&cards("AS KD QH JC TS")));
    assert!(Card::is_straight(&cards("6S 5D 4H 3C 2S")));
    assert!(Card::is_straight(&cards("AS 5D 4H 3C 2S")));
    assert!(Card::is_straight(&cards("7S")));
    assert!(Card::is_straight(&cards("AS 5D")));
    assert!(Card::is_straight(&cards("4S 3D 2C")));
}

#[test]
fn is_straight_on_other_cards() {
    assert!(!Card::is_straight(&cards("9S 8D 7H 6C 4S")));
    assert!(!Card::is_straight(&cards("5S 6D 7H 8C 9S")));
    assert!(!Card::is_straight(&cards("9S 9D 8H 7C 6S")));
    assert!(!Card::is_straight(&cards("AS 5D 4H 3C 3S")));
    assert!(!Card::is_straight(&cards("KS AD 5H 4C 3S")));
    assert!(!Card::is_straight(&cards("AS 4D 3H 2C")));
    assert!(!Card::is_straight(&cards("2S AD KH QC JS")));
    assert!(!Card::is_straight(&cards("2S 2D")));
    assert!(!Card::is_straight(&cards("3S 2D AC")));
}

#[test]
fn slices_to_fixed_hands() {
    let v = cards("AS KD QH JC TS 9D 8H");
    assert_eq!(v[..2].to_pair(), [v[0], v[1]]);
    assert_eq!(v[..5].to_five(), [v[0], v[1], v[2], v[3], v[4]]);
    assert_eq!(v[..].to_seven(), [v[0], v[1], v[2], v[3], v[4], v[5], v[6]]);
}
