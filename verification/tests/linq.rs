use holdem::card::Card;
use holdem::linq::{Concat, GroupBy};
use holdem::rank::Rank;
use holdem::suit::Suit;

fn cards(text: &str) -> Vec<Card> {
    text.split_whitespace().map(|t| Card::of(t).unwrap()).collect()
}

#[test]
fn group_by_keeps_order_within_groups() {
    let v: Vec<u32> = vec![5, 12, 7, 3, 10, 8, 1];
    let groups = v.group_by(|x: &u32| x % 2);
    assert_eq!(groups.len(), 2);
    assert_eq!(groups[&0], vec![12, 10, 8]);
    assert_eq!(groups[&1], vec![5, 7, 3, 1]);
}

#[test]
fn group_by_has_no_empty_groups() {
    let v: Vec<u32> = vec![4, 8, 12];
    let groups = v.group_by(|x: &u32| x % 4);
    assert_eq!(groups.len(), 1);
    assert_eq!(groups[&0], vec![4, 8, 12]);
    assert!(!groups.contains_key(&1));
}

#[test]
fn group_by_of_nothing() {
    let v: Vec<u32> = Vec::new();
    let groups = v.group_by(|x: &u32| *x);
    assert!(groups.is_empty());
}

#[test]
fn group_cards_by_suit_and_rank() {
    let hand = cards("AS KD AH 2S 2D 9S AC");
    let suits = hand.group_by(|c: &Card| c.suit);
    assert_eq!(suits.len(), 4);
    assert_eq!(suits[&Suit::Spade], cards("AS 2S 9S"));
    assert_eq!(suits[&Suit::Diamond], cards("KD 2D"));
    assert_eq!(suits[&Suit::Heart], cards("AH"));
    assert_eq!(suits[&Suit::Club], cards("AC"));
    let ranks = hand.group_by(|c: &Card| c.rank.to_u32());
    assert_eq!(ranks.len(), 4);
    assert_eq!(ranks[&Rank::Ace.to_u32()], cards("AS AH AC"));
    assert_eq!(ranks[&Rank::Two.to_u32()], cards("2S 2D"));
    assert_eq!(ranks[&Rank::King.to_u32()], cards("KD"));
    assert_eq!(ranks[&Rank::Nine.to_u32()], cards("9S"));
}

#[test]
fn concat_joins_end_to_end() {
    let a: Vec<u32> = vec![1, 2, 3];
    let b: Vec<u32> = vec![9, 8];
    assert_eq!(Concat::concat(&a, &b), vec![1, 2, 3, 9, 8]);
    assert_eq!(Concat::concat(&b, &a), vec![9, 8, 1, 2, 3]);
}

#[test]
fn concat_with_nothing() {
    let a: Vec<u32> = vec![1, 2, 3];
    let none: Vec<u32> = Vec::new();
    assert_eq!(Concat::concat(&a, &none), a);
    assert_eq!(Concat::concat(&none, &a), a);
    assert_eq!(Concat::concat(&none, &none), none);
}
