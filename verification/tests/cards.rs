use holdem::card::Card;
use holdem::error::PokerError;
use holdem::rank::Rank;
use holdem::suit::Suit;

fn card(text: &str) -> Card {
    Card::of(text).unwrap()
}

#[test]
fn card_of_text() {
    assert_eq!(Card::of("AS"), Ok(Card { rank: Rank::Ace, suit: Suit::Spade }));
    assert_eq!(Card::of("2D"), Ok(Card { rank: Rank::Two, suit: Suit::Diamond }));
    assert_eq!(Card::of("TC"), Ok(Card { rank: Rank::Ten, suit: Suit::Club }));
    assert_eq!(Card::of("9H"), Ok(Card { rank: Rank::Nine, suit: Suit::Heart }));
}

#[test]
fn card_of_wrong_length_is_refused() {
    for text in ["", "A", "ASX", "AS ", " AS", "10S", "ASAS"] {
        assert_eq!(Card::of(text), Err(PokerError::InvalidFormat));
    }
}

#[test]
fn card_of_unknown_characters_is_refused() {
    for text in ["1S", "AX", "as", "SA", "A♠", "♠S", "é2", "DD", "22"] {
        assert_eq!(Card::of(text), Err(PokerError::InvalidFormat));
    }
}

#[test]
fn card_text() {
    assert_eq!(Card { rank: Rank::Ace, suit: Suit::Spade }.to_string(), "AS");
    assert_eq!(Card { rank: Rank::Ten, suit: Suit::Heart }.to_string(), "TH");
    assert_eq!(Card { rank: Rank::Two, suit: Suit::Club }.to_string(), "2C");
}

#[test]
fn card_text_round_trip_for_all_52() {
    let mut seen = 0;
    for r in "23456789TJQKA".chars() {
        for s in "DCHS".chars() {
            let text = format!("{}{}", r, s);
            let c = card(&text);
            assert_eq!(c.to_string(), text);
            assert_eq!(Card::of(&c.to_string()), Ok(c));
            seen += 1;
        }
    }
    assert_eq!(seen, 52);
}

#[test]
fn deck_is_rank_major() {
    let d = Card::deck();
    assert_eq!(d.len(), 52);
    assert_eq!(d[0], card("2D"));
    assert_eq!(d[1], card("2C"));
    assert_eq!(d[2], card("2H"));
    assert_eq!(d[3], card("2S"));
    assert_eq!(d[4], card("3D"));
    assert_eq!(d[47], card("KS"));
    assert_eq!(d[48], card("AD"));
    assert_eq!(d[51], card("AS"));
    for (i, c) in d.iter().enumerate() {
        assert_eq!((c.rank.to_u32() * 4 + c.suit.to_u32()) as usize, i);
    }
}

#[test]
fn deck_holds_each_card_once() {
    let d = Card::deck();
    for i in 0..52 {
        for j in 0..i {
            assert_ne!(d[i], d[j]);
        }
    }
}

#[test]
fn card_order_is_by_rank_then_suit() {
    let d = Card::deck();
    for i in 0..52 {
        for j in 0..52 {
            assert_eq!(d[i] < d[j], i < j);
            assert_eq!(d[i] > d[j], i > j);
            assert_eq!(d[i] == d[j], i == j);
            assert_eq!(d[i].cmp(&d[j]), i.cmp(&j));
            assert_eq!(d[i].partial_cmp(&d[j]), Some(i.cmp(&j)));
            assert_eq!(d[i].outranks(&d[j]), i > j);
        }
    }
    assert!(card("2S") < card("3D"));
    assert!(card("AD") < card("AC"));
    assert!(card("AC") < card("AH"));
    assert!(card("AH") < card("AS"));
}

#[test]
fn card_order_is_consistent() {
    let d = Card::deck();
    for a in d.iter() {
        assert!(a == a);
        for b in d.iter() {
            if a < b {
                assert!(!(b < a));
            }
        }
    }
}

#[test]
fn shuffle_keeps_the_cards() {
    let mut d = Card::deck();
    Card::shuffle(&mut d);
    let mut sorted = d.to_vec();
    sorted.sort();
    assert_eq!(sorted, Card::deck().to_vec());
}

#[test]
fn shuffle_changes_the_order() {
    let fresh = Card::deck();
    let mut changed = false;
    for _ in 0..8 {
        let mut d = Card::deck();
        Card::shuffle(&mut d);
        if d != fresh {
            changed = true;
        }
    }
    assert!(changed);
}

#[test]
fn shuffle_of_nothing_and_of_one() {
    let mut none: Vec<Card> = Vec::new();
    Card::shuffle(&mut none);
    assert!(none.is_empty());
    let mut one = vec![card("QH")];
    Card::shuffle(&mut one);
    assert_eq!(one, vec![card("QH")]);
}
