use holdem::card::Card;
use holdem::hand::{Evaluation, HandRank};
use holdem::showdown::evaluate;

/// Category and key of five cards, worked out from the counts of ranks.
fn value_of_five(hand: &[Card]) -> (u32, Vec<u32>) {
    assert_eq!(hand.len(), 5);
    let mut ranks: Vec<u32> = hand.iter().map(|c| c.rank.to_u32()).collect();
    ranks.sort();
    ranks.reverse();
    let flush = hand.iter().all(|c| c.suit == hand[0].suit);
    let mut counts = [0u32; 13];
    for r in ranks.iter() {
        counts[*r as usize] += 1;
    }
    // ranks ordered by how often they occur, then by strength
    let mut by_count: Vec<(u32, u32)> =
        (0..13u32).filter(|r| counts[*r as usize] > 0).map(|r| (counts[r as usize], r)).collect();
    by_count.sort();
    by_count.reverse();
    let shape: Vec<u32> = by_count.iter().map(|p| p.0).collect();
    let order: Vec<u32> = by_count.iter().map(|p| p.1).collect();
    let distinct = shape.len() == 5;
    let wheel = ranks == vec![12, 3, 2, 1, 0];
    let straight = distinct && (ranks[0] - ranks[4] == 4 || wheel);
    let high = if wheel { 3 } else { ranks[0] };
    if straight && flush {
        (8, vec![high])
    } else if shape == vec![4, 1] {
        (7, order)
    } else if shape == vec![3, 2] {
        (6, order)
    } else if flush {
        (5, ranks)
    } else if straight {
        (4, vec![high])
    } else if shape == vec![3, 1, 1] {
        (3, order)
    } else if shape == vec![2, 2, 1] {
        (2, order)
    } else if shape == vec![2, 1, 1, 1] {
        (1, order)
    } else {
        (0, ranks)
    }
}

/// The best value among the 21 ways to take five of seven cards.
fn best_of_seven(cards: &[Card]) -> (u32, Vec<u32>) {
    assert_eq!(cards.len(), 7);
    let mut best: Option<(u32, Vec<u32>)> = None;
    for skip_a in 0..7 {
        for skip_b in (skip_a + 1)..7 {
            let five: Vec<Card> = (0..7)
                .filter(|i| *i != skip_a && *i != skip_b)
                .map(|i| cards[i])
                .collect();
            let v = value_of_five(&five);
            if best.as_ref().map_or(true, |b| v > *b) {
                best = Some(v);
            }
        }
    }
    best.unwrap()
}

fn agrees(cards: &[Card]) {
    let e: Evaluation = evaluate(cards).unwrap();
    let expected = best_of_seven(cards);
    assert_eq!((e.category.to_u32(), e.key.clone()), expected, "cards {:?}", cards);
    // the five cards handed out are themselves a hand of that value
    assert_eq!(value_of_five(&e.hand), expected, "hand {:?} of {:?}", e.hand, cards);
    for c in e.hand.iter() {
        assert!(cards.contains(c));
    }
}

/// A fixed sequence of numbers that looks random enough to pick cards by.
fn next(state: &mut u64) -> u64 {
    *state = state.wrapping_mul(6364136223846793005).wrapping_add(1442695040888963407);
    *state >> 33
}

fn draw(state: &mut u64, deck: &[Card], n: usize) -> Vec<Card> {
    let mut pool = deck.to_vec();
    let mut out = Vec::new();
    for _ in 0..n {
        let i = (next(state) % pool.len() as u64) as usize;
        out.push(pool.swap_remove(i));
    }
    out
}

#[test]
fn agrees_with_trying_all_21_hands_on_drawn_cards() {
    let deck = Card::deck();
    let mut state = 0x2545F4914F6CDD1Du64;
    for _ in 0..4000 {
        agrees(&draw(&mut state, &deck, 7));
    }
}

#[test]
fn agrees_with_trying_all_21_hands_on_two_suits() {
    // few suits: flushes and straight flushes are common
    let deck: Vec<Card> = Card::deck().iter().copied().filter(|c| c.suit.to_u32() < 2).collect();
    let mut state = 0x9E3779B97F4A7C15u64;
    for _ in 0..4000 {
        agrees(&draw(&mut state, &deck, 7));
    }
}

#[test]
fn agrees_with_trying_all_21_hands_on_one_suit() {
    let deck: Vec<Card> = Card::deck().iter().copied().filter(|c| c.suit.to_u32() == 3).collect();
    let mut state = 0xD1B54A32D192ED03u64;
    for _ in 0..2000 {
        agrees(&draw(&mut state, &deck, 7));
    }
}

#[test]
fn agrees_with_trying_all_21_hands_on_few_ranks() {
    // few ranks: quads, boats and two pairs are common
    let deck: Vec<Card> = Card::deck().iter().copied().filter(|c| c.rank.to_u32() % 4 == 0).collect();
    let mut state = 0x94D049BB133111EBu64;
    for _ in 0..4000 {
        agrees(&draw(&mut state, &deck, 7));
    }
}

#[test]
fn agrees_with_trying_all_21_hands_on_low_ranks_with_the_ace() {
    // the ace and two to seven: wheels and straights are common
    let deck: Vec<Card> = Card::deck()
        .iter()
        .copied()
        .filter(|c| c.rank.to_u32() <= 5 || c.rank.to_u32() == 12)
        .collect();
    let mut state = 0xBF58476D1CE4E5B9u64;
    for _ in 0..4000 {
        agrees(&draw(&mut state, &deck, 7));
    }
}

#[test]
fn every_category_is_met_on_drawn_cards() {
    let deck = Card::deck();
    let mut state = 0x0123456789ABCDEFu64;
    let mut met = [false; 9];
    let low: Vec<Card> = deck.iter().copied().filter(|c| c.suit.to_u32() < 2).collect();
    for _ in 0..3000 {
        let e = evaluate(&draw(&mut state, &deck, 7)).unwrap();
        met[e.category.to_u32() as usize] = true;
        let e = evaluate(&draw(&mut state, &low, 7)).unwrap();
        met[e.category.to_u32() as usize] = true;
    }
    assert_eq!(met, [true; 9]);
    assert_eq!(HandRank::StraightFlush.to_u32(), 8);
}
