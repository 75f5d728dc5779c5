use holdem::error::PokerError;
use holdem::rank::{Rank, RANKS};

#[test]
fn ranks_iterate_in_ascending_order() {
    let all: Vec<Rank> = Rank::iterator().copied().collect();
    assert_eq!(all.len(), 13);
    for (i, r) in all.iter().enumerate() {
        assert_eq!(r.to_u32() as usize, i);
    }
    assert_eq!(all[0], Rank::Two);
    assert_eq!(all[12], Rank::Ace);
    assert_eq!(all, RANKS.to_vec());
}

#[test]
fn rank_strengths_are_dense() {
    assert_eq!(Rank::Two.to_u32(), 0);
    assert_eq!(Rank::Three.to_u32(), 1);
    assert_eq!(Rank::Four.to_u32(), 2);
    assert_eq!(Rank::Five.to_u32(), 3);
    assert_eq!(Rank::Six.to_u32(), 4);
    assert_eq!(Rank::Seven.to_u32(), 5);
    assert_eq!(Rank::Eight.to_u32(), 6);
    assert_eq!(Rank::Nine.to_u32(), 7);
    assert_eq!(Rank::Ten.to_u32(), 8);
    assert_eq!(Rank::Jack.to_u32(), 9);
    assert_eq!(Rank::Queen.to_u32(), 10);
    assert_eq!(Rank::King.to_u32(), 11);
    assert_eq!(Rank::Ace.to_u32(), 12);
}

#[test]
fn rank_order_follows_strength() {
    for a in RANKS.iter() {
        for b in RANKS.iter() {
            assert_eq!(a < b, a.to_u32() < b.to_u32());
            assert_eq!(a == b, a.to_u32() == b.to_u32());
        }
    }
}

#[test]
fn rank_characters() {
    let expected = "23456789TJQKA";
    for (r, c) in RANKS.iter().zip(expected.chars()) {
        assert_eq!(r.to_char(), c);
        assert_eq!(Rank::from_char(c), Ok(*r));
    }
}

#[test]
fn rank_from_unknown_character_is_refused() {
    for c in ['1', '0', 't', 'a', 'D', 'S', ' ', 'X', '\u{2660}'] {
        assert_eq!(Rank::from_char(c), Err(PokerError::InvalidFormat));
    }
}

#[test]
fn rank_names() {
    let expected = [
        "Two", "Three", "Four", "Five", "Six", "Seven", "Eight", "Nine", "Ten", "Jack", "Queen",
        "King", "Ace",
    ];
    for (r, name) in RANKS.iter().zip(expected.iter()) {
        assert_eq!(r.to_string(), *name);
        assert_eq!(Rank::from_string(name), Ok(*r));
    }
}

#[test]
fn rank_names_round_trip() {
    for r in Rank::iterator() {
        assert_eq!(Rank::from_string(r.to_string()), Ok(*r));
    }
}

#[test]
fn rank_from_unknown_name_is_refused() {
    for name in ["", "two", "TWO", "Two ", "A", "Aces", "Diamond", "2"] {
        assert_eq!(Rank::from_string(name), Err(PokerError::InvalidFormat));
    }
}
