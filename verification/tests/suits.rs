use holdem::error::PokerError;
use holdem::suit::{Suit, SUITS};

#[test]
fn suits_iterate_in_fixed_order() {
    let all: Vec<Suit> = Suit::iterator().copied().collect();
    assert_eq!(all, vec![Suit::Diamond, Suit::Club, Suit::Heart, Suit::Spade]);
    assert_eq!(all, SUITS.to_vec());
}

#[test]
fn suit_indices() {
    assert_eq!(Suit::Diamond.to_u32(), 0);
    assert_eq!(Suit::Club.to_u32(), 1);
    assert_eq!(Suit::Heart.to_u32(), 2);
    assert_eq!(Suit::Spade.to_u32(), 3);
}

#[test]
fn suit_order_follows_index() {
    for a in SUITS.iter() {
        for b in SUITS.iter() {
            assert_eq!(a < b, a.to_u32() < b.to_u32());
        }
    }
}

#[test]
fn suit_characters() {
    assert_eq!(Suit::Diamond.to_char(), 'D');
    assert_eq!(Suit::Club.to_char(), 'C');
    assert_eq!(Suit::Heart.to_char(), 'H');
    assert_eq!(Suit::Spade.to_char(), 'S');
    for s in Suit::iterator() {
        assert_eq!(Suit::from_char(s.to_char()), Ok(*s));
    }
}

#[test]
fn suit_from_unknown_character_is_refused() {
    for c in ['d', 'c', 'h', 's', 'A', '2', ' ', '\u{2665}'] {
        assert_eq!(Suit::from_char(c), Err(PokerError::InvalidFormat));
    }
}

#[test]
fn suit_symbols() {
    assert_eq!(Suit::Diamond.to_symbol(), '♦');
    assert_eq!(Suit::Club.to_symbol(), '♣');
    assert_eq!(Suit::Heart.to_symbol(), '♥');
    assert_eq!(Suit::Spade.to_symbol(), '♠');
}

#[test]
fn suit_names() {
    assert_eq!(Suit::Diamond.to_string(), "Diamond");
    assert_eq!(Suit::Club.to_string(), "Club");
    assert_eq!(Suit::Heart.to_string(), "Heart");
    assert_eq!(Suit::Spade.to_string(), "Spade");
    for s in Suit::iterator() {
        assert_eq!(Suit::from_string(s.to_string()), Ok(*s));
    }
}

#[test]
fn suit_from_unknown_name_is_refused() {
    for name in ["", "diamond", "Diamonds", "D", "Ace", "Spade "] {
        assert_eq!(Suit::from_string(name), Err(PokerError::InvalidFormat));
    }
}
