use vstd::prelude::*;
use vstd::std_specs::iter::IteratorSpec;
use std::slice::Iter;
use crate::error::PokerError;

verus! {

/// The suit of a card. Suits carry no poker strength; their order only makes
/// the order of cards total.
#[derive(Clone, Copy, Debug, PartialEq, Eq, Structural, PartialOrd, Ord, Hash)]
pub enum Suit {
    Diamond,
    Club,
    Heart,
    Spade,
}

/// The four suits in their fixed order.
pub const SUITS: [Suit; 4] = [Suit::Diamond, Suit::Club, Suit::Heart, Suit::Spade];

impl Suit {
    /// The place of a suit in the fixed order Diamond, Club, Heart, Spade.
    pub open spec fn index(self) -> int {
        match self {
            Suit::Diamond => 0,
            Suit::Club => 1,
            Suit::Heart => 2,
            Suit::Spade => 3,
        }
    }

    /// The suit at a given place; `Diamond` for anything outside 0..=3.
    pub open spec fn of_index(n: int) -> Suit {
        if n == 1 {
            Suit::Club
        } else if n == 2 {
            Suit::Heart
        } else if n == 3 {
            Suit::Spade
        } else {
            Suit::Diamond
        }
    }

    /// The letter that stands for a suit in a card's text.
    pub open spec fn symbol(self) -> char {
        match self {
            Suit::Diamond => 'D',
            Suit::Club => 'C',
            Suit::Heart => 'H',
            Suit::Spade => 'S',
        }
    }

    /// The suit that a letter stands for, if it stands for one.
    pub open spec fn of_symbol(c: char) -> Option<Suit> {
        if c == 'D' {
            Some(Suit::Diamond)
        } else if c == 'C' {
            Some(Suit::Club)
        } else if c == 'H' {
            Some(Suit::Heart)
        } else if c == 'S' {
            Some(Suit::Spade)
        } else {
            None
        }
    }

    /// The pip of a suit, as printed on a card.
    pub open spec fn pip(self) -> char {
        match self {
            Suit::Diamond => '\u{2666}',
            Suit::Club => '\u{2663}',
            Suit::Heart => '\u{2665}',
            Suit::Spade => '\u{2660}',
        }
    }

    /// The name of a suit.
    pub open spec fn name(self) -> Seq<char> {
        match self {
            Suit::Diamond => "Diamond"@,
            Suit::Club => "Club"@,
            Suit::Heart => "Heart"@,
            Suit::Spade => "Spade"@,
        }
    }

    /// The suit that a name stands for, if it stands for one.
    pub open spec fn of_name(s: Seq<char>) -> Option<Suit> {
        if s == "Diamond"@ {
            Some(Suit::Diamond)
        } else if s == "Club"@ {
            Some(Suit::Club)
        } else if s == "Heart"@ {
            Some(Suit::Heart)
        } else if s == "Spade"@ {
            Some(Suit::Spade)
        } else {
            None
        }
    }

    /// No two suits share a name: a name stands for the suit that has it,
    /// and for no other.
    pub proof fn lemma_names_differ()
        ensures
            forall|a: Suit, b: Suit| a.name() == b.name() ==> a == b,
            forall|a: Suit| Suit::of_name(#[trigger] a.name()) == Some(a),
            forall|s: Seq<char>, a: Suit| Suit::of_name(s) == Some(a) ==> s == a.name(),
    {
        reveal_strlit("Diamond");
        reveal_strlit("Club");
        reveal_strlit("Heart");
        reveal_strlit("Spade");
        assert forall|a: Suit, b: Suit| a.name() == b.name() implies a == b by {
            let x = a.name();
            let y = b.name();
            assert(x.len() == y.len() && x[0] == y[0]);
        }
        assert forall|a: Suit| Suit::of_name(#[trigger] a.name()) == Some(a) by {
            let x = a.name();
            assert(forall|b: Suit| x == #[trigger] b.name() ==> x.len() == b.name().len() && x[0]
                == b.name()[0]);
            assert(x == Suit::Diamond.name() ==> a == Suit::Diamond);
            assert(x == Suit::Club.name() ==> a == Suit::Club);
            assert(x == Suit::Heart.name() ==> a == Suit::Heart);
            assert(x == Suit::Spade.name() ==> a == Suit::Spade);
        }
    }

    /// Iterates through the suits in their fixed order.
    pub fn iterator() -> (it: Iter<'static, Suit>)
        ensures
            it.remaining().len() == 4,
            forall|i: int| 0 <= i < 4 ==> (#[trigger] it.remaining()[i]).index() == i,
    {
        SUITS.iter()
    }

    /// Turns a suit into its place in the fixed order of suits.
    pub fn to_u32(&self) -> (n: u32)
        ensures
            n == self.index(),
            n <= 3,
    {
        match self {
            Suit::Diamond => 0,
            Suit::Club => 1,
            Suit::Heart => 2,
            Suit::Spade => 3,
        }
    }

    /// Turns a letter from `to_char` into its suit; any other character is
    /// refused.
    pub fn from_char(c: char) -> (r: Result<Suit, PokerError>)
        ensures
            r == match Suit::of_symbol(c) {
                Some(suit) => Ok::<Suit, PokerError>(suit),
                None => Err(PokerError::InvalidFormat),
            },
    {
        match c {
            'D' => Ok(Suit::Diamond),
            'C' => Ok(Suit::Club),
            'H' => Ok(Suit::Heart),
            'S' => Ok(Suit::Spade),
            _ => Err(PokerError::InvalidFormat),
        }
    }

    /// Turns a suit into the letter that stands for it.
    pub fn to_char(&self) -> (c: char)
        ensures
            c == self.symbol(),
            Suit::of_symbol(c) == Some(*self),
    {
        match self {
            Suit::Diamond => 'D',
            Suit::Club => 'C',
            Suit::Heart => 'H',
            Suit::Spade => 'S',
        }
    }

    /// Turns a suit into its pip.
    pub fn to_symbol(&self) -> (c: char)
        ensures
            c == self.pip(),
    {
        match self {
            Suit::Diamond => '\u{2666}',
            Suit::Club => '\u{2663}',
            Suit::Heart => '\u{2665}',
            Suit::Spade => '\u{2660}',
        }
    }

    /// Turns a name from `to_string` into its suit; any other text is refused.
    pub fn from_string(s: &str) -> (r: Result<Suit, PokerError>)
        ensures
            r == match Suit::of_name(s@) {
                Some(suit) => Ok::<Suit, PokerError>(suit),
                None => Err(PokerError::InvalidFormat),
            },
    {
        let text: String = s.to_owned();
        if text == "Diamond".to_owned() {
            Ok(Suit::Diamond)
        } else if text == "Club".to_owned() {
            Ok(Suit::Club)
        } else if text == "Heart".to_owned() {
            Ok(Suit::Heart)
        } else if text == "Spade".to_owned() {
            Ok(Suit::Spade)
        } else {
            Err(PokerError::InvalidFormat)
        }
    }

    /// Turns a suit into its name.
    pub fn to_string(&self) -> (s: &str)
        ensures
            s@ == self.name(),
            Suit::of_name(s@) == Some(*self),
    {
        let s = match self {
            Suit::Diamond => "Diamond",
            Suit::Club => "Club",
            Suit::Heart => "Heart",
            Suit::Spade => "Spade",
        };
        proof {
            Suit::lemma_names_differ();
            assert(Suit::of_name(self.name()) == Some(*self));
        }
        s
    }
}

} // verus!
