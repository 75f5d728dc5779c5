use vstd::prelude::*;
use vstd::std_specs::iter::IteratorSpec;
use std::slice::Iter;
use crate::error::PokerError;

verus! {

/// The rank of a card, from the weakest (`Two`) to the strongest (`Ace`).
#[derive(Clone, Copy, Debug, PartialEq, Eq, Structural, PartialOrd, Ord, Hash)]
pub enum Rank {
    Two,
    Three,
    Four,
    Five,
    Six,
    Seven,
    Eight,
    Nine,
    Ten,
    Jack,
    Queen,
    King,
    Ace,
}

/// The thirteen ranks, from the weakest to the strongest.
pub const RANKS: [Rank; 13] = [
    Rank::Two,
    Rank::Three,
    Rank::Four,
    Rank::Five,
    Rank::Six,
    Rank::Seven,
    Rank::Eight,
    Rank::Nine,
    Rank::Ten,
    Rank::Jack,
    Rank::Queen,
    Rank::King,
    Rank::Ace,
];

impl Rank {
    /// The strength of a rank: `Two` is 0, each next rank one more, `Ace` is 12.
    pub open spec fn strength(self) -> int {
        match self {
            Rank::Two => 0,
            Rank::Three => 1,
            Rank::Four => 2,
            Rank::Five => 3,
            Rank::Six => 4,
            Rank::Seven => 5,
            Rank::Eight => 6,
            Rank::Nine => 7,
            Rank::Ten => 8,
            Rank::Jack => 9,
            Rank::Queen => 10,
            Rank::King => 11,
            Rank::Ace => 12,
        }
    }

    /// The rank of a given strength; `Two` for anything outside 0..=12.
    pub open spec fn of_strength(n: int) -> Rank {
        if n == 1 {
            Rank::Three
        } else if n == 2 {
            Rank::Four
        } else if n == 3 {
            Rank::Five
        } else if n == 4 {
            Rank::Six
        } else if n == 5 {
            Rank::Seven
        } else if n == 6 {
            Rank::Eight
        } else if n == 7 {
            Rank::Nine
        } else if n == 8 {
            Rank::Ten
        } else if n == 9 {
            Rank::Jack
        } else if n == 10 {
            Rank::Queen
        } else if n == 11 {
            Rank::King
        } else if n == 12 {
            Rank::Ace
        } else {
            Rank::Two
        }
    }

    /// The character that stands for a rank in a card's text.
    pub open spec fn symbol(self) -> char {
        match self {
            Rank::Two => '2',
            Rank::Three => '3',
            Rank::Four => '4',
            Rank::Five => '5',
            Rank::Six => '6',
            Rank::Seven => '7',
            Rank::Eight => '8',
            Rank::Nine => '9',
            Rank::Ten => 'T',
            Rank::Jack => 'J',
            Rank::Queen => 'Q',
            Rank::King => 'K',
            Rank::Ace => 'A',
        }
    }

    /// The rank that a character stands for, if it stands for one.
    pub open spec fn of_symbol(c: char) -> Option<Rank> {
        if c == '2' {
            Some(Rank::Two)
        } else if c == '3' {
            Some(Rank::Three)
        } else if c == '4' {
            Some(Rank::Four)
        } else if c == '5' {
            Some(Rank::Five)
        } else if c == '6' {
            Some(Rank::Six)
        } else if c == '7' {
            Some(Rank::Seven)
        } else if c == '8' {
            Some(Rank::Eight)
        } else if c == '9' {
            Some(Rank::Nine)
        } else if c == 'T' {
            Some(Rank::Ten)
        } else if c == 'J' {
            Some(Rank::Jack)
        } else if c == 'Q' {
            Some(Rank::Queen)
        } else if c == 'K' {
            Some(Rank::King)
        } else if c == 'A' {
            Some(Rank::Ace)
        } else {
            None
        }
    }

    /// The name of a rank.
    pub open spec fn name(self) -> Seq<char> {
        match self {
            Rank::Two => "Two"@,
            Rank::Three => "Three"@,
            Rank::Four => "Four"@,
            Rank::Five => "Five"@,
            Rank::Six => "Six"@,
            Rank::Seven => "Seven"@,
            Rank::Eight => "Eight"@,
            Rank::Nine => "Nine"@,
            Rank::Ten => "Ten"@,
            Rank::Jack => "Jack"@,
            Rank::Queen => "Queen"@,
            Rank::King => "King"@,
            Rank::Ace => "Ace"@,
        }
    }

    /// The rank that a name stands for, if it stands for one.
    pub open spec fn of_name(s: Seq<char>) -> Option<Rank> {
        if s == "Two"@ {
            Some(Rank::Two)
        } else if s == "Three"@ {
            Some(Rank::Three)
        } else if s == "Four"@ {
            Some(Rank::Four)
        } else if s == "Five"@ {
            Some(Rank::Five)
        } else if s == "Six"@ {
            Some(Rank::Six)
        } else if s == "Seven"@ {
            Some(Rank::Seven)
        } else if s == "Eight"@ {
            Some(Rank::Eight)
        } else if s == "Nine"@ {
            Some(Rank::Nine)
        } else if s == "Ten"@ {
            Some(Rank::Ten)
        } else if s == "Jack"@ {
            Some(Rank::Jack)
        } else if s == "Queen"@ {
            Some(Rank::Queen)
        } else if s == "King"@ {
            Some(Rank::King)
        } else if s == "Ace"@ {
            Some(Rank::Ace)
        } else {
            None
        }
    }

    /// No two ranks share a name: a name stands for the rank that has it,
    /// and for no other.
    pub proof fn lemma_names_differ()
        ensures
            forall|a: Rank, b: Rank| a.name() == b.name() ==> a == b,
            forall|a: Rank| Rank::of_name(#[trigger] a.name()) == Some(a),
            forall|s: Seq<char>, a: Rank| Rank::of_name(s) == Some(a) ==> s == a.name(),
    {
        reveal_strlit("Two");
        reveal_strlit("Three");
        reveal_strlit("Four");
        reveal_strlit("Five");
        reveal_strlit("Six");
        reveal_strlit("Seven");
        reveal_strlit("Eight");
        reveal_strlit("Nine");
        reveal_strlit("Ten");
        reveal_strlit("Jack");
        reveal_strlit("Queen");
        reveal_strlit("King");
        reveal_strlit("Ace");
        assert forall|a: Rank, b: Rank| a.name() == b.name() implies a == b by {
            let x = a.name();
            let y = b.name();
            assert(x.len() == y.len() && x[0] == y[0] && x[1] == y[1]);
        }
        assert forall|a: Rank| Rank::of_name(#[trigger] a.name()) == Some(a) by {
            let x = a.name();
            assert(forall|b: Rank| x == #[trigger] b.name() ==> x.len() == b.name().len() && x[0]
                == b.name()[0] && x[1] == b.name()[1]);
            assert(x == Rank::Two.name() ==> a == Rank::Two);
            assert(x == Rank::Three.name() ==> a == Rank::Three);
            assert(x == Rank::Four.name() ==> a == Rank::Four);
            assert(x == Rank::Five.name() ==> a == Rank::Five);
            assert(x == Rank::Six.name() ==> a == Rank::Six);
            assert(x == Rank::Seven.name() ==> a == Rank::Seven);
            assert(x == Rank::Eight.name() ==> a == Rank::Eight);
            assert(x == Rank::Nine.name() ==> a == Rank::Nine);
            assert(x == Rank::Ten.name() ==> a == Rank::Ten);
            assert(x == Rank::Jack.name() ==> a == Rank::Jack);
            assert(x == Rank::Queen.name() ==> a == Rank::Queen);
            assert(x == Rank::King.name() ==> a == Rank::King);
            assert(x == Rank::Ace.name() ==> a == Rank::Ace);
        }
    }

    /// Iterates through the ranks in ascending order.
    pub fn iterator() -> (it: Iter<'static, Rank>)
        ensures
            it.remaining().len() == 13,
            forall|i: int| 0 <= i < 13 ==> (#[trigger] it.remaining()[i]).strength() == i,
    {
        RANKS.iter()
    }

    /// Turns a rank into its strength; stronger ranks give higher numbers.
    pub fn to_u32(&self) -> (n: u32)
        ensures
            n == self.strength(),
            n <= 12,
    {
        match self {
            Rank::Two => 0,
            Rank::Three => 1,
            Rank::Four => 2,
            Rank::Five => 3,
            Rank::Six => 4,
            Rank::Seven => 5,
            Rank::Eight => 6,
            Rank::Nine => 7,
            Rank::Ten => 8,
            Rank::Jack => 9,
            Rank::Queen => 10,
            Rank::King => 11,
            Rank::Ace => 12,
        }
    }

    /// Turns a character from `to_char` into its rank; any other character
    /// is refused.
    pub fn from_char(c: char) -> (r: Result<Rank, PokerError>)
        ensures
            r == match Rank::of_symbol(c) {
                Some(rank) => Ok::<Rank, PokerError>(rank),
                None => Err(PokerError::InvalidFormat),
            },
    {
        match c {
            '2' => Ok(Rank::Two),
            '3' => Ok(Rank::Three),
            '4' => Ok(Rank::Four),
            '5' => Ok(Rank::Five),
            '6' => Ok(Rank::Six),
            '7' => Ok(Rank::Seven),
            '8' => Ok(Rank::Eight),
            '9' => Ok(Rank::Nine),
            'T' => Ok(Rank::Ten),
            'J' => Ok(Rank::Jack),
            'Q' => Ok(Rank::Queen),
            'K' => Ok(Rank::King),
            'A' => Ok(Rank::Ace),
            _ => Err(PokerError::InvalidFormat),
        }
    }

    /// Turns a rank into the character that stands for it.
    pub fn to_char(&self) -> (c: char)
        ensures
            c == self.symbol(),
            Rank::of_symbol(c) == Some(*self),
    {
        match self {
            Rank::Two => '2',
            Rank::Three => '3',
            Rank::Four => '4',
            Rank::Five => '5',
            Rank::Six => '6',
            Rank::Seven => '7',
            Rank::Eight => '8',
            Rank::Nine => '9',
            Rank::Ten => 'T',
            Rank::Jack => 'J',
            Rank::Queen => 'Q',
            Rank::King => 'K',
            Rank::Ace => 'A',
        }
    }

    /// Turns a name from `to_string` into its rank; any other text is refused.
    pub fn from_string(s: &str) -> (r: Result<Rank, PokerError>)
        ensures
            r == match Rank::of_name(s@) {
                Some(rank) => Ok::<Rank, PokerError>(rank),
                None => Err(PokerError::InvalidFormat),
            },
    {
        let text: String = s.to_owned();
        if text == "Two".to_owned() {
            Ok(Rank::Two)
        } else if text == "Three".to_owned() {
            Ok(Rank::Three)
        } else if text == "Four".to_owned() {
            Ok(Rank::Four)
        } else if text == "Five".to_owned() {
            Ok(Rank::Five)
        } else if text == "Six".to_owned() {
            Ok(Rank::Six)
        } else if text == "Seven".to_owned() {
            Ok(Rank::Seven)
        } else if text == "Eight".to_owned() {
            Ok(Rank::Eight)
        } else if text == "Nine".to_owned() {
            Ok(Rank::Nine)
        } else if text == "Ten".to_owned() {
            Ok(Rank::Ten)
        } else if text == "Jack".to_owned() {
            Ok(Rank::Jack)
        } else if text == "Queen".to_owned() {
            Ok(Rank::Queen)
        } else if text == "King".to_owned() {
            Ok(Rank::King)
        } else if text == "Ace".to_owned() {
            Ok(Rank::Ace)
        } else {
            Err(PokerError::InvalidFormat)
        }
    }

    /// Turns a rank into its name.
    pub fn to_string(&self) -> (s: &str)
        ensures
            s@ == self.name(),
            Rank::of_name(s@) == Some(*self),
    {
        let s = match self {
            Rank::Two => "Two",
            Rank::Three => "Three",
            Rank::Four => "Four",
            Rank::Five => "Five",
            Rank::Six => "Six",
            Rank::Seven => "Seven",
            Rank::Eight => "Eight",
            Rank::Nine => "Nine",
            Rank::Ten => "Ten",
            Rank::Jack => "Jack",
            Rank::Queen => "Queen",
            Rank::King => "King",
            Rank::Ace => "Ace",
        };
        proof {
            Rank::lemma_names_differ();
            assert(Rank::of_name(self.name()) == Some(*self));
        }
        s
    }
}

} // verus!
