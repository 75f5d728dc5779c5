use vstd::prelude::*;
use vstd::string::StringExecFns;
use crate::error::PokerError;
use crate::rank::{RANKS, Rank};
use crate::suit::{SUITS, Suit};

verus! {

/// A playing card: a rank and a suit.
#[derive(Clone, Copy, Debug, PartialEq, Eq, Structural, Ord, Hash)]
pub struct Card {
    pub rank: Rank,
    pub suit: Suit,
}

/// The text of one character that stands for a rank.
fn rank_text(rank: Rank) -> (s: &'static str)
    ensures
        s@ == seq![rank.symbol()],
{
    proof {
        reveal_strlit("2");
        reveal_strlit("3");
        reveal_strlit("4");
        reveal_strlit("5");
        reveal_strlit("6");
        reveal_strlit("7");
        reveal_strlit("8");
        reveal_strlit("9");
        reveal_strlit("T");
        reveal_strlit("J");
        reveal_strlit("Q");
        reveal_strlit("K");
        reveal_strlit("A");
    }
    let s = match rank {
        Rank::Two => "2",
        Rank::Three => "3",
        Rank::Four => "4",
        Rank::Five => "5",
        Rank::Six => "6",
        Rank::Seven => "7",
        Rank::Eight => "8",
        Rank::Nine => "9",
        Rank::Ten => "T",
        Rank::Jack => "J",
        Rank::Queen => "Q",
        Rank::King => "K",
        Rank::Ace => "A",
    };
    assert(s@ =~= seq![rank.symbol()]);
    s
}

/// The text of one letter that stands for a suit.
fn suit_text(suit: Suit) -> (s: &'static str)
    ensures
        s@ == seq![suit.symbol()],
{
    proof {
        reveal_strlit("D");
        reveal_strlit("C");
        reveal_strlit("H");
        reveal_strlit("S");
    }
    let s = match suit {
        Suit::Diamond => "D",
        Suit::Club => "C",
        Suit::Heart => "H",
        Suit::Spade => "S",
    };
    assert(s@ =~= seq![suit.symbol()]);
    s
}

impl Card {
    /// The place of a card in the total order of the 52 cards: by rank first,
    /// by suit among cards of one rank.
    pub open spec fn ordinal(self) -> int {
        4 * self.rank.strength() + self.suit.index()
    }

    /// The card at a given place of that order.
    pub open spec fn at(n: int) -> Card {
        Card { rank: Rank::of_strength(n / 4), suit: Suit::of_index(n % 4) }
    }

    /// The text of a card: the character of its rank, then the letter of its
    /// suit.
    pub open spec fn text(self) -> Seq<char> {
        seq![self.rank.symbol(), self.suit.symbol()]
    }

    /// The card that a text stands for, if it stands for one: just two
    /// characters, the first one a rank's and the second one a suit's.
    pub open spec fn parse(text: Seq<char>) -> Option<Card> {
        if text.len() == 2 && Rank::of_symbol(text[0]) is Some && Suit::of_symbol(text[1]) is Some {
            Some(Card { rank: Rank::of_symbol(text[0])->0, suit: Suit::of_symbol(text[1])->0 })
        } else {
            None
        }
    }

    /// Whether `self` comes after `other` in the order of cards.
    pub fn outranks(&self, other: &Card) -> (b: bool)
        ensures
            b == (self.ordinal() > other.ordinal()),
    {
        let r: u32 = self.rank.to_u32();
        let q: u32 = other.rank.to_u32();
        r > q || (r == q && self.suit.to_u32() > other.suit.to_u32())
    }

    /// Turns a text of two characters, such as `AS` for the ace of spades,
    /// into a card; any other text is refused.
    pub fn of(s: &str) -> (r: Result<Card, PokerError>)
        ensures
            r == match Card::parse(s@) {
                Some(card) => Ok::<Card, PokerError>(card),
                None => Err(PokerError::InvalidFormat),
            },
    {
        if s.unicode_len() != 2 {
            return Err(PokerError::InvalidFormat);
        }
        let rank = match Rank::from_char(s.get_char(0)) {
            Ok(rank) => rank,
            Err(e) => {
                return Err(e);
            },
        };
        let suit = match Suit::from_char(s.get_char(1)) {
            Ok(suit) => suit,
            Err(e) => {
                return Err(e);
            },
        };
        Ok(Card { rank, suit })
    }

    /// Turns a card into its text of two characters.
    pub fn to_string(&self) -> (s: String)
        ensures
            s@ == self.text(),
    {
        let mut out = String::new();
        out.append(rank_text(self.rank));
        out.append(suit_text(self.suit));
        assert(out@ =~= self.text());
        out
    }

    /// The 52 cards, from the two of diamonds up: rank by rank, and within a
    /// rank in the order of suits.
    pub fn deck() -> (d: [Card; 52])
        ensures
            forall|i: int| 0 <= i < 52 ==> #[trigger] d@[i] == Card::at(i),
            d@.no_duplicates(),
    {
        let mut d: [Card; 52] = [Card { rank: Rank::Two, suit: Suit::Diamond };52];
        let mut r: usize = 0;
        while r < 13
            invariant
                r <= 13,
                forall|i: int| 0 <= i < 4 * r ==> #[trigger] d@[i] == Card::at(i),
            decreases 13 - r,
        {
            let mut u: usize = 0;
            while u < 4
                invariant
                    r < 13,
                    u <= 4,
                    forall|i: int| 0 <= i < 4 * r + u ==> #[trigger] d@[i] == Card::at(i),
                decreases 4 - u,
            {
                let card = Card { rank: RANKS[r], suit: SUITS[u] };
                proof {
                    lemma_ordinal_at();
                    assert(RANKS[r as int].strength() == r);
                    assert(SUITS[u as int].index() == u);
                    assert(card.ordinal() == 4 * r + u);
                    assert(Card::at(card.ordinal()) == card);
                }
                d[4 * r + u] = card;
                u = u + 1;
            }
            r = r + 1;
        }
        proof {
            lemma_ordinal_at();
            assert forall|i: int, j: int| 0 <= i < 52 && 0 <= j < 52 && i != j implies d@[i]
                != d@[j] by {
                assert(d@[i] == Card::at(i) && d@[j] == Card::at(j));
                assert(Card::at(i).ordinal() == i && Card::at(j).ordinal() == j);
            }
        }
        d
    }
}

/// Every card is found again at its own place, and every place holds a card
/// of that place.
pub proof fn lemma_ordinal_at()
    ensures
        forall|c: Card| 0 <= #[trigger] c.ordinal() < 52 && Card::at(c.ordinal()) == c,
        forall|n: int| 0 <= n < 52 ==> (#[trigger] Card::at(n)).ordinal() == n,
{
    assert forall|c: Card| 0 <= #[trigger] c.ordinal() < 52 && Card::at(c.ordinal()) == c by {
        let r = c.rank.strength();
        let u = c.suit.index();
        assert(0 <= r <= 12 && 0 <= u <= 3);
        assert((4 * r + u) / 4 == r && (4 * r + u) % 4 == u);
        assert(Rank::of_strength(r) == c.rank);
        assert(Suit::of_index(u) == c.suit);
    }
    assert forall|n: int| 0 <= n < 52 implies (#[trigger] Card::at(n)).ordinal() == n by {
        let r = n / 4;
        let u = n % 4;
        assert(0 <= r <= 12 && 0 <= u <= 3 && 4 * r + u == n);
        assert(Rank::of_strength(r).strength() == r);
        assert(Suit::of_index(u).index() == u);
    }
}

} // verus!
