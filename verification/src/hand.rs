use vstd::prelude::*;
use core::cmp::Ordering;
use crate::card::Card;
use crate::rank::Rank;
use crate::rules::is_hand_of;

verus! {

/// The category of a five-card poker hand, from the weakest to the strongest.
#[derive(Clone, Copy, Debug, PartialEq, Eq, Structural, PartialOrd, Ord, Hash)]
pub enum HandRank {
    HighCard,
    Pair,
    TwoPair,
    Trips,
    Straight,
    Flush,
    Boat,
    Quads,
    StraightFlush,
}

impl HandRank {
    /// The strength of a category: `HighCard` is 0, `StraightFlush` is 8.
    pub open spec fn strength(self) -> int {
        match self {
            HandRank::HighCard => 0,
            HandRank::Pair => 1,
            HandRank::TwoPair => 2,
            HandRank::Trips => 3,
            HandRank::Straight => 4,
            HandRank::Flush => 5,
            HandRank::Boat => 6,
            HandRank::Quads => 7,
            HandRank::StraightFlush => 8,
        }
    }

    /// Turns a category into its strength; stronger categories give higher numbers.
    pub fn to_u32(&self) -> (n: u32)
        ensures
            n == self.strength(),
            n <= 8,
    {
        match self {
            HandRank::HighCard => 0,
            HandRank::Pair => 1,
            HandRank::TwoPair => 2,
            HandRank::Trips => 3,
            HandRank::Straight => 4,
            HandRank::Flush => 5,
            HandRank::Boat => 6,
            HandRank::Quads => 7,
            HandRank::StraightFlush => 8,
        }
    }
}

/// The outcome of evaluating seven cards: the category of the best hand, the
/// key that orders hands of one category, and the five cards of the hand.
#[derive(Clone, Debug, PartialEq, Eq)]
pub struct Evaluation {
    pub category: HandRank,
    pub key: Vec<u32>,
    pub hand: [Card; 5],
}

/// The strength of the rank of the card at place `i`.
pub open spec fn strength_at(hand: Seq<Card>, i: int) -> u32 {
    hand[i].rank.strength() as u32
}

/// The strength of the high card of a run: that of its first card, but of
/// the five where the run is the wheel.
pub open spec fn run_high(hand: Seq<Card>) -> u32 {
    if hand[0].rank == Rank::Ace && hand[1].rank == Rank::Five {
        3
    } else {
        strength_at(hand, 0)
    }
}

/// The tie-break key of a hand of five cards that stand as `best_five` gives
/// them: the strengths of the ranks that tell two hands of the category
/// apart, the most significant first.
pub open spec fn key_of(category: HandRank, hand: Seq<Card>) -> Seq<u32> {
    match category {
        HandRank::StraightFlush => seq![run_high(hand)],
        HandRank::Quads => seq![strength_at(hand, 0), strength_at(hand, 4)],
        HandRank::Boat => seq![strength_at(hand, 0), strength_at(hand, 3)],
        HandRank::Flush => seq![
            strength_at(hand, 0),
            strength_at(hand, 1),
            strength_at(hand, 2),
            strength_at(hand, 3),
            strength_at(hand, 4),
        ],
        HandRank::Straight => seq![run_high(hand)],
        HandRank::Trips => seq![strength_at(hand, 0), strength_at(hand, 3), strength_at(hand, 4)],
        HandRank::TwoPair => seq![
            strength_at(hand, 0),
            strength_at(hand, 2),
            strength_at(hand, 4),
        ],
        HandRank::Pair => seq![
            strength_at(hand, 0),
            strength_at(hand, 2),
            strength_at(hand, 3),
            strength_at(hand, 4),
        ],
        HandRank::HighCard => seq![
            strength_at(hand, 0),
            strength_at(hand, 1),
            strength_at(hand, 2),
            strength_at(hand, 3),
            strength_at(hand, 4),
        ],
    }
}

/// The first place at or after `from` where two keys differ, or where one
/// of them ends.
pub open spec fn mismatch_from(a: Seq<u32>, b: Seq<u32>, from: int) -> int
    decreases a.len() - from,
{
    if from < 0 || from >= a.len() || from >= b.len() || a[from] != b[from] {
        from
    } else {
        mismatch_from(a, b, from + 1)
    }
}

/// Up to the place where two keys first differ they are the same, and that
/// place is the same whichever key is named first.
pub proof fn lemma_mismatch(a: Seq<u32>, b: Seq<u32>, from: int)
    requires
        0 <= from,
    ensures
        from <= mismatch_from(a, b, from),
        mismatch_from(a, b, from) == mismatch_from(b, a, from),
        from <= a.len() && from <= b.len() ==> mismatch_from(a, b, from) <= a.len()
            && mismatch_from(a, b, from) <= b.len(),
        forall|i: int| from <= i < mismatch_from(a, b, from) ==> a[i] == b[i],
        mismatch_from(a, b, from) < a.len() && mismatch_from(a, b, from) < b.len() ==> a[mismatch_from(
            a,
            b,
            from,
        )] != b[mismatch_from(a, b, from)],
    decreases a.len() - from,
{
    if !(from >= a.len() || from >= b.len() || a[from] != b[from]) {
        lemma_mismatch(a, b, from + 1);
    }
}

/// How the key `a` stands to the key `b`: the first place where they differ
/// decides, and a key that ends there first is the lesser.
pub open spec fn key_order(a: Seq<u32>, b: Seq<u32>) -> Ordering {
    let i = mismatch_from(a, b, 0);
    if i < a.len() && i < b.len() {
        if a[i] < b[i] {
            Ordering::Less
        } else {
            Ordering::Greater
        }
    } else if a.len() < b.len() {
        Ordering::Less
    } else if a.len() > b.len() {
        Ordering::Greater
    } else {
        Ordering::Equal
    }
}

/// How a hand of category `a` with key `x` stands to one of category `b`
/// with key `y`: the category decides, and the keys where the categories
/// are the same.
pub open spec fn standing(a: HandRank, x: Seq<u32>, b: HandRank, y: Seq<u32>) -> Ordering {
    if a.strength() > b.strength() {
        Ordering::Greater
    } else if a.strength() < b.strength() {
        Ordering::Less
    } else {
        key_order(x, y)
    }
}

/// The tie-break key of a hand of the given category.
pub fn tie_break_key(category: HandRank, hand: &[Card; 5]) -> (key: Vec<u32>)
    ensures
        key@ == key_of(category, hand@),
{
    let a: u32 = hand[0].rank.to_u32();
    let b: u32 = hand[1].rank.to_u32();
    let c: u32 = hand[2].rank.to_u32();
    let d: u32 = hand[3].rank.to_u32();
    let e: u32 = hand[4].rank.to_u32();
    let high: u32 = if a == 12 && b == 3 {
        3
    } else {
        a
    };
    let key = match category {
        HandRank::StraightFlush => vec![high],
        HandRank::Quads => vec![a, e],
        HandRank::Boat => vec![a, d],
        HandRank::Flush => vec![a, b, c, d, e],
        HandRank::Straight => vec![high],
        HandRank::Trips => vec![a, d, e],
        HandRank::TwoPair => vec![a, c, e],
        HandRank::Pair => vec![a, c, d, e],
        HandRank::HighCard => vec![a, b, c, d, e],
    };
    assert(key@ =~= key_of(category, hand@));
    key
}

/// The first place where two keys differ, or where one of them ends.
fn first_difference(a: &Vec<u32>, b: &Vec<u32>) -> (i: usize)
    ensures
        i == mismatch_from(a@, b@, 0),
        i <= a.len(),
        i <= b.len(),
{
    let mut i: usize = 0;
    while i < a.len() && i < b.len() && a[i] == b[i]
        invariant
            i <= a.len(),
            i <= b.len(),
            mismatch_from(a@, b@, i as int) == mismatch_from(a@, b@, 0),
        decreases a.len() - i,
    {
        i = i + 1;
    }
    i
}

impl Evaluation {
    /// Whether the five cards are a hand of the category, and the key is the
    /// key of that hand.
    pub open spec fn well_formed(&self) -> bool {
        is_hand_of(self.category, self.hand@) && self.key@ == key_of(self.category, self.hand@)
    }

    /// How this hand stands to another at the showdown: `Greater` where it
    /// wins, `Less` where it loses, `Equal` where the pot is split.
    pub fn compare(&self, other: &Evaluation) -> (o: Ordering)
        ensures
            o == standing(self.category, self.key@, other.category, other.key@),
    {
        let mine: u32 = self.category.to_u32();
        let theirs: u32 = other.category.to_u32();
        if mine > theirs {
            return Ordering::Greater;
        }
        if mine < theirs {
            return Ordering::Less;
        }
        let i: usize = first_difference(&self.key, &other.key);
        if i < self.key.len() && i < other.key.len() {
            if self.key[i] < other.key[i] {
                Ordering::Less
            } else {
                Ordering::Greater
            }
        } else if self.key.len() < other.key.len() {
            Ordering::Less
        } else if self.key.len() > other.key.len() {
            Ordering::Greater
        } else {
            Ordering::Equal
        }
    }
}

} // verus!
