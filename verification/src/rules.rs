use vstd::prelude::*;
use core::cmp::Ordering;
use crate::card::Card;
use crate::hand::{key_of, standing, HandRank};
use crate::model::is_run;
use crate::rank::Rank;
use crate::suit::Suit;

verus! {

/// The strength of the rank of the card at place `i`.
pub open spec fn rank_at(h: Seq<Card>, i: int) -> int {
    h[i].rank.strength()
}

/// Whether five cards are of one suit.
pub open spec fn one_suit(h: Seq<Card>) -> bool {
    h[1].suit == h[0].suit && h[2].suit == h[0].suit && h[3].suit == h[0].suit && h[4].suit
        == h[0].suit
}

/// The rules of poker: whether `h` is a hand of the category `c`. The five
/// cards stand as a hand is laid out: the cards that make the category
/// first, then the kickers from the highest down; a run stands from its
/// highest card down, but the wheel as ace, five, four, three, two.
///
/// A hand of a category may be a hand of a weaker one as well: five cards
/// of one suit in a run are a flush and a straight too.
pub open spec fn is_hand_of(c: HandRank, h: Seq<Card>) -> bool {
    let r0 = rank_at(h, 0);
    let r1 = rank_at(h, 1);
    let r2 = rank_at(h, 2);
    let r3 = rank_at(h, 3);
    let r4 = rank_at(h, 4);
    h.len() == 5 && h.no_duplicates() && match c {
        HandRank::StraightFlush => is_run(h) && one_suit(h),
        HandRank::Quads => r0 == r1 && r1 == r2 && r2 == r3,
        HandRank::Boat => r0 == r1 && r1 == r2 && r3 == r4 && r3 != r0,
        HandRank::Flush => one_suit(h) && r0 > r1 && r1 > r2 && r2 > r3 && r3 > r4,
        HandRank::Straight => is_run(h),
        HandRank::Trips => r0 == r1 && r1 == r2 && r3 != r0 && r4 != r0 && r3 > r4,
        HandRank::TwoPair => r0 == r1 && r2 == r3 && r0 > r2 && r4 != r0 && r4 != r2,
        HandRank::Pair => r0 == r1 && r2 != r0 && r3 != r0 && r4 != r0 && r2 > r3 && r3 > r4,
        HandRank::HighCard => r0 > r1 && r1 > r2 && r2 > r3 && r3 > r4,
    }
}

/// The strength of the `k`-th rank of the run whose high card has strength
/// `high`, counted from the high card down. The run of high card five is the
/// wheel, and ends with the ace.
pub open spec fn run_rank(high: int, k: int) -> int {
    if high == 3 && k == 4 {
        12
    } else {
        high - k
    }
}

/// The `k`-th card of the run of suit `suit` whose high card has strength
/// `high`.
pub open spec fn run_card(suit: Suit, high: int, k: int) -> Card {
    Card { rank: Rank::of_strength(run_rank(high, k)), suit }
}

/// Whether `cards` holds the five cards of one suit that make the run whose
/// high card has strength `high`.
pub open spec fn holds_suited_run(cards: Seq<Card>, suit: Suit, high: int) -> bool {
    3 <= high <= 12 && forall|k: int| 0 <= k < 5 ==> cards.contains(#[trigger] run_card(suit, high, k))
}

/// Whether each card of `g` is one of `cards`.
pub open spec fn taken_from(g: Seq<Card>, cards: Seq<Card>) -> bool {
    forall|i: int| 0 <= i < g.len() ==> cards.contains(#[trigger] g[i])
}

/// Whether no hand that five of the cards make, of whatever category, beats
/// a hand of the given category and key.
pub open spec fn unbeaten(cards: Seq<Card>, category: HandRank, key: Seq<u32>) -> bool {
    forall|c: HandRank, g: Seq<Card>| #[trigger]
        is_hand_of(c, g) && taken_from(g, cards) ==> standing(c, key_of(c, g), category, key)
            != Ordering::Greater
}

/// Five cards `a`, `b`, `c`, `d`, `e` in this order.
pub open spec fn five(a: Card, b: Card, c: Card, d: Card, e: Card) -> Seq<Card> {
    seq![a, b, c, d, e]
}

/// A way to lay out five descending cards as a hand: the cards that share a
/// rank first, more of a kind before fewer, then the other cards from the
/// highest down. It names the category that the counts of ranks make; a
/// straight or a flush is a matter of `is_hand_of`.
pub open spec fn laid_out(g: Seq<Card>) -> (HandRank, Seq<Card>) {
    let a = rank_at(g, 0) == rank_at(g, 1);
    let b = rank_at(g, 1) == rank_at(g, 2);
    let c = rank_at(g, 2) == rank_at(g, 3);
    let d = rank_at(g, 3) == rank_at(g, 4);
    if a && b && c {
        (HandRank::Quads, g)
    } else if b && c && d {
        (HandRank::Quads, five(g[1], g[2], g[3], g[4], g[0]))
    } else if a && b && d {
        (HandRank::Boat, g)
    } else if a && c && d {
        (HandRank::Boat, five(g[2], g[3], g[4], g[0], g[1]))
    } else if a && b {
        (HandRank::Trips, g)
    } else if b && c {
        (HandRank::Trips, five(g[1], g[2], g[3], g[0], g[4]))
    } else if c && d {
        (HandRank::Trips, five(g[2], g[3], g[4], g[0], g[1]))
    } else if a && c {
        (HandRank::TwoPair, g)
    } else if a && d {
        (HandRank::TwoPair, five(g[0], g[1], g[3], g[4], g[2]))
    } else if b && d {
        (HandRank::TwoPair, five(g[1], g[2], g[3], g[4], g[0]))
    } else if a {
        (HandRank::Pair, g)
    } else if b {
        (HandRank::Pair, five(g[1], g[2], g[0], g[3], g[4]))
    } else if c {
        (HandRank::Pair, five(g[2], g[3], g[0], g[1], g[4]))
    } else if d {
        (HandRank::Pair, five(g[3], g[4], g[0], g[1], g[2]))
    } else {
        (HandRank::HighCard, g)
    }
}

} // verus!
