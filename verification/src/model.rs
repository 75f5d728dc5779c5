use vstd::prelude::*;
use crate::card::Card;
use crate::hand::HandRank;
use crate::rank::Rank;

verus! {

/// The cards of `s` that have the rank of strength `r`, in their order.
pub open spec fn of_rank(s: Seq<Card>, r: int) -> Seq<Card> {
    s.filter(|c: Card| c.rank.strength() == r)
}

/// The cards of `s` that have the suit of index `u`, in their order.
pub open spec fn of_suit(s: Seq<Card>, u: int) -> Seq<Card> {
    s.filter(|c: Card| c.suit.index() == u)
}

/// The highest rank below `bound`, other than `skip`, of which `s` holds at
/// least `n` cards.
pub open spec fn top_rank(s: Seq<Card>, n: int, skip: Option<int>, bound: int) -> Option<int>
    decreases bound,
{
    if bound <= 0 {
        None
    } else if skip != Some(bound - 1) && of_rank(s, bound - 1).len() >= n {
        Some(bound - 1)
    } else {
        top_rank(s, n, skip, bound - 1)
    }
}

/// Whether the card at place `i` continues a run: its rank is one below the
/// rank before it. A five continues a run that an ace opened (the wheel).
pub open spec fn steps_down(w: Seq<Card>, i: int) -> bool {
    (i == 1 && w[0].rank == Rank::Ace && w[1].rank == Rank::Five) || w[i].rank.strength() + 1
        == w[i - 1].rank.strength()
}

/// Whether the cards form a run: each card after the first continues it.
pub open spec fn is_run(w: Seq<Card>) -> bool {
    w.len() > 0 && forall|i: int| 1 <= i < w.len() ==> #[trigger] steps_down(w, i)
}

/// The five cards of `d` from place `i` on.
pub open spec fn window(d: Seq<Card>, i: int) -> Seq<Card> {
    d.subrange(i, i + 5)
}

/// The first card of `d` followed by its last four: where `d` descends, the
/// only place where a wheel can stand.
pub open spec fn wheel(d: Seq<Card>) -> Seq<Card> {
    seq![d[0]] + d.subrange(d.len() - 4, d.len() as int)
}

/// The first run of five cards in `d` at or after place `from`; failing
/// that, the wheel.
pub open spec fn first_run(d: Seq<Card>, from: int) -> Option<Seq<Card>>
    decreases d.len() - from,
{
    if from < 0 || from + 5 > d.len() {
        if d.len() >= 5 && is_run(wheel(d)) {
            Some(wheel(d))
        } else {
            None
        }
    } else if is_run(window(d, from)) {
        Some(window(d, from))
    } else {
        first_run(d, from + 1)
    }
}

/// The highest straight among cards `d` of descending, distinct ranks.
pub open spec fn straight_in(d: Seq<Card>) -> Option<Seq<Card>> {
    first_run(d, 0)
}

/// The first card of each rank below `bound` that `s` holds, from the
/// highest rank down.
pub open spec fn leaders(s: Seq<Card>, bound: int) -> Seq<Card>
    decreases bound,
{
    if bound <= 0 {
        Seq::empty()
    } else if of_rank(s, bound - 1).len() > 0 {
        seq![of_rank(s, bound - 1)[0]] + leaders(s, bound - 1)
    } else {
        leaders(s, bound - 1)
    }
}

/// The straight flush of `s` in the highest suit below `bound` that has one.
pub open spec fn straight_flush(s: Seq<Card>, bound: int) -> Option<Seq<Card>>
    decreases bound,
{
    if bound <= 0 {
        None
    } else if straight_in(of_suit(s, bound - 1)) is Some {
        straight_in(of_suit(s, bound - 1))
    } else {
        straight_flush(s, bound - 1)
    }
}

/// The first five cards of the highest suit below `bound` of which `s`
/// holds five or more.
pub open spec fn flush(s: Seq<Card>, bound: int) -> Option<Seq<Card>>
    decreases bound,
{
    if bound <= 0 {
        None
    } else if of_suit(s, bound - 1).len() >= 5 {
        Some(of_suit(s, bound - 1).take(5))
    } else {
        flush(s, bound - 1)
    }
}

/// Whether one of the cards of `core` has the rank `r`.
pub open spec fn has_rank(core: Seq<Card>, r: Rank) -> bool {
    exists|i: int| 0 <= i < core.len() && core[i].rank == r
}

/// The cards of `s` whose rank is not among those of `core`, in their order.
pub open spec fn kickers(core: Seq<Card>, s: Seq<Card>) -> Seq<Card> {
    s.filter(|c: Card| !has_rank(core, c.rank))
}

/// `core` filled up to five cards with the first kickers.
pub open spec fn completed(core: Seq<Card>, s: Seq<Card>) -> Seq<Card> {
    core + kickers(core, s).take(5 - core.len())
}

/// The category and the five cards of the best hand in `s`, a descending
/// sequence of seven cards. The categories are tried from the strongest
/// down, and the first that `s` holds decides.
pub open spec fn best_hand(s: Seq<Card>) -> (HandRank, Seq<Card>) {
    let quad = top_rank(s, 4, None, 13);
    let trip = top_rank(s, 3, None, 13);
    let pair = top_rank(s, 2, trip, 13);
    let second = top_rank(s, 2, pair, 13);
    if straight_flush(s, 4) is Some {
        (HandRank::StraightFlush, straight_flush(s, 4)->0)
    } else if quad is Some {
        (HandRank::Quads, completed(of_rank(s, quad->0), s))
    } else if trip is Some && pair is Some {
        (HandRank::Boat, of_rank(s, trip->0) + of_rank(s, pair->0).take(2))
    } else if flush(s, 4) is Some {
        (HandRank::Flush, flush(s, 4)->0)
    } else if straight_in(leaders(s, 13)) is Some {
        (HandRank::Straight, straight_in(leaders(s, 13))->0)
    } else if trip is Some {
        (HandRank::Trips, completed(of_rank(s, trip->0), s))
    } else if pair is Some && second is Some {
        (HandRank::TwoPair, completed(of_rank(s, pair->0) + of_rank(s, second->0), s))
    } else if pair is Some {
        (HandRank::Pair, completed(of_rank(s, pair->0), s))
    } else {
        (HandRank::HighCard, completed(Seq::empty(), s))
    }
}

} // verus!
