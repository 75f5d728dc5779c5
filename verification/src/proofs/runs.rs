use vstd::prelude::*;
use crate::card::Card;
use crate::model::{first_run, is_run, steps_down, wheel, window};
use crate::rank::Rank;
use crate::rules::{holds_suited_run, run_card, run_rank};
use crate::sorting::descending;
use crate::suit::Suit;

verus! {

/// Whether the ranks of the cards fall from each card to the next.
pub open spec fn ranks_fall(d: Seq<Card>) -> bool {
    forall|i: int, j: int|
        0 <= i < j < d.len() ==> d[i].rank.strength() > d[j].rank.strength()
}

/// Where ranks fall, two cards whose ranks are next to each other stand next
/// to each other.
pub proof fn lemma_neighbours(d: Seq<Card>, i: int, j: int)
    requires
        ranks_fall(d),
        0 <= i < d.len(),
        0 <= j < d.len(),
        d[i].rank.strength() == d[j].rank.strength() + 1,
    ensures
        j == i + 1,
{
    if j < i {
        assert(d[j].rank.strength() > d[i].rank.strength());
    } else if j > i + 1 {
        assert(d[i].rank.strength() > d[i + 1].rank.strength());
        assert(d[i + 1].rank.strength() > d[j].rank.strength());
    }
}

/// A run that stands in a window at or after `from` is found, or a higher
/// one is.
pub proof fn lemma_window_found(d: Seq<Card>, from: int, at: int)
    requires
        0 <= from <= at,
        at + 5 <= d.len(),
        is_run(window(d, at)),
    ensures
        first_run(d, from) is Some,
    decreases at - from,
{
    if from < at && !is_run(window(d, from)) {
        lemma_window_found(d, from + 1, at);
    }
}

/// Where the wheel stands, a run is found.
pub proof fn lemma_wheel_found(d: Seq<Card>, from: int)
    requires
        0 <= from,
        d.len() >= 5,
        is_run(wheel(d)),
    ensures
        first_run(d, from) is Some,
    decreases d.len() - from,
{
    if from + 5 <= d.len() && !is_run(window(d, from)) {
        lemma_wheel_found(d, from + 1);
    }
}

/// The cards of a run have the ranks of the run, and its suit.
pub proof fn lemma_run_card(suit: Suit, high: int, k: int)
    requires
        3 <= high <= 12,
        0 <= k < 5,
    ensures
        run_card(suit, high, k).rank.strength() == run_rank(high, k),
        run_card(suit, high, k).suit == suit,
        run_rank(high, k) == 12 ==> run_card(suit, high, k).rank == Rank::Ace,
        run_rank(high, k) == 3 ==> run_card(suit, high, k).rank == Rank::Five,
{
}

/// Descending cards of one suit have falling ranks.
pub proof fn lemma_ranks_fall(d: Seq<Card>, suit: Suit)
    requires
        descending(d),
        forall|i: int| 0 <= i < d.len() ==> (#[trigger] d[i]).suit == suit,
    ensures
        ranks_fall(d),
{
    assert forall|i: int, j: int| 0 <= i < j < d.len() implies d[i].rank.strength()
        > d[j].rank.strength() by {
        assert(d[i].ordinal() > d[j].ordinal());
        assert(d[i].suit == suit && d[j].suit == suit);
    }
}

/// A place where a card stands that the sequence holds.
pub proof fn lemma_place(d: Seq<Card>, c: Card) -> (i: int)
    requires
        d.contains(c),
    ensures
        0 <= i < d.len(),
        d[i] == c,
{
    choose|i: int| 0 <= i < d.len() && d[i] == c
}

/// Five cards of falling ranks whose strengths go down by one from each to
/// the next stand in one window, which is a run.
pub proof fn lemma_five_in_a_row(d: Seq<Card>, p0: int, p1: int, p2: int, p3: int, p4: int)
    requires
        ranks_fall(d),
        0 <= p0 < d.len(),
        0 <= p1 < d.len(),
        0 <= p2 < d.len(),
        0 <= p3 < d.len(),
        0 <= p4 < d.len(),
        d[p0].rank.strength() == d[p1].rank.strength() + 1,
        d[p1].rank.strength() == d[p2].rank.strength() + 1,
        d[p2].rank.strength() == d[p3].rank.strength() + 1,
        d[p3].rank.strength() == d[p4].rank.strength() + 1,
    ensures
        p0 + 5 <= d.len(),
        is_run(window(d, p0)),
{
    lemma_neighbours(d, p0, p1);
    lemma_neighbours(d, p1, p2);
    lemma_neighbours(d, p2, p3);
    lemma_neighbours(d, p3, p4);
    let w = window(d, p0);
    assert(w[0] == d[p0] && w[1] == d[p1] && w[2] == d[p2] && w[3] == d[p3] && w[4] == d[p4]);
    assert(steps_down(w, 1));
    assert(steps_down(w, 2));
    assert(steps_down(w, 3));
    assert(steps_down(w, 4));
}

/// An ace and the cards from five to two, among cards of falling ranks, make
/// the wheel.
pub proof fn lemma_wheel_stands(d: Seq<Card>, a: int, p0: int, p1: int, p2: int, p3: int)
    requires
        ranks_fall(d),
        0 <= a < d.len(),
        0 <= p0 < d.len(),
        0 <= p1 < d.len(),
        0 <= p2 < d.len(),
        0 <= p3 < d.len(),
        d[a].rank == Rank::Ace,
        d[p0].rank == Rank::Five,
        d[p1].rank.strength() == 2,
        d[p2].rank.strength() == 1,
        d[p3].rank.strength() == 0,
    ensures
        d.len() >= 5,
        is_run(wheel(d)),
{
    lemma_neighbours(d, p0, p1);
    lemma_neighbours(d, p1, p2);
    lemma_neighbours(d, p2, p3);
    if a > 0 {
        assert(d[0].rank.strength() > d[a].rank.strength());
    }
    if p3 < d.len() - 1 {
        assert(d[p3].rank.strength() > d[d.len() - 1].rank.strength());
    }
    assert(a != p0);
    let w = wheel(d);
    assert(w[0] == d[0] && w[1] == d[p0] && w[2] == d[p1] && w[3] == d[p2] && w[4] == d[p3]);
    assert(steps_down(w, 1));
    assert(steps_down(w, 2));
    assert(steps_down(w, 3));
    assert(steps_down(w, 4));
}

/// Among descending cards of one suit that hold the five cards of a run, a
/// run is found.
pub proof fn lemma_run_found(d: Seq<Card>, suit: Suit, high: int)
    requires
        descending(d),
        forall|i: int| 0 <= i < d.len() ==> (#[trigger] d[i]).suit == suit,
        holds_suited_run(d, suit, high),
    ensures
        first_run(d, 0) is Some,
{
    lemma_ranks_fall(d, suit);
    lemma_run_card(suit, high, 0);
    lemma_run_card(suit, high, 1);
    lemma_run_card(suit, high, 2);
    lemma_run_card(suit, high, 3);
    lemma_run_card(suit, high, 4);
    let p0 = lemma_place(d, run_card(suit, high, 0));
    let p1 = lemma_place(d, run_card(suit, high, 1));
    let p2 = lemma_place(d, run_card(suit, high, 2));
    let p3 = lemma_place(d, run_card(suit, high, 3));
    let p4 = lemma_place(d, run_card(suit, high, 4));
    if high == 3 {
        lemma_wheel_stands(d, p4, p0, p1, p2, p3);
        lemma_wheel_found(d, 0);
    } else {
        lemma_five_in_a_row(d, p0, p1, p2, p3, p4);
        lemma_window_found(d, 0, p0);
    }
}

} // verus!
