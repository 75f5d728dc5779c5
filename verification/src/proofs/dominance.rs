use vstd::prelude::*;
use core::cmp::Ordering;
use crate::card::Card;
use crate::hand::{key_order, mismatch_from, run_high};
use crate::model::{first_run, is_run, of_rank, of_suit, steps_down, window};
use crate::proofs::attained::lemma_suit_group;
use crate::proofs::basics::{
    drawn_from, lemma_descending_distinct, lemma_filter_descending, lemma_filter_three,
    lemma_first_run,
};
use crate::proofs::chains::lemma_members_counted;
use crate::proofs::runs::{lemma_five_in_a_row, lemma_wheel_found, lemma_wheel_stands, ranks_fall};
use crate::rank::Rank;
use crate::rules::run_rank;
use crate::sorting::descending;

verus! {

/// Distinct cards of one rank among descending cards: the rank is held at
/// least so many times.
pub proof fn lemma_rank_held(s: Seq<Card>, g: Seq<Card>, r: int)
    requires
        descending(s),
        drawn_from(g, s),
        forall|i: int| 0 <= i < g.len() ==> (#[trigger] g[i]).rank.strength() == r,
    ensures
        of_rank(s, r).len() >= g.len(),
{
    let f = of_rank(s, r);
    lemma_filter_descending(s, |c: Card| c.rank.strength() == r);
    lemma_descending_distinct(f);
    assert forall|i: int| 0 <= i < g.len() implies f.contains(#[trigger] g[i]) by {
        assert(s.contains(g[i]) && g[i].rank.strength() == r);
    }
    lemma_members_counted(f, g);
}

/// Distinct cards of one suit among descending cards: the suit is held at
/// least so many times.
pub proof fn lemma_suit_held(s: Seq<Card>, g: Seq<Card>, u: int)
    requires
        descending(s),
        drawn_from(g, s),
        forall|i: int| 0 <= i < g.len() ==> (#[trigger] g[i]).suit.index() == u,
    ensures
        of_suit(s, u).len() >= g.len(),
{
    let f = of_suit(s, u);
    lemma_suit_group(s, u);
    lemma_descending_distinct(f);
    assert forall|i: int| 0 <= i < g.len() implies f.contains(#[trigger] g[i]) by {
        assert(s.contains(g[i]) && g[i].suit.index() == u);
    }
    lemma_members_counted(f, g);
}

/// A part of a sequence of distinct cards of `s` is such a sequence.
pub proof fn lemma_part_drawn(g: Seq<Card>, s: Seq<Card>, from: int, to: int)
    requires
        drawn_from(g, s),
        0 <= from <= to <= g.len(),
    ensures
        drawn_from(g.subrange(from, to), s),
{
    let part = g.subrange(from, to);
    assert forall|i: int| 0 <= i < part.len() implies s.contains(#[trigger] part[i]) by {
        assert(part[i] == g[from + i]);
    }
    assert forall|i: int, j: int| 0 <= i < part.len() && 0 <= j < part.len() && i != j implies part[i]
        != part[j] by {
        assert(part[i] == g[from + i] && part[j] == g[from + j]);
    }
}

/// Two ranks cannot both be held so often that seven cards do not suffice.
pub proof fn lemma_ranks_share(s: Seq<Card>, r: int, q: int)
    requires
        r != q,
    ensures
        of_rank(s, r).len() + of_rank(s, q).len() <= s.len(),
{
    let a = |c: Card| c.rank.strength() == r;
    let b = |c: Card| c.rank.strength() == q;
    let rest = |c: Card| c.rank.strength() != r && c.rank.strength() != q;
    lemma_filter_three(s, a, b, rest);
}

/// Two suits cannot both be held so often that seven cards do not suffice.
pub proof fn lemma_suits_share(s: Seq<Card>, u: int, v: int)
    requires
        u != v,
    ensures
        of_suit(s, u).len() + of_suit(s, v).len() <= s.len(),
{
    let a = |c: Card| c.suit.index() == u;
    let b = |c: Card| c.suit.index() == v;
    let rest = |c: Card| c.suit.index() != u && c.suit.index() != v;
    lemma_filter_three(s, a, b, rest);
}

/// Whether, from place `from` on, the key `a` is at most the key `b` of the
/// same length: lower at the first place where the two differ, if there is
/// one.
pub open spec fn at_most(a: Seq<u32>, b: Seq<u32>, from: int) -> bool
    decreases a.len() - from,
{
    from < 0 || from >= a.len() || a[from] < b[from] || (a[from] == b[from] && at_most(
        a,
        b,
        from + 1,
    ))
}

/// A key that is at most another from some place on, and the same before,
/// is not greater.
pub proof fn lemma_at_most(a: Seq<u32>, b: Seq<u32>, from: int)
    requires
        a.len() == b.len(),
        0 <= from,
        at_most(a, b, from),
        mismatch_from(a, b, 0) == mismatch_from(a, b, from),
    ensures
        key_order(a, b) != Ordering::Greater,
    decreases a.len() - from,
{
    if from < a.len() && a[from] == b[from] {
        lemma_at_most(a, b, from + 1);
    }
}

/// A key that is at most another of the same length is not greater.
pub proof fn lemma_key_not_greater(a: Seq<u32>, b: Seq<u32>)
    requires
        a.len() == b.len(),
        at_most(a, b, 0),
    ensures
        key_order(a, b) != Ordering::Greater,
{
    lemma_at_most(a, b, 0);
}

/// The first run found at or after `from`, where a run stands in the window
/// at `at`, stands in a window between the two.
pub proof fn lemma_first_window(d: Seq<Card>, from: int, at: int) -> (p: int)
    requires
        0 <= from <= at,
        at + 5 <= d.len(),
        is_run(window(d, at)),
    ensures
        from <= p <= at,
        is_run(window(d, p)),
        first_run(d, from) == Some(window(d, p)),
    decreases at - from,
{
    if is_run(window(d, from)) {
        from
    } else {
        lemma_first_window(d, from + 1, at)
    }
}

/// The high card of a run of five cards is a five at the least.
pub proof fn lemma_run_high_floor(w: Seq<Card>)
    requires
        w.len() == 5,
        is_run(w),
    ensures
        run_high(w) >= 3,
        !(w[0].rank == Rank::Ace && w[1].rank == Rank::Five) ==> run_high(w)
            == w[0].rank.strength() && w[0].rank.strength() >= 4 && w[1].rank.strength()
            == w[0].rank.strength() - 1 && w[2].rank.strength() == w[0].rank.strength() - 2
            && w[3].rank.strength() == w[0].rank.strength() - 3 && w[4].rank.strength()
            == w[0].rank.strength() - 4,
        w[0].rank == Rank::Ace && w[1].rank == Rank::Five ==> run_high(w) == 3
            && w[2].rank.strength() == 2 && w[3].rank.strength() == 1 && w[4].rank.strength() == 0,
{
    assert(steps_down(w, 1));
    assert(steps_down(w, 2));
    assert(steps_down(w, 3));
    assert(steps_down(w, 4));
}

/// Among cards of falling ranks that hold the five ranks of a run, a run is
/// found, and its high card is no lower.
pub proof fn lemma_run_dominates(d: Seq<Card>, high: int, p0: int, p1: int, p2: int, p3: int, p4: int)
    requires
        ranks_fall(d),
        3 <= high <= 12,
        0 <= p0 < d.len(),
        0 <= p1 < d.len(),
        0 <= p2 < d.len(),
        0 <= p3 < d.len(),
        0 <= p4 < d.len(),
        d[p0].rank.strength() == run_rank(high, 0),
        d[p1].rank.strength() == run_rank(high, 1),
        d[p2].rank.strength() == run_rank(high, 2),
        d[p3].rank.strength() == run_rank(high, 3),
        d[p4].rank.strength() == run_rank(high, 4),
    ensures
        first_run(d, 0) is Some,
        run_high(first_run(d, 0)->0) >= high,
{
    lemma_first_run(d, 0);
    if high == 3 {
        assert(d[p4].rank == Rank::Ace);
        assert(d[p0].rank == Rank::Five);
        lemma_wheel_stands(d, p4, p0, p1, p2, p3);
        lemma_wheel_found(d, 0);
        lemma_run_high_floor(first_run(d, 0)->0);
    } else {
        lemma_five_in_a_row(d, p0, p1, p2, p3, p4);
        let p = lemma_first_window(d, 0, p0);
        let w = window(d, p);
        lemma_run_high_floor(w);
        assert(w[0] == d[p] && w[1] == d[p + 1] && w[4] == d[p + 4]);
        if p < p0 {
            assert(d[p].rank.strength() > d[p0].rank.strength());
            if w[0].rank == Rank::Ace && w[1].rank == Rank::Five {
                assert(d[p + 4].rank.strength() > d[p0 + 4].rank.strength());
            }
        }
    }
}

} // verus!
