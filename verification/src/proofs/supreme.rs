use vstd::prelude::*;
use core::cmp::Ordering;
use crate::card::Card;
use crate::hand::{key_of, key_order, run_high, standing, HandRank};
use crate::model::{
    best_hand, flush, has_rank, is_run, kickers, leaders, of_rank, of_suit, straight_flush,
    straight_in, top_rank,
};
use crate::proofs::attained::{
    lemma_attained_boat, lemma_attained_high_card, lemma_attained_pair, lemma_attained_quads,
    lemma_attained_trips, lemma_attained_two_pair, lemma_core_rank, lemma_core_ranks,
    lemma_flush_suit, lemma_kickers, lemma_rank_present, lemma_suit_group,
};
use crate::proofs::basics::{
    drawn_from, lemma_filter_descending, lemma_first_run, lemma_leaders, lemma_rank_group_small,
    lemma_straight_flush, lemma_top_rank,
};
use crate::proofs::chains::lemma_chain;
use crate::proofs::dominance::{
    at_most, lemma_key_not_greater, lemma_part_drawn, lemma_rank_held, lemma_ranks_share,
    lemma_run_dominates, lemma_run_high_floor, lemma_suit_held, lemma_suits_share,
};
use crate::proofs::runs::ranks_fall;
use crate::rank::Rank;
use crate::rules::{is_hand_of, rank_at};
use crate::sorting::descending;

verus! {

/// Whether the hand `g` of category `c` does not beat the best hand of `s`.
pub open spec fn not_beaten(s: Seq<Card>, c: HandRank, g: Seq<Card>) -> bool {
    standing(c, key_of(c, g), best_hand(s).0, key_of(best_hand(s).0, best_hand(s).1))
        != Ordering::Greater
}

/// Five cards of falling ranks, all of them cards of the descending sequence
/// `f`: the first five cards of `f` have, place by place, ranks at least as
/// high.
pub proof fn lemma_falling_chain(f: Seq<Card>, g: Seq<Card>)
    requires
        descending(f),
        g.len() == 5,
        rank_at(g, 0) > rank_at(g, 1),
        rank_at(g, 1) > rank_at(g, 2),
        rank_at(g, 2) > rank_at(g, 3),
        rank_at(g, 3) > rank_at(g, 4),
        forall|i: int| 0 <= i < 5 ==> f.contains(#[trigger] g[i]),
    ensures
        f.len() >= 5,
        rank_at(f, 0) >= rank_at(g, 0),
        rank_at(f, 1) >= rank_at(g, 1),
        rank_at(f, 2) >= rank_at(g, 2),
        rank_at(f, 3) >= rank_at(g, 3),
        rank_at(f, 4) >= rank_at(g, 4),
{
    assert(descending(g)) by {
        assert forall|i: int, j: int| 0 <= i < j < g.len() implies g[i].ordinal()
            > g[j].ordinal() by {
            assert(rank_at(g, i) > rank_at(g, j));
        }
    }
    lemma_chain(f, g);
    assert(f[0].rank.strength() >= g[0].rank.strength());
    assert(f[1].rank.strength() >= g[1].rank.strength());
    assert(f[2].rank.strength() >= g[2].rank.strength());
    assert(f[3].rank.strength() >= g[3].rank.strength());
    assert(f[4].rank.strength() >= g[4].rank.strength());
}

/// A key of five ranks is not greater than one that is, place by place, at
/// least as high.
pub proof fn lemma_five_ranks_key(c: HandRank, g: Seq<Card>, hand: Seq<Card>)
    requires
        c == HandRank::HighCard || c == HandRank::Flush,
        rank_at(hand, 0) >= rank_at(g, 0),
        rank_at(hand, 1) >= rank_at(g, 1),
        rank_at(hand, 2) >= rank_at(g, 2),
        rank_at(hand, 3) >= rank_at(g, 3),
        rank_at(hand, 4) >= rank_at(g, 4),
    ensures
        key_order(key_of(c, g), key_of(c, hand)) != Ordering::Greater,
{
    let a = key_of(c, g);
    let b = key_of(c, hand);
    assert(a.len() == 5 && b.len() == 5);
    assert(a[0] <= b[0] && a[1] <= b[1] && a[2] <= b[2] && a[3] <= b[3] && a[4] <= b[4]);
    assert(at_most(a, b, 0)) by {
        reveal_with_fuel(at_most, 6);
    }
    lemma_key_not_greater(a, b);
}

/// Five cards of falling ranks have a key no greater than that of the five
/// highest cards.
pub proof fn lemma_high_card_key(s: Seq<Card>, g: Seq<Card>)
    requires
        descending(s),
        s.len() == 7,
        is_hand_of(HandRank::HighCard, g),
        drawn_from(g, s),
    ensures
        key_order(key_of(HandRank::HighCard, g), key_of(HandRank::HighCard, s.take(5)))
            != Ordering::Greater,
{
    let hand = s.take(5);
    lemma_falling_chain(s, g);
    assert(hand[0] == s[0] && hand[1] == s[1] && hand[2] == s[2] && hand[3] == s[3] && hand[4]
        == s[4]);
    lemma_five_ranks_key(HandRank::HighCard, g, hand);
}

/// No five cards without a pair beat the best hand.
pub proof fn lemma_high_card_not_better(s: Seq<Card>, g: Seq<Card>)
    requires
        descending(s),
        s.len() == 7,
        is_hand_of(HandRank::HighCard, g),
        drawn_from(g, s),
    ensures
        not_beaten(s, HandRank::HighCard, g),
{
    if best_hand(s).0 == HandRank::HighCard {
        lemma_top_rank(s, 3, None, 13);
        lemma_top_rank(s, 2, None, 13);
        lemma_attained_high_card(s);
        lemma_high_card_key(s, g);
    }
}

/// The kickers stand, place by place, at least as high as any cards of `s`
/// of other ranks than the core's whose ranks fall.
pub proof fn lemma_kickers_dominate(core: Seq<Card>, s: Seq<Card>, rest: Seq<Card>)
    requires
        descending(s),
        forall|i: int|
            0 <= i < rest.len() ==> s.contains(#[trigger] rest[i]) && !has_rank(core, rest[i].rank),
        forall|i: int, j: int|
            0 <= i < j < rest.len() ==> rest[i].rank.strength() > rest[j].rank.strength(),
    ensures
        kickers(core, s).len() >= rest.len(),
        forall|i: int|
            0 <= i < rest.len() ==> (#[trigger] kickers(core, s)[i]).rank.strength()
                >= rest[i].rank.strength(),
{
    let k = kickers(core, s);
    lemma_kickers(core, s);
    assert(descending(rest)) by {
        assert forall|i: int, j: int| 0 <= i < j < rest.len() implies rest[i].ordinal()
            > rest[j].ordinal() by {
            assert(rest[i].rank.strength() > rest[j].rank.strength());
        }
    }
    assert forall|i: int| 0 <= i < rest.len() implies k.contains(#[trigger] rest[i]) by {
        assert(s.contains(rest[i]) && !has_rank(core, rest[i].rank));
    }
    lemma_chain(k, rest);
}

/// No pair with three kickers beats the best hand.
pub proof fn lemma_pair_not_better(s: Seq<Card>, g: Seq<Card>)
    requires
        descending(s),
        s.len() == 7,
        is_hand_of(HandRank::Pair, g),
        drawn_from(g, s),
    ensures
        not_beaten(s, HandRank::Pair, g),
{
    let r = rank_at(g, 0);
    let trip = top_rank(s, 3, None, 13);
    let pair = top_rank(s, 2, trip, 13);
    let second = top_rank(s, 2, pair, 13);
    lemma_top_rank(s, 3, None, 13);
    lemma_top_rank(s, 2, trip, 13);
    lemma_top_rank(s, 2, pair, 13);
    lemma_part_drawn(g, s, 0, 2);
    lemma_rank_held(s, g.subrange(0, 2), r);
    assert(best_hand(s).0 != HandRank::HighCard);
    if best_hand(s).0 == HandRank::Pair {
        let p = pair->0;
        assert(p == r);
        lemma_attained_pair(s, p);
        let core = of_rank(s, p);
        let hand = best_hand(s).1;
        let rest = g.subrange(2, 5);
        assert(rest[0] == g[2] && rest[1] == g[3] && rest[2] == g[4]);
        lemma_core_rank(s, p, g[2]);
        lemma_core_rank(s, p, g[3]);
        lemma_core_rank(s, p, g[4]);
        lemma_kickers_dominate(core, s, rest);
        let k = kickers(core, s);
        let a = key_of(HandRank::Pair, g);
        let b = key_of(HandRank::Pair, hand);
        assert(k[0].rank.strength() >= rest[0].rank.strength());
        assert(k[1].rank.strength() >= rest[1].rank.strength());
        assert(k[2].rank.strength() >= rest[2].rank.strength());
        assert(a[0] == b[0] && a[1] <= b[1] && a[2] <= b[2] && a[3] <= b[3]);
        assert(at_most(a, b, 0)) by {
            reveal_with_fuel(at_most, 6);
        }
        lemma_key_not_greater(a, b);
    }
}

/// No two pairs with a kicker beat the best hand.
pub proof fn lemma_two_pair_not_better(s: Seq<Card>, g: Seq<Card>)
    requires
        descending(s),
        s.len() == 7,
        is_hand_of(HandRank::TwoPair, g),
        drawn_from(g, s),
    ensures
        not_beaten(s, HandRank::TwoPair, g),
{
    let r = rank_at(g, 0);
    let q = rank_at(g, 2);
    let trip = top_rank(s, 3, None, 13);
    let pair = top_rank(s, 2, trip, 13);
    let second = top_rank(s, 2, pair, 13);
    lemma_top_rank(s, 3, None, 13);
    lemma_top_rank(s, 2, trip, 13);
    lemma_top_rank(s, 2, pair, 13);
    lemma_part_drawn(g, s, 0, 2);
    lemma_part_drawn(g, s, 2, 4);
    let high = g.subrange(0, 2);
    let low = g.subrange(2, 4);
    assert(high[0] == g[0] && high[1] == g[1] && low[0] == g[2] && low[1] == g[3]);
    lemma_rank_held(s, high, r);
    lemma_rank_held(s, low, q);
    assert(pair is Some);
    assert(trip is None ==> second is Some);
    assert(best_hand(s).0 != HandRank::HighCard && best_hand(s).0 != HandRank::Pair);
    if best_hand(s).0 == HandRank::TwoPair {
        let p1 = pair->0;
        let p2 = second->0;
        assert(p1 >= r);
        assert(p2 < p1);
        lemma_attained_two_pair(s, p1, p2);
        let core = of_rank(s, p1) + of_rank(s, p2);
        let hand = best_hand(s).1;
        let k = kickers(core, s);
        let a = key_of(HandRank::TwoPair, g);
        let b = key_of(HandRank::TwoPair, hand);
        assert(a[0] <= b[0]);
        if p1 == r {
            assert(p2 >= q);
            if p2 == q {
                let rest = g.subrange(4, 5);
                assert(rest[0] == g[4]);
                lemma_core_ranks(s, p1, p2, g[4]);
                lemma_kickers_dominate(core, s, rest);
                assert(k[0].rank.strength() >= rest[0].rank.strength());
                assert(a[2] <= b[2]);
            }
        }
        assert(at_most(a, b, 0)) by {
            reveal_with_fuel(at_most, 6);
        }
        lemma_key_not_greater(a, b);
    }
}

/// No three of a kind with two kickers beat the best hand.
pub proof fn lemma_trips_not_better(s: Seq<Card>, g: Seq<Card>)
    requires
        descending(s),
        s.len() == 7,
        is_hand_of(HandRank::Trips, g),
        drawn_from(g, s),
    ensures
        not_beaten(s, HandRank::Trips, g),
{
    let r = rank_at(g, 0);
    let quad = top_rank(s, 4, None, 13);
    let trip = top_rank(s, 3, None, 13);
    let pair = top_rank(s, 2, trip, 13);
    lemma_top_rank(s, 4, None, 13);
    lemma_top_rank(s, 3, None, 13);
    lemma_top_rank(s, 2, trip, 13);
    lemma_part_drawn(g, s, 0, 3);
    let three = g.subrange(0, 3);
    assert(three[0] == g[0] && three[1] == g[1] && three[2] == g[2]);
    lemma_rank_held(s, three, r);
    assert(trip is Some);
    assert(best_hand(s).0.strength() >= HandRank::Trips.strength());
    if best_hand(s).0 == HandRank::Trips {
        let t = trip->0;
        assert(t == r);
        lemma_attained_trips(s, t);
        let core = of_rank(s, t);
        let hand = best_hand(s).1;
        let rest = g.subrange(3, 5);
        assert(rest[0] == g[3] && rest[1] == g[4]);
        lemma_core_rank(s, t, g[3]);
        lemma_core_rank(s, t, g[4]);
        lemma_kickers_dominate(core, s, rest);
        let k = kickers(core, s);
        let a = key_of(HandRank::Trips, g);
        let b = key_of(HandRank::Trips, hand);
        assert(k[0].rank.strength() >= rest[0].rank.strength());
        assert(k[1].rank.strength() >= rest[1].rank.strength());
        assert(a[0] == b[0] && a[1] <= b[1] && a[2] <= b[2]);
        assert(at_most(a, b, 0)) by {
            reveal_with_fuel(at_most, 6);
        }
        lemma_key_not_greater(a, b);
    }
}

/// No three of a kind with two of another beat the best hand.
pub proof fn lemma_boat_not_better(s: Seq<Card>, g: Seq<Card>)
    requires
        descending(s),
        s.len() == 7,
        is_hand_of(HandRank::Boat, g),
        drawn_from(g, s),
    ensures
        not_beaten(s, HandRank::Boat, g),
{
    let r = rank_at(g, 0);
    let q = rank_at(g, 3);
    let quad = top_rank(s, 4, None, 13);
    let trip = top_rank(s, 3, None, 13);
    let pair = top_rank(s, 2, trip, 13);
    lemma_top_rank(s, 4, None, 13);
    lemma_top_rank(s, 3, None, 13);
    lemma_top_rank(s, 2, trip, 13);
    lemma_part_drawn(g, s, 0, 3);
    lemma_part_drawn(g, s, 3, 5);
    let three = g.subrange(0, 3);
    let two = g.subrange(3, 5);
    assert(three[0] == g[0] && three[1] == g[1] && three[2] == g[2]);
    assert(two[0] == g[3] && two[1] == g[4]);
    lemma_rank_held(s, three, r);
    lemma_rank_held(s, two, q);
    assert(trip is Some);
    assert(pair is Some);
    assert(best_hand(s).0.strength() >= HandRank::Boat.strength());
    if best_hand(s).0 == HandRank::Boat {
        let t = trip->0;
        let p = pair->0;
        lemma_attained_boat(s, t, p);
        let hand = best_hand(s).1;
        let a = key_of(HandRank::Boat, g);
        let b = key_of(HandRank::Boat, hand);
        assert(a[0] <= b[0]);
        if t == r {
            assert(p >= q);
        }
        assert(at_most(a, b, 0)) by {
            reveal_with_fuel(at_most, 6);
        }
        lemma_key_not_greater(a, b);
    }
}

/// No four of a kind with a kicker beat the best hand.
pub proof fn lemma_quads_not_better(s: Seq<Card>, g: Seq<Card>)
    requires
        descending(s),
        s.len() == 7,
        is_hand_of(HandRank::Quads, g),
        drawn_from(g, s),
    ensures
        not_beaten(s, HandRank::Quads, g),
{
    let r = rank_at(g, 0);
    let quad = top_rank(s, 4, None, 13);
    lemma_top_rank(s, 4, None, 13);
    lemma_part_drawn(g, s, 0, 4);
    let four = g.subrange(0, 4);
    assert(four[0] == g[0] && four[1] == g[1] && four[2] == g[2] && four[3] == g[3]);
    lemma_rank_held(s, four, r);
    assert(quad is Some);
    assert(best_hand(s).0.strength() >= HandRank::Quads.strength());
    if best_hand(s).0 == HandRank::Quads {
        let q = quad->0;
        if q != r {
            lemma_ranks_share(s, q, r);
        }
        lemma_attained_quads(s, q);
        let core = of_rank(s, q);
        let hand = best_hand(s).1;
        if rank_at(g, 4) == r {
            lemma_rank_held(s, g, r);
            lemma_rank_group_small(s, r);
        }
        let rest = g.subrange(4, 5);
        assert(rest[0] == g[4]);
        lemma_core_rank(s, q, g[4]);
        lemma_kickers_dominate(core, s, rest);
        let k = kickers(core, s);
        let a = key_of(HandRank::Quads, g);
        let b = key_of(HandRank::Quads, hand);
        assert(k[0].rank.strength() >= rest[0].rank.strength());
        assert(a[0] == b[0] && a[1] <= b[1]);
        assert(at_most(a, b, 0)) by {
            reveal_with_fuel(at_most, 6);
        }
        lemma_key_not_greater(a, b);
    }
}

/// Five cards of one suit have a key no greater than that of the five
/// highest cards of the suit.
pub proof fn lemma_flush_key(s: Seq<Card>, g: Seq<Card>, u: int)
    requires
        descending(s),
        is_hand_of(HandRank::Flush, g),
        drawn_from(g, s),
        g[0].suit.index() == u,
        of_suit(s, u).len() >= 5,
    ensures
        key_order(key_of(HandRank::Flush, g), key_of(HandRank::Flush, of_suit(s, u).take(5)))
            != Ordering::Greater,
{
    let d = of_suit(s, u);
    let hand = d.take(5);
    let p = |c: Card| c.suit.index() == u;
    lemma_filter_descending(s, p);
    assert forall|i: int| 0 <= i < 5 implies d.contains(#[trigger] g[i]) by {
        assert(s.contains(g[i]));
        assert(g[i].suit == g[0].suit);
        assert(p(g[i]));
    }
    lemma_falling_chain(d, g);
    assert(hand[0] == d[0] && hand[1] == d[1] && hand[2] == d[2] && hand[3] == d[3] && hand[4]
        == d[4]);
    lemma_five_ranks_key(HandRank::Flush, g, hand);
}

/// No five cards of one suit beat the best hand.
pub proof fn lemma_flush_not_better(s: Seq<Card>, g: Seq<Card>)
    requires
        descending(s),
        s.len() == 7,
        is_hand_of(HandRank::Flush, g),
        drawn_from(g, s),
    ensures
        not_beaten(s, HandRank::Flush, g),
{
    let u = g[0].suit.index();
    assert forall|i: int| 0 <= i < g.len() implies (#[trigger] g[i]).suit.index() == u by {
        assert(g[i].suit == g[0].suit);
    }
    lemma_suit_held(s, g, u);
    lemma_flush_suit(s, 4);
    assert(flush(s, 4) is Some);
    assert(best_hand(s).0.strength() >= HandRank::Flush.strength());
    if best_hand(s).0 == HandRank::Flush {
        let w = flush(s, 4)->0;
        let v = choose|v: int| 0 <= v < 4 && of_suit(s, v).len() >= 5 && w == of_suit(s, v).take(5);
        if v != u {
            lemma_suits_share(s, u, v);
        }
        lemma_flush_key(s, g, u);
    }
}

/// Whether one of the cards has the rank of strength `r`.
pub open spec fn holds_strength(d: Seq<Card>, r: int) -> bool {
    exists|x: int| 0 <= x < d.len() && #[trigger] d[x].rank.strength() == r
}

/// Where `d` holds a card of each rank of the run `g` and its ranks fall, a
/// run is found in `d`, and its high card is no lower than that of `g`.
pub proof fn lemma_run_not_better(d: Seq<Card>, g: Seq<Card>)
    requires
        ranks_fall(d),
        g.len() == 5,
        is_run(g),
        holds_strength(d, rank_at(g, 0)),
        holds_strength(d, rank_at(g, 1)),
        holds_strength(d, rank_at(g, 2)),
        holds_strength(d, rank_at(g, 3)),
        holds_strength(d, rank_at(g, 4)),
    ensures
        straight_in(d) is Some,
        run_high(straight_in(d)->0) >= run_high(g),
{
    lemma_run_high_floor(g);
    let x0 = choose|x: int| 0 <= x < d.len() && #[trigger] d[x].rank.strength() == rank_at(g, 0);
    let x1 = choose|x: int| 0 <= x < d.len() && #[trigger] d[x].rank.strength() == rank_at(g, 1);
    let x2 = choose|x: int| 0 <= x < d.len() && #[trigger] d[x].rank.strength() == rank_at(g, 2);
    let x3 = choose|x: int| 0 <= x < d.len() && #[trigger] d[x].rank.strength() == rank_at(g, 3);
    let x4 = choose|x: int| 0 <= x < d.len() && #[trigger] d[x].rank.strength() == rank_at(g, 4);
    if g[0].rank == Rank::Ace && g[1].rank == Rank::Five {
        lemma_run_dominates(d, 3, x1, x2, x3, x4, x0);
    } else {
        lemma_run_dominates(d, rank_at(g, 0), x0, x1, x2, x3, x4);
    }
}

/// No run of five cards beats the best hand.
pub proof fn lemma_straight_not_better(s: Seq<Card>, g: Seq<Card>)
    requires
        descending(s),
        s.len() == 7,
        is_hand_of(HandRank::Straight, g),
        drawn_from(g, s),
    ensures
        not_beaten(s, HandRank::Straight, g),
{
    let d = leaders(s, 13);
    lemma_leaders(s, 13);
    assert forall|i: int| 0 <= i < 5 implies holds_strength(d, #[trigger] rank_at(g, i)) by {
        assert(s.contains(g[i]));
        lemma_rank_present(s, g[i]);
    }
    assert(holds_strength(d, rank_at(g, 0)) && holds_strength(d, rank_at(g, 1)) && holds_strength(
        d,
        rank_at(g, 2),
    ) && holds_strength(d, rank_at(g, 3)) && holds_strength(d, rank_at(g, 4)));
    lemma_run_not_better(d, g);
    assert(best_hand(s).0.strength() >= HandRank::Straight.strength());
    if best_hand(s).0 == HandRank::Straight {
        let a = key_of(HandRank::Straight, g);
        let b = key_of(HandRank::Straight, best_hand(s).1);
        assert(a[0] <= b[0]);
        assert(at_most(a, b, 0)) by {
            reveal_with_fuel(at_most, 3);
        }
        lemma_key_not_greater(a, b);
    }
}

/// Among the cards of the suit of a run of one suit, a run is found, and its
/// high card is no lower.
pub proof fn lemma_suited_run_found(s: Seq<Card>, g: Seq<Card>)
    requires
        descending(s),
        is_hand_of(HandRank::StraightFlush, g),
        drawn_from(g, s),
    ensures
        of_suit(s, g[0].suit.index()).len() >= 5,
        straight_in(of_suit(s, g[0].suit.index())) is Some,
        run_high(straight_in(of_suit(s, g[0].suit.index()))->0) >= run_high(g),
{
    let u = g[0].suit.index();
    let d = of_suit(s, u);
    lemma_suit_group(s, u);
    assert(ranks_fall(d));
    assert forall|i: int| 0 <= i < 5 implies holds_strength(d, #[trigger] rank_at(g, i)) by {
        assert(g[i].suit == g[0].suit);
        assert(s.contains(g[i]) && g[i].suit.index() == u);
        assert(d.contains(g[i]));
        let x = choose|x: int| 0 <= x < d.len() && d[x] == g[i];
        assert(0 <= x < d.len() && d[x].rank.strength() == rank_at(g, i));
    }
    assert(holds_strength(d, rank_at(g, 0)) && holds_strength(d, rank_at(g, 1)) && holds_strength(
        d,
        rank_at(g, 2),
    ) && holds_strength(d, rank_at(g, 3)) && holds_strength(d, rank_at(g, 4)));
    lemma_run_not_better(d, g);
    lemma_first_run(d, 0);
}

/// The straight flush that is found stands in the one suit of which five
/// cards are held.
pub proof fn lemma_straight_flush_suit(s: Seq<Card>, u: int)
    requires
        descending(s),
        s.len() == 7,
        0 <= u < 4,
        of_suit(s, u).len() >= 5,
        straight_in(of_suit(s, u)) is Some,
    ensures
        straight_flush(s, 4) == straight_in(of_suit(s, u)),
{
    lemma_straight_flush(s, 4);
    let w = straight_flush(s, 4)->0;
    let v = choose|v: int| 0 <= v < 4 && straight_in(of_suit(s, v)) == Some(w);
    lemma_first_run(of_suit(s, v), 0);
    if v != u {
        lemma_suits_share(s, u, v);
    }
}

/// No run of five cards of one suit beats the best hand.
pub proof fn lemma_straight_flush_not_better(s: Seq<Card>, g: Seq<Card>)
    requires
        descending(s),
        s.len() == 7,
        is_hand_of(HandRank::StraightFlush, g),
        drawn_from(g, s),
    ensures
        not_beaten(s, HandRank::StraightFlush, g),
{
    let u = g[0].suit.index();
    lemma_suited_run_found(s, g);
    lemma_straight_flush_suit(s, u);
    let a = key_of(HandRank::StraightFlush, g);
    let b = key_of(HandRank::StraightFlush, best_hand(s).1);
    assert(best_hand(s).0 == HandRank::StraightFlush);
    assert(best_hand(s).1 == straight_in(of_suit(s, u))->0);
    assert(a.len() == 1 && b.len() == 1 && a[0] <= b[0]);
    assert(at_most(a, b, 0)) by {
        reveal_with_fuel(at_most, 3);
    }
    lemma_key_not_greater(a, b);
}

/// No hand of five of the seven cards beats the best hand.
pub proof fn lemma_not_beaten(s: Seq<Card>, c: HandRank, g: Seq<Card>)
    requires
        descending(s),
        s.len() == 7,
        is_hand_of(c, g),
        drawn_from(g, s),
    ensures
        not_beaten(s, c, g),
{
    match c {
        HandRank::HighCard => lemma_high_card_not_better(s, g),
        HandRank::Pair => lemma_pair_not_better(s, g),
        HandRank::TwoPair => lemma_two_pair_not_better(s, g),
        HandRank::Trips => lemma_trips_not_better(s, g),
        HandRank::Straight => lemma_straight_not_better(s, g),
        HandRank::Flush => lemma_flush_not_better(s, g),
        HandRank::Boat => lemma_boat_not_better(s, g),
        HandRank::Quads => lemma_quads_not_better(s, g),
        HandRank::StraightFlush => lemma_straight_flush_not_better(s, g),
    }
}

} // verus!
