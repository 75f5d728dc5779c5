use vstd::prelude::*;
use crate::card::Card;
use crate::hand::HandRank;
use crate::model::{
    best_hand, completed, flush, has_rank, kickers, leaders, of_rank, of_suit, straight_flush,
    straight_in, top_rank,
};
use crate::proofs::basics::{
    lemma_best_hand_drawn, lemma_completed, lemma_descending_distinct, lemma_filter_descending,
    lemma_first_run, lemma_kickers_of_none, lemma_kickers_of_one, lemma_kickers_of_two,
    lemma_rank_group_drawn, lemma_rank_group_small, lemma_straight_flush, lemma_take_descending,
    lemma_top_rank, lemma_two_groups_drawn,
};
use crate::proofs::chains::lemma_members_counted;
use crate::rank::Rank;
use crate::rules::{is_hand_of, one_suit, rank_at};
use crate::sorting::descending;

verus! {

/// Two cards of one rank among descending cards: that rank is held twice.
pub proof fn lemma_two_of_a_rank(s: Seq<Card>, a: Card, b: Card)
    requires
        descending(s),
        s.contains(a),
        s.contains(b),
        a != b,
        a.rank == b.rank,
    ensures
        of_rank(s, a.rank.strength()).len() >= 2,
{
    let r = a.rank.strength();
    let f = of_rank(s, r);
    let g = seq![a, b];
    lemma_filter_descending(s, |c: Card| c.rank.strength() == r);
    lemma_descending_distinct(f);
    assert(f.contains(a) && f.contains(b));
    assert forall|i: int| 0 <= i < g.len() implies f.contains(#[trigger] g[i]) by {
        if i == 0 {
            assert(g[i] == a);
        } else {
            assert(g[i] == b);
        }
    }
    lemma_members_counted(f, g);
}

/// A card of `s` has a rank that `s` holds.
pub proof fn lemma_rank_present(s: Seq<Card>, c: Card)
    requires
        descending(s),
        s.contains(c),
    ensures
        of_rank(s, c.rank.strength()).len() > 0,
        0 <= c.rank.strength() < 13,
{
    let r = c.rank.strength();
    lemma_filter_descending(s, |x: Card| x.rank.strength() == r);
    assert(of_rank(s, r).contains(c));
}

/// The kickers descend, are cards of `s`, and none has a rank of the core.
pub proof fn lemma_kickers(core: Seq<Card>, s: Seq<Card>)
    requires
        descending(s),
    ensures
        descending(kickers(core, s)),
        forall|i: int|
            0 <= i < kickers(core, s).len() ==> s.contains(#[trigger] kickers(core, s)[i])
                && !has_rank(core, kickers(core, s)[i].rank),
        forall|c: Card| #[trigger]
            s.contains(c) && !has_rank(core, c.rank) ==> kickers(core, s).contains(c),
{
    let p = |c: Card| !has_rank(core, c.rank);
    let k = kickers(core, s);
    lemma_filter_descending(s, p);
    assert forall|i: int| 0 <= i < k.len() implies s.contains(#[trigger] k[i]) && !has_rank(
        core,
        k[i].rank,
    ) by {
        assert(k.contains(k[i]));
        assert(p(k[i]));
    }
    assert forall|c: Card| #[trigger] s.contains(c) && !has_rank(core, c.rank) implies k.contains(
        c,
    ) by {
        assert(p(c));
    }
}

/// Among descending cards, of which no rank but those of the core is held
/// twice, the ranks of the kickers fall.
pub proof fn lemma_kicker_ranks_fall(core: Seq<Card>, s: Seq<Card>, i: int, j: int)
    requires
        descending(s),
        forall|r: int| 0 <= r < 13 && of_rank(s, r).len() >= 2 ==> has_rank(
            core,
            Rank::of_strength(r),
        ),
        0 <= i < j < kickers(core, s).len(),
    ensures
        kickers(core, s)[i].rank.strength() > kickers(core, s)[j].rank.strength(),
{
    let k = kickers(core, s);
    lemma_kickers(core, s);
    let a = k[i];
    let b = k[j];
    assert(a.ordinal() > b.ordinal());
    if a.rank.strength() == b.rank.strength() {
        assert(a.rank == b.rank);
        lemma_two_of_a_rank(s, a, b);
        let r = a.rank.strength();
        assert(Rank::of_strength(r) == a.rank);
        assert(has_rank(core, a.rank));
    }
}

/// A flush that is found is the first five cards of one suit.
pub proof fn lemma_flush_suit(s: Seq<Card>, bound: int)
    ensures
        flush(s, bound) matches Some(w) ==> exists|u: int|
            0 <= u < bound && of_suit(s, u).len() >= 5 && w == of_suit(s, u).take(5),
        flush(s, bound) is None ==> forall|u: int| 0 <= u < bound ==> of_suit(s, u).len() < 5,
    decreases bound,
{
    if bound > 0 {
        if of_suit(s, bound - 1).len() >= 5 {
        } else {
            lemma_flush_suit(s, bound - 1);
            if flush(s, bound) is Some {
                let w = flush(s, bound)->0;
                let u = choose|u: int|
                    0 <= u < bound - 1 && of_suit(s, u).len() >= 5 && w == of_suit(s, u).take(5);
                assert(0 <= u < bound && of_suit(s, u).len() >= 5 && w == of_suit(s, u).take(5));
            }
        }
    }
}

/// The cards of one suit of a descending sequence descend, are of that suit,
/// and their ranks fall.
pub proof fn lemma_suit_group(s: Seq<Card>, u: int)
    requires
        descending(s),
    ensures
        descending(of_suit(s, u)),
        forall|i: int|
            0 <= i < of_suit(s, u).len() ==> s.contains(#[trigger] of_suit(s, u)[i]) && of_suit(
                s,
                u,
            )[i].suit.index() == u,
        forall|c: Card| #[trigger] s.contains(c) && c.suit.index() == u ==> of_suit(s, u).contains(c),
        forall|i: int, j: int|
            0 <= i < j < of_suit(s, u).len() ==> of_suit(s, u)[i].rank.strength() > of_suit(
                s,
                u,
            )[j].rank.strength(),
{
    let p = |c: Card| c.suit.index() == u;
    let d = of_suit(s, u);
    lemma_filter_descending(s, p);
    assert forall|i: int| 0 <= i < d.len() implies s.contains(#[trigger] d[i]) && d[i].suit.index()
        == u by {
        assert(d.contains(d[i]));
        assert(p(d[i]));
    }
    assert forall|c: Card| #[trigger] s.contains(c) && c.suit.index() == u implies d.contains(c) by {
        assert(p(c));
    }
    assert forall|i: int, j: int| 0 <= i < j < d.len() implies d[i].rank.strength()
        > d[j].rank.strength() by {
        assert(d.contains(d[i]) && d.contains(d[j]));
        assert(p(d[i]) && p(d[j]));
        assert(d[i].ordinal() > d[j].ordinal());
    }
}

/// The parts of a completed hand: the core, then the first kickers.
pub proof fn lemma_completed_parts(core: Seq<Card>, s: Seq<Card>)
    requires
        core.len() <= 5,
        kickers(core, s).len() >= 5 - core.len(),
    ensures
        completed(core, s).len() == 5,
        forall|i: int| 0 <= i < core.len() ==> #[trigger] completed(core, s)[i] == core[i],
        forall|i: int|
            core.len() <= i < 5 ==> #[trigger] completed(core, s)[i] == kickers(core, s)[i
                - core.len()],
{
}

/// A rank is among the ranks of the cards of that rank, where there are any.
pub proof fn lemma_core_rank(s: Seq<Card>, r: int, c: Card)
    requires
        descending(s),
        of_rank(s, r).len() > 0,
    ensures
        has_rank(of_rank(s, r), c.rank) <==> c.rank.strength() == r,
{
    let core = of_rank(s, r);
    lemma_rank_group_drawn(s, r);
    if c.rank.strength() == r {
        assert(core[0].rank.strength() == r);
        assert(core[0].rank == c.rank);
    }
    if has_rank(core, c.rank) {
        let i = choose|i: int| 0 <= i < core.len() && core[i].rank == c.rank;
        assert(core[i].rank.strength() == r);
    }
}

/// A rank is among the ranks of the cards of two ranks just when it is one
/// of the two.
pub proof fn lemma_core_ranks(s: Seq<Card>, r: int, q: int, c: Card)
    requires
        descending(s),
        of_rank(s, r).len() > 0,
        of_rank(s, q).len() > 0,
    ensures
        has_rank(of_rank(s, r) + of_rank(s, q), c.rank) <==> c.rank.strength() == r
            || c.rank.strength() == q,
{
    let a = of_rank(s, r);
    let b = of_rank(s, q);
    let core = a + b;
    lemma_rank_group_drawn(s, r);
    lemma_rank_group_drawn(s, q);
    if c.rank.strength() == r {
        assert(core[0] == a[0]);
        assert(a[0].rank.strength() == r);
        assert(core[0].rank == c.rank);
    }
    if c.rank.strength() == q {
        assert(core[a.len() as int] == b[0]);
        assert(b[0].rank.strength() == q);
        assert(core[a.len() as int].rank == c.rank);
    }
    if has_rank(core, c.rank) {
        let i = choose|i: int| 0 <= i < core.len() && core[i].rank == c.rank;
        if i < a.len() {
            assert(core[i] == a[i]);
            assert(a[i].rank.strength() == r);
        } else {
            assert(core[i] == b[i - a.len()]);
            assert(b[i - a.len()].rank.strength() == q);
        }
    }
}

/// Four of a kind and a kicker are a hand of quads.
pub proof fn lemma_attained_quads(s: Seq<Card>, q: int)
    requires
        descending(s),
        s.len() == 7,
        of_rank(s, q).len() >= 4,
    ensures
        is_hand_of(HandRank::Quads, completed(of_rank(s, q), s)),
        rank_at(completed(of_rank(s, q), s), 0) == q,
        completed(of_rank(s, q), s)[4] == kickers(of_rank(s, q), s)[0],
{
    let core = of_rank(s, q);
    lemma_rank_group_small(s, q);
    lemma_rank_group_drawn(s, q);
    lemma_kickers_of_one(s, q);
    lemma_completed(core, s);
    lemma_completed_parts(core, s);
    let hand = completed(core, s);
    assert(hand[0] == core[0] && hand[1] == core[1] && hand[2] == core[2] && hand[3] == core[3]);
}

/// Three of a kind and two of another are a hand of the boat.
pub proof fn lemma_attained_boat(s: Seq<Card>, t: int, p: int)
    requires
        descending(s),
        s.len() == 7,
        of_rank(s, t).len() == 3,
        of_rank(s, p).len() >= 2,
        t != p,
    ensures
        is_hand_of(HandRank::Boat, of_rank(s, t) + of_rank(s, p).take(2)),
        rank_at(of_rank(s, t) + of_rank(s, p).take(2), 0) == t,
        rank_at(of_rank(s, t) + of_rank(s, p).take(2), 3) == p,
{
    let a = of_rank(s, t);
    let b = of_rank(s, p);
    let hand = a + b.take(2);
    lemma_rank_group_drawn(s, t);
    lemma_rank_group_drawn(s, p);
    lemma_two_groups_drawn(s, t, 3, p, 2);
    assert(a.take(3) =~= a);
    assert(hand[0] == a[0] && hand[1] == a[1] && hand[2] == a[2] && hand[3] == b[0] && hand[4]
        == b[1]);
}

/// Three of a kind and two kickers, where no other rank is held twice, are
/// a hand of trips.
pub proof fn lemma_attained_trips(s: Seq<Card>, t: int)
    requires
        descending(s),
        s.len() == 7,
        0 <= t < 13,
        of_rank(s, t).len() == 3,
        forall|r: int| 0 <= r < 13 && r != t ==> of_rank(s, r).len() < 2,
    ensures
        is_hand_of(HandRank::Trips, completed(of_rank(s, t), s)),
        rank_at(completed(of_rank(s, t), s), 0) == t,
        completed(of_rank(s, t), s)[3] == kickers(of_rank(s, t), s)[0],
        completed(of_rank(s, t), s)[4] == kickers(of_rank(s, t), s)[1],
{
    let core = of_rank(s, t);
    let k = kickers(core, s);
    lemma_rank_group_drawn(s, t);
    lemma_kickers_of_one(s, t);
    lemma_completed(core, s);
    lemma_completed_parts(core, s);
    lemma_kickers(core, s);
    let hand = completed(core, s);
    assert(hand[0] == core[0] && hand[1] == core[1] && hand[2] == core[2]);
    assert(hand[3] == k[0] && hand[4] == k[1]);
    lemma_core_rank(s, t, k[0]);
    lemma_core_rank(s, t, k[1]);
    assert forall|r: int| 0 <= r < 13 && of_rank(s, r).len() >= 2 implies has_rank(
        core,
        Rank::of_strength(r),
    ) by {
        assert(r == t);
        assert(core[0].rank == Rank::of_strength(r));
    }
    lemma_kicker_ranks_fall(core, s, 0, 1);
}

/// Two pairs and a kicker are a hand of two pair.
pub proof fn lemma_attained_two_pair(s: Seq<Card>, p: int, q: int)
    requires
        descending(s),
        s.len() == 7,
        p > q,
        of_rank(s, p).len() == 2,
        of_rank(s, q).len() == 2,
    ensures
        is_hand_of(HandRank::TwoPair, completed(of_rank(s, p) + of_rank(s, q), s)),
        rank_at(completed(of_rank(s, p) + of_rank(s, q), s), 0) == p,
        rank_at(completed(of_rank(s, p) + of_rank(s, q), s), 2) == q,
        completed(of_rank(s, p) + of_rank(s, q), s)[4] == kickers(
            of_rank(s, p) + of_rank(s, q),
            s,
        )[0],
{
    let a = of_rank(s, p);
    let b = of_rank(s, q);
    let core = a + b;
    let k = kickers(core, s);
    lemma_rank_group_drawn(s, p);
    lemma_rank_group_drawn(s, q);
    lemma_two_groups_drawn(s, p, 2, q, 2);
    assert(a.take(2) =~= a);
    assert(b.take(2) =~= b);
    lemma_kickers_of_two(s, p, q);
    lemma_completed(core, s);
    lemma_completed_parts(core, s);
    lemma_kickers(core, s);
    let hand = completed(core, s);
    assert(core[0] == a[0] && core[1] == a[1] && core[2] == b[0] && core[3] == b[1]);
    assert(hand[0] == core[0] && hand[1] == core[1] && hand[2] == core[2] && hand[3] == core[3]);
    assert(hand[4] == k[0]);
    lemma_core_ranks(s, p, q, k[0]);
}

/// A pair and three kickers, where no other rank is held twice, are a hand
/// of a pair.
pub proof fn lemma_attained_pair(s: Seq<Card>, p: int)
    requires
        descending(s),
        s.len() == 7,
        0 <= p < 13,
        of_rank(s, p).len() == 2,
        forall|r: int| 0 <= r < 13 && r != p ==> of_rank(s, r).len() < 2,
    ensures
        is_hand_of(HandRank::Pair, completed(of_rank(s, p), s)),
        rank_at(completed(of_rank(s, p), s), 0) == p,
        completed(of_rank(s, p), s)[2] == kickers(of_rank(s, p), s)[0],
        completed(of_rank(s, p), s)[3] == kickers(of_rank(s, p), s)[1],
        completed(of_rank(s, p), s)[4] == kickers(of_rank(s, p), s)[2],
{
    let core = of_rank(s, p);
    let k = kickers(core, s);
    lemma_rank_group_drawn(s, p);
    lemma_kickers_of_one(s, p);
    lemma_completed(core, s);
    lemma_completed_parts(core, s);
    lemma_kickers(core, s);
    let hand = completed(core, s);
    assert(hand[0] == core[0] && hand[1] == core[1]);
    assert(hand[2] == k[0] && hand[3] == k[1] && hand[4] == k[2]);
    lemma_core_rank(s, p, k[0]);
    lemma_core_rank(s, p, k[1]);
    lemma_core_rank(s, p, k[2]);
    assert forall|r: int| 0 <= r < 13 && of_rank(s, r).len() >= 2 implies has_rank(
        core,
        Rank::of_strength(r),
    ) by {
        assert(r == p);
        assert(core[0].rank == Rank::of_strength(r));
    }
    lemma_kicker_ranks_fall(core, s, 0, 1);
    lemma_kicker_ranks_fall(core, s, 1, 2);
}

/// Where no rank is held twice, the ranks of descending cards fall.
pub proof fn lemma_ranks_apart(s: Seq<Card>, i: int, j: int)
    requires
        descending(s),
        forall|r: int| 0 <= r < 13 ==> of_rank(s, r).len() < 2,
        0 <= i < j < s.len(),
    ensures
        s[i].rank.strength() > s[j].rank.strength(),
{
    assert(s[i].ordinal() > s[j].ordinal());
    if s[i].rank.strength() == s[j].rank.strength() {
        assert(s.contains(s[i]) && s.contains(s[j]));
        assert(s[i].rank == s[j].rank);
        lemma_two_of_a_rank(s, s[i], s[j]);
    }
}

/// The five highest cards, where no rank is held twice, are a hand of high
/// card.
pub proof fn lemma_attained_high_card(s: Seq<Card>)
    requires
        descending(s),
        s.len() == 7,
        forall|r: int| 0 <= r < 13 ==> of_rank(s, r).len() < 2,
    ensures
        is_hand_of(HandRank::HighCard, completed(Seq::empty(), s)),
        completed(Seq::empty(), s) == s.take(5),
{
    let core = Seq::<Card>::empty();
    lemma_kickers_of_none(s);
    lemma_completed(core, s);
    let hand = completed(core, s);
    assert(hand =~= s.take(5));
    lemma_ranks_apart(s, 0, 1);
    lemma_ranks_apart(s, 1, 2);
    lemma_ranks_apart(s, 2, 3);
    lemma_ranks_apart(s, 3, 4);
    assert(hand[0] == s[0] && hand[1] == s[1] && hand[2] == s[2] && hand[3] == s[3] && hand[4]
        == s[4]);
}

/// Five cards of one suit, from the highest down, are a hand of the flush.
pub proof fn lemma_attained_flush(s: Seq<Card>, u: int)
    requires
        descending(s),
        of_suit(s, u).len() >= 5,
    ensures
        is_hand_of(HandRank::Flush, of_suit(s, u).take(5)),
{
    let d = of_suit(s, u);
    let hand = d.take(5);
    lemma_suit_group(s, u);
    lemma_take_descending(d, 5);
    lemma_descending_distinct(hand);
    assert(hand[0] == d[0] && hand[1] == d[1] && hand[2] == d[2] && hand[3] == d[3] && hand[4]
        == d[4]);
    assert(d[0].suit.index() == u && d[1].suit.index() == u && d[2].suit.index() == u
        && d[3].suit.index() == u && d[4].suit.index() == u);
}

/// The best hand is a hand of the category that is reported for it.
pub proof fn lemma_best_hand_is_a_hand(s: Seq<Card>)
    requires
        descending(s),
        s.len() == 7,
    ensures
        is_hand_of(best_hand(s).0, best_hand(s).1),
{
    let quad = top_rank(s, 4, None, 13);
    let trip = top_rank(s, 3, None, 13);
    let pair = top_rank(s, 2, trip, 13);
    let second = top_rank(s, 2, pair, 13);
    lemma_top_rank(s, 4, None, 13);
    lemma_top_rank(s, 3, None, 13);
    lemma_top_rank(s, 2, trip, 13);
    lemma_top_rank(s, 2, pair, 13);
    lemma_best_hand_drawn(s);
    if straight_flush(s, 4) is Some {
        let w = straight_flush(s, 4)->0;
        lemma_straight_flush(s, 4);
        let u = choose|u: int| 0 <= u < 4 && straight_in(of_suit(s, u)) == Some(w);
        let d = of_suit(s, u);
        lemma_first_run(d, 0);
        lemma_suit_group(s, u);
        assert forall|i: int| 0 <= i < 5 implies (#[trigger] w[i]).suit.index() == u by {
            assert(d.contains(w[i]));
            let k = choose|k: int| 0 <= k < d.len() && d[k] == w[i];
            assert(d[k].suit.index() == u);
        }
        assert(w[0].suit.index() == u && w[1].suit.index() == u && w[2].suit.index() == u
            && w[3].suit.index() == u && w[4].suit.index() == u);
        assert(one_suit(w));
    } else if quad is Some {
        lemma_attained_quads(s, quad->0);
    } else if trip is Some && pair is Some {
        lemma_attained_boat(s, trip->0, pair->0);
    } else if flush(s, 4) is Some {
        lemma_flush_suit(s, 4);
        let w = flush(s, 4)->0;
        let u = choose|u: int| 0 <= u < 4 && of_suit(s, u).len() >= 5 && w == of_suit(s, u).take(5);
        lemma_attained_flush(s, u);
    } else if straight_in(leaders(s, 13)) is Some {
        lemma_first_run(leaders(s, 13), 0);
    } else if trip is Some {
        lemma_attained_trips(s, trip->0);
    } else if pair is Some && second is Some {
        let p = pair->0;
        let q = second->0;
        lemma_top_rank(s, 2, None, 13);
        lemma_attained_two_pair(s, p, q);
    } else if pair is Some {
        lemma_attained_pair(s, pair->0);
    } else {
        lemma_attained_high_card(s);
    }
}

} // verus!
