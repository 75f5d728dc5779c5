use vstd::prelude::*;
use vstd::array::array_as_slice;
use vstd::slice::slice_subrange;
use vstd::std_specs::hash::*;
use std::collections::HashMap;
use crate::card::Card;
use crate::error::PokerError;
use crate::hand::{key_of, tie_break_key, Evaluation, HandRank};
use crate::laws::{law_best_hand_is_a_hand, law_best_hand_is_unbeaten};
use crate::linq::{bucket, lemma_bucket_is_filter, Concat, GroupBy};
use crate::model::{
    best_hand, completed, first_run, flush, has_rank, is_run, kickers, leaders, of_rank, of_suit,
    steps_down, straight_flush, straight_in, top_rank, wheel, window,
};
use crate::proofs::basics::{
    lemma_best_hand_drawn, lemma_first_run, lemma_kickers_of_none, lemma_kickers_of_one,
    lemma_kickers_of_two, lemma_rank_group_small, lemma_top_rank,
};
use crate::rank::Rank;
use crate::rules::{is_hand_of, unbeaten};
use crate::sorting::{descending, sort_descending, sorted};

verus! {

/// Fixed-size hands out of a slice of cards.
pub trait CardGroups: View<V = Seq<Card>> {
    /// The two cards of the slice.
    fn to_pair(&self) -> (out: [Card; 2])
        requires
            self@.len() == 2,
        ensures
            out@ == self@,
    ;

    /// The five cards of the slice.
    fn to_five(&self) -> (out: [Card; 5])
        requires
            self@.len() == 5,
        ensures
            out@ == self@,
    ;

    /// The seven cards of the slice.
    fn to_seven(&self) -> (out: [Card; 7])
        requires
            self@.len() == 7,
        ensures
            out@ == self@,
    ;
}

impl CardGroups for [Card] {
    fn to_pair(&self) -> (out: [Card; 2]) {
        let out = [self[0], self[1]];
        assert(out@ =~= self@);
        out
    }

    fn to_five(&self) -> (out: [Card; 5]) {
        let out = [self[0], self[1], self[2], self[3], self[4]];
        assert(out@ =~= self@);
        out
    }

    fn to_seven(&self) -> (out: [Card; 7]) {
        let out = [self[0], self[1], self[2], self[3], self[4], self[5], self[6]];
        assert(out@ =~= self@);
        out
    }
}

/// Whether `groups` maps each rank's strength to the cards of `s` of that
/// rank, and holds no empty group.
spec fn ranked(groups: Map<u32, Vec<Card>>, s: Seq<Card>) -> bool {
    forall|k: u32|
        (#[trigger] groups.contains_key(k) <==> of_rank(s, k as int).len() > 0) && (
        groups.contains_key(k) ==> groups[k]@ == of_rank(s, k as int))
}

/// Whether `groups` maps each suit's index to the cards of `s` of that suit,
/// and holds no empty group.
spec fn suited(groups: Map<u32, Vec<Card>>, s: Seq<Card>) -> bool {
    forall|k: u32|
        (#[trigger] groups.contains_key(k) <==> of_suit(s, k as int).len() > 0) && (
        groups.contains_key(k) ==> groups[k]@ == of_suit(s, k as int))
}

/// The group of key `k`, or no cards where there is no such group.
spec fn group_of(groups: Map<u32, Vec<Card>>, k: u32) -> Seq<Card> {
    if groups.contains_key(k) {
        groups[k]@
    } else {
        Seq::empty()
    }
}

/// The cards that `groups` holds under the key `k`.
fn members(groups: &HashMap<u32, Vec<Card>>, k: u32) -> (out: Vec<Card>)
    ensures
        out@ == group_of(groups@, k),
{
    broadcast use group_hash_axioms;

    let none: Vec<Card> = Vec::new();
    match groups.get(&k) {
        Some(v) => {
            let out = none.concat(v.as_slice());
            assert(out@ =~= v@);
            out
        },
        None => none,
    }
}

/// A group's cards, known by the rank they share.
fn rank_group(ranks: &HashMap<u32, Vec<Card>>, Ghost(s): Ghost<Seq<Card>>, r: u32) -> (out: Vec<
    Card,
>)
    requires
        ranked(ranks@, s),
    ensures
        out@ == of_rank(s, r as int),
{
    let out = members(ranks, r);
    assert(out@ =~= of_rank(s, r as int)) by {
        assert(ranks@.contains_key(r) <==> of_rank(s, r as int).len() > 0);
    }
    out
}

/// A group's cards, known by the suit they share.
fn suit_group(suits: &HashMap<u32, Vec<Card>>, Ghost(s): Ghost<Seq<Card>>, u: u32) -> (out: Vec<
    Card,
>)
    requires
        suited(suits@, s),
    ensures
        out@ == of_suit(s, u as int),
{
    let out = members(suits, u);
    assert(out@ =~= of_suit(s, u as int)) by {
        assert(suits@.contains_key(u) <==> of_suit(s, u as int).len() > 0);
    }
    out
}

/// A rank's strength as the model counts it.
spec fn widen(r: Option<u32>) -> Option<int> {
    match r {
        Some(n) => Some(n as int),
        None => None,
    }
}

/// The highest rank, other than `skip`, of which the groups hold at least
/// `n` cards.
fn top_rank_of(
    ranks: &HashMap<u32, Vec<Card>>,
    Ghost(s): Ghost<Seq<Card>>,
    n: usize,
    skip: Option<u32>,
) -> (found: Option<u32>)
    requires
        ranked(ranks@, s),
    ensures
        widen(found) == top_rank(s, n as int, widen(skip), 13),
        found matches Some(r) ==> r < 13,
{
    let mut bound: u32 = 13;
    while bound > 0
        invariant
            bound <= 13,
            ranked(ranks@, s),
            top_rank(s, n as int, widen(skip), bound as int) == top_rank(
                s,
                n as int,
                widen(skip),
                13,
            ),
        decreases bound,
    {
        let r: u32 = bound - 1;
        let skipped: bool = match skip {
            Some(q) => q == r,
            None => false,
        };
        if !skipped {
            let group = rank_group(ranks, Ghost(s), r);
            if group.len() >= n {
                return Some(r);
            }
        }
        bound = r;
    }
    None
}

/// The highest straight among cards of descending, distinct ranks.
fn find_run(d: &Vec<Card>) -> (found: Option<Vec<Card>>)
    ensures
        match found {
            Some(w) => straight_in(d@) == Some(w@) && w.len() == 5,
            None => straight_in(d@) is None,
        },
{
    proof {
        lemma_first_run(d@, 0);
    }
    if d.len() < 5 {
        return None;
    }
    let mut i: usize = 0;
    while i <= d.len() - 5
        invariant
            d.len() >= 5,
            i + 4 <= d.len(),
            first_run(d@, i as int) == first_run(d@, 0),
        decreases d.len() - i,
    {
        let w = slice_subrange(d.as_slice(), i, i + 5);
        if Card::is_straight(w) {
            let none: Vec<Card> = Vec::new();
            let run = none.concat(w);
            assert(run@ =~= window(d@, i as int));
            return Some(run);
        }
        i = i + 1;
    }
    let mut ace: Vec<Card> = Vec::new();
    ace.push(d[0]);
    let run = ace.concat(slice_subrange(d.as_slice(), d.len() - 4, d.len()));
    assert(run@ =~= wheel(d@));
    if Card::is_straight(run.as_slice()) {
        Some(run)
    } else {
        None
    }
}

/// The straight flush in the highest suit that has one.
fn straight_flush_of(suits: &HashMap<u32, Vec<Card>>, Ghost(s): Ghost<Seq<Card>>) -> (found:
    Option<Vec<Card>>)
    requires
        suited(suits@, s),
    ensures
        match found {
            Some(w) => straight_flush(s, 4) == Some(w@) && w.len() == 5,
            None => straight_flush(s, 4) is None,
        },
{
    let mut bound: u32 = 4;
    while bound > 0
        invariant
            bound <= 4,
            suited(suits@, s),
            straight_flush(s, bound as int) == straight_flush(s, 4),
        decreases bound,
    {
        let u: u32 = bound - 1;
        let group = suit_group(suits, Ghost(s), u);
        if group.len() >= 5 {
            match find_run(&group) {
                Some(w) => {
                    return Some(w);
                },
                None => {},
            }
        } else {
            assert(straight_in(group@) is None);
        }
        bound = u;
    }
    None
}

/// The first five cards of the highest suit of which there are five or more.
fn flush_of(suits: &HashMap<u32, Vec<Card>>, Ghost(s): Ghost<Seq<Card>>) -> (found: Option<
    Vec<Card>,
>)
    requires
        suited(suits@, s),
    ensures
        match found {
            Some(w) => flush(s, 4) == Some(w@) && w.len() == 5,
            None => flush(s, 4) is None,
        },
{
    let mut bound: u32 = 4;
    while bound > 0
        invariant
            bound <= 4,
            suited(suits@, s),
            flush(s, bound as int) == flush(s, 4),
        decreases bound,
    {
        let u: u32 = bound - 1;
        let group = suit_group(suits, Ghost(s), u);
        if group.len() >= 5 {
            let none: Vec<Card> = Vec::new();
            let five = none.concat(slice_subrange(group.as_slice(), 0, 5));
            assert(five@ =~= group@.take(5));
            return Some(five);
        }
        bound = u;
    }
    None
}

/// The first card of each rank held, from the highest rank down.
fn leaders_of(ranks: &HashMap<u32, Vec<Card>>, Ghost(s): Ghost<Seq<Card>>) -> (out: Vec<Card>)
    requires
        ranked(ranks@, s),
    ensures
        out@ == leaders(s, 13),
{
    let mut out: Vec<Card> = Vec::new();
    let mut bound: u32 = 13;
    while bound > 0
        invariant
            bound <= 13,
            ranked(ranks@, s),
            out@ + leaders(s, bound as int) == leaders(s, 13),
        decreases bound,
    {
        let r: u32 = bound - 1;
        let group = rank_group(ranks, Ghost(s), r);
        let ghost before = out@;
        if group.len() > 0 {
            out.push(group[0]);
            assert(out@ + leaders(s, r as int) =~= before + leaders(s, bound as int));
        }
        bound = r;
    }
    assert(out@ + leaders(s, 0) =~= out@);
    out
}

/// Whether one of the cards has the rank `r`.
fn holds_rank(core: &Vec<Card>, r: Rank) -> (b: bool)
    ensures
        b == has_rank(core@, r),
{
    let mut i: usize = 0;
    while i < core.len()
        invariant
            i <= core.len(),
            forall|j: int| 0 <= j < i ==> core@[j].rank != r,
        decreases core.len() - i,
    {
        if core[i].rank == r {
            return true;
        }
        i = i + 1;
    }
    false
}

/// Fills `core` up to five cards with the highest cards of other ranks.
fn complete(core: &Vec<Card>, all: &Vec<Card>) -> (hand: Vec<Card>)
    requires
        core.len() <= 5,
        kickers(core@, all@).len() >= 5 - core.len(),
    ensures
        hand@ == completed(core@, all@),
        hand.len() == 5,
{
    let none: Vec<Card> = Vec::new();
    let mut hand = none.concat(core.as_slice());
    let mut i: usize = 0;
    assert(all@.take(0) =~= Seq::<Card>::empty());
    assert(kickers(core@, all@.take(0)) =~= Seq::<Card>::empty()) by {
        reveal(Seq::filter);
    }
    assert(hand@ =~= core@ + kickers(core@, all@.take(0)));
    while i < all.len() && hand.len() < 5
        invariant
            i <= all.len(),
            core.len() <= 5,
            hand@ == core@ + kickers(core@, all@.take(i as int)),
            hand.len() <= 5,
        decreases all.len() - i,
    {
        let c: Card = all[i];
        proof {
            assert(all@.take(i + 1) =~= all@.take(i as int).push(c));
            all@.take(i as int).lemma_filter_push(c, |x: Card| !has_rank(core@, x.rank));
        }
        if !holds_rank(core, c.rank) {
            hand.push(c);
            assert(hand@ =~= core@ + kickers(core@, all@.take(i + 1)));
        }
        i = i + 1;
    }
    proof {
        let taken = kickers(core@, all@.take(i as int));
        let rest = all@.skip(i as int);
        assert(all@ =~= all@.take(i as int) + rest);
        Seq::filter_distributes_over_add(
            all@.take(i as int),
            rest,
            |x: Card| !has_rank(core@, x.rank),
        );
        assert(kickers(core@, all@) == taken + kickers(core@, rest));
        if i == all.len() {
            assert(all@.take(i as int) =~= all@);
        }
        assert(taken =~= kickers(core@, all@).take(5 - core.len()));
    }
    hand
}

impl Card {
    /// Whether the cards form a run: each rank one below the rank before it,
    /// where an ace may open a run that goes on with a five.
    pub fn is_straight(cards: &[Card]) -> (b: bool)
        requires
            cards@.len() > 0,
        ensures
            b == is_run(cards@),
    {
        let mut i: usize = 1;
        while i < cards.len()
            invariant
                1 <= i <= cards.len(),
                forall|j: int| 1 <= j < i ==> steps_down(cards@, j),
            decreases cards.len() - i,
        {
            let prev: u32 = cards[i - 1].rank.to_u32();
            let cur: u32 = cards[i].rank.to_u32();
            let opens_wheel: bool = i == 1 && prev == 12 && cur == 3;
            if !opens_wheel && cur + 1 != prev {
                assert(!steps_down(cards@, i as int));
                return false;
            }
            i = i + 1;
        }
        true
    }

    /// The category and the five cards of the best poker hand among seven
    /// distinct cards, whatever their order. The five cards come with the
    /// cards that make the category first, and from the highest down within
    /// each part.
    ///
    /// The five cards are a hand of the category, taken from the seven, and
    /// no hand that five of the seven make beats it. Which five cards stand
    /// for it, and in which order, `best_hand` says.
    pub fn best_five(cards: &[Card; 7]) -> (best: (HandRank, [Card; 5]))
        requires
            cards@.no_duplicates(),
        ensures
            is_hand_of(best.0, best.1@),
            forall|i: int| 0 <= i < 5 ==> cards@.contains(#[trigger] best.1@[i]),
            unbeaten(cards@, best.0, key_of(best.0, best.1@)),
            best.0 == best_hand(sorted(cards@)).0,
            best.1@ == best_hand(sorted(cards@)).1,
    {
        broadcast use group_hash_axioms;

        let all = sort_descending(array_as_slice(cards));
        let ghost s = all@;
        proof {
            law_best_hand_is_a_hand(cards@);
            law_best_hand_is_unbeaten(cards@);
            lemma_best_hand_drawn(s);
            assert forall|i: int| 0 <= i < 5 implies cards@.contains(#[trigger] best_hand(s).1[i]) by {
                assert(s.contains(best_hand(s).1[i]));
            }
        }
        let by_suit = |c: &Card| -> (k: u32)
            ensures
                k == c.suit.index(),
            { c.suit.to_u32() };
        let by_rank = |c: &Card| -> (k: u32)
            ensures
                k == c.rank.strength(),
            { c.rank.to_u32() };
        let suits = all.group_by(by_suit);
        let ranks = all.group_by(by_rank);
        proof {
            assert forall|k: u32| bucket(s, by_suit, k) == of_suit(s, k as int) by {
                lemma_bucket_is_filter(s, by_suit, k, |c: Card| c.suit.index() == k as int);
            }
            assert forall|k: u32| bucket(s, by_rank, k) == of_rank(s, k as int) by {
                lemma_bucket_is_filter(s, by_rank, k, |c: Card| c.rank.strength() == k as int);
            }
            assert(suited(suits@, s));
            assert(ranked(ranks@, s));
            lemma_top_rank(s, 4, None, 13);
            lemma_top_rank(s, 3, None, 13);
        }
        match straight_flush_of(&suits, Ghost(s)) {
            Some(run) => {
                return (HandRank::StraightFlush, run.as_slice().to_five());
            },
            None => {},
        }
        let quad = top_rank_of(&ranks, Ghost(s), 4, None);
        let trip = top_rank_of(&ranks, Ghost(s), 3, None);
        let pair = top_rank_of(&ranks, Ghost(s), 2, trip);
        let second = top_rank_of(&ranks, Ghost(s), 2, pair);
        proof {
            lemma_top_rank(s, 2, widen(trip), 13);
            lemma_top_rank(s, 2, widen(pair), 13);
        }
        match quad {
            Some(q) => {
                let core = rank_group(&ranks, Ghost(s), q);
                proof {
                    lemma_rank_group_small(s, q as int);
                    lemma_kickers_of_one(s, q as int);
                }
                let hand = complete(&core, &all);
                return (HandRank::Quads, hand.as_slice().to_five());
            },
            None => {},
        }
        match (trip, pair) {
            (Some(t), Some(p)) => {
                let three = rank_group(&ranks, Ghost(s), t);
                let two = rank_group(&ranks, Ghost(s), p);
                let hand = three.concat(slice_subrange(two.as_slice(), 0, 2));
                assert(hand@ =~= of_rank(s, t as int) + of_rank(s, p as int).take(2));
                return (HandRank::Boat, hand.as_slice().to_five());
            },
            _ => {},
        }
        match flush_of(&suits, Ghost(s)) {
            Some(five) => {
                return (HandRank::Flush, five.as_slice().to_five());
            },
            None => {},
        }
        let singles = leaders_of(&ranks, Ghost(s));
        match find_run(&singles) {
            Some(run) => {
                return (HandRank::Straight, run.as_slice().to_five());
            },
            None => {},
        }
        match trip {
            Some(t) => {
                let core = rank_group(&ranks, Ghost(s), t);
                proof {
                    lemma_kickers_of_one(s, t as int);
                }
                let hand = complete(&core, &all);
                return (HandRank::Trips, hand.as_slice().to_five());
            },
            None => {},
        }
        match (pair, second) {
            (Some(p), Some(q)) => {
                let high = rank_group(&ranks, Ghost(s), p);
                let low = rank_group(&ranks, Ghost(s), q);
                let core = high.concat(low.as_slice());
                proof {
                    lemma_kickers_of_two(s, p as int, q as int);
                }
                let hand = complete(&core, &all);
                return (HandRank::TwoPair, hand.as_slice().to_five());
            },
            _ => {},
        }
        match pair {
            Some(p) => {
                let core = rank_group(&ranks, Ghost(s), p);
                proof {
                    lemma_kickers_of_one(s, p as int);
                }
                let hand = complete(&core, &all);
                (HandRank::Pair, hand.as_slice().to_five())
            },
            None => {
                let core: Vec<Card> = Vec::new();
                proof {
                    lemma_kickers_of_none(s);
                    assert(core@ =~= Seq::<Card>::empty());
                }
                let hand = complete(&core, &all);
                (HandRank::HighCard, hand.as_slice().to_five())
            },
        }
    }
}

/// Whether no card occurs twice.
fn all_distinct(cards: &[Card]) -> (b: bool)
    ensures
        b == cards@.no_duplicates(),
{
    let mut i: usize = 0;
    while i < cards.len()
        invariant
            i <= cards.len(),
            forall|a: int, b: int| 0 <= a < b < i ==> cards@[a] != cards@[b],
        decreases cards.len() - i,
    {
        let mut j: usize = 0;
        while j < i
            invariant
                j <= i,
                i < cards.len(),
                forall|a: int| 0 <= a < j ==> cards@[a] != cards@[i as int],
            decreases i - j,
        {
            if cards[j] == cards[i] {
                return false;
            }
            j = j + 1;
        }
        i = i + 1;
    }
    assert forall|a: int, b: int| 0 <= a < cards@.len() && 0 <= b < cards@.len() && a != b implies cards@[a]
        != cards@[b] by {
        if a < b {
            assert(cards@[a] != cards@[b]);
        } else {
            assert(cards@[b] != cards@[a]);
        }
    }
    true
}

/// Evaluates a showdown: the category of the best hand among seven distinct
/// cards, its tie-break key and its five cards. Anything but seven distinct
/// cards is refused.
///
/// The five cards are a hand of the category, taken from the seven, and no
/// hand that five of the seven make beats it. Which five cards stand for
/// it, and in which order, `best_hand` says.
pub fn evaluate(cards: &[Card]) -> (r: Result<Evaluation, PokerError>)
    ensures
        match r {
            Ok(e) => {
                &&& cards@.len() == 7
                &&& cards@.no_duplicates()
                &&& e.well_formed()
                &&& forall|i: int| 0 <= i < 5 ==> cards@.contains(#[trigger] e.hand@[i])
                &&& unbeaten(cards@, e.category, e.key@)
                &&& e.category == best_hand(sorted(cards@)).0
                &&& e.hand@ == best_hand(sorted(cards@)).1
            },
            Err(e) => e == PokerError::InvalidInput && !(cards@.len() == 7
                && cards@.no_duplicates()),
        },
{
    if cards.len() != 7 || !all_distinct(cards) {
        return Err(PokerError::InvalidInput);
    }
    let seven = cards.to_seven();
    let (category, hand) = Card::best_five(&seven);
    let key = tie_break_key(category, &hand);
    Ok(Evaluation { category, key, hand })
}

} // verus!
