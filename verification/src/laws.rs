use vstd::prelude::*;
use vstd::std_specs::cmp::PartialOrdSpec;
use core::cmp::Ordering;
use crate::card::{lemma_ordinal_at, Card};
use crate::hand::{key_of, key_order, lemma_mismatch, mismatch_from, standing, HandRank};
use crate::model::{best_hand, of_suit, straight_in};
use crate::proofs::attained::lemma_best_hand_is_a_hand;
use crate::proofs::basics::{lemma_best_hand_drawn, lemma_filter_descending, lemma_straight_flush};
use crate::proofs::layout::{lemma_descending_ranks, lemma_laid_out_cards};
use crate::proofs::runs::{lemma_run_card, lemma_run_found};
use crate::proofs::supreme::lemma_not_beaten;
use crate::rules::{holds_suited_run, is_hand_of, laid_out, run_card, taken_from, unbeaten};
use crate::sorting::{descending, lemma_listing_agrees, lemma_sorted, sorted};
use crate::suit::Suit;

verus! {

/// The best hand of seven distinct cards is made of five of them, none
/// taken twice.
pub proof fn law_hand_is_drawn_from_cards(cards: Seq<Card>)
    requires
        cards.len() == 7,
        cards.no_duplicates(),
    ensures
        best_hand(sorted(cards)).1.len() == 5,
        best_hand(sorted(cards)).1.no_duplicates(),
        forall|i: int| 0 <= i < 5 ==> cards.contains(#[trigger] best_hand(sorted(cards)).1[i]),
{
    let s = sorted(cards);
    let hand = best_hand(s).1;
    lemma_sorted(cards);
    lemma_best_hand_drawn(s);
    assert forall|i: int| 0 <= i < 5 implies cards.contains(#[trigger] hand[i]) by {
        assert(s.contains(hand[i]));
    }
}

/// The best hand of seven distinct cards is a hand of the category that is
/// reported for it, by the rules of poker.
pub proof fn law_best_hand_is_a_hand(cards: Seq<Card>)
    requires
        cards.len() == 7,
        cards.no_duplicates(),
    ensures
        is_hand_of(best_hand(sorted(cards)).0, best_hand(sorted(cards)).1),
{
    lemma_sorted(cards);
    lemma_best_hand_is_a_hand(sorted(cards));
}

/// No hand that five of the seven cards make beats the best hand: the best
/// hand is the best of the 21 hands that there are.
pub proof fn law_best_hand_is_unbeaten(cards: Seq<Card>)
    requires
        cards.len() == 7,
        cards.no_duplicates(),
    ensures
        unbeaten(
            cards,
            best_hand(sorted(cards)).0,
            key_of(best_hand(sorted(cards)).0, best_hand(sorted(cards)).1),
        ),
{
    let s = sorted(cards);
    let best = best_hand(s);
    lemma_sorted(cards);
    assert forall|c: HandRank, g: Seq<Card>| #[trigger]
        is_hand_of(c, g) && taken_from(g, cards) implies standing(
        c,
        key_of(c, g),
        best.0,
        key_of(best.0, best.1),
    ) != Ordering::Greater by {
        assert forall|i: int| 0 <= i < g.len() implies s.contains(#[trigger] g[i]) by {
            assert(cards.contains(g[i]));
        }
        lemma_not_beaten(s, c, g);
    }
}

/// Any five distinct cards make a hand: laid out, five descending cards are
/// a hand of the category that their counts of ranks make, and still the
/// same five cards.
pub proof fn law_five_cards_make_a_hand(g: Seq<Card>)
    requires
        g.len() == 5,
        descending(g),
    ensures
        is_hand_of(laid_out(g).0, laid_out(g).1),
        forall|c: Card| laid_out(g).1.contains(c) <==> g.contains(c),
{
    lemma_descending_ranks(g);
    lemma_laid_out_cards(g);
}

/// The rules of poker settle category and key: two hands that five of the
/// cards make, neither of them beaten by any such hand, are of one category
/// and have one key.
pub proof fn law_best_value_is_unique(
    cards: Seq<Card>,
    a: HandRank,
    g: Seq<Card>,
    b: HandRank,
    h: Seq<Card>,
)
    requires
        is_hand_of(a, g),
        taken_from(g, cards),
        unbeaten(cards, a, key_of(a, g)),
        is_hand_of(b, h),
        taken_from(h, cards),
        unbeaten(cards, b, key_of(b, h)),
    ensures
        a == b,
        key_of(a, g) == key_of(b, h),
{
    let x = key_of(a, g);
    let y = key_of(b, h);
    assert(is_hand_of(a, g) && taken_from(g, cards));
    assert(is_hand_of(b, h) && taken_from(h, cards));
    assert(standing(a, x, b, y) != Ordering::Greater);
    assert(standing(b, y, a, x) != Ordering::Greater);
    law_standing_is_an_order(a, x, b, y, a, x);
    law_standing_is_an_order(b, y, a, x, b, y);
}

/// A hand of a stronger category wins, whatever the two tie-break keys are.
pub proof fn law_category_decides(a: HandRank, x: Seq<u32>, b: HandRank, y: Seq<u32>)
    requires
        a.strength() > b.strength(),
    ensures
        standing(a, x, b, y) == Ordering::Greater,
        standing(b, y, a, x) == Ordering::Less,
{
}

/// Seven cards that hold five cards of one suit in a run make a straight
/// flush, whatever else they hold: a flush or a straight is never reported
/// in its place.
pub proof fn law_straight_flush_first(cards: Seq<Card>, suit: Suit, high: int)
    requires
        holds_suited_run(cards, suit, high),
    ensures
        best_hand(sorted(cards)).0 == HandRank::StraightFlush,
{
    let s = sorted(cards);
    let u = suit.index();
    let d = of_suit(s, u);
    let p = |c: Card| c.suit.index() == u;
    lemma_sorted(cards);
    lemma_filter_descending(s, p);
    assert forall|i: int| 0 <= i < d.len() implies (#[trigger] d[i]).suit == suit by {
        assert(d.contains(d[i]));
        assert(p(d[i]));
    }
    assert forall|k: int| 0 <= k < 5 implies d.contains(#[trigger] run_card(suit, high, k)) by {
        let c = run_card(suit, high, k);
        lemma_run_card(suit, high, k);
        assert(cards.contains(c));
        assert(s.contains(c) && p(c));
    }
    lemma_run_found(d, suit, high);
    lemma_straight_flush(s, 4);
    assert(straight_in(of_suit(s, u)) is Some);
}

/// The order in which the cards are given does not matter: two sequences
/// that hold the same cards have the same best hand.
pub proof fn law_order_does_not_matter(a: Seq<Card>, b: Seq<Card>)
    requires
        forall|c: Card| a.contains(c) <==> b.contains(c),
    ensures
        sorted(a) == sorted(b),
        best_hand(sorted(a)) == best_hand(sorted(b)),
{
    lemma_listing_agrees(a, b, 52);
}

/// The order of cards is total and strict: of two cards just one of
/// "less", "equal" and "greater" holds, a card equals itself only, "less"
/// one way is "greater" the other way, and "less" carries over a chain.
pub proof fn law_card_order(a: Card, b: Card, c: Card)
    ensures
        a.partial_cmp_spec(&b) == Some(Ordering::Equal) <==> a == b,
        a.partial_cmp_spec(&b) == Some(Ordering::Less) <==> b.partial_cmp_spec(&a) == Some(
            Ordering::Greater,
        ),
        a.partial_cmp_spec(&b) == Some(Ordering::Less) ==> b.partial_cmp_spec(&a) != Some(
            Ordering::Less,
        ),
        a.partial_cmp_spec(&b) == Some(Ordering::Less) && b.partial_cmp_spec(&c) == Some(
            Ordering::Less,
        ) ==> a.partial_cmp_spec(&c) == Some(Ordering::Less),
        a.partial_cmp_spec(&b) == Some(Ordering::Less) <==> a.rank.strength() < b.rank.strength()
            || (a.rank == b.rank && a.suit.index() < b.suit.index()),
{
    lemma_ordinal_at();
    assert(Card::at(a.ordinal()) == a && Card::at(b.ordinal()) == b);
}

/// The text of a card stands for that card, and for no other.
pub proof fn law_text_round_trip(c: Card)
    ensures
        Card::parse(c.text()) == Some(c),
        forall|t: Seq<char>| Card::parse(t) == Some(c) ==> t == c.text(),
{
    assert forall|t: Seq<char>| Card::parse(t) == Some(c) implies t == c.text() by {
        assert(t =~= c.text());
    }
}

/// The standing of hands is a total order: turned round, "less" is
/// "greater"; two hands stand equal just when category and key are the
/// same; and "less" carries over a chain.
pub proof fn law_standing_is_an_order(
    a: HandRank,
    x: Seq<u32>,
    b: HandRank,
    y: Seq<u32>,
    c: HandRank,
    z: Seq<u32>,
)
    ensures
        standing(a, x, b, y) == Ordering::Less <==> standing(b, y, a, x) == Ordering::Greater,
        standing(a, x, b, y) == Ordering::Equal <==> a == b && x == y,
        standing(a, x, b, y) == Ordering::Less && standing(b, y, c, z) == Ordering::Less
            ==> standing(a, x, c, z) == Ordering::Less,
{
    lemma_mismatch(x, y, 0);
    lemma_mismatch(y, x, 0);
    lemma_mismatch(y, z, 0);
    lemma_mismatch(x, z, 0);
    if standing(a, x, b, y) == Ordering::Equal {
        assert(x =~= y);
    }
    if a == b && x == y {
        assert(key_order(x, y) == Ordering::Equal);
    }
    if standing(a, x, b, y) == Ordering::Less && standing(b, y, c, z) == Ordering::Less {
        if a.strength() == b.strength() && b.strength() == c.strength() {
            let i = mismatch_from(x, y, 0);
            let j = mismatch_from(y, z, 0);
            let k = mismatch_from(x, z, 0);
            if i <= j {
                if k < i {
                    assert(x[k] == y[k] && y[k] == z[k]);
                }
                if k > i {
                    assert(x[i] == z[i]);
                    if i < j {
                        assert(y[i] == z[i]);
                    }
                }
            } else {
                if k < j {
                    assert(x[k] == y[k] && y[k] == z[k]);
                }
                if k > j {
                    assert(x[j] == z[j] && x[j] == y[j]);
                }
            }
        }
    }
}

} // verus!
