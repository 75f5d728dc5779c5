use vstd::prelude::*;
use crate::card::{lemma_ordinal_at, Card};

verus! {

/// Whether the cards stand in strictly descending order. Such a sequence
/// holds no card twice.
pub open spec fn descending(s: Seq<Card>) -> bool {
    forall|i: int, j: int| 0 <= i < j < s.len() ==> s[i].ordinal() > s[j].ordinal()
}

/// The cards found in `cards` whose place in the order of cards is below
/// `bound`, each once, from the highest down.
pub open spec fn listing(cards: Seq<Card>, bound: int) -> Seq<Card>
    decreases bound,
{
    if bound <= 0 {
        Seq::empty()
    } else if cards.contains(Card::at(bound - 1)) {
        seq![Card::at(bound - 1)] + listing(cards, bound - 1)
    } else {
        listing(cards, bound - 1)
    }
}

/// The cards found in `cards`, each once, from the highest down. This is the
/// form in which a set of cards is evaluated: it does not depend on the order
/// in which the cards were given.
pub open spec fn sorted(cards: Seq<Card>) -> Seq<Card> {
    listing(cards, 52)
}

/// A listing depends only on which cards below the bound are present.
pub proof fn lemma_listing_agrees(a: Seq<Card>, b: Seq<Card>, bound: int)
    requires
        forall|c: Card| c.ordinal() < bound ==> (a.contains(c) <==> b.contains(c)),
    ensures
        listing(a, bound) == listing(b, bound),
    decreases bound,
{
    if bound > 0 {
        lemma_ordinal_at();
        if bound <= 52 {
            assert(Card::at(bound - 1).ordinal() == bound - 1);
        } else {
            assert(Card::at(bound - 1).ordinal() < 52);
        }
        lemma_listing_agrees(a, b, bound - 1);
    }
}

/// A descending sequence is its own listing.
pub proof fn lemma_listing_of_descending(v: Seq<Card>, bound: int)
    requires
        descending(v),
        bound <= 52,
        forall|i: int| 0 <= i < v.len() ==> v[i].ordinal() < bound,
    ensures
        listing(v, bound) == v,
    decreases bound,
{
    lemma_ordinal_at();
    if bound <= 0 {
        if v.len() > 0 {
            assert(v[0].ordinal() >= 0);
        }
        assert(v =~= Seq::empty());
    } else {
        let c = Card::at(bound - 1);
        assert(c.ordinal() == bound - 1);
        if v.len() > 0 && v[0].ordinal() == bound - 1 {
            let tail = v.subrange(1, v.len() as int);
            assert(v[0] == c);
            assert(v.contains(c));
            assert(descending(tail)) by {
                assert forall|i: int, j: int| 0 <= i < j < tail.len() implies tail[i].ordinal()
                    > tail[j].ordinal() by {
                    assert(tail[i] == v[i + 1] && tail[j] == v[j + 1]);
                }
            }
            assert forall|i: int| 0 <= i < tail.len() implies tail[i].ordinal() < bound - 1 by {
                assert(tail[i] == v[i + 1]);
            }
            lemma_listing_of_descending(tail, bound - 1);
            assert forall|x: Card| x.ordinal() < bound - 1 implies (v.contains(x)
                <==> tail.contains(x)) by {
                if v.contains(x) {
                    let i = choose|i: int| 0 <= i < v.len() && v[i] == x;
                    assert(i != 0);
                    assert(tail[i - 1] == x);
                }
                if tail.contains(x) {
                    let i = choose|i: int| 0 <= i < tail.len() && tail[i] == x;
                    assert(v[i + 1] == x);
                }
            }
            lemma_listing_agrees(v, tail, bound - 1);
            assert(v =~= seq![c] + tail);
        } else {
            if v.contains(c) {
                let i = choose|i: int| 0 <= i < v.len() && v[i] == c;
                if i > 0 {
                    assert(v[0].ordinal() > v[i].ordinal());
                }
                assert(false);
            }
            assert forall|i: int| 0 <= i < v.len() implies v[i].ordinal() < bound - 1 by {
                if v[i].ordinal() == bound - 1 {
                    assert(Card::at(v[i].ordinal()) == v[i]);
                    assert(v.contains(c));
                }
            }
            lemma_listing_of_descending(v, bound - 1);
        }
    }
}

/// A descending sequence with the cards of `cards` is the sorted form of `cards`.
pub proof fn lemma_sorted_unique(v: Seq<Card>, cards: Seq<Card>)
    requires
        descending(v),
        forall|c: Card| v.contains(c) <==> cards.contains(c),
    ensures
        sorted(cards) == v,
{
    lemma_ordinal_at();
    lemma_listing_agrees(v, cards, 52);
    lemma_listing_of_descending(v, 52);
}

/// A listing descends, and holds just the cards of `cards` whose place is
/// below the bound.
pub proof fn lemma_listing(cards: Seq<Card>, bound: int)
    requires
        bound <= 52,
    ensures
        descending(listing(cards, bound)),
        forall|c: Card| #[trigger]
            listing(cards, bound).contains(c) ==> cards.contains(c) && c.ordinal() < bound,
        forall|c: Card| #[trigger]
            cards.contains(c) && c.ordinal() < bound ==> listing(cards, bound).contains(c),
    decreases bound,
{
    lemma_ordinal_at();
    let all = listing(cards, bound);
    if bound > 0 {
        let top = Card::at(bound - 1);
        let rest = listing(cards, bound - 1);
        lemma_listing(cards, bound - 1);
        assert(top.ordinal() == bound - 1);
        if cards.contains(top) {
            assert(all =~= seq![top] + rest);
            assert(all[0] == top);
            assert forall|i: int| 1 <= i < all.len() implies all[i] == rest[i - 1]
                && rest.contains(all[i]) by {}
            assert forall|i: int, j: int| 0 <= i < j < all.len() implies all[i].ordinal()
                > all[j].ordinal() by {
                assert(rest.contains(all[j]));
                if i > 0 {
                    assert(all[i] == rest[i - 1] && all[j] == rest[j - 1]);
                }
            }
            assert forall|c: Card| #[trigger] all.contains(c) implies cards.contains(c)
                && c.ordinal() < bound by {
                let i = choose|i: int| 0 <= i < all.len() && all[i] == c;
                if i > 0 {
                    assert(rest.contains(c));
                }
            }
            assert forall|c: Card| #[trigger] cards.contains(c) && c.ordinal() < bound implies all.contains(
                c,
            ) by {
                if c.ordinal() == bound - 1 {
                    assert(Card::at(c.ordinal()) == c);
                    assert(all[0] == c);
                } else {
                    assert(rest.contains(c));
                    let i = choose|i: int| 0 <= i < rest.len() && rest[i] == c;
                    assert(all[i + 1] == c);
                }
            }
        } else {
            assert forall|c: Card| #[trigger] cards.contains(c) && c.ordinal() < bound implies all.contains(
                c,
            ) by {
                if c.ordinal() == bound - 1 {
                    assert(Card::at(c.ordinal()) == c);
                }
            }
        }
    }
}

/// The sorted form of `cards` descends and holds the cards of `cards`; where
/// no card occurs twice in `cards`, it is as long as `cards`.
pub proof fn lemma_sorted(cards: Seq<Card>)
    ensures
        descending(sorted(cards)),
        forall|c: Card| #[trigger] sorted(cards).contains(c) <==> cards.contains(c),
        cards.no_duplicates() ==> sorted(cards).len() == cards.len(),
{
    lemma_ordinal_at();
    lemma_listing(cards, 52);
    let s = sorted(cards);
    assert forall|c: Card| #[trigger] s.contains(c) <==> cards.contains(c) by {
        assert(c.ordinal() < 52);
    }
    if cards.no_duplicates() {
        assert(s.no_duplicates()) by {
            assert forall|i: int, j: int| 0 <= i < s.len() && 0 <= j < s.len() && i != j implies s[i]
                != s[j] by {
                if i < j {
                    assert(s[i].ordinal() > s[j].ordinal());
                } else {
                    assert(s[j].ordinal() > s[i].ordinal());
                }
            }
        }
        s.unique_seq_to_set();
        cards.unique_seq_to_set();
        assert(s.to_set() =~= cards.to_set());
    }
}

/// A card put into a descending sequence at its place keeps it descending.
pub proof fn lemma_insert_descending(before: Seq<Card>, j: int, c: Card)
    requires
        descending(before),
        0 <= j <= before.len(),
        forall|k: int| 0 <= k < j ==> before[k].ordinal() > c.ordinal(),
        j < before.len() ==> before[j].ordinal() < c.ordinal(),
    ensures
        descending(before.insert(j, c)),
{
    let after = before.insert(j, c);
    assert forall|a: int, b: int| 0 <= a < b < after.len() implies after[a].ordinal()
        > after[b].ordinal() by {
        if b < j {
            assert(after[a] == before[a] && after[b] == before[b]);
        } else if b == j {
            assert(after[a] == before[a]);
        } else if a < j {
            assert(after[a] == before[a] && after[b] == before[b - 1]);
            assert(before[j].ordinal() >= before[b - 1].ordinal());
        } else if a == j {
            assert(after[b] == before[b - 1]);
            assert(before[j].ordinal() >= before[b - 1].ordinal());
        } else {
            assert(after[a] == before[a - 1] && after[b] == before[b - 1]);
        }
    }
}

/// A sequence with one card put in holds that card and what it held before.
pub proof fn lemma_insert_contains(before: Seq<Card>, j: int, c: Card)
    requires
        0 <= j <= before.len(),
    ensures
        forall|x: Card| #[trigger]
            before.insert(j, c).contains(x) <==> (before.contains(x) || x == c),
{
    let after = before.insert(j, c);
    assert forall|x: Card| #[trigger] after.contains(x) <==> (before.contains(x) || x == c) by {
        if after.contains(x) {
            let k = choose|k: int| 0 <= k < after.len() && after[k] == x;
            if k < j {
                assert(before[k] == x);
            } else if k > j {
                assert(before[k - 1] == x);
            }
        }
        if before.contains(x) {
            let k = choose|k: int| 0 <= k < before.len() && before[k] == x;
            if k < j {
                assert(after[k] == x);
            } else {
                assert(after[k + 1] == x);
            }
        }
        assert(after[j] == c);
    }
}

/// One more card of a sequence taken: what is held is that card and what
/// was held before.
pub proof fn lemma_take_contains(cards: Seq<Card>, i: int)
    requires
        0 <= i < cards.len(),
    ensures
        forall|x: Card| #[trigger]
            cards.take(i + 1).contains(x) <==> (cards.take(i).contains(x) || x == cards[i]),
        cards.no_duplicates() ==> !cards.take(i).contains(cards[i]),
{
    let seen = cards.take(i);
    let next = cards.take(i + 1);
    assert forall|x: Card| #[trigger] next.contains(x) <==> (seen.contains(x) || x == cards[i]) by {
        if next.contains(x) {
            let k = choose|k: int| 0 <= k < next.len() && next[k] == x;
            if k < i {
                assert(seen[k] == x);
            }
        }
        if seen.contains(x) {
            let k = choose|k: int| 0 <= k < seen.len() && seen[k] == x;
            assert(next[k] == x);
        }
        assert(next[i] == cards[i]);
    }
    if cards.no_duplicates() && seen.contains(cards[i]) {
        let k = choose|k: int| 0 <= k < seen.len() && seen[k] == cards[i];
        assert(cards[k] == cards[i]);
    }
}

/// Sorts cards from the highest down, keeping one of each card.
pub fn sort_descending(cards: &[Card]) -> (out: Vec<Card>)
    ensures
        out@ == sorted(cards@),
        descending(out@),
        forall|c: Card| out@.contains(c) <==> cards@.contains(c),
        cards@.no_duplicates() ==> out.len() == cards.len(),
{
    let mut out: Vec<Card> = Vec::new();
    let mut i: usize = 0;
    while i < cards.len()
        invariant
            i <= cards.len(),
            descending(out@),
            forall|c: Card| out@.contains(c) <==> cards@.take(i as int).contains(c),
            cards@.no_duplicates() ==> out.len() == i,
        decreases cards.len() - i,
    {
        let c: Card = cards[i];
        let mut j: usize = 0;
        while j < out.len() && out[j].outranks(&c)
            invariant
                j <= out.len(),
                forall|k: int| 0 <= k < j ==> out[k].ordinal() > c.ordinal(),
            decreases out.len() - j,
        {
            j = j + 1;
        }
        let ghost before = out@;
        proof {
            lemma_take_contains(cards@, i as int);
        }
        if j < out.len() && out[j] == c {
            assert(before.contains(c));
        } else {
            proof {
                if j < before.len() {
                    lemma_ordinal_at();
                    assert(Card::at(before[j as int].ordinal()) == before[j as int]);
                    assert(Card::at(c.ordinal()) == c);
                }
                lemma_insert_descending(before, j as int, c);
                lemma_insert_contains(before, j as int, c);
            }
            out.insert(j, c);
        }
        i = i + 1;
    }
    proof {
        assert(cards@.take(i as int) =~= cards@);
        lemma_sorted_unique(out@, cards@);
    }
    out
}

} // verus!
