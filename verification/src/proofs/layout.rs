use vstd::prelude::*;
use crate::card::Card;
use crate::rules::{five, laid_out, rank_at};
use crate::sorting::descending;

verus! {

/// Five distinct cards put in another order are the same five cards, and
/// distinct.
pub proof fn lemma_rearranged(g: Seq<Card>, i: int, j: int, k: int, l: int, m: int)
    requires
        g.len() == 5,
        g.no_duplicates(),
        0 <= i < 5 && 0 <= j < 5 && 0 <= k < 5 && 0 <= l < 5 && 0 <= m < 5,
        i != j && i != k && i != l && i != m && j != k && j != l && j != m && k != l && k != m && l
            != m,
    ensures
        five(g[i], g[j], g[k], g[l], g[m]).no_duplicates(),
        forall|c: Card| five(g[i], g[j], g[k], g[l], g[m]).contains(c) <==> g.contains(c),
{
    let h = five(g[i], g[j], g[k], g[l], g[m]);
    assert(h[0] == g[i] && h[1] == g[j] && h[2] == g[k] && h[3] == g[l] && h[4] == g[m]);
    assert forall|c: Card| h.contains(c) <==> g.contains(c) by {
        if h.contains(c) {
            let x = choose|x: int| 0 <= x < h.len() && h[x] == c;
            assert(c == g[i] || c == g[j] || c == g[k] || c == g[l] || c == g[m]);
        }
        if g.contains(c) {
            let x = choose|x: int| 0 <= x < g.len() && g[x] == c;
            assert(x == i || x == j || x == k || x == l || x == m);
            assert(c == h[0] || c == h[1] || c == h[2] || c == h[3] || c == h[4]);
        }
    }
}

/// A hand laid out holds the five cards that it was made of, each once.
pub proof fn lemma_laid_out_cards(g: Seq<Card>)
    requires
        g.len() == 5,
        g.no_duplicates(),
    ensures
        laid_out(g).1.len() == 5,
        laid_out(g).1.no_duplicates(),
        forall|c: Card| laid_out(g).1.contains(c) <==> g.contains(c),
{
    let h = laid_out(g).1;
    if h == g {
    } else if h == five(g[1], g[2], g[3], g[4], g[0]) {
        lemma_rearranged(g, 1, 2, 3, 4, 0);
    } else if h == five(g[2], g[3], g[4], g[0], g[1]) {
        lemma_rearranged(g, 2, 3, 4, 0, 1);
    } else if h == five(g[1], g[2], g[3], g[0], g[4]) {
        lemma_rearranged(g, 1, 2, 3, 0, 4);
    } else if h == five(g[0], g[1], g[3], g[4], g[2]) {
        lemma_rearranged(g, 0, 1, 3, 4, 2);
    } else if h == five(g[1], g[2], g[0], g[3], g[4]) {
        lemma_rearranged(g, 1, 2, 0, 3, 4);
    } else if h == five(g[2], g[3], g[0], g[1], g[4]) {
        lemma_rearranged(g, 2, 3, 0, 1, 4);
    } else {
        assert(h == five(g[3], g[4], g[0], g[1], g[2]));
        lemma_rearranged(g, 3, 4, 0, 1, 2);
    }
}

/// The ranks of five descending cards do not rise, and are not all the same.
pub proof fn lemma_descending_ranks(g: Seq<Card>)
    requires
        g.len() == 5,
        descending(g),
    ensures
        rank_at(g, 0) >= rank_at(g, 1),
        rank_at(g, 1) >= rank_at(g, 2),
        rank_at(g, 2) >= rank_at(g, 3),
        rank_at(g, 3) >= rank_at(g, 4),
        rank_at(g, 0) > rank_at(g, 4),
        g.no_duplicates(),
{
    assert(g[0].ordinal() > g[1].ordinal());
    assert(g[1].ordinal() > g[2].ordinal());
    assert(g[2].ordinal() > g[3].ordinal());
    assert(g[3].ordinal() > g[4].ordinal());
    assert forall|i: int, j: int| 0 <= i < g.len() && 0 <= j < g.len() && i != j implies g[i]
        != g[j] by {
        if i < j {
            assert(g[i].ordinal() > g[j].ordinal());
        } else {
            assert(g[j].ordinal() > g[i].ordinal());
        }
    }
}

} // verus!
