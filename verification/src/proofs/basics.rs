use vstd::prelude::*;
use crate::card::Card;
use crate::linq::lemma_filter_same;
use crate::model::{
    best_hand, completed, first_run, flush, has_rank, is_run, kickers, leaders, of_rank, of_suit,
    straight_flush, straight_in, top_rank, wheel, window,
};
use crate::sorting::descending;

verus! {

/// What is kept of a descending sequence descends, and holds just the cards
/// of the sequence that the predicate holds of.
pub proof fn lemma_filter_descending(s: Seq<Card>, p: spec_fn(Card) -> bool)
    requires
        descending(s),
    ensures
        descending(s.filter(p)),
        forall|c: Card| #[trigger] s.filter(p).contains(c) ==> s.contains(c) && p(c),
        forall|c: Card| #[trigger] s.contains(c) && p(c) ==> s.filter(p).contains(c),
    decreases s.len(),
{
    reveal(Seq::filter);
    let kept = s.filter(p);
    if s.len() > 0 {
        let front = s.drop_last();
        let last = s.last();
        let sub = front.filter(p);
        assert(descending(front)) by {
            assert forall|i: int, j: int| 0 <= i < j < front.len() implies front[i].ordinal()
                > front[j].ordinal() by {
                assert(front[i] == s[i] && front[j] == s[j]);
            }
        }
        lemma_filter_descending(front, p);
        assert forall|i: int| 0 <= i < sub.len() implies sub[i].ordinal() > last.ordinal() by {
            assert(sub.contains(sub[i]));
            let k = choose|k: int| 0 <= k < front.len() && front[k] == sub[i];
            assert(s[k] == sub[i]);
        }
        assert forall|c: Card| #[trigger] kept.contains(c) implies s.contains(c) && p(c) by {
            if kept.contains(c) {
                let k = choose|k: int| 0 <= k < kept.len() && kept[k] == c;
                if k < sub.len() {
                    assert(sub[k] == c);
                    assert(sub.contains(c));
                    let m = choose|m: int| 0 <= m < front.len() && front[m] == c;
                    assert(s[m] == c);
                } else {
                    assert(c == last);
                    assert(s[s.len() - 1] == c);
                }
            }
        }
        assert forall|c: Card| #[trigger] s.contains(c) && p(c) implies kept.contains(c) by {
            if s.contains(c) && p(c) {
                let k = choose|k: int| 0 <= k < s.len() && s[k] == c;
                if k < front.len() {
                    assert(front[k] == c);
                    assert(front.contains(c));
                    let m = choose|m: int| 0 <= m < sub.len() && sub[m] == c;
                    assert(kept[m] == c);
                } else {
                    assert(kept[kept.len() - 1] == c);
                }
            }
        }
    }
}

/// In a descending sequence a card stands at least as many places above a
/// later one as there are steps between them.
pub proof fn lemma_descending_gap(s: Seq<Card>, i: int, j: int)
    requires
        descending(s),
        0 <= i <= j < s.len(),
    ensures
        s[i].ordinal() >= s[j].ordinal() + (j - i),
    decreases j - i,
{
    if i < j {
        lemma_descending_gap(s, i + 1, j);
    }
}

/// A deck has four cards of each rank.
pub proof fn lemma_rank_group_small(s: Seq<Card>, r: int)
    requires
        descending(s),
    ensures
        of_rank(s, r).len() <= 4,
{
    let p = |c: Card| c.rank.strength() == r;
    let d = of_rank(s, r);
    lemma_filter_descending(s, p);
    if d.len() >= 5 {
        assert(d.contains(d[0]) && d.contains(d[4]));
        lemma_descending_gap(d, 0, 4);
        assert(false);
    }
}

/// Two predicates of which just one holds of each item split a sequence.
pub proof fn lemma_filter_two<T>(s: Seq<T>, a: spec_fn(T) -> bool, b: spec_fn(T) -> bool)
    requires
        forall|i: int| 0 <= i < s.len() ==> a(s[i]) != b(s[i]),
    ensures
        s.filter(a).len() + s.filter(b).len() == s.len(),
    decreases s.len(),
{
    reveal(Seq::filter);
    if s.len() > 0 {
        let front = s.drop_last();
        assert forall|i: int| 0 <= i < front.len() implies a(front[i]) != b(front[i]) by {
            assert(front[i] == s[i]);
        }
        lemma_filter_two(front, a, b);
        assert(a(s[s.len() - 1]) != b(s[s.len() - 1]));
    }
}

/// Three predicates of which just one holds of each item split a sequence.
pub proof fn lemma_filter_three<T>(
    s: Seq<T>,
    a: spec_fn(T) -> bool,
    b: spec_fn(T) -> bool,
    c: spec_fn(T) -> bool,
)
    requires
        forall|i: int|
            0 <= i < s.len() ==> (a(s[i]) || b(s[i]) || c(s[i])) && !(a(s[i]) && b(s[i])) && !(a(
                s[i],
            ) && c(s[i])) && !(b(s[i]) && c(s[i])),
    ensures
        s.filter(a).len() + s.filter(b).len() + s.filter(c).len() == s.len(),
    decreases s.len(),
{
    reveal(Seq::filter);
    if s.len() > 0 {
        let front = s.drop_last();
        assert forall|i: int| 0 <= i < front.len() implies (a(front[i]) || b(front[i]) || c(
            front[i],
        )) && !(a(front[i]) && b(front[i])) && !(a(front[i]) && c(front[i])) && !(b(front[i])
            && c(front[i])) by {
            assert(front[i] == s[i]);
        }
        lemma_filter_three(front, a, b, c);
        let last = s[s.len() - 1];
        assert((a(last) || b(last) || c(last)) && !(a(last) && b(last)) && !(a(last) && c(last))
            && !(b(last) && c(last)));
    }
}

/// What `top_rank` finds is a rank with enough cards, and no higher rank
/// below the bound has as many.
pub proof fn lemma_top_rank(s: Seq<Card>, n: int, skip: Option<int>, bound: int)
    ensures
        match top_rank(s, n, skip, bound) {
            Some(r) => {
                &&& 0 <= r < bound
                &&& skip != Some(r)
                &&& of_rank(s, r).len() >= n
                &&& forall|q: int| r < q < bound && skip != Some(q) ==> of_rank(s, q).len() < n
            },
            None => forall|q: int| 0 <= q < bound && skip != Some(q) ==> of_rank(s, q).len() < n,
        },
    decreases bound,
{
    if bound > 0 {
        lemma_top_rank(s, n, skip, bound - 1);
    }
}

/// With no card in the core, every card is a kicker.
pub proof fn lemma_kickers_of_none(s: Seq<Card>)
    ensures
        kickers(Seq::empty(), s) == s,
{
    let all = |c: Card| true;
    let k = |c: Card| !has_rank(Seq::empty(), c.rank);
    lemma_filter_same(s, k, all);
    lemma_filter_all(s, all);
}

/// A predicate that holds of every item keeps the whole sequence.
pub proof fn lemma_filter_all<T>(s: Seq<T>, p: spec_fn(T) -> bool)
    requires
        forall|i: int| 0 <= i < s.len() ==> p(s[i]),
    ensures
        s.filter(p) == s,
    decreases s.len(),
{
    reveal(Seq::filter);
    if s.len() > 0 {
        let front = s.drop_last();
        assert forall|i: int| 0 <= i < front.len() implies p(front[i]) by {
            assert(front[i] == s[i]);
        }
        lemma_filter_all(front, p);
        assert(s =~= front.push(s.last()));
    }
}

/// The kickers beside the cards of one rank are all the other cards.
pub proof fn lemma_kickers_of_one(s: Seq<Card>, r: int)
    requires
        of_rank(s, r).len() > 0,
    ensures
        kickers(of_rank(s, r), s).len() == s.len() - of_rank(s, r).len(),
{
    let core = of_rank(s, r);
    let a = |c: Card| c.rank.strength() == r;
    let k = |c: Card| !has_rank(core, c.rank);
    s.lemma_filter_pred(a, 0);
    assert(core[0].rank.strength() == r);
    assert forall|i: int| 0 <= i < s.len() implies a(s[i]) != k(s[i]) by {
        if s[i].rank.strength() == r {
            assert(core[0].rank == s[i].rank);
        }
        if has_rank(core, s[i].rank) {
            let j = choose|j: int| 0 <= j < core.len() && core[j].rank == s[i].rank;
            s.lemma_filter_pred(a, j);
        }
    }
    lemma_filter_two(s, a, k);
}

/// The kickers beside the cards of two ranks are all the other cards.
pub proof fn lemma_kickers_of_two(s: Seq<Card>, r: int, q: int)
    requires
        r != q,
        of_rank(s, r).len() > 0,
        of_rank(s, q).len() > 0,
    ensures
        kickers(of_rank(s, r) + of_rank(s, q), s).len() == s.len() - of_rank(s, r).len()
            - of_rank(s, q).len(),
{
    let first = of_rank(s, r);
    let second = of_rank(s, q);
    let core = first + second;
    let a = |c: Card| c.rank.strength() == r;
    let b = |c: Card| c.rank.strength() == q;
    let k = |c: Card| !has_rank(core, c.rank);
    s.lemma_filter_pred(a, 0);
    s.lemma_filter_pred(b, 0);
    assert(core[0] == first[0]);
    assert(core[first.len() as int] == second[0]);
    assert forall|i: int| 0 <= i < s.len() implies (a(s[i]) || b(s[i]) || k(s[i])) && !(a(s[i])
        && b(s[i])) && !(a(s[i]) && k(s[i])) && !(b(s[i]) && k(s[i])) by {
        if s[i].rank.strength() == r {
            assert(core[0].rank == s[i].rank);
        }
        if s[i].rank.strength() == q {
            assert(core[first.len() as int].rank == s[i].rank);
        }
        if has_rank(core, s[i].rank) {
            let j = choose|j: int| 0 <= j < core.len() && core[j].rank == s[i].rank;
            if j < first.len() {
                assert(core[j] == first[j]);
                s.lemma_filter_pred(a, j);
            } else {
                assert(core[j] == second[j - first.len()]);
                s.lemma_filter_pred(b, j - first.len());
            }
        }
    }
    lemma_filter_three(s, a, b, k);
}

/// A run that `first_run` finds has five cards, all of them cards of `d`.
pub proof fn lemma_first_run(d: Seq<Card>, from: int)
    requires
        0 <= from,
    ensures
        first_run(d, from) matches Some(w) ==> w.len() == 5 && d.len() >= 5 && is_run(w)
            && forall|i: int| 0 <= i < 5 ==> d.contains(#[trigger] w[i]),
    decreases d.len() - from,
{
    if from + 5 > d.len() {
        if d.len() >= 5 && is_run(wheel(d)) {
            let w = wheel(d);
            assert forall|i: int| 0 <= i < 5 implies d.contains(#[trigger] w[i]) by {
                if i == 0 {
                    assert(w[i] == d[0]);
                } else {
                    assert(w[i] == d[d.len() - 5 + i]);
                }
            }
        }
    } else if is_run(window(d, from)) {
        let w = window(d, from);
        assert forall|i: int| 0 <= i < 5 implies d.contains(#[trigger] w[i]) by {
            assert(w[i] == d[from + i]);
        }
    } else {
        lemma_first_run(d, from + 1);
    }
}

/// A sequence of distinct cards of which each is in `s`.
pub open spec fn drawn_from(hand: Seq<Card>, s: Seq<Card>) -> bool {
    &&& hand.no_duplicates()
    &&& forall|i: int| 0 <= i < hand.len() ==> s.contains(#[trigger] hand[i])
}

/// A descending sequence holds no card twice.
pub proof fn lemma_descending_distinct(s: Seq<Card>)
    requires
        descending(s),
    ensures
        s.no_duplicates(),
{
    assert forall|i: int, j: int| 0 <= i < s.len() && 0 <= j < s.len() && i != j implies s[i]
        != s[j] by {
        if i < j {
            assert(s[i].ordinal() > s[j].ordinal());
        } else {
            assert(s[j].ordinal() > s[i].ordinal());
        }
    }
}

/// A run found among descending cards is five distinct cards of them.
pub proof fn lemma_run_drawn(d: Seq<Card>)
    requires
        descending(d),
    ensures
        straight_in(d) matches Some(w) ==> w.len() == 5 && drawn_from(w, d),
{
    lemma_first_run(d, 0);
    lemma_run_distinct(d, 0);
}

/// The five cards of a run found among descending cards differ.
pub proof fn lemma_run_distinct(d: Seq<Card>, from: int)
    requires
        descending(d),
        0 <= from,
    ensures
        first_run(d, from) matches Some(w) ==> w.no_duplicates(),
    decreases d.len() - from,
{
    if from + 5 > d.len() {
        if d.len() >= 5 && is_run(wheel(d)) {
            let w = wheel(d);
            assert forall|i: int, j: int| 0 <= i < w.len() && 0 <= j < w.len() && i != j implies w[i]
                != w[j] by {
                let a = if i == 0 {
                    0
                } else {
                    d.len() - 5 + i
                };
                let b = if j == 0 {
                    0
                } else {
                    d.len() - 5 + j
                };
                assert(w[i] == d[a] && w[j] == d[b]);
                if a < b {
                    assert(d[a].ordinal() > d[b].ordinal());
                } else {
                    assert(d[b].ordinal() > d[a].ordinal());
                }
            }
        }
    } else if is_run(window(d, from)) {
        let w = window(d, from);
        assert forall|i: int, j: int| 0 <= i < w.len() && 0 <= j < w.len() && i != j implies w[i]
            != w[j] by {
            assert(w[i] == d[from + i] && w[j] == d[from + j]);
            if i < j {
                assert(d[from + i].ordinal() > d[from + j].ordinal());
            } else {
                assert(d[from + j].ordinal() > d[from + i].ordinal());
            }
        }
    } else {
        lemma_run_distinct(d, from + 1);
    }
}

/// A straight flush that is found is five distinct cards of `s`, and is the
/// run of one suit.
pub proof fn lemma_straight_flush(s: Seq<Card>, bound: int)
    requires
        descending(s),
    ensures
        straight_flush(s, bound) matches Some(w) ==> w.len() == 5 && drawn_from(w, s) && exists|
            u: int,
        |
            0 <= u < bound && straight_in(of_suit(s, u)) == Some(w),
        straight_flush(s, bound) is None ==> forall|u: int|
            0 <= u < bound ==> straight_in(of_suit(s, u)) is None,
    decreases bound,
{
    if bound > 0 {
        let d = of_suit(s, bound - 1);
        if straight_in(d) is Some {
            let w = straight_in(d)->0;
            lemma_filter_descending(s, |c: Card| c.suit.index() == bound - 1);
            lemma_run_drawn(d);
            assert forall|i: int| 0 <= i < w.len() implies s.contains(#[trigger] w[i]) by {
                assert(d.contains(w[i]));
            }
        } else {
            lemma_straight_flush(s, bound - 1);
            if straight_flush(s, bound) is Some {
                let w = straight_flush(s, bound)->0;
                let u = choose|u: int| 0 <= u < bound - 1 && straight_in(of_suit(s, u)) == Some(w);
                assert(0 <= u < bound && straight_in(of_suit(s, u)) == Some(w));
            }
        }
    }
}

/// The first part of a descending sequence descends.
pub proof fn lemma_take_descending(s: Seq<Card>, n: int)
    requires
        descending(s),
        0 <= n <= s.len(),
    ensures
        descending(s.take(n)),
        forall|i: int| 0 <= i < n ==> s.contains(#[trigger] s.take(n)[i]),
{
    let t = s.take(n);
    assert forall|i: int, j: int| 0 <= i < j < t.len() implies t[i].ordinal() > t[j].ordinal() by {
        assert(t[i] == s[i] && t[j] == s[j]);
    }
    assert forall|i: int| 0 <= i < n implies s.contains(#[trigger] t[i]) by {
        assert(t[i] == s[i]);
    }
}

/// A flush that is found is five distinct cards of `s`.
pub proof fn lemma_flush(s: Seq<Card>, bound: int)
    requires
        descending(s),
    ensures
        flush(s, bound) matches Some(w) ==> w.len() == 5 && drawn_from(w, s),
    decreases bound,
{
    if bound > 0 {
        let d = of_suit(s, bound - 1);
        if d.len() >= 5 {
            let w = d.take(5);
            lemma_filter_descending(s, |c: Card| c.suit.index() == bound - 1);
            lemma_take_descending(d, 5);
            lemma_descending_distinct(w);
            assert forall|i: int| 0 <= i < w.len() implies s.contains(#[trigger] w[i]) by {
                assert(d.contains(w[i]));
            }
        } else {
            lemma_flush(s, bound - 1);
        }
    }
}

/// The leaders are cards of `s` of ranks below the bound, one of each rank
/// held, from the highest rank down.
pub proof fn lemma_leaders(s: Seq<Card>, bound: int)
    requires
        descending(s),
    ensures
        descending(leaders(s, bound)),
        forall|i: int|
            0 <= i < leaders(s, bound).len() ==> s.contains(#[trigger] leaders(s, bound)[i])
                && leaders(s, bound)[i].rank.strength() < bound,
        forall|i: int, j: int|
            0 <= i < j < leaders(s, bound).len() ==> leaders(s, bound)[i].rank.strength()
                > leaders(s, bound)[j].rank.strength(),
        forall|r: int|
            0 <= r < bound && of_rank(s, r).len() > 0 ==> exists|i: int|
                0 <= i < leaders(s, bound).len() && #[trigger] leaders(s, bound)[i].rank.strength()
                    == r,
    decreases bound,
{
    let all = leaders(s, bound);
    if bound > 0 {
        let rest = leaders(s, bound - 1);
        lemma_leaders(s, bound - 1);
        let g = of_rank(s, bound - 1);
        if g.len() > 0 {
            let top = g[0];
            s.lemma_filter_pred(|c: Card| c.rank.strength() == bound - 1, 0);
            lemma_filter_descending(s, |c: Card| c.rank.strength() == bound - 1);
            assert(g.contains(top));
            assert(all =~= seq![top] + rest);
            assert forall|i: int| 0 <= i < all.len() implies s.contains(#[trigger] all[i])
                && all[i].rank.strength() < bound by {
                if i > 0 {
                    assert(all[i] == rest[i - 1]);
                }
            }
            assert forall|i: int, j: int| 0 <= i < j < all.len() implies all[i].rank.strength()
                > all[j].rank.strength() by {
                assert(all[j] == rest[j - 1]);
                if i > 0 {
                    assert(all[i] == rest[i - 1]);
                }
            }
            assert forall|i: int, j: int| 0 <= i < j < all.len() implies all[i].ordinal()
                > all[j].ordinal() by {
                assert(all[i].rank.strength() > all[j].rank.strength());
            }
            assert forall|r: int| 0 <= r < bound && of_rank(s, r).len() > 0 implies exists|i: int|
                0 <= i < all.len() && #[trigger] all[i].rank.strength() == r by {
                if r == bound - 1 {
                    assert(all[0].rank.strength() == r);
                } else {
                    let i = choose|i: int|
                        0 <= i < rest.len() && #[trigger] rest[i].rank.strength() == r;
                    assert(all[i + 1] == rest[i]);
                    assert(all[i + 1].rank.strength() == r);
                }
            }
        }
    }
}

/// A core of distinct cards of `s`, filled up with kickers, is five distinct
/// cards of `s`.
pub proof fn lemma_completed(core: Seq<Card>, s: Seq<Card>)
    requires
        descending(s),
        drawn_from(core, s),
        core.len() <= 5,
        kickers(core, s).len() >= 5 - core.len(),
    ensures
        completed(core, s).len() == 5,
        drawn_from(completed(core, s), s),
{
    let k = kickers(core, s);
    let p = |c: Card| !has_rank(core, c.rank);
    let n = 5 - core.len();
    let t = k.take(n);
    let hand = completed(core, s);
    lemma_filter_descending(s, p);
    lemma_take_descending(k, n);
    lemma_descending_distinct(t);
    assert forall|i: int| 0 <= i < hand.len() implies s.contains(#[trigger] hand[i]) by {
        if i >= core.len() {
            assert(hand[i] == t[i - core.len()]);
            assert(k.contains(t[i - core.len()]));
        } else {
            assert(hand[i] == core[i]);
        }
    }
    assert forall|i: int, j: int| 0 <= i < hand.len() && 0 <= j < hand.len() && i != j implies hand[i]
        != hand[j] by {
        if i < core.len() && j < core.len() {
            assert(hand[i] == core[i] && hand[j] == core[j]);
        } else if i >= core.len() && j >= core.len() {
            assert(hand[i] == t[i - core.len()] && hand[j] == t[j - core.len()]);
        } else {
            let a = if i < core.len() {
                i
            } else {
                j
            };
            let b = if i < core.len() {
                j
            } else {
                i
            };
            assert(hand[a] == core[a] && hand[b] == t[b - core.len()]);
            assert(k.contains(t[b - core.len()]));
            assert(p(hand[b]));
            if hand[a] == hand[b] {
                assert(core[a].rank == hand[b].rank);
                assert(has_rank(core, hand[b].rank));
            }
        }
    }
}

/// The cards of one rank of a descending sequence are distinct cards of it.
pub proof fn lemma_rank_group_drawn(s: Seq<Card>, r: int)
    requires
        descending(s),
    ensures
        drawn_from(of_rank(s, r), s),
        forall|i: int| 0 <= i < of_rank(s, r).len() ==> (#[trigger] of_rank(s, r)[i]).rank.strength()
            == r,
{
    let p = |c: Card| c.rank.strength() == r;
    let g = of_rank(s, r);
    lemma_filter_descending(s, p);
    lemma_descending_distinct(g);
    assert forall|i: int| 0 <= i < g.len() implies s.contains(#[trigger] g[i]) && g[i].rank.strength()
        == r by {
        assert(g.contains(g[i]));
    }
}

/// The cards of two ranks of a descending sequence, or the first few of
/// each, are distinct cards of it.
pub proof fn lemma_two_groups_drawn(s: Seq<Card>, r: int, n: int, q: int, m: int)
    requires
        descending(s),
        r != q,
        0 <= n <= of_rank(s, r).len(),
        0 <= m <= of_rank(s, q).len(),
    ensures
        drawn_from(of_rank(s, r).take(n) + of_rank(s, q).take(m), s),
{
    let a = of_rank(s, r).take(n);
    let b = of_rank(s, q).take(m);
    let both = a + b;
    lemma_rank_group_drawn(s, r);
    lemma_rank_group_drawn(s, q);
    assert forall|i: int| 0 <= i < both.len() implies s.contains(#[trigger] both[i]) by {
        if i < n {
            assert(both[i] == of_rank(s, r)[i]);
        } else {
            assert(both[i] == of_rank(s, q)[i - n]);
        }
    }
    assert forall|i: int, j: int| 0 <= i < both.len() && 0 <= j < both.len() && i != j implies both[i]
        != both[j] by {
        if i < n {
            assert(both[i] == of_rank(s, r)[i]);
        } else {
            assert(both[i] == of_rank(s, q)[i - n]);
        }
        if j < n {
            assert(both[j] == of_rank(s, r)[j]);
        } else {
            assert(both[j] == of_rank(s, q)[j - n]);
        }
    }
}

/// The best hand of seven distinct cards is five distinct cards of them.
pub proof fn lemma_best_hand_drawn(s: Seq<Card>)
    requires
        descending(s),
        s.len() == 7,
    ensures
        best_hand(s).1.len() == 5,
        drawn_from(best_hand(s).1, s),
{
    let quad = top_rank(s, 4, None, 13);
    let trip = top_rank(s, 3, None, 13);
    let pair = top_rank(s, 2, trip, 13);
    let second = top_rank(s, 2, pair, 13);
    lemma_top_rank(s, 4, None, 13);
    lemma_top_rank(s, 3, None, 13);
    lemma_top_rank(s, 2, trip, 13);
    lemma_top_rank(s, 2, pair, 13);
    lemma_straight_flush(s, 4);
    lemma_flush(s, 4);
    if straight_flush(s, 4) is Some {
    } else if quad is Some {
        let q = quad->0;
        lemma_rank_group_small(s, q);
        lemma_rank_group_drawn(s, q);
        lemma_kickers_of_one(s, q);
        lemma_completed(of_rank(s, q), s);
    } else if trip is Some && pair is Some {
        let t = trip->0;
        let p = pair->0;
        lemma_two_groups_drawn(s, t, 3, p, 2);
        assert(of_rank(s, t).take(3) =~= of_rank(s, t));
    } else if flush(s, 4) is Some {
    } else if straight_in(leaders(s, 13)) is Some {
        let d = leaders(s, 13);
        let w = straight_in(d)->0;
        lemma_leaders(s, 13);
        lemma_run_drawn(d);
        assert forall|i: int| 0 <= i < w.len() implies s.contains(#[trigger] w[i]) by {
            assert(d.contains(w[i]));
            let k = choose|k: int| 0 <= k < d.len() && d[k] == w[i];
            assert(s.contains(d[k]));
        }
    } else if trip is Some {
        let t = trip->0;
        lemma_rank_group_drawn(s, t);
        lemma_kickers_of_one(s, t);
        lemma_completed(of_rank(s, t), s);
    } else if pair is Some && second is Some {
        let p = pair->0;
        let q = second->0;
        lemma_two_groups_drawn(s, p, 2, q, 2);
        assert(of_rank(s, p).take(2) =~= of_rank(s, p));
        assert(of_rank(s, q).take(2) =~= of_rank(s, q));
        lemma_kickers_of_two(s, p, q);
        lemma_completed(of_rank(s, p) + of_rank(s, q), s);
    } else if pair is Some {
        let p = pair->0;
        lemma_rank_group_drawn(s, p);
        lemma_kickers_of_one(s, p);
        lemma_completed(of_rank(s, p), s);
    } else {
        lemma_kickers_of_none(s);
        lemma_completed(Seq::empty(), s);
    }
}

} // verus!
