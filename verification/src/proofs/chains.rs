use vstd::prelude::*;
use vstd::set_lib::lemma_len_subset;
use crate::card::Card;
use crate::proofs::basics::drawn_from;
use crate::sorting::descending;

verus! {

/// A sequence that holds distinct cards is as long as they are many.
pub proof fn lemma_members_counted(f: Seq<Card>, g: Seq<Card>)
    requires
        f.no_duplicates(),
        drawn_from(g, f),
    ensures
        f.len() >= g.len(),
{
    f.unique_seq_to_set();
    g.unique_seq_to_set();
    assert(g.to_set().subset_of(f.to_set())) by {
        assert forall|c: Card| g.to_set().contains(c) implies f.to_set().contains(c) by {
            let i = choose|i: int| 0 <= i < g.len() && g[i] == c;
            assert(f.contains(g[i]));
        }
    }
    vstd::seq_lib::seq_to_set_is_finite(f);
    lemma_len_subset(g.to_set(), f.to_set());
}

/// A place in `f`, not before place `i`, where the card `g[i]` of a
/// descending chain of cards of `f` stands.
pub proof fn lemma_chain_place(f: Seq<Card>, g: Seq<Card>, i: int) -> (x: int)
    requires
        descending(f),
        descending(g),
        forall|k: int| 0 <= k < g.len() ==> f.contains(#[trigger] g[k]),
        0 <= i < g.len(),
    ensures
        i <= x < f.len(),
        f[x] == g[i],
    decreases i,
{
    assert(f.contains(g[i]));
    let x = choose|x: int| 0 <= x < f.len() && f[x] == g[i];
    if i > 0 {
        let y = lemma_chain_place(f, g, i - 1);
        assert(g[i - 1].ordinal() > g[i].ordinal());
        if x < y {
            assert(f[x].ordinal() > f[y].ordinal());
        }
    }
    x
}

/// A descending sequence stands, place by place, at least as high as any
/// descending chain of its own cards.
pub proof fn lemma_chain(f: Seq<Card>, g: Seq<Card>)
    requires
        descending(f),
        descending(g),
        forall|k: int| 0 <= k < g.len() ==> f.contains(#[trigger] g[k]),
    ensures
        f.len() >= g.len(),
        forall|i: int|
            0 <= i < g.len() ==> (#[trigger] f[i]).ordinal() >= g[i].ordinal() && f[i].rank.strength()
                >= g[i].rank.strength(),
{
    if g.len() > 0 {
        let last = lemma_chain_place(f, g, g.len() - 1);
    }
    assert forall|i: int| 0 <= i < g.len() implies (#[trigger] f[i]).ordinal() >= g[i].ordinal()
        && f[i].rank.strength() >= g[i].rank.strength() by {
        let x = lemma_chain_place(f, g, i);
        if i < x {
            assert(f[i].ordinal() > f[x].ordinal());
        }
    }
}

} // verus!
