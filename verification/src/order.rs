use vstd::prelude::*;
use core::cmp::Ordering;
use crate::card::{lemma_ordinal_at, Card};

verus! {

impl PartialOrd for Card {
    /// Cards are ordered by rank, and by suit among cards of one rank.
    fn partial_cmp(&self, other: &Card) -> (o: Option<Ordering>) {
        proof {
            lemma_ordinal_at();
        }
        if self.outranks(other) {
            Some(Ordering::Greater)
        } else if other.outranks(self) {
            Some(Ordering::Less)
        } else {
            Some(Ordering::Equal)
        }
    }
}

impl vstd::std_specs::cmp::PartialOrdSpecImpl for Card {
    open spec fn obeys_partial_cmp_spec() -> bool {
        true
    }

    open spec fn partial_cmp_spec(&self, other: &Card) -> Option<Ordering> {
        if self.ordinal() > other.ordinal() {
            Some(Ordering::Greater)
        } else if self.ordinal() < other.ordinal() {
            Some(Ordering::Less)
        } else {
            Some(Ordering::Equal)
        }
    }
}

} // verus!
