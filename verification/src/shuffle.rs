use vstd::prelude::*;
use rand::rngs::ThreadRng;
use rand::seq::SliceRandom;
use crate::card::Card;

verus! {

/// `rand::rngs::ThreadRng`, the generator that each thread keeps for itself.
/// Nothing is known of what it will draw.
#[verifier::external_type_specification]
#[verifier::external_body]
pub struct ExThreadRng(rand::rngs::ThreadRng);

/// `rand::thread_rng` hands out the calling thread's generator. Nothing is
/// claimed of it. It gives up where the system cannot seed the generator.
pub assume_specification[ rand::thread_rng ]() -> (rng: ThreadRng)
;

/// `rand::seq::SliceRandom::shuffle` on a slice of cards. It only swaps
/// cards of the slice with one another, so whatever the generator draws, the
/// slice holds the same cards afterwards, each as often as before.
#[verifier::external_body]
fn shuffle_with(cards: &mut [Card], rng: &mut ThreadRng)
    ensures
        final(cards)@.to_multiset() == old(cards)@.to_multiset(),
{
    cards.shuffle(rng);
}

impl Card {
    /// Puts the cards into a random order. The slice holds the same cards
    /// afterwards, whatever the order.
    pub fn shuffle(c: &mut [Card])
        ensures
            final(c)@.to_multiset() == old(c)@.to_multiset(),
    {
        let mut rng = rand::thread_rng();
        shuffle_with(c, &mut rng);
    }
}

} // verus!
