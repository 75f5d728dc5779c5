//! The proofs behind the laws of the showdown: that the best hand is drawn
//! from the cards, is a hand of its category, and is beaten by no other.

pub mod attained;
pub mod basics;
pub mod chains;
pub mod dominance;
pub mod layout;
pub mod runs;
pub mod supreme;
