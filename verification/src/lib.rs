//! Texas Hold'em showdown evaluation: a card model, and a classifier that
//! picks the best five-card poker hand out of seven cards.
//!
//! `card`, `rank` and `suit` hold the card model, `order` the order of cards
//! and `shuffle` a random permutation of them. `showdown` evaluates seven
//! cards; `hand` holds what an evaluation gives and how two of them compare.
//! `rules` says what a hand of each category is, `model` how the best hand is
//! found among sorted cards (`sorting`), and `laws` states what holds of it.
//! `linq` groups and joins sequences.

pub mod card;
pub mod error;
pub mod hand;
pub mod laws;
pub mod linq;
pub mod model;
pub mod order;
pub mod proofs;
pub mod rank;
pub mod rules;
pub mod showdown;
pub mod shuffle;
pub mod sorting;
pub mod suit;
