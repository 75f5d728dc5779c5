use vstd::prelude::*;

verus! {

/// The ways in which a call into this library can be refused.
#[derive(Clone, Copy, Debug, PartialEq, Eq, Structural)]
pub enum PokerError {
    /// A rank, suit or card text that does not name a rank, suit or card.
    InvalidFormat,
    /// An evaluation input that is not seven distinct cards.
    InvalidInput,
}

} // verus!
