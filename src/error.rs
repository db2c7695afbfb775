//! Failures that the wallet reports to its callers.

use vstd::prelude::*;

verus! {

/// A typed failure of a wallet operation.
#[derive(Clone, Copy, Debug, PartialEq, Eq, Structural)]
pub enum WalletError {
    /// A fixed-size input (commitment, nullifier, key) is malformed.
    Validation,
    /// An unknown note, or a checkpoint depth for which no state is retained.
    NotFound,
    /// The commitment tree holds as many leaves as it can.
    Capacity,
    /// The eligible notes sum to `available`, less than the `required` amount.
    InsufficientBalance { available: u64, required: u64 },
    /// Stored state does not support the request: a missing position mapping, or
    /// a witness asked for a position that the requested tree state does not hold.
    StateConsistency,
}

/// An error carried across the boundary to the host application as text.
pub struct OrchardError {
    pub message: String,
}

} // verus!
