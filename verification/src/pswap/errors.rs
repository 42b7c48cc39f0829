//! Errors of PSWAP chain tracking.
use vstd::prelude::*;

use super::lineage::PswapLineageState;
use crate::asset::AssetError;
use crate::primitives::{AccountId, NoteId};

verus! {

/// An amount column of a stored lineage row.
#[derive(Clone, Copy, Debug, PartialEq, Eq, Structural)]
pub enum AmountColumn {
    RemainingOffered,
    RemainingRequested,
}

/// Failures of PSWAP chain tracking.
#[derive(Clone, Copy, Debug, PartialEq, Eq, Structural)]
pub enum PswapLineageError {
    /// No lineage with the given order is tracked.
    NotFound(u64),
    /// The lineage is already in a terminal state.
    NotActive(PswapLineageState),
    /// The creator is not a local account, so its signing authority is missing.
    CreatorNotLocal(AccountId),
    /// The tip note is missing from the store.
    TipMissing,
    /// A payback or remainder note could not be rebuilt.
    Reconstruction,
    /// A rebuilt payback or remainder is not the note that was seen on chain.
    NoteIdMismatch { rebuilt: NoteId, observed: NoteId },
    /// An attachment's amount is out of range.
    AssetError(AssetError),
    /// A state byte stands for no state.
    UnknownState(u8),
    /// A stored amount is out of range.
    InconsistentRow(AmountColumn, u64),
}

} // verus!
