//! Why a sync fails.
use miden_protocol::crypto::merkle::mmr::MmrError;
use vstd::prelude::*;

use crate::primitives::{AccountId, BlockNumber, Word};

verus! {

/// What is wrong with what a node returned.
#[derive(Clone, Copy, Debug, PartialEq, Eq, Structural)]
pub enum ChainValidationError {
    /// The header of a chain update is not that of the block the update leads to.
    HeaderMismatch { header: BlockNumber, block_to: BlockNumber },
    /// A chain update does not start at the block that was asked for.
    StartMismatch { requested: BlockNumber, block_from: BlockNumber },
    /// A chain update leads to a block before the current one.
    BehindCurrent { block_to: BlockNumber, current: BlockNumber },
    /// A block with notes is not in the range that was asked for.
    NoteBlockOutOfRange { block_num: BlockNumber, current: BlockNumber, chain_tip: BlockNumber },
    /// A transaction is not in the range that was asked for.
    TransactionOutOfRange { block_num: BlockNumber, current: BlockNumber, chain_tip: BlockNumber },
    /// The peaks do not open the chain commitment of the chain tip.
    PeaksMismatch { commitment: Word, chain_commitment: Word },
    /// An account proof is of another block than the one that was asked for.
    ProofBlockMismatch { block_num: BlockNumber, chain_tip: BlockNumber },
    /// An account proof is of another account than the one that was asked for.
    ProofAccountMismatch { returned: AccountId, account_id: AccountId },
    /// An account proof does not open under the account root of the chain tip.
    ProofRootMismatch { account_id: AccountId },
}

#[derive(Debug)]
pub enum SyncError {
    /// The partial range counts more blocks than there can be.
    InvalidPartialMmrForest,
    ChainValidation(ChainValidationError),
    /// The partial range refused an operation.
    Mmr(MmrError),
    /// An authentication path cannot be one of the leaf that it was given for.
    MisplacedPath { block_num: BlockNumber },
}

} // verus!
