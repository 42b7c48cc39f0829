//! Checks on what a node returned, before it is used.
use miden_protocol::block::account_tree::{AccountIdKey, AccountWitness as ProtocolWitness};
use miden_protocol::utils::serde::Deserializable;
use miden_protocol::{Felt, Word as ProtocolWord};
use vstd::prelude::*;

use super::error::{ChainValidationError, SyncError};
use super::transaction::RpcTransactionRecord;
use crate::block::BlockHeader;
use crate::mmr::MmrDelta;
use crate::primitives::{AccountId, BlockNumber, Word};
use crate::rpc::note::NoteSyncBlock;

verus! {

// CHAIN UPDATES
// ================================================================================================

/// What a node answers when asked for the chain from a block on: the delta of the range, up to
/// the block before the last one, and the header of the last one.
#[derive(Debug)]
pub struct ChainMmrInfo {
    pub block_from: BlockNumber,
    pub block_to: BlockNumber,
    pub mmr_delta: MmrDelta,
    pub block_header: BlockHeader,
}

/// What is wrong with a chain update that was asked for from a block on, if anything.
pub open spec fn chain_update_error(
    header: BlockNumber,
    block_from: BlockNumber,
    block_to: BlockNumber,
    current: BlockNumber,
) -> Option<ChainValidationError> {
    if header != block_to {
        Some(ChainValidationError::HeaderMismatch { header, block_to })
    } else if block_from != current {
        Some(ChainValidationError::StartMismatch { requested: current, block_from })
    } else if block_to < current {
        Some(ChainValidationError::BehindCurrent { block_to, current })
    } else {
        None
    }
}

/// A check's verdict as an outcome.
pub open spec fn verdict(error: Option<ChainValidationError>) -> Result<(), SyncError> {
    match error {
        Some(error) => Err(SyncError::ChainValidation(error)),
        None => Ok(()),
    }
}

/// A check fails exactly where something is wrong, and with what is wrong.
pub proof fn law_verdict_is_what_is_wrong(error: ChainValidationError)
    ensures
        verdict(None) is Ok,
        verdict(Some(error)) == Err::<(), SyncError>(SyncError::ChainValidation(error)),
{
}

/// Checks that a chain update covers the range that was asked for.
pub fn validate_chain_mmr_response(
    chain_mmr_info: &ChainMmrInfo,
    current_block_num: BlockNumber,
) -> (outcome: Result<(), SyncError>)
    ensures
        outcome == verdict(
            chain_update_error(
                chain_mmr_info.block_header.fields.block_num,
                chain_mmr_info.block_from,
                chain_mmr_info.block_to,
                current_block_num,
            ),
        ),
{
    let header: BlockNumber = chain_mmr_info.block_header.block_num();
    let block_to: BlockNumber = chain_mmr_info.block_to;
    let block_from: BlockNumber = chain_mmr_info.block_from;
    if header != block_to {
        return Err(
            SyncError::ChainValidation(ChainValidationError::HeaderMismatch { header, block_to }),
        );
    }
    if block_from != current_block_num {
        return Err(
            SyncError::ChainValidation(
                ChainValidationError::StartMismatch { requested: current_block_num, block_from },
            ),
        );
    }
    if block_to < current_block_num {
        return Err(
            SyncError::ChainValidation(
                ChainValidationError::BehindCurrent { block_to, current: current_block_num },
            ),
        );
    }
    Ok(())
}

/// A chain update is believed exactly where its header is that of its last block, it starts from the
/// current block, and it does not end before it. What is wrong is reported with the two blocks that
/// do not fit.
pub proof fn law_believed_update_continues_the_chain(
    header: BlockNumber,
    block_from: BlockNumber,
    block_to: BlockNumber,
    current: BlockNumber,
)
    ensures
        match chain_update_error(header, block_from, block_to, current) {
            None => header == block_to && block_from == current && current <= block_to,
            Some(ChainValidationError::HeaderMismatch { header: given, block_to: last }) => given
                == header && last == block_to && header != block_to,
            Some(ChainValidationError::StartMismatch { requested, block_from: given }) => requested
                == current && given == block_from && block_from != current,
            Some(ChainValidationError::BehindCurrent { block_to: last, current: at }) => last
                == block_to && at == current && block_to < current,
            Some(_) => false,
        },
        header == block_to && block_from == current && current <= block_to ==> chain_update_error(
            header,
            block_from,
            block_to,
            current,
        ) is None,
{
}

/// What to ask a node for, once the chain update is there.
#[derive(Clone, Copy, Debug, PartialEq, Eq, Structural)]
pub struct FetchPlan {
    /// The first block of the range, the one behind the current one.
    pub block_from: BlockNumber,
    /// The last block of the range, the chain tip.
    pub block_to: BlockNumber,
    /// Whether there are tags to ask for notes with.
    pub notes: bool,
    /// Whether there are accounts to ask for transactions of.
    pub transactions: bool,
}

/// What to ask for behind a chain update that was asked for from a block on.
pub open spec fn planned_fetch(
    header: BlockNumber,
    block_from: BlockNumber,
    block_to: BlockNumber,
    current: BlockNumber,
    has_tags: bool,
    has_accounts: bool,
) -> Result<Option<FetchPlan>, SyncError> {
    match chain_update_error(header, block_from, block_to, current) {
        Some(error) => Err(SyncError::ChainValidation(error)),
        None => if block_to == current {
            Ok(None)
        } else {
            Ok(
                Some(
                    FetchPlan {
                        block_from: (current + 1) as u32,
                        block_to,
                        notes: has_tags,
                        transactions: has_accounts,
                    },
                ),
            )
        },
    }
}

/// Decides what to ask for behind a chain update: nothing where it makes no progress, otherwise
/// the blocks behind the current one up to the tip. Without tags no note could match, and without
/// accounts no transaction.
pub fn plan_fetch(
    chain_mmr_info: &ChainMmrInfo,
    current_block_num: BlockNumber,
    has_tags: bool,
    has_accounts: bool,
) -> (plan: Result<Option<FetchPlan>, SyncError>)
    ensures
        plan == planned_fetch(
            chain_mmr_info.block_header.fields.block_num,
            chain_mmr_info.block_from,
            chain_mmr_info.block_to,
            current_block_num,
            has_tags,
            has_accounts,
        ),
{
    match validate_chain_mmr_response(chain_mmr_info, current_block_num) {
        Ok(()) => {},
        Err(error) => return Err(error),
    }
    if chain_mmr_info.block_to == current_block_num {
        return Ok(None);
    }
    Ok(
        Some(
            FetchPlan {
                block_from: current_block_num + 1,
                block_to: chain_mmr_info.block_to,
                notes: has_tags,
                transactions: has_accounts,
            },
        ),
    )
}

/// Behind a chain update that is believed, nothing is asked for where it ends at the current block;
/// otherwise the blocks behind the current one up to its end are, notes where there are tags and
/// transactions where there are accounts.
pub proof fn law_all_new_blocks_are_asked_for(
    header: BlockNumber,
    block_from: BlockNumber,
    block_to: BlockNumber,
    current: BlockNumber,
    has_tags: bool,
    has_accounts: bool,
)
    ensures
        match planned_fetch(header, block_from, block_to, current, has_tags, has_accounts) {
            Err(error) => chain_update_error(header, block_from, block_to, current) matches Some(
                wrong,
            ) && error == SyncError::ChainValidation(wrong),
            Ok(None) => block_to == current && block_from == current && header == current,
            Ok(Some(plan)) => {
                &&& header == block_to && block_from == current && current < block_to
                &&& plan.block_from == current + 1
                &&& plan.block_to == block_to
                &&& plan.notes == has_tags
                &&& plan.transactions == has_accounts
            },
        },
{
}

/// What to ask a node for next.
#[derive(Clone, Copy, Debug, PartialEq, Eq, Structural)]
pub enum FetchAction {
    /// The notes with the client's tags, over a range of blocks.
    SyncNotes { block_from: BlockNumber, block_to: BlockNumber },
    /// The transactions of the client's accounts, over a range of blocks.
    SyncTransactions { block_from: BlockNumber, block_to: BlockNumber },
    /// Nothing: all that a sync needs is there.
    Complete,
}

impl FetchPlan {
    pub open spec fn spec_after_notes(self) -> FetchAction {
        if self.transactions {
            FetchAction::SyncTransactions { block_from: self.block_from, block_to: self.block_to }
        } else {
            FetchAction::Complete
        }
    }

    pub open spec fn spec_first(self) -> FetchAction {
        if self.notes {
            FetchAction::SyncNotes { block_from: self.block_from, block_to: self.block_to }
        } else {
            self.spec_after_notes()
        }
    }

    /// What to ask for first: notes come before transactions.
    pub fn first(&self) -> (action: FetchAction)
        ensures
            action == self.spec_first(),
    {
        if self.notes {
            FetchAction::SyncNotes { block_from: self.block_from, block_to: self.block_to }
        } else if self.transactions {
            FetchAction::SyncTransactions { block_from: self.block_from, block_to: self.block_to }
        } else {
            FetchAction::Complete
        }
    }

    /// What to ask for once the notes are there, if their blocks are in the range.
    pub fn after_notes(&self, note_blocks: &Vec<NoteSyncBlock>) -> (action: Result<
        FetchAction,
        SyncError,
    >)
        requires
            self.block_from > 0,
        ensures
            action == match first_out_of_range(
                note_block_nums(note_blocks@),
                (self.block_from - 1) as u32,
                self.block_to,
            ) {
                Some(block_num) => Err::<FetchAction, SyncError>(
                    SyncError::ChainValidation(
                        ChainValidationError::NoteBlockOutOfRange {
                            block_num,
                            current: (self.block_from - 1) as u32,
                            chain_tip: self.block_to,
                        },
                    ),
                ),
                None => Ok(self.spec_after_notes()),
            },
    {
        match validate_note_blocks_range(note_blocks, self.block_from - 1, self.block_to) {
            Ok(()) => {},
            Err(error) => return Err(error),
        }
        if self.transactions {
            Ok(
                FetchAction::SyncTransactions {
                    block_from: self.block_from,
                    block_to: self.block_to,
                },
            )
        } else {
            Ok(FetchAction::Complete)
        }
    }

    /// What to ask for once the transactions are there, if their blocks are in the range.
    pub fn after_transactions(&self, records: &Vec<RpcTransactionRecord>) -> (action: Result<
        FetchAction,
        SyncError,
    >)
        requires
            self.block_from > 0,
        ensures
            action == match first_out_of_range(
                record_block_nums(records@),
                (self.block_from - 1) as u32,
                self.block_to,
            ) {
                Some(block_num) => Err::<FetchAction, SyncError>(
                    SyncError::ChainValidation(
                        ChainValidationError::TransactionOutOfRange {
                            block_num,
                            current: (self.block_from - 1) as u32,
                            chain_tip: self.block_to,
                        },
                    ),
                ),
                None => Ok(FetchAction::Complete),
            },
    {
        match validate_transaction_records_range(records, self.block_from - 1, self.block_to) {
            Ok(()) => Ok(FetchAction::Complete),
            Err(error) => Err(error),
        }
    }
}

/// Notes are asked for before transactions, each exactly where it is planned, and over the whole
/// range.
pub proof fn law_planned_parts_are_asked_for(plan: FetchPlan)
    ensures
        plan.notes ==> plan.spec_first() == (FetchAction::SyncNotes {
            block_from: plan.block_from,
            block_to: plan.block_to,
        }),
        !plan.notes ==> plan.spec_first() == plan.spec_after_notes(),
        plan.transactions ==> plan.spec_after_notes() == (FetchAction::SyncTransactions {
            block_from: plan.block_from,
            block_to: plan.block_to,
        }),
        !plan.transactions ==> plan.spec_after_notes() == FetchAction::Complete,
{
}

/// What is asked for starts right behind the current block, and the tip that it reaches is ahead of
/// it.
pub proof fn law_planned_range_is_ahead(
    header: BlockNumber,
    block_from: BlockNumber,
    block_to: BlockNumber,
    current: BlockNumber,
)
    requires
        chain_update_error(header, block_from, block_to, current) is None,
        block_to != current,
    ensures
        current < block_to,
        (current + 1) as u32 == current + 1,
        header == block_to,
{
}

/// The first of some block numbers that is not behind the current block and up to the chain tip.
pub open spec fn first_out_of_range(
    blocks: Seq<BlockNumber>,
    current: BlockNumber,
    chain_tip: BlockNumber,
) -> Option<BlockNumber>
    decreases blocks.len(),
{
    if blocks.len() == 0 {
        None
    } else {
        match first_out_of_range(blocks.drop_last(), current, chain_tip) {
            Some(block_num) => Some(block_num),
            None => if current < blocks.last() <= chain_tip {
                None
            } else {
                Some(blocks.last())
            },
        }
    }
}

/// The block numbers of some blocks with notes.
pub open spec fn note_block_nums(blocks: Seq<NoteSyncBlock>) -> Seq<BlockNumber> {
    blocks.map_values(|block: NoteSyncBlock| block.block_header.fields.block_num)
}

/// The block numbers of some transactions.
pub open spec fn record_block_nums(records: Seq<RpcTransactionRecord>) -> Seq<BlockNumber> {
    records.map_values(|record: RpcTransactionRecord| record.block_num)
}

proof fn lemma_out_of_range_stays(
    blocks: Seq<BlockNumber>,
    current: BlockNumber,
    chain_tip: BlockNumber,
    n: int,
)
    requires
        0 <= n <= blocks.len(),
        first_out_of_range(blocks.take(n), current, chain_tip) is Some,
    ensures
        first_out_of_range(blocks, current, chain_tip) == first_out_of_range(
            blocks.take(n),
            current,
            chain_tip,
        ),
    decreases blocks.len() - n,
{
    if n < blocks.len() {
        assert(blocks.take(n + 1).drop_last() =~= blocks.take(n));
        lemma_out_of_range_stays(blocks, current, chain_tip, n + 1);
    } else {
        assert(blocks.take(n) =~= blocks);
    }
}

/// Checks that every block with notes is in the range that was asked for.
pub fn validate_note_blocks_range(
    note_blocks: &Vec<NoteSyncBlock>,
    current_block_num: BlockNumber,
    chain_tip: BlockNumber,
) -> (outcome: Result<(), SyncError>)
    ensures
        outcome == verdict(
            match first_out_of_range(note_block_nums(note_blocks@), current_block_num, chain_tip) {
                Some(block_num) => Some(
                    ChainValidationError::NoteBlockOutOfRange {
                        block_num,
                        current: current_block_num,
                        chain_tip,
                    },
                ),
                None => None,
            },
        ),
{
    let ghost blocks = note_block_nums(note_blocks@);
    let mut i: usize = 0;
    while i < note_blocks.len()
        invariant
            i <= note_blocks.len(),
            blocks == note_block_nums(note_blocks@),
            first_out_of_range(blocks.take(i as int), current_block_num, chain_tip) is None,
        decreases note_blocks.len() - i,
    {
        let block_num: BlockNumber = note_blocks[i].block_header.block_num();
        proof {
            assert(blocks.take(i + 1).drop_last() =~= blocks.take(i as int));
            assert(blocks.take(i + 1).last() == block_num);
        }
        if block_num <= current_block_num || block_num > chain_tip {
            proof {
                lemma_out_of_range_stays(blocks, current_block_num, chain_tip, i + 1);
            }
            return Err(
                SyncError::ChainValidation(
                    ChainValidationError::NoteBlockOutOfRange {
                        block_num,
                        current: current_block_num,
                        chain_tip,
                    },
                ),
            );
        }
        i += 1;
    }
    assert(blocks.take(blocks.len() as int) =~= blocks);
    Ok(())
}

/// Checks that every transaction is in the range that was asked for.
pub fn validate_transaction_records_range(
    records: &Vec<RpcTransactionRecord>,
    current_block_num: BlockNumber,
    chain_tip: BlockNumber,
) -> (outcome: Result<(), SyncError>)
    ensures
        outcome == verdict(
            match first_out_of_range(record_block_nums(records@), current_block_num, chain_tip) {
                Some(block_num) => Some(
                    ChainValidationError::TransactionOutOfRange {
                        block_num,
                        current: current_block_num,
                        chain_tip,
                    },
                ),
                None => None,
            },
        ),
{
    let ghost blocks = record_block_nums(records@);
    let mut i: usize = 0;
    while i < records.len()
        invariant
            i <= records.len(),
            blocks == record_block_nums(records@),
            first_out_of_range(blocks.take(i as int), current_block_num, chain_tip) is None,
        decreases records.len() - i,
    {
        let block_num: BlockNumber = records[i].block_num;
        proof {
            assert(blocks.take(i + 1).drop_last() =~= blocks.take(i as int));
            assert(blocks.take(i + 1).last() == block_num);
        }
        if block_num <= current_block_num || block_num > chain_tip {
            proof {
                lemma_out_of_range_stays(blocks, current_block_num, chain_tip, i + 1);
            }
            return Err(
                SyncError::ChainValidation(
                    ChainValidationError::TransactionOutOfRange {
                        block_num,
                        current: current_block_num,
                        chain_tip,
                    },
                ),
            );
        }
        i += 1;
    }
    assert(blocks.take(blocks.len() as int) =~= blocks);
    Ok(())
}

/// A range check passes exactly where every block is behind the current one and not behind the
/// chain tip.
pub proof fn law_accepted_blocks_are_in_range(
    blocks: Seq<BlockNumber>,
    current: BlockNumber,
    chain_tip: BlockNumber,
)
    ensures
        first_out_of_range(blocks, current, chain_tip) is None <==> forall|i: int|
            0 <= i < blocks.len() ==> current < #[trigger] blocks[i] <= chain_tip,
    decreases blocks.len(),
{
    if blocks.len() > 0 {
        let before = blocks.drop_last();
        law_accepted_blocks_are_in_range(before, current, chain_tip);
        assert(forall|i: int| 0 <= i < before.len() ==> blocks[i] == #[trigger] before[i]);
        assert(blocks[blocks.len() - 1] == blocks.last());
        if first_out_of_range(blocks, current, chain_tip) is None {
            assert forall|i: int| 0 <= i < blocks.len() implies current < #[trigger] blocks[i]
                <= chain_tip by {
                if i < before.len() {
                    assert(current < before[i] <= chain_tip);
                }
            }
        }
    }
}

/// The block that is reported is the first of all that is out of range.
pub proof fn law_first_block_out_of_range_is_reported(
    blocks: Seq<BlockNumber>,
    current: BlockNumber,
    chain_tip: BlockNumber,
)
    ensures
        first_out_of_range(blocks, current, chain_tip) matches Some(block_num) ==> exists|i: int|
            0 <= i < blocks.len() && #[trigger] blocks[i] == block_num && !(current < block_num
                <= chain_tip) && forall|j: int|
                0 <= j < i ==> current < #[trigger] blocks[j] <= chain_tip,
    decreases blocks.len(),
{
    if blocks.len() > 0 {
        let before = blocks.drop_last();
        law_first_block_out_of_range_is_reported(before, current, chain_tip);
        law_accepted_blocks_are_in_range(before, current, chain_tip);
        assert(blocks[blocks.len() - 1] == blocks.last());
        assert forall|j: int| 0 <= j < before.len() implies #[trigger] blocks[j] == before[j] by {}
        if let Some(block_num) = first_out_of_range(before, current, chain_tip) {
            let i = choose|i: int|
                0 <= i < before.len() && #[trigger] before[i] == block_num && !(current
                    < block_num <= chain_tip) && forall|j: int|
                    0 <= j < i ==> current < #[trigger] before[j] <= chain_tip;
            assert(blocks[i] == block_num);
        }
    }
}

/// The range checks look at the block of every single answer.
pub proof fn law_every_answer_is_checked(
    blocks: Seq<NoteSyncBlock>,
    records: Seq<RpcTransactionRecord>,
)
    ensures
        note_block_nums(blocks).len() == blocks.len(),
        forall|i: int|
            0 <= i < blocks.len() ==> #[trigger] note_block_nums(blocks)[i]
                == blocks[i].block_header.fields.block_num,
        record_block_nums(records).len() == records.len(),
        forall|i: int|
            0 <= i < records.len() ==> #[trigger] record_block_nums(records)[i]
                == records[i].block_num,
{
}

// ACCOUNT PROOFS
// ================================================================================================

/// What an account witness tells.
#[derive(Clone, Copy, Debug, PartialEq, Eq, Structural)]
pub struct WitnessParts {
    /// The account, in its integer form.
    pub id: u128,
    /// The commitment to the account's state; the empty word where there is no such account.
    pub state_commitment: Word,
    /// The root that the witness leads to.
    pub root: Word,
}

/// What the account witness that a byte string encodes tells, if it encodes one.
pub uninterp spec fn witness_parts_of(bytes: Seq<u8>) -> Option<WitnessParts>;

/// Decodes an account witness with `AccountWitness::read_from_bytes`, reads out its account and
/// state commitment, and computes its root with `SmtProof::compute_root`. The claims are that the
/// outcome depends on the bytes alone, and that the words are canonical and the account valid.
#[verifier::external_body]
fn decode_witness(bytes: &Vec<u8>) -> (parts: Option<(AccountId, WitnessParts)>)
    ensures
        match parts {
            Some((id, parts)) => witness_parts_of(bytes@) == Some(parts) && id@ == parts.id
                && parts.state_commitment.is_canonical() && parts.root.is_canonical(),
            None => witness_parts_of(bytes@) is None,
        },
{
    let witness = ProtocolWitness::read_from_bytes(bytes).ok()?;
    let id: u128 = witness.id().into();
    let plain = |word: ProtocolWord| {
        let [a, b, c, d]: [u64; 4] = word.into();
        Word { a, b, c, d }
    };
    let state_commitment = plain(witness.state_commitment());
    let root = plain(witness.into_proof().compute_root());
    Some((AccountId { raw: id }, WitnessParts { id, state_commitment, root }))
}

/// Proof of an account's state commitment under some account root.
#[derive(Debug)]
pub struct AccountWitness {
    pub(crate) id: AccountId,
    pub(crate) parts: WitnessParts,
    pub(crate) bytes: Vec<u8>,
}

impl View for AccountWitness {
    type V = WitnessParts;

    closed spec fn view(&self) -> WitnessParts {
        self.parts
    }
}

impl AccountWitness {
    #[verifier::type_invariant]
    pub closed spec fn well_formed(self) -> bool {
        witness_parts_of(self.bytes@) == Some(self.parts) && self.id@ == self.parts.id
    }

    /// Reads a witness from its serialised form.
    pub fn from_bytes(bytes: Vec<u8>) -> (witness: Option<AccountWitness>)
        ensures
            match witness {
                Some(witness) => witness_parts_of(bytes@) == Some(witness@),
                None => witness_parts_of(bytes@) is None,
            },
    {
        match decode_witness(&bytes) {
            Some((id, parts)) => Some(AccountWitness { id, parts, bytes }),
            None => None,
        }
    }

    /// The account that the witness is of.
    pub fn id(&self) -> (id: AccountId)
        ensures
            id@ == self@.id,
    {
        proof {
            use_type_invariant(self);
        }
        self.id
    }

    /// The commitment to the account's state; the empty word where there is no such account.
    pub fn state_commitment(&self) -> (commitment: Word)
        ensures
            commitment == self@.state_commitment,
    {
        self.parts.state_commitment
    }

    /// The root that the witness leads to.
    pub fn root(&self) -> (root: Word)
        ensures
            root == self@.root,
    {
        self.parts.root
    }
}

/// Asks `SmtProof::verify_presence` whether a witness shows its account, at its state commitment,
/// under a root. The claim is that it does exactly where this is the root that the witness leads
/// to.
#[verifier::external_body]
fn is_present_under(witness: &AccountWitness, root: Word) -> (present: bool)
    requires
        root.is_canonical(),
    ensures
        present == (root == witness@.root),
{
    let root = ProtocolWord::new([root.a, root.b, root.c, root.d].map(Felt::new_unchecked));
    let witness = ProtocolWitness::read_from_bytes(&witness.bytes).unwrap();
    let key = AccountIdKey::from(witness.id()).as_word();
    let commitment = witness.state_commitment();
    witness.into_proof().verify_presence(&key, &commitment, &root).is_ok()
}

/// What is wrong with an account proof, if anything: it has to be of the chain tip, of the account
/// that was asked for, and open under the tip's account root.
pub open spec fn account_proof_error(
    witness: WitnessParts,
    proof_block_num: BlockNumber,
    account_id: AccountId,
    chain_tip: BlockNumber,
    account_root: Word,
) -> Option<ChainValidationError> {
    if proof_block_num != chain_tip {
        Some(ChainValidationError::ProofBlockMismatch { block_num: proof_block_num, chain_tip })
    } else if witness.id != account_id@ {
        Some(
            ChainValidationError::ProofAccountMismatch {
                returned: AccountId::of(witness.id),
                account_id,
            },
        )
    } else if witness.root != account_root {
        Some(ChainValidationError::ProofRootMismatch { account_id })
    } else {
        None
    }
}

/// Checks that an account proof is bound to the chain tip.
pub fn validate_account_proof(
    witness: &AccountWitness,
    proof_block_num: BlockNumber,
    account_id: AccountId,
    chain_tip_header: &BlockHeader,
) -> (outcome: Result<(), SyncError>)
    requires
        chain_tip_header.fields.account_root.is_canonical(),
    ensures
        outcome == verdict(
            account_proof_error(
                witness@,
                proof_block_num,
                account_id,
                chain_tip_header.fields.block_num,
                chain_tip_header.fields.account_root,
            ),
        ),
{
    broadcast use AccountId::lemma_of_view;

    let chain_tip: BlockNumber = chain_tip_header.block_num();
    if proof_block_num != chain_tip {
        return Err(
            SyncError::ChainValidation(
                ChainValidationError::ProofBlockMismatch { block_num: proof_block_num, chain_tip },
            ),
        );
    }
    let returned = witness.id();
    if returned.to_u128() != account_id.to_u128() {
        assert(returned == AccountId::of(returned@));
        return Err(
            SyncError::ChainValidation(
                ChainValidationError::ProofAccountMismatch { returned, account_id },
            ),
        );
    }
    if !is_present_under(witness, chain_tip_header.fields.account_root) {
        return Err(
            SyncError::ChainValidation(ChainValidationError::ProofRootMismatch { account_id }),
        );
    }
    Ok(())
}

/// What an account proof tells of a private account whose local commitment was called into
/// question: the commitment on chain, where the proof shows that it is another one.
pub open spec fn proven_mismatch(
    witness: WitnessParts,
    proof_block_num: BlockNumber,
    account_id: AccountId,
    local_commitment: Word,
    chain_tip: BlockNumber,
    account_root: Word,
) -> Result<Option<Word>, SyncError> {
    if proof_block_num != chain_tip {
        Err(
            SyncError::ChainValidation(
                ChainValidationError::ProofBlockMismatch { block_num: proof_block_num, chain_tip },
            ),
        )
    } else if witness.root != account_root {
        Err(SyncError::ChainValidation(ChainValidationError::ProofRootMismatch { account_id }))
    } else if witness.id != account_id@ || witness.state_commitment == Word::spec_empty()
        || witness.state_commitment == local_commitment {
        Ok(None)
    } else {
        Ok(Some(witness.state_commitment))
    }
}

/// Verifies, against an account proof, that a private account's commitment on chain is not the
/// local one. Proof of another account, of an absent one, or of the local commitment tells of no
/// mismatch.
pub fn verify_private_account_mismatch(
    witness: &AccountWitness,
    proof_block_num: BlockNumber,
    account_id: AccountId,
    local_commitment: Word,
    chain_tip_header: &BlockHeader,
) -> (outcome: Result<Option<Word>, SyncError>)
    ensures
        outcome == proven_mismatch(
            witness@,
            proof_block_num,
            account_id,
            local_commitment,
            chain_tip_header.fields.block_num,
            chain_tip_header.fields.account_root,
        ),
{
    let chain_tip: BlockNumber = chain_tip_header.block_num();
    if proof_block_num != chain_tip {
        return Err(
            SyncError::ChainValidation(
                ChainValidationError::ProofBlockMismatch { block_num: proof_block_num, chain_tip },
            ),
        );
    }
    if witness.root() != chain_tip_header.fields.account_root {
        return Err(
            SyncError::ChainValidation(ChainValidationError::ProofRootMismatch { account_id }),
        );
    }
    let commitment = witness.state_commitment();
    if witness.id().to_u128() != account_id.to_u128() || commitment == Word::empty() || commitment
        == local_commitment {
        return Ok(None);
    }
    Ok(Some(commitment))
}

/// A mismatch is reported only with a commitment that is proven under the chain tip's account
/// root, of the account in question, and other than the local one.
pub proof fn law_reported_mismatch_is_proven(
    witness: WitnessParts,
    proof_block_num: BlockNumber,
    account_id: AccountId,
    local_commitment: Word,
    chain_tip: BlockNumber,
    account_root: Word,
)
    ensures
        proven_mismatch(
            witness,
            proof_block_num,
            account_id,
            local_commitment,
            chain_tip,
            account_root,
        ) matches Ok(Some(commitment)) ==> {
            &&& account_proof_error(
                witness,
                proof_block_num,
                account_id,
                chain_tip,
                account_root,
            ) is None
            &&& commitment == witness.state_commitment
            &&& commitment != local_commitment
            &&& commitment != Word::spec_empty()
        },
{
}

/// An account proof is believed exactly where it is of the chain tip, of the account that was asked
/// for, and opens under the tip's account root. What is wrong is reported with what does not fit.
pub proof fn law_believed_proof_is_bound_to_the_tip(
    witness: WitnessParts,
    proof_block_num: BlockNumber,
    account_id: AccountId,
    chain_tip: BlockNumber,
    account_root: Word,
)
    ensures
        match account_proof_error(witness, proof_block_num, account_id, chain_tip, account_root) {
            None => proof_block_num == chain_tip && witness.id == account_id@ && witness.root
                == account_root,
            Some(ChainValidationError::ProofBlockMismatch { block_num, chain_tip: tip }) =>
            block_num == proof_block_num && tip == chain_tip && block_num != tip,
            Some(ChainValidationError::ProofAccountMismatch { returned, account_id: asked }) =>
            returned@ == witness.id && asked == account_id && returned@ != asked@,
            Some(ChainValidationError::ProofRootMismatch { account_id: asked }) => asked
                == account_id && witness.root != account_root,
            Some(_) => false,
        },
        proof_block_num == chain_tip && witness.id == account_id@ && witness.root == account_root
            ==> account_proof_error(
            witness,
            proof_block_num,
            account_id,
            chain_tip,
            account_root,
        ) is None,
{
    broadcast use AccountId::lemma_view_of;

}

/// A proof that is bound to the chain tip, and shows another commitment of the account in question
/// than the local one, is always reported; a proof that is not bound to the tip is an error.
pub proof fn law_proven_mismatch_is_reported(
    witness: WitnessParts,
    proof_block_num: BlockNumber,
    account_id: AccountId,
    local_commitment: Word,
    chain_tip: BlockNumber,
    account_root: Word,
)
    ensures
        ({
            let outcome = proven_mismatch(
                witness,
                proof_block_num,
                account_id,
                local_commitment,
                chain_tip,
                account_root,
            );
            &&& outcome is Ok <==> proof_block_num == chain_tip && witness.root == account_root
            &&& outcome is Ok && witness.id == account_id@ && witness.state_commitment
                != Word::spec_empty() && witness.state_commitment != local_commitment ==> outcome
                == Ok::<Option<Word>, SyncError>(Some(witness.state_commitment))
            &&& outcome is Ok && (witness.id != account_id@ || witness.state_commitment
                == Word::spec_empty() || witness.state_commitment == local_commitment) ==> outcome
                == Ok::<Option<Word>, SyncError>(None)
            &&& proof_block_num != chain_tip ==> outcome == Err::<Option<Word>, SyncError>(
                SyncError::ChainValidation(
                    ChainValidationError::ProofBlockMismatch {
                        block_num: proof_block_num,
                        chain_tip,
                    },
                ),
            )
            &&& proof_block_num == chain_tip && witness.root != account_root ==> outcome == Err::<
                Option<Word>,
                SyncError,
            >(SyncError::ChainValidation(ChainValidationError::ProofRootMismatch { account_id }))
        }),
{
}

} // verus!
