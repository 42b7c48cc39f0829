//! The steps of a sync that work on what was fetched, and what a sync amounts to.
use miden_protocol::crypto::merkle::mmr::PartialMmr;
use vstd::prelude::*;

use super::account_update::{AccountUpdates, PublicAccountUpdate};
use super::blockchain::{
    last_block, law_synced_range_ends_at_the_tip, sync_height, synced_chain, ChainSync,
    ChainSyncView, ChainUpdatesView, PartialBlockchainUpdates, ScreenedBlock,
};
use super::error::SyncError;
use super::execution::{
    all_have_start, compute_ordered_nullifiers, group_nullifiers, groups_of,
};
use super::transaction::{
    after_discard, after_sync_height, ids_of, inclusion_target, law_consumers_are_remembered,
    law_discard_needs_a_cause, law_inclusion_finds_its_transaction, tx_ids, txs_by_id,
    with_consumer, DiscardCause, DiscardRule, RpcTransactionRecord, TransactionRecord,
    TransactionStatus, TransactionUpdateTracker, TxView,
};
use super::validation::{planned_fetch, FetchPlan};
use crate::account::AccountHeader;
use crate::block::{BlockHeader, HeaderView};
use crate::mmr::{mmr_leaves_of, mmr_view_of, MmrView};
use crate::primitives::{
    AccountId, BlockNumber, NoteId, NoteTag, Nullifier, TransactionId, Word,
};
use crate::sorted_map::{has_key, lemma_ordered_entries, ordered_entries, SortedMap};

verus! {

// CONFIGURATION
// ================================================================================================

/// What a sync is done with: the connection to a node, the observers of notes, and how
/// transactions are treated.
pub struct StateSync<R, O> {
    /// The connection to the node.
    pub rpc_api: R,
    /// The observers of notes, in the order of their attachment. The first is the screener.
    pub note_observers: Vec<O>,
    /// The number of blocks after which pending transactions are stale; `None` for never.
    pub tx_discard_delta: Option<u32>,
    /// Whether the node is asked for the consumption of tracked notes.
    pub sync_nullifiers: bool,
}

impl<R, O> StateSync<R, O> {
    /// Sets up a sync that asks for the consumption of tracked notes.
    pub fn new(rpc_api: R, note_screener: O, tx_discard_delta: Option<u32>) -> (state_sync: Self)
        ensures
            state_sync.rpc_api == rpc_api,
            state_sync.note_observers@ == seq![note_screener],
            state_sync.tx_discard_delta == tx_discard_delta,
            state_sync.sync_nullifiers,
    {
        let mut note_observers: Vec<O> = Vec::new();
        note_observers.push(note_screener);
        assert(note_observers@ =~= seq![note_screener]);
        StateSync { rpc_api, note_observers, tx_discard_delta, sync_nullifiers: true }
    }

    /// Attaches an observer behind those that are there.
    #[must_use]
    pub fn with_note_observer(self, observer: O) -> (state_sync: Self)
        ensures
            state_sync.rpc_api == self.rpc_api,
            state_sync.note_observers@ == self.note_observers@.push(observer),
            state_sync.tx_discard_delta == self.tx_discard_delta,
            state_sync.sync_nullifiers == self.sync_nullifiers,
    {
        let mut note_observers = self.note_observers;
        note_observers.push(observer);
        StateSync {
            rpc_api: self.rpc_api,
            note_observers,
            tx_discard_delta: self.tx_discard_delta,
            sync_nullifiers: self.sync_nullifiers,
        }
    }

    /// Stops asking for the consumption of tracked notes.
    pub fn disable_nullifier_sync(&mut self)
        ensures
            !final(self).sync_nullifiers,
            final(self).rpc_api == old(self).rpc_api,
            final(self).note_observers == old(self).note_observers,
            final(self).tx_discard_delta == old(self).tx_discard_delta,
    {
        self.sync_nullifiers = false;
    }

    /// Asks for the consumption of tracked notes.
    pub fn enable_nullifier_sync(&mut self)
        ensures
            final(self).sync_nullifiers,
            final(self).rpc_api == old(self).rpc_api,
            final(self).note_observers == old(self).note_observers,
            final(self).tx_discard_delta == old(self).tx_discard_delta,
    {
        self.sync_nullifiers = true;
    }
}

/// The state of a client that a sync starts from.
pub struct StateSyncInput<I, O> {
    /// The headers of the tracked accounts.
    pub accounts: Vec<AccountHeader>,
    /// The tags by which the node chooses notes.
    pub note_tags: Vec<NoteTag>,
    /// The input notes to follow.
    pub input_notes: Vec<I>,
    /// The output notes to follow.
    pub output_notes: Vec<O>,
    /// The transactions that are neither committed nor discarded.
    pub uncommitted_transactions: Vec<TransactionRecord>,
}

// UPDATE
// ================================================================================================

/// How a note is to be written to the store.
#[derive(Clone, Copy, Debug, PartialEq, Eq, Structural)]
pub enum NoteUpdateType {
    /// The note is as it was.
    Unchanged,
    /// The note is new.
    Insert,
    /// An expected note that was committed; it is stored as a new row.
    InsertCommitted,
    /// The note was there and has changed.
    Update,
}

/// A change to an input note. Its identifier is known once its metadata is.
#[derive(Clone, Copy, Debug, PartialEq, Eq, Structural)]
pub struct InputNoteUpdate {
    pub id: Option<NoteId>,
    pub update_type: NoteUpdateType,
    pub is_committed: bool,
}

/// A change to an output note.
#[derive(Clone, Copy, Debug, PartialEq, Eq, Structural)]
pub struct OutputNoteUpdate {
    pub id: NoteId,
    pub update_type: NoteUpdateType,
    pub is_committed: bool,
}

/// The notes that a sync has changed.
#[derive(Debug)]
pub struct NoteUpdates {
    pub updated_input_notes: Vec<InputNoteUpdate>,
    pub updated_output_notes: Vec<OutputNoteUpdate>,
    pub consumed_input_note_ids: Vec<NoteId>,
    /// All notes that were consumed, input and output notes alike.
    pub consumed_note_ids: Vec<NoteId>,
}

/// All that a store has to take over after a sync.
pub struct StateSyncUpdate {
    /// The last block that was synced.
    pub block_num: BlockNumber,
    pub partial_blockchain_updates: PartialBlockchainUpdates,
    pub note_updates: NoteUpdates,
    pub transaction_updates: TransactionUpdateTracker,
    pub account_updates: AccountUpdates,
}

impl StateSyncUpdate {
    /// Whether the store has nothing to take over: no block, no note and no account has changed,
    /// and the transactions are those that were neither committed nor discarded, as they were.
    pub open spec fn changes_nothing(
        self,
        uncommitted_transactions: Seq<TransactionRecord>,
    ) -> bool {
        &&& self.partial_blockchain_updates.wf()
        &&& self.partial_blockchain_updates@ == ChainUpdatesView::none()
        &&& self.note_updates.updated_input_notes@.len() == 0
        &&& self.note_updates.updated_output_notes@.len() == 0
        &&& self.note_updates.consumed_input_note_ids@.len() == 0
        &&& self.note_updates.consumed_note_ids@.len() == 0
        &&& self.transaction_updates.wf()
        &&& self.transaction_updates.transactions@.map_values(|tx: TransactionRecord| tx@)
            == txs_by_id(uncommitted_transactions)
        &&& self.transaction_updates.external_nullifier_accounts@ == Map::<
            Nullifier,
            AccountId,
        >::empty()
        &&& self.account_updates@.updated_public_accounts.len() == 0
        &&& self.account_updates@.mismatched_private_accounts.len() == 0
    }

    /// Whether this is what a sync starts from, on a range with some number of blocks: it stands at
    /// the last of them, and nothing has changed.
    pub open spec fn begins(
        self,
        leaves: usize,
        uncommitted_transactions: Seq<TransactionRecord>,
    ) -> bool {
        self.block_num == last_block(leaves) && self.changes_nothing(uncommitted_transactions)
    }
}

/// Starts the update of a sync from the blocks that a partial range counts: nothing has changed
/// yet, and the transactions are followed.
pub fn begin_update(
    current_partial_mmr: &PartialMmr,
    uncommitted_transactions: Vec<TransactionRecord>,
) -> (update: Result<StateSyncUpdate, SyncError>)
    ensures
        match update {
            Ok(update) => update.begins(
                mmr_leaves_of(*current_partial_mmr),
                uncommitted_transactions@,
            ),
            Err(error) => error == SyncError::InvalidPartialMmrForest && mmr_leaves_of(
                *current_partial_mmr,
            ) - 1 > u32::MAX,
        },
{
    let block_num = match sync_height(current_partial_mmr) {
        Ok(block_num) => block_num,
        Err(error) => return Err(error),
    };
    Ok(
        StateSyncUpdate {
            block_num,
            partial_blockchain_updates: PartialBlockchainUpdates::default(),
            note_updates: NoteUpdates {
                updated_input_notes: Vec::new(),
                updated_output_notes: Vec::new(),
                consumed_input_note_ids: Vec::new(),
                consumed_note_ids: Vec::new(),
            },
            transaction_updates: TransactionUpdateTracker::new(uncommitted_transactions),
            account_updates: AccountUpdates::default(),
        },
    )
}

/// Whether an update ends a sync to a tip: it stands at the tip, what the sync did on the chain is
/// to be stored, and the range is the one that it worked on.
pub open spec fn ends_sync(
    update: StateSyncUpdate,
    sync: ChainSyncView,
    tip: HeaderView,
    mmr: MmrView,
) -> bool {
    &&& update.block_num == tip.fields.block_num
    &&& update.partial_blockchain_updates@ == sync.updates
    &&& mmr == sync.mmr
}

/// Ends the update of a sync to a tip: takes over the work on the chain, and hands the range over.
pub fn finish_update(
    update: &mut StateSyncUpdate,
    sync: ChainSync,
    tip: &BlockHeader,
    current_partial_mmr: &mut PartialMmr,
)
    requires
        sync.wf(),
    ensures
        ends_sync(*final(update), sync@, tip@, mmr_view_of(*final(current_partial_mmr))),
        final(update).partial_blockchain_updates.wf(),
        final(update).note_updates == old(update).note_updates,
        final(update).transaction_updates == old(update).transaction_updates,
        final(update).account_updates == old(update).account_updates,
{
    update.block_num = tip.block_num();
    update.partial_blockchain_updates = sync.commit(current_partial_mmr);
}

/// A sync of a range that ends at the node's tip asks the node for nothing more, and what it
/// started from, which changes nothing, is what it gives.
pub proof fn law_sync_at_the_tip_changes_nothing(
    leaves: usize,
    update: StateSyncUpdate,
    uncommitted_transactions: Seq<TransactionRecord>,
    tip: BlockNumber,
    has_tags: bool,
    has_accounts: bool,
)
    requires
        update.begins(leaves, uncommitted_transactions),
        tip == last_block(leaves),
    ensures
        planned_fetch(tip, update.block_num, tip, update.block_num, has_tags, has_accounts) == Ok::<
            Option<FetchPlan>,
            SyncError,
        >(None),
        update.block_num == tip,
        update.changes_nothing(uncommitted_transactions),
{
}

/// One sync: what it starts from, what the node answers, the blocks with notes that it takes in,
/// and what it gives.
pub ghost struct SyncRun {
    pub begun: StateSyncUpdate,
    pub uncommitted_transactions: Seq<TransactionRecord>,
    /// The block from which on the node answers, and the one that it says its answer leads to.
    pub block_from: BlockNumber,
    pub block_to: BlockNumber,
    /// The delta, and the header of the chain tip.
    pub leaves: usize,
    pub data: Seq<Word>,
    pub tip: HeaderView,
    pub has_tags: bool,
    pub has_accounts: bool,
    pub blocks: Seq<ScreenedBlock>,
    pub ended: StateSyncUpdate,
}

impl SyncRun {
    pub open spec fn tip_num(self) -> BlockNumber {
        self.tip.fields.block_num
    }

    /// Whether the node's delta leads up to the chain tip, as it does on a genuine chain. Where the
    /// range ends at the tip already, the delta is not looked at.
    pub open spec fn is_genuine(self) -> bool {
        self.begun.block_num < self.tip_num() ==> self.leaves == self.tip_num()
    }

    /// Whether the sync succeeds on a range and makes another of it. It starts from the range's
    /// last block. Where the node is at that block, it ends with what it started from; otherwise
    /// the range is advanced to the tip and takes in the blocks.
    pub open spec fn leads(self, before: MmrView, after: MmrView) -> bool {
        &&& self.begun.begins(before.leaves, self.uncommitted_transactions)
        &&& match planned_fetch(
            self.tip_num(),
            self.block_from,
            self.block_to,
            self.begun.block_num,
            self.has_tags,
            self.has_accounts,
        ) {
            Err(_) => false,
            Ok(None) => after == before && self.ended == self.begun,
            Ok(Some(_)) => match synced_chain(
                before,
                self.leaves,
                self.data,
                self.tip,
                self.blocks,
            ) {
                Some(sync) => ends_sync(self.ended, sync, self.tip, after),
                None => false,
            },
        }
    }
}

/// A sync that succeeds ends at the node's tip t, with t + 1 blocks in the range and never fewer
/// than before. Where the range ended at the tip already, it stays as it was and nothing has
/// changed; otherwise the tip's header is among those to be stored.
pub proof fn law_sync_ends_at_the_tip(run: SyncRun, before: MmrView, after: MmrView)
    requires
        before.leaves >= 1,
        run.is_genuine(),
        run.leads(before, after),
    ensures
        run.ended.block_num == run.tip_num(),
        after.leaves == run.tip_num() + 1,
        before.leaves <= after.leaves,
        before.leaves == run.tip_num() + 1 ==> after == before && run.ended == run.begun
            && run.ended.changes_nothing(run.uncommitted_transactions),
        before.leaves <= run.tip_num() ==> {
            let kept = run.ended.partial_blockchain_updates@;
            kept.block_headers.contains_key(run.tip_num())
        },
{
    if run.begun.block_num < run.tip_num() {
        law_synced_range_ends_at_the_tip(before, run.leaves, run.data, run.tip, run.blocks);
    }
}

/// Syncs with one range chain on: each ends at the tip that its node answered with, with one block
/// more in the range than the tip's number, and the next one starts from there.
pub proof fn law_repeated_syncs_chain_on(runs: Seq<SyncRun>, ranges: Seq<MmrView>)
    requires
        ranges.len() == runs.len() + 1,
        ranges[0].leaves >= 1,
        forall|i: int|
            0 <= i < runs.len() ==> (#[trigger] runs[i]).is_genuine() && runs[i].leads(
                ranges[i],
                ranges[i + 1],
            ),
    ensures
        forall|i: int|
            0 <= i < runs.len() ==> (#[trigger] runs[i]).ended.block_num == runs[i].tip_num()
                && ranges[i + 1].leaves == runs[i].tip_num() + 1,
        forall|i: int, j: int|
            0 <= i && j == i + 1 && j < runs.len() ==> (#[trigger] runs[j]).begun.block_num == (
            #[trigger] runs[i]).tip_num() && runs[i].tip_num() <= runs[j].tip_num(),
    decreases runs.len(),
{
    if runs.len() > 0 {
        let last = runs.len() - 1;
        let before = runs.drop_last();
        let earlier = ranges.drop_last();
        assert forall|i: int| 0 <= i < before.len() implies (#[trigger] before[i]).is_genuine()
            && before[i].leads(earlier[i], earlier[i + 1]) by {
            assert(before[i] == runs[i]);
        }
        law_repeated_syncs_chain_on(before, earlier);
        if last > 0 {
            assert(before[last - 1] == runs[last - 1]);
            assert(earlier[last] == ranges[last]);
        }
        assert(runs[last].is_genuine());
        law_sync_ends_at_the_tip(runs[last], ranges[last], ranges[last + 1]);
        assert forall|i: int| 0 <= i < runs.len() implies (#[trigger] runs[i]).ended.block_num
            == runs[i].tip_num() && ranges[i + 1].leaves == runs[i].tip_num() + 1 by {
            if i < last {
                assert(before[i] == runs[i]);
                assert(earlier[i + 1] == ranges[i + 1]);
            }
        }
        assert forall|i: int, j: int| 0 <= i && j == i + 1 && j < runs.len() implies (
        #[trigger] runs[j]).begun.block_num == (#[trigger] runs[i]).tip_num() && runs[i].tip_num()
            <= runs[j].tip_num() by {
            if j < last {
                assert(before[i] == runs[i] && before[j] == runs[j]);
            }
        }
    }
}

// TRANSACTIONS
// ================================================================================================

/// The tracked transactions, and the consumers of notes, after some transactions were included, one
/// after the other.
pub open spec fn after_inclusions(
    txs: Seq<TxView>,
    consumers: Map<Nullifier, AccountId>,
    records: Seq<RpcTransactionRecord>,
    timestamp: u64,
) -> (Seq<TxView>, Map<Nullifier, AccountId>)
    decreases records.len(),
{
    if records.len() == 0 {
        (txs, consumers)
    } else {
        let (txs, consumers) = after_inclusions(txs, consumers, records.drop_last(), timestamp);
        let record = records.last();
        match inclusion_target(txs, record) {
            Some(i) => (txs.update(i, txs[i].committed(record.block_num, timestamp)), consumers),
            None => (txs, with_consumer(consumers, record.input_notes@, record.account_id)),
        }
    }
}

/// Takes over the transactions of a sync: those of this client are committed, the consumers in
/// others are remembered, and what went stale or expired by the chain tip is discarded. Returns the
/// nullifiers of all consumed notes in their order.
pub fn apply_transactions(
    transaction_updates: &mut TransactionUpdateTracker,
    transactions: &Vec<RpcTransactionRecord>,
    chain_tip: BlockNumber,
    timestamp: u64,
    tx_discard_delta: Option<u32>,
) -> (nullifiers: Vec<Nullifier>)
    requires
        old(transaction_updates).wf(),
        all_have_start(transactions@),
    ensures
        final(transaction_updates).wf(),
        ({
            let (txs, consumers) = after_inclusions(
                old(transaction_updates).txs(),
                old(transaction_updates).external_nullifier_accounts@,
                transactions@,
                timestamp,
            );
            &&& final(transaction_updates).txs() == after_sync_height(
                txs,
                chain_tip,
                tx_discard_delta,
            )
            &&& final(transaction_updates).external_nullifier_accounts@ == consumers
        }),
        nullifiers@ == group_nullifiers(ordered_entries(groups_of(transactions@))),
{
    let nullifiers = compute_ordered_nullifiers(transactions);
    let ghost start = transaction_updates.txs();
    let ghost consumers = transaction_updates.external_nullifier_accounts@;
    let mut i: usize = 0;
    while i < transactions.len()
        invariant
            i <= transactions.len(),
            transaction_updates.wf(),
            (transaction_updates.txs(), transaction_updates.external_nullifier_accounts@)
                == after_inclusions(start, consumers, transactions@.take(i as int), timestamp),
        decreases transactions.len() - i,
    {
        proof {
            assert(transactions@.take(i + 1).drop_last() =~= transactions@.take(i as int));
            assert(transactions@.take(i + 1).last() == transactions@[i as int]);
        }
        transaction_updates.apply_transaction_inclusion(&transactions[i], timestamp);
        i += 1;
    }
    assert(transactions@.take(transactions@.len() as int) =~= transactions@);
    transaction_updates.apply_sync_height_update(chain_tip, tx_discard_delta);
    nullifiers
}

/// The transactions after the results of some of them lost against the network's states, one after
/// the other.
pub open spec fn after_superseded(txs: Seq<TxView>, states: Seq<Word>) -> Seq<TxView>
    decreases states.len(),
{
    if states.len() == 0 {
        txs
    } else {
        after_discard(
            after_superseded(txs, states.drop_last()),
            DiscardRule::EndsIn(states.last()),
            DiscardCause::Superseded,
        )
    }
}

/// Discards the transactions whose results lost against the network's states.
pub fn discard_superseded(
    transaction_updates: &mut TransactionUpdateTracker,
    superseded_states: &Vec<Word>,
)
    requires
        old(transaction_updates).wf(),
    ensures
        final(transaction_updates).wf(),
        final(transaction_updates).txs() == after_superseded(
            old(transaction_updates).txs(),
            superseded_states@,
        ),
        final(transaction_updates).external_nullifier_accounts == old(
            transaction_updates,
        ).external_nullifier_accounts,
{
    let ghost start = transaction_updates.txs();
    let ghost consumers = transaction_updates.external_nullifier_accounts;
    let mut i: usize = 0;
    while i < superseded_states.len()
        invariant
            i <= superseded_states.len(),
            transaction_updates.wf(),
            transaction_updates.txs() == after_superseded(
                start,
                superseded_states@.take(i as int),
            ),
            transaction_updates.external_nullifier_accounts == consumers,
        decreases superseded_states.len() - i,
    {
        proof {
            let states = superseded_states@;
            assert(states.take(i + 1).drop_last() =~= states.take(i as int));
            assert(states.take(i + 1).last() == states[i as int]);
        }
        transaction_updates.apply_superseded_account_state(superseded_states[i]);
        i += 1;
    }
    assert(superseded_states@.take(superseded_states@.len() as int) =~= superseded_states@);
}

/// Whether a transaction was discarded, for a cause that is its own where it says so, or for the
/// state that it builds on.
pub open spec fn fell_for(tx: TxView, cause: DiscardCause, is_own: bool) -> bool {
    ||| tx.status == TransactionStatus::Discarded(cause) && is_own
    ||| tx.status == TransactionStatus::Discarded(DiscardCause::DiscardedInitialState)
}

/// Once some states lost against the network's, no pending transaction ends in any of them. What was
/// no longer pending is as it was, what falls ends in one of the states or builds on what falls, and
/// of a transaction nothing but its status changes.
pub proof fn law_superseded_states_have_no_pending_origin(txs: Seq<TxView>, states: Seq<Word>)
    ensures
        after_superseded(txs, states).len() == txs.len(),
        forall|i: int, j: int|
            0 <= i < txs.len() && 0 <= j < states.len() && (#[trigger] after_superseded(
                txs,
                states,
            )[i]).pending() ==> txs[i].final_account_state != #[trigger] states[j],
        forall|i: int|
            0 <= i < txs.len() ==> #[trigger] after_superseded(txs, states)[i]
                == txs[i].with_status(after_superseded(txs, states)[i].status),
        forall|i: int|
            0 <= i < txs.len() && !txs[i].pending() ==> #[trigger] after_superseded(txs, states)[i]
                == txs[i],
        forall|i: int|
            0 <= i < txs.len() && txs[i].pending() && !(#[trigger] after_superseded(
                txs,
                states,
            )[i]).pending() ==> fell_for(
                after_superseded(txs, states)[i],
                DiscardCause::Superseded,
                states.contains(txs[i].final_account_state),
            ),
    decreases states.len(),
{
    if states.len() > 0 {
        let before = states.drop_last();
        law_superseded_states_have_no_pending_origin(txs, before);
        let middle = after_superseded(txs, before);
        let after = after_superseded(txs, states);
        assert forall|i: int, j: int|
            0 <= i < txs.len() && 0 <= j < states.len() && (
            #[trigger] after[i]).pending() implies txs[i].final_account_state
            != #[trigger] states[j] by {
            assert(middle[i].pending());
            assert(middle[i] == txs[i].with_status(middle[i].status));
            if j < before.len() {
                assert(before[j] == states[j]);
            } else {
                assert(states[j] == states.last());
            }
        }
        assert forall|i: int| 0 <= i < txs.len() implies #[trigger] after[i] == txs[i].with_status(
            after[i].status,
        ) by {
            assert(middle[i] == txs[i].with_status(middle[i].status));
        }
        assert forall|i: int|
            0 <= i < txs.len() && txs[i].pending() && !(
            #[trigger] after[i]).pending() implies fell_for(
            after[i],
            DiscardCause::Superseded,
            states.contains(txs[i].final_account_state),
        ) by {
            if !middle[i].pending() {
                assert(after[i] == middle[i]);
                if before.contains(txs[i].final_account_state) {
                    let j = choose|j: int|
                        0 <= j < before.len() && before[j] == txs[i].final_account_state;
                    assert(states[j] == before[j]);
                }
            } else {
                assert(middle[i] == txs[i].with_status(middle[i].status));
                assert(states[states.len() - 1] == states.last());
            }
        }
    } else {
        assert forall|i: int| 0 <= i < txs.len() implies txs[i] == #[trigger] txs[i].with_status(
            txs[i].status,
        ) by {}
    }
}

/// Where no pending transaction ends in a state that lost, nothing changes.
pub proof fn law_unrelated_states_change_nothing(txs: Seq<TxView>, states: Seq<Word>)
    requires
        forall|i: int, j: int|
            0 <= i < txs.len() && 0 <= j < states.len() && (#[trigger] txs[i]).pending()
                ==> txs[i].final_account_state != #[trigger] states[j],
    ensures
        after_superseded(txs, states) == txs,
    decreases states.len(),
{
    if states.len() > 0 {
        let before = states.drop_last();
        assert forall|i: int, j: int|
            0 <= i < txs.len() && 0 <= j < before.len() && (
            #[trigger] txs[i]).pending() implies txs[i].final_account_state
            != #[trigger] before[j] by {
            assert(before[j] == states[j]);
        }
        law_unrelated_states_change_nothing(txs, before);
        assert(states[states.len() - 1] == states.last());
        law_discard_needs_a_cause(
            txs,
            DiscardRule::EndsIn(states.last()),
            DiscardCause::Superseded,
        );
    }
}

/// The transaction that an included one is taken for depends on nothing that an inclusion changes.
proof fn lemma_target_stays(start: Seq<TxView>, now: Seq<TxView>, record: RpcTransactionRecord)
    requires
        start.len() == now.len(),
        forall|i: int|
            0 <= i < start.len() ==> #[trigger] now[i] == start[i].with_status(now[i].status),
    ensures
        inclusion_target(now, record) == inclusion_target(start, record),
{
    law_inclusion_finds_its_transaction(start, record);
    law_inclusion_finds_its_transaction(now, record);
    assert forall|i: int| 0 <= i < start.len() implies (#[trigger] start[i]).id == now[i].id
        && start[i].account_id == now[i].account_id && start[i].init_account_state
        == now[i].init_account_state by {
        assert(now[i] == start[i].with_status(now[i].status));
    }
    assert forall|i: int| 0 <= i < start.len() implies (#[trigger] now[i]).id == start[i].id
        && start[i].account_id == now[i].account_id && start[i].init_account_state
        == now[i].init_account_state by {}
}

/// After transactions were included, none that one of them is taken for is pending: a pending one
/// is committed in the block of an included one that is taken for it, at the given time. All others
/// are as they were. Each input note of an included transaction that is taken for none has a known
/// consumer: the account of an included transaction that is taken for none and has the note among
/// its inputs.
pub proof fn law_included_transactions_are_committed(
    txs: Seq<TxView>,
    consumers: Map<Nullifier, AccountId>,
    records: Seq<RpcTransactionRecord>,
    timestamp: u64,
)
    ensures
        ({
            let (after, known) = after_inclusions(txs, consumers, records, timestamp);
            let is_record = |i: int, k: int|
                0 <= k < records.len() && inclusion_target(txs, records[k]) == Some(i);
            let is_foreign = |k: int, nullifier: Nullifier|
                0 <= k < records.len() && inclusion_target(txs, records[k]) is None
                    && records[k].input_notes@.contains(nullifier);
            &&& after.len() == txs.len()
            &&& forall|i: int|
                0 <= i < txs.len() ==> #[trigger] after[i] == txs[i].with_status(after[i].status)
            &&& forall|i: int|
                0 <= i < txs.len() && !txs[i].pending() ==> #[trigger] after[i] == txs[i]
            &&& forall|i: int, k: int|
                0 <= i < txs.len() && #[trigger] is_record(i, k) ==> !after[i].pending()
            &&& forall|i: int|
                0 <= i < txs.len() && txs[i].pending() && !(#[trigger] after[i]).pending()
                    ==> exists|k: int| #[trigger]
                    is_record(i, k) && after[i].status == (TransactionStatus::Committed {
                        block_number: records[k].block_num,
                        commit_timestamp: timestamp,
                    })
            &&& forall|k: int, nullifier: Nullifier| #[trigger]
                is_foreign(k, nullifier) ==> known.contains_key(nullifier)
            &&& forall|nullifier: Nullifier| #[trigger]
                known.contains_key(nullifier) ==> (consumers.contains_key(nullifier)
                    && known[nullifier] == consumers[nullifier]) || exists|k: int| #[trigger]
                    is_foreign(k, nullifier) && known[nullifier] == records[k].account_id
            &&& forall|nullifier: Nullifier| #[trigger]
                consumers.contains_key(nullifier) ==> known.contains_key(nullifier)
        }),
    decreases records.len(),
{
    let (after, known) = after_inclusions(txs, consumers, records, timestamp);
    let is_record = |i: int, k: int|
        0 <= k < records.len() && inclusion_target(txs, records[k]) == Some(i);
    let is_foreign = |k: int, nullifier: Nullifier|
        0 <= k < records.len() && inclusion_target(txs, records[k]) is None
            && records[k].input_notes@.contains(nullifier);
    if records.len() == 0 {
        assert forall|i: int| 0 <= i < txs.len() implies #[trigger] after[i] == txs[i].with_status(
            after[i].status,
        ) by {}
    } else {
        let before = records.drop_last();
        let record = records.last();
        let n = records.len() - 1;
        law_included_transactions_are_committed(txs, consumers, before, timestamp);
        let (middle, held) = after_inclusions(txs, consumers, before, timestamp);
        lemma_target_stays(txs, middle, record);
        law_inclusion_finds_its_transaction(txs, record);
        assert(records[n] == record);
        assert forall|k: int| 0 <= k < n implies #[trigger] before[k] == records[k] by {}
        let was_record = |i: int, k: int|
            0 <= k < before.len() && inclusion_target(txs, before[k]) == Some(i);
        let was_foreign = |k: int, nullifier: Nullifier|
            0 <= k < before.len() && inclusion_target(txs, before[k]) is None
                && before[k].input_notes@.contains(nullifier);
        assert forall|i: int| 0 <= i < txs.len() implies #[trigger] after[i] == txs[i].with_status(
            after[i].status,
        ) by {
            assert(middle[i] == txs[i].with_status(middle[i].status));
        }
        assert forall|i: int| 0 <= i < txs.len() && !txs[i].pending() implies #[trigger] after[i]
            == txs[i] by {
            assert(middle[i] == txs[i]);
        }
        assert forall|i: int, k: int|
            0 <= i < txs.len() && #[trigger] is_record(i, k) implies !after[i].pending() by {
            if k < n {
                assert(was_record(i, k));
                assert(!middle[i].pending());
            }
        }
        assert forall|i: int|
            0 <= i < txs.len() && txs[i].pending() && !(
            #[trigger] after[i]).pending() implies exists|k: int| #[trigger]
            is_record(i, k) && after[i].status == (TransactionStatus::Committed {
                block_number: records[k].block_num,
                commit_timestamp: timestamp,
            }) by {
            if !middle[i].pending() {
                let k = choose|k: int| #[trigger]
                    was_record(i, k) && middle[i].status == (TransactionStatus::Committed {
                        block_number: before[k].block_num,
                        commit_timestamp: timestamp,
                    });
                assert(is_record(i, k));
            } else {
                assert(is_record(i, n));
            }
        }
        assert forall|nullifier: Nullifier| true implies {
            &&& #[trigger] known.contains_key(nullifier) ==> (held.contains_key(nullifier)
                && known[nullifier] == held[nullifier]) || (is_foreign(n, nullifier)
                && known[nullifier] == record.account_id)
            &&& held.contains_key(nullifier) ==> known.contains_key(nullifier)
            &&& is_foreign(n, nullifier) ==> known.contains_key(nullifier)
        } by {
            if inclusion_target(txs, record) is None {
                law_consumers_are_remembered(
                    held,
                    record.input_notes@,
                    record.account_id,
                    nullifier,
                );
            }
        }
        assert forall|k: int, nullifier: Nullifier| #[trigger]
            is_foreign(k, nullifier) implies known.contains_key(nullifier) by {
            if k < n {
                assert(was_foreign(k, nullifier));
                assert(held.contains_key(nullifier));
            }
        }
        assert forall|nullifier: Nullifier| #[trigger] known.contains_key(nullifier) implies (
        consumers.contains_key(nullifier) && known[nullifier] == consumers[nullifier]) || exists|
            k: int,
        | #[trigger]
            is_foreign(k, nullifier) && known[nullifier] == records[k].account_id by {
            if is_foreign(n, nullifier) && known[nullifier] == record.account_id {
            } else {
                assert(held.contains_key(nullifier) && known[nullifier] == held[nullifier]);
                if !(consumers.contains_key(nullifier) && held[nullifier] == consumers[nullifier]) {
                    let k = choose|k: int| #[trigger]
                        was_foreign(k, nullifier) && held[nullifier] == before[k].account_id;
                    assert(is_foreign(k, nullifier));
                }
            }
        }
    }
}

// NULLIFIERS
// ================================================================================================

/// The prefix by which a node is asked for a nullifier: its 16 most significant bits.
pub open spec fn nullifier_prefix(nullifier: Nullifier) -> u16 {
    (nullifier.word.d / 0x1_0000_0000_0000) as u16
}

/// Lists the prefixes by which a node is asked for some nullifiers.
pub fn nullifier_tags(nullifiers: &Vec<Nullifier>) -> (tags: Vec<u16>)
    ensures
        tags@ == nullifiers@.map_values(|nullifier: Nullifier| nullifier_prefix(nullifier)),
{
    let mut tags: Vec<u16> = Vec::new();
    let mut i: usize = 0;
    while i < nullifiers.len()
        invariant
            i <= nullifiers.len(),
            tags@.len() == i,
            forall|j: int| 0 <= j < i ==> #[trigger] tags@[j] == nullifier_prefix(nullifiers@[j]),
        decreases nullifiers.len() - i,
    {
        tags.push((nullifiers[i].word.d / 0x1_0000_0000_0000) as u16);
        i += 1;
    }
    assert(tags@ =~= nullifiers@.map_values(
        |nullifier: Nullifier| nullifier_prefix(nullifier),
    ));
    tags
}

/// A nullifier that a node has seen, with the block that it came in.
#[derive(Clone, Copy, Debug, PartialEq, Eq, Structural)]
pub struct NullifierUpdate {
    pub nullifier: Nullifier,
    pub block_num: BlockNumber,
}

/// The consumption of a note: in which block, and by which tracked account where that is known
/// from a transaction that this client did not submit.
#[derive(Clone, Copy, Debug, PartialEq, Eq, Structural)]
pub struct NoteConsumption {
    pub nullifier: Nullifier,
    pub block_num: BlockNumber,
    pub external_consumer: Option<AccountId>,
}

/// The consumptions up to a block, in order.
pub open spec fn consumptions_until(
    updates: Seq<NullifierUpdate>,
    block_num: BlockNumber,
    consumers: Map<Nullifier, AccountId>,
) -> Seq<NoteConsumption>
    decreases updates.len(),
{
    if updates.len() == 0 {
        Seq::empty()
    } else {
        let before = consumptions_until(updates.drop_last(), block_num, consumers);
        let update = updates.last();
        if update.block_num <= block_num {
            before.push(
                NoteConsumption {
                    nullifier: update.nullifier,
                    block_num: update.block_num,
                    external_consumer: if consumers.contains_key(update.nullifier) {
                        Some(consumers[update.nullifier])
                    } else {
                        None
                    },
                },
            )
        } else {
            before
        }
    }
}

/// Lists the consumptions that nullifiers tell of. Nullifiers of blocks behind the synced one, which
/// may have come in meanwhile, are left for the next sync.
pub fn list_consumptions(
    new_nullifiers: &Vec<NullifierUpdate>,
    block_num: BlockNumber,
    transaction_updates: &TransactionUpdateTracker,
) -> (consumptions: Vec<NoteConsumption>)
    requires
        transaction_updates.wf(),
    ensures
        consumptions@ == consumptions_until(
            new_nullifiers@,
            block_num,
            transaction_updates.external_nullifier_accounts@,
        ),
{
    let mut consumptions: Vec<NoteConsumption> = Vec::new();
    let mut i: usize = 0;
    while i < new_nullifiers.len()
        invariant
            i <= new_nullifiers.len(),
            transaction_updates.wf(),
            consumptions@ == consumptions_until(
                new_nullifiers@.take(i as int),
                block_num,
                transaction_updates.external_nullifier_accounts@,
            ),
        decreases new_nullifiers.len() - i,
    {
        let update = new_nullifiers[i];
        proof {
            assert(new_nullifiers@.take(i + 1).drop_last() =~= new_nullifiers@.take(i as int));
            assert(new_nullifiers@.take(i + 1).last() == update);
        }
        if update.block_num <= block_num {
            let external_consumer = transaction_updates.external_nullifier_account(
                &update.nullifier,
            );
            consumptions.push(
                NoteConsumption {
                    nullifier: update.nullifier,
                    block_num: update.block_num,
                    external_consumer,
                },
            );
        }
        i += 1;
    }
    assert(new_nullifiers@.take(new_nullifiers@.len() as int) =~= new_nullifiers@);
    consumptions
}

/// The transactions after some notes were consumed, one after the other.
pub open spec fn after_consumptions(txs: Seq<TxView>, consumptions: Seq<NoteConsumption>) -> Seq<
    TxView,
>
    decreases consumptions.len(),
{
    if consumptions.len() == 0 {
        txs
    } else {
        after_discard(
            after_consumptions(txs, consumptions.drop_last()),
            DiscardRule::Consumes(consumptions.last().nullifier.word),
            DiscardCause::InputConsumed,
        )
    }
}

/// Whether no pending transaction has a consumed note among its inputs.
pub open spec fn has_no_pending_consumer(
    txs: Seq<TxView>,
    consumptions: Seq<NoteConsumption>,
) -> bool {
    forall|i: int, j: int|
        0 <= i < txs.len() && 0 <= j < consumptions.len() && (#[trigger] txs[i]).pending()
            ==> !txs[i].input_note_nullifiers.contains(
            (#[trigger] consumptions[j]).nullifier.word,
        )
}

/// Lists the consumptions that nullifiers tell of, and discards the pending transactions that
/// wanted to consume the same notes.
pub fn nullifiers_state_sync(
    new_nullifiers: &Vec<NullifierUpdate>,
    block_num: BlockNumber,
    transaction_updates: &mut TransactionUpdateTracker,
) -> (consumptions: Vec<NoteConsumption>)
    requires
        old(transaction_updates).wf(),
    ensures
        final(transaction_updates).wf(),
        consumptions@ == consumptions_until(
            new_nullifiers@,
            block_num,
            old(transaction_updates).external_nullifier_accounts@,
        ),
        final(transaction_updates).txs() == after_consumptions(
            old(transaction_updates).txs(),
            consumptions@,
        ),
        final(transaction_updates).external_nullifier_accounts == old(
            transaction_updates,
        ).external_nullifier_accounts,
        has_no_pending_consumer(final(transaction_updates).txs(), consumptions@),
{
    let consumptions = list_consumptions(new_nullifiers, block_num, transaction_updates);
    let ghost start = transaction_updates.txs();
    let ghost consumers = transaction_updates.external_nullifier_accounts;
    let mut i: usize = 0;
    while i < consumptions.len()
        invariant
            i <= consumptions.len(),
            transaction_updates.wf(),
            transaction_updates.txs() == after_consumptions(start, consumptions@.take(i as int)),
            transaction_updates.external_nullifier_accounts == consumers,
        decreases consumptions.len() - i,
    {
        proof {
            assert(consumptions@.take(i + 1).drop_last() =~= consumptions@.take(i as int));
            assert(consumptions@.take(i + 1).last() == consumptions@[i as int]);
        }
        transaction_updates.apply_input_note_nullified(consumptions[i].nullifier);
        i += 1;
    }
    assert(consumptions@.take(consumptions@.len() as int) =~= consumptions@);
    proof {
        law_consumed_notes_have_no_pending_consumer(start, consumptions@);
        let after = transaction_updates.txs();
        assert forall|i: int, j: int|
            0 <= i < after.len() && 0 <= j < consumptions@.len() && (
            #[trigger] after[i]).pending() implies !after[i].input_note_nullifiers.contains(
            (#[trigger] consumptions@[j]).nullifier.word,
        ) by {
            assert(after[i] == start[i].with_status(after[i].status));
        }
    }
    consumptions
}

/// Consumptions change nothing of the transactions that are not pending: those that were committed
/// before are those that are committed after.
pub proof fn law_consumptions_keep_committed(
    txs: Seq<TxView>,
    consumptions: Seq<NoteConsumption>,
    i: int,
)
    requires
        0 <= i < txs.len(),
    ensures
        after_consumptions(txs, consumptions).len() == txs.len(),
        !txs[i].pending() ==> after_consumptions(txs, consumptions)[i] == txs[i],
        after_consumptions(txs, consumptions)[i].status is Committed ==> txs[i].status is Committed,
    decreases consumptions.len(),
{
    if consumptions.len() > 0 {
        law_consumptions_keep_committed(txs, consumptions.drop_last(), i);
    }
}

/// Whether a transaction has a consumed note among its inputs.
pub open spec fn consumes_any(tx: TxView, consumptions: Seq<NoteConsumption>) -> bool {
    exists|j: int|
        0 <= j < consumptions.len() && tx.input_note_nullifiers.contains(
            (#[trigger] consumptions[j]).nullifier.word,
        )
}

/// Once notes were consumed, no pending transaction has any of them among its inputs. What falls has
/// one of them among its inputs or builds on what falls, and of a transaction nothing but its status
/// changes.
pub proof fn law_consumed_notes_have_no_pending_consumer(
    txs: Seq<TxView>,
    consumptions: Seq<NoteConsumption>,
)
    ensures
        after_consumptions(txs, consumptions).len() == txs.len(),
        forall|i: int, j: int|
            0 <= i < txs.len() && 0 <= j < consumptions.len() && (#[trigger] after_consumptions(
                txs,
                consumptions,
            )[i]).pending() ==> !txs[i].input_note_nullifiers.contains(
                (#[trigger] consumptions[j]).nullifier.word,
            ),
        forall|i: int|
            0 <= i < txs.len() ==> #[trigger] after_consumptions(txs, consumptions)[i]
                == txs[i].with_status(after_consumptions(txs, consumptions)[i].status),
        forall|i: int|
            0 <= i < txs.len() && txs[i].pending() && !(#[trigger] after_consumptions(
                txs,
                consumptions,
            )[i]).pending() ==> fell_for(
                after_consumptions(txs, consumptions)[i],
                DiscardCause::InputConsumed,
                consumes_any(txs[i], consumptions),
            ),
    decreases consumptions.len(),
{
    if consumptions.len() > 0 {
        let before = consumptions.drop_last();
        law_consumed_notes_have_no_pending_consumer(txs, before);
        let middle = after_consumptions(txs, before);
        let after = after_consumptions(txs, consumptions);
        assert forall|i: int, j: int|
            0 <= i < txs.len() && 0 <= j < consumptions.len() && (
            #[trigger] after[i]).pending() implies !txs[i].input_note_nullifiers.contains(
            (#[trigger] consumptions[j]).nullifier.word,
        ) by {
            assert(middle[i].pending());
            assert(middle[i] == txs[i].with_status(middle[i].status));
            if j < before.len() {
                assert(before[j] == consumptions[j]);
            } else {
                assert(consumptions[j] == consumptions.last());
            }
        }
        assert forall|i: int| 0 <= i < txs.len() implies #[trigger] after[i] == txs[i].with_status(
            after[i].status,
        ) by {
            assert(middle[i] == txs[i].with_status(middle[i].status));
        }
        assert forall|i: int|
            0 <= i < txs.len() && txs[i].pending() && !(
            #[trigger] after[i]).pending() implies fell_for(
            after[i],
            DiscardCause::InputConsumed,
            consumes_any(txs[i], consumptions),
        ) by {
            if !middle[i].pending() {
                assert(after[i] == middle[i]);
                if consumes_any(txs[i], before) {
                    let j = choose|j: int|
                        0 <= j < before.len() && txs[i].input_note_nullifiers.contains(
                            (#[trigger] before[j]).nullifier.word,
                        );
                    assert(consumptions[j] == before[j]);
                }
            } else {
                assert(middle[i] == txs[i].with_status(middle[i].status));
                assert(consumptions[consumptions.len() - 1] == consumptions.last());
            }
        }
    } else {
        assert forall|i: int| 0 <= i < txs.len() implies txs[i] == #[trigger] txs[i].with_status(
            txs[i].status,
        ) by {}
    }
}

/// Where no pending transaction has a consumed note among its inputs, consumptions change nothing.
pub proof fn law_unrelated_consumptions_change_nothing(
    txs: Seq<TxView>,
    consumptions: Seq<NoteConsumption>,
)
    requires
        forall|i: int, j: int|
            0 <= i < txs.len() && 0 <= j < consumptions.len() && (#[trigger] txs[i]).pending()
                ==> !txs[i].input_note_nullifiers.contains(
                (#[trigger] consumptions[j]).nullifier.word,
            ),
    ensures
        after_consumptions(txs, consumptions) == txs,
    decreases consumptions.len(),
{
    if consumptions.len() > 0 {
        let before = consumptions.drop_last();
        assert forall|i: int, j: int|
            0 <= i < txs.len() && 0 <= j < before.len() && (
            #[trigger] txs[i]).pending() implies !txs[i].input_note_nullifiers.contains(
            (#[trigger] before[j]).nullifier.word,
        ) by {
            assert(before[j] == consumptions[j]);
        }
        law_unrelated_consumptions_change_nothing(txs, before);
        assert(consumptions[consumptions.len() - 1] == consumptions.last());
        law_discard_needs_a_cause(
            txs,
            DiscardRule::Consumes(consumptions.last().nullifier.word),
            DiscardCause::InputConsumed,
        );
    }
}

/// Every nullifier up to the synced block is taken over with its block.
pub proof fn law_synced_nullifiers_become_consumptions(
    updates: Seq<NullifierUpdate>,
    block_num: BlockNumber,
    consumers: Map<Nullifier, AccountId>,
    i: int,
)
    requires
        0 <= i < updates.len(),
        updates[i].block_num <= block_num,
    ensures
        exists|j: int|
            0 <= j < consumptions_until(updates, block_num, consumers).len() && (
            #[trigger] consumptions_until(updates, block_num, consumers)[j]).nullifier
                == updates[i].nullifier && consumptions_until(
                updates,
                block_num,
                consumers,
            )[j].block_num == updates[i].block_num,
    decreases updates.len(),
{
    let before = updates.drop_last();
    let shorter = consumptions_until(before, block_num, consumers);
    let consumptions = consumptions_until(updates, block_num, consumers);
    if i < before.len() {
        law_synced_nullifiers_become_consumptions(before, block_num, consumers, i);
        let j = choose|j: int|
            0 <= j < shorter.len() && (#[trigger] shorter[j]).nullifier == before[i].nullifier
                && shorter[j].block_num == before[i].block_num;
        assert(consumptions[j] == shorter[j]);
    } else {
        assert(consumptions[consumptions.len() - 1].nullifier == updates[i].nullifier);
    }
}

/// A consumption that is taken over is that of a nullifier up to the synced block, in the
/// nullifier's block, with the note's known consumer or, where none is known, with none.
pub proof fn law_consumptions_are_of_synced_nullifiers(
    updates: Seq<NullifierUpdate>,
    block_num: BlockNumber,
    consumers: Map<Nullifier, AccountId>,
    j: int,
)
    requires
        0 <= j < consumptions_until(updates, block_num, consumers).len(),
    ensures
        ({
            let consumption = consumptions_until(updates, block_num, consumers)[j];
            &&& exists|i: int|
                0 <= i < updates.len() && (#[trigger] updates[i]).nullifier == consumption.nullifier
                    && updates[i].block_num == consumption.block_num && updates[i].block_num
                    <= block_num
            &&& match consumption.external_consumer {
                Some(account) => consumers.contains_key(consumption.nullifier)
                    && consumers[consumption.nullifier] == account,
                None => !consumers.contains_key(consumption.nullifier),
            }
        }),
    decreases updates.len(),
{
    let before = updates.drop_last();
    let shorter = consumptions_until(before, block_num, consumers);
    let consumptions = consumptions_until(updates, block_num, consumers);
    if j < shorter.len() {
        law_consumptions_are_of_synced_nullifiers(before, block_num, consumers, j);
        assert(consumptions[j] == shorter[j]);
        let i = choose|i: int|
            0 <= i < before.len() && (#[trigger] before[i]).nullifier == shorter[j].nullifier
                && before[i].block_num == shorter[j].block_num && before[i].block_num <= block_num;
        assert(updates[i] == before[i]);
    } else {
        assert(updates[updates.len() - 1].nullifier == consumptions[j].nullifier);
    }
}

/// Nullifiers are gone through one after the other: what is taken over of some and of those behind
/// them is what is taken over of the former, then what is taken over of the latter, and of one
/// nullifier at most one consumption is.
pub proof fn law_nullifiers_are_gone_through_in_order(
    first: Seq<NullifierUpdate>,
    second: Seq<NullifierUpdate>,
    update: NullifierUpdate,
    block_num: BlockNumber,
    consumers: Map<Nullifier, AccountId>,
)
    ensures
        consumptions_until(first + second, block_num, consumers) == consumptions_until(
            first,
            block_num,
            consumers,
        ) + consumptions_until(second, block_num, consumers),
        consumptions_until(seq![update], block_num, consumers).len() <= 1,
    decreases second.len(),
{
    assert(seq![update].drop_last() =~= Seq::empty());
    assert(consumptions_until(seq![update].drop_last(), block_num, consumers).len() == 0);
    if second.len() == 0 {
        assert(first + second =~= first);
        assert(consumptions_until(second, block_num, consumers) =~= Seq::empty());
    } else {
        law_nullifiers_are_gone_through_in_order(
            first,
            second.drop_last(),
            update,
            block_num,
            consumers,
        );
        assert((first + second).drop_last() =~= first + second.drop_last());
        assert((first + second).last() == second.last());
    }
    assert(consumptions_until(first + second, block_num, consumers) =~= consumptions_until(
        first,
        block_num,
        consumers,
    ) + consumptions_until(second, block_num, consumers));
}

/// The prefix of a nullifier is what its most significant element starts with: those with the
/// prefix are a range of 2^48 values, the element among them.
pub proof fn law_prefix_starts_the_nullifier(nullifier: Nullifier)
    ensures
        nullifier_prefix(nullifier) * 0x1_0000_0000_0000 <= nullifier.word.d,
        nullifier.word.d < (nullifier_prefix(nullifier) + 1) * 0x1_0000_0000_0000,
{
}

/// No consumption is taken over from a block behind the synced one.
pub proof fn law_consumptions_are_synced(
    updates: Seq<NullifierUpdate>,
    block_num: BlockNumber,
    consumers: Map<Nullifier, AccountId>,
)
    ensures
        forall|i: int|
            0 <= i < consumptions_until(updates, block_num, consumers).len() ==> (
            #[trigger] consumptions_until(updates, block_num, consumers)[i]).block_num <= block_num,
    decreases updates.len(),
{
    if updates.len() > 0 {
        law_consumptions_are_synced(updates.drop_last(), block_num, consumers);
    }
}

// SUMMARY
// ================================================================================================

/// What a sync amounts to, for the user.
#[derive(Debug)]
pub struct SyncSummary {
    /// The last block that was synced.
    pub block_num: BlockNumber,
    /// Public notes that were found.
    pub new_public_notes: Vec<NoteId>,
    /// Private notes that came over another channel; a sync with a node finds none.
    pub new_private_notes: Vec<NoteId>,
    /// Tracked notes that were committed, in order.
    pub committed_notes: Vec<NoteId>,
    /// Tracked notes that were consumed, in order.
    pub consumed_notes: Vec<NoteId>,
    /// Public accounts with a new state.
    pub updated_accounts: Vec<AccountId>,
    /// Private accounts whose commitment on chain is not the local one.
    pub locked_accounts: Vec<AccountId>,
    /// Transactions that were committed.
    pub committed_transactions: Vec<TransactionId>,
}

/// The identifiers of new input notes, in order.
pub open spec fn inserted_notes(updates: Seq<InputNoteUpdate>) -> Seq<NoteId>
    decreases updates.len(),
{
    if updates.len() == 0 {
        Seq::empty()
    } else {
        let before = inserted_notes(updates.drop_last());
        match (updates.last().update_type, updates.last().id) {
            (NoteUpdateType::Insert, Some(id)) => before.push(id),
            _ => before,
        }
    }
}

/// The new public notes are the identified notes among the changes that are new, and no others.
pub proof fn law_inserted_notes_are_the_new_ones(updates: Seq<InputNoteUpdate>, id: NoteId)
    ensures
        inserted_notes(updates).contains(id) <==> exists|i: int|
            0 <= i < updates.len() && (#[trigger] updates[i]).update_type == NoteUpdateType::Insert
                && updates[i].id == Some(id),
        inserted_notes(updates).len() <= updates.len(),
    decreases updates.len(),
{
    if updates.len() > 0 {
        let before = updates.drop_last();
        law_inserted_notes_are_the_new_ones(before, id);
        let shorter = inserted_notes(before);
        let ids = inserted_notes(updates);
        assert(updates[updates.len() - 1] == updates.last());
        if shorter.contains(id) {
            let k = choose|k: int| 0 <= k < shorter.len() && shorter[k] == id;
            assert(ids[k] == id);
            let i = choose|i: int|
                0 <= i < before.len() && (#[trigger] before[i]).update_type
                    == NoteUpdateType::Insert && before[i].id == Some(id);
            assert(updates[i] == before[i]);
        }
        if ids.contains(id) && !shorter.contains(id) {
            let k = choose|k: int| 0 <= k < ids.len() && ids[k] == id;
            if k < shorter.len() {
                assert(shorter[k] == id);
            }
            assert(updates[updates.len() - 1].id == Some(id));
        }
        if exists|i: int|
            0 <= i < updates.len() && (#[trigger] updates[i]).update_type == NoteUpdateType::Insert
                && updates[i].id == Some(id) {
            let i = choose|i: int|
                0 <= i < updates.len() && (#[trigger] updates[i]).update_type
                    == NoteUpdateType::Insert && updates[i].id == Some(id);
            if i < before.len() {
                assert(before[i] == updates[i]);
            } else {
                assert(ids[ids.len() - 1] == id);
            }
        }
    }
}

/// The new public notes stand in the order of the changes, each change giving at most one.
pub proof fn law_inserted_notes_keep_their_order(
    first: Seq<InputNoteUpdate>,
    second: Seq<InputNoteUpdate>,
    update: InputNoteUpdate,
)
    ensures
        inserted_notes(first + second) == inserted_notes(first) + inserted_notes(second),
        inserted_notes(seq![update]).len() <= 1,
    decreases second.len(),
{
    assert(seq![update].drop_last() =~= Seq::empty());
    assert(inserted_notes(seq![update].drop_last()).len() == 0);
    if second.len() == 0 {
        assert(first + second =~= first);
        assert(inserted_notes(second) =~= Seq::empty());
    } else {
        law_inserted_notes_keep_their_order(first, second.drop_last(), update);
        assert((first + second).drop_last() =~= first + second.drop_last());
        assert((first + second).last() == second.last());
    }
    assert(inserted_notes(first + second) =~= inserted_notes(first) + inserted_notes(second));
}

/// Whether a change to an input note tells that a tracked note was committed. One that was expected
/// counts, though it is stored as a new row.
pub open spec fn commits_input(update: InputNoteUpdate) -> bool {
    (update.update_type is Update || update.update_type is InsertCommitted) && update.is_committed
}

/// Whether a change to an output note tells that it was committed.
pub open spec fn commits_output(update: OutputNoteUpdate) -> bool {
    update.update_type is Update && update.is_committed
}

/// The notes that were committed.
pub open spec fn committed_ids(
    inputs: Seq<InputNoteUpdate>,
    outputs: Seq<OutputNoteUpdate>,
) -> Set<NoteId> {
    Set::new(
        |id: NoteId|
            (exists|i: int|
                0 <= i < inputs.len() && commits_input(#[trigger] inputs[i]) && inputs[i].id == Some(
                    id,
                )) || (exists|i: int|
                0 <= i < outputs.len() && commits_output(#[trigger] outputs[i]) && outputs[i].id
                    == id),
    )
}

/// A note counts as committed exactly where a change tells so: one that is committed and updates an
/// input note or inserts an expected one, or one that is committed and updates an output note.
pub proof fn law_committed_notes_are_told_by_changes(
    inputs: Seq<InputNoteUpdate>,
    outputs: Seq<OutputNoteUpdate>,
    id: NoteId,
)
    ensures
        committed_ids(inputs, outputs).contains(id) <==> (exists|i: int|
            0 <= i < inputs.len() && (#[trigger] inputs[i]).id == Some(id) && inputs[i].is_committed
                && (inputs[i].update_type == NoteUpdateType::Update || inputs[i].update_type
                == NoteUpdateType::InsertCommitted)) || (exists|i: int|
            0 <= i < outputs.len() && (#[trigger] outputs[i]).id == id && outputs[i].is_committed
                && outputs[i].update_type == NoteUpdateType::Update),
{
    if exists|i: int|
        0 <= i < inputs.len() && (#[trigger] inputs[i]).id == Some(id) && inputs[i].is_committed
            && (inputs[i].update_type == NoteUpdateType::Update || inputs[i].update_type
            == NoteUpdateType::InsertCommitted) {
        let i = choose|i: int|
            0 <= i < inputs.len() && (#[trigger] inputs[i]).id == Some(id) && inputs[i].is_committed
                && (inputs[i].update_type == NoteUpdateType::Update || inputs[i].update_type
                == NoteUpdateType::InsertCommitted);
        assert(commits_input(inputs[i]));
    }
    if exists|i: int|
        0 <= i < outputs.len() && (#[trigger] outputs[i]).id == id && outputs[i].is_committed
            && outputs[i].update_type == NoteUpdateType::Update {
        let i = choose|i: int|
            0 <= i < outputs.len() && (#[trigger] outputs[i]).id == id && outputs[i].is_committed
                && outputs[i].update_type == NoteUpdateType::Update;
        assert(commits_output(outputs[i]));
    }
    if exists|i: int|
        0 <= i < inputs.len() && commits_input(#[trigger] inputs[i]) && inputs[i].id == Some(id) {
        let i = choose|i: int|
            0 <= i < inputs.len() && commits_input(#[trigger] inputs[i]) && inputs[i].id == Some(
                id,
            );
        assert(inputs[i].id == Some(id));
    }
    if exists|i: int|
        0 <= i < outputs.len() && commits_output(#[trigger] outputs[i]) && outputs[i].id == id {
        let i = choose|i: int|
            0 <= i < outputs.len() && commits_output(#[trigger] outputs[i]) && outputs[i].id == id;
        assert(outputs[i].id == id);
    }
}

/// The members of a set of notes, in order.
pub open spec fn ordered_ids(ids: Set<NoteId>) -> Seq<NoteId> {
    ordered_entries(Map::new(|id: NoteId| ids.contains(id), |id: NoteId| ())).map_values(
        |entry: (NoteId, ())| entry.0,
    )
}

/// Whether some identifiers stand in strictly increasing order.
pub open spec fn increasing(ids: Seq<NoteId>) -> bool {
    forall|i: int, j: int|
        0 <= i < j < ids.len() ==> (#[trigger] ids[i]).word.precedes((#[trigger] ids[j]).word)
}

fn list_keys(ids: &SortedMap<NoteId, ()>) -> (keys: Vec<NoteId>)
    requires
        ids.wf(),
    ensures
        keys@ == ordered_ids(ids@.dom()),
        increasing(keys@),
        keys@.to_set() == ids@.dom(),
{
    let mut keys: Vec<NoteId> = Vec::new();
    let mut i: usize = 0;
    while i < ids.entries.len()
        invariant
            i <= ids.entries.len(),
            keys@.len() == i,
            forall|j: int| 0 <= j < i ==> #[trigger] keys@[j] == ids.entries@[j].0,
        decreases ids.entries.len() - i,
    {
        keys.push(ids.entries[i].0);
        i += 1;
    }
    proof {
        lemma_ordered_entries(ids.entries@);
        assert(Map::new(|id: NoteId| ids@.dom().contains(id), |id: NoteId| ()) =~= ids@);
        assert(keys@ =~= ids.entries@.map_values(|entry: (NoteId, ())| entry.0));
        assert forall|i: int, j: int| 0 <= i < j < keys@.len() implies (
        #[trigger] keys@[i]).word.precedes((#[trigger] keys@[j]).word) by {
            assert(crate::sorted_map::Key::precedes(ids.entries@[i].0, ids.entries@[j].0));
        }
        assert forall|id: NoteId| #[trigger]
            keys@.to_set().contains(id) == ids@.contains_key(id) by {
            if keys@.contains(id) {
                let i = choose|i: int| 0 <= i < keys@.len() && keys@[i] == id;
                assert(ids.entries@[i].0 == id);
            }
            if has_key(ids.entries@, id) {
                let i = choose|i: int|
                    0 <= i < ids.entries@.len() && (#[trigger] ids.entries@[i]).0 == id;
                assert(keys@[i] == id);
            }
        }
        assert(keys@.to_set() =~= ids@.dom());
    }
    keys
}

fn collect_committed(notes: &NoteUpdates) -> (ids: SortedMap<NoteId, ()>)
    ensures
        ids.wf(),
        ids@.dom() == committed_ids(notes.updated_input_notes@, notes.updated_output_notes@),
{
    let ghost inputs = notes.updated_input_notes@;
    let ghost outputs = notes.updated_output_notes@;
    let mut ids: SortedMap<NoteId, ()> = SortedMap::new();
    let mut i: usize = 0;
    while i < notes.updated_input_notes.len()
        invariant
            i <= notes.updated_input_notes.len(),
            ids.wf(),
            inputs == notes.updated_input_notes@,
            forall|id: NoteId| #[trigger]
                ids@.contains_key(id) <==> exists|j: int|
                    0 <= j < i && commits_input(#[trigger] inputs[j]) && inputs[j].id == Some(id),
        decreases notes.updated_input_notes.len() - i,
    {
        let update = notes.updated_input_notes[i];
        let ghost before = ids@;
        let mut counts: bool = false;
        if update.is_committed {
            counts = match update.update_type {
                NoteUpdateType::Update => true,
                NoteUpdateType::InsertCommitted => true,
                _ => false,
            };
        }
        assert(counts == commits_input(update));
        let mut added: Option<NoteId> = None;
        if counts {
            if let Some(id) = update.id {
                ids.insert(id, ());
                added = Some(id);
            }
        }
        proof {
            assert forall|id: NoteId| #[trigger]
                ids@.contains_key(id) <==> exists|j: int|
                    0 <= j < i + 1 && commits_input(#[trigger] inputs[j]) && inputs[j].id == Some(
                        id,
                    ) by {
                if before.contains_key(id) {
                    let j = choose|j: int|
                        0 <= j < i && commits_input(#[trigger] inputs[j]) && inputs[j].id == Some(
                            id,
                        );
                    assert(commits_input(inputs[j]));
                }
                if added == Some(id) {
                    assert(commits_input(inputs[i as int]));
                }
                if exists|j: int|
                    0 <= j < i + 1 && commits_input(#[trigger] inputs[j]) && inputs[j].id == Some(
                        id,
                    ) {
                    let j = choose|j: int|
                        0 <= j < i + 1 && commits_input(#[trigger] inputs[j]) && inputs[j].id
                            == Some(id);
                    if j < i {
                        assert(before.contains_key(id));
                    }
                }
            }
        }
        i += 1;
    }
    let ghost from_inputs = ids@;
    let mut k: usize = 0;
    while k < notes.updated_output_notes.len()
        invariant
            k <= notes.updated_output_notes.len(),
            ids.wf(),
            outputs == notes.updated_output_notes@,
            forall|id: NoteId| #[trigger]
                ids@.contains_key(id) <==> (from_inputs.contains_key(id) || exists|j: int|
                    0 <= j < k && commits_output(#[trigger] outputs[j]) && outputs[j].id == id),
        decreases notes.updated_output_notes.len() - k,
    {
        let update = notes.updated_output_notes[k];
        let ghost before = ids@;
        let mut counts: bool = false;
        if update.is_committed {
            counts = match update.update_type {
                NoteUpdateType::Update => true,
                _ => false,
            };
        }
        assert(counts == commits_output(update));
        if counts {
            ids.insert(update.id, ());
        }
        proof {
            assert forall|id: NoteId| #[trigger]
                ids@.contains_key(id) <==> (from_inputs.contains_key(id) || exists|j: int|
                    0 <= j < k + 1 && commits_output(#[trigger] outputs[j]) && outputs[j].id
                        == id) by {
                if before.contains_key(id) && !from_inputs.contains_key(id) {
                    let j = choose|j: int|
                        0 <= j < k && commits_output(#[trigger] outputs[j]) && outputs[j].id == id;
                    assert(commits_output(outputs[j]));
                }
                if counts && id == update.id {
                    assert(commits_output(outputs[k as int]));
                }
                if exists|j: int|
                    0 <= j < k + 1 && commits_output(#[trigger] outputs[j]) && outputs[j].id
                        == id {
                    let j = choose|j: int|
                        0 <= j < k + 1 && commits_output(#[trigger] outputs[j]) && outputs[j].id
                            == id;
                    if j < k {
                        assert(before.contains_key(id));
                    }
                }
            }
        }
        k += 1;
    }
    assert(ids@.dom() =~= committed_ids(inputs, outputs));
    ids
}

fn collect_ids(listed: &Vec<NoteId>) -> (ids: SortedMap<NoteId, ()>)
    ensures
        ids.wf(),
        ids@.dom() == listed@.to_set(),
{
    let mut ids: SortedMap<NoteId, ()> = SortedMap::new();
    let mut i: usize = 0;
    while i < listed.len()
        invariant
            i <= listed.len(),
            ids.wf(),
            forall|id: NoteId| #[trigger]
                ids@.contains_key(id) <==> listed@.take(i as int).contains(id),
        decreases listed.len() - i,
    {
        let ghost before = ids@;
        ids.insert(listed[i], ());
        proof {
            assert(listed@.take(i + 1) =~= listed@.take(i as int).push(listed@[i as int]));
            assert forall|id: NoteId| #[trigger]
                ids@.contains_key(id) <==> listed@.take(i + 1).contains(id) by {
                let taken = listed@.take(i as int);
                if taken.contains(id) {
                    let j = choose|j: int| 0 <= j < taken.len() && taken[j] == id;
                    assert(listed@.take(i + 1)[j] == id);
                }
                if id == listed@[i as int] {
                    assert(listed@.take(i + 1)[i as int] == id);
                }
            }
        }
        i += 1;
    }
    assert(listed@.take(listed@.len() as int) =~= listed@);
    assert(ids@.dom() =~= listed@.to_set());
    ids
}

fn list_inserted(updates: &Vec<InputNoteUpdate>) -> (ids: Vec<NoteId>)
    ensures
        ids@ == inserted_notes(updates@),
{
    let mut ids: Vec<NoteId> = Vec::new();
    let mut i: usize = 0;
    while i < updates.len()
        invariant
            i <= updates.len(),
            ids@ == inserted_notes(updates@.take(i as int)),
        decreases updates.len() - i,
    {
        let update = updates[i];
        proof {
            assert(updates@.take(i + 1).drop_last() =~= updates@.take(i as int));
            assert(updates@.take(i + 1).last() == update);
        }
        if let NoteUpdateType::Insert = update.update_type {
            if let Some(id) = update.id {
                ids.push(id);
            }
        }
        i += 1;
    }
    assert(updates@.take(updates@.len() as int) =~= updates@);
    ids
}

impl SyncSummary {
    /// Sums up an update.
    pub fn from_update(update: &StateSyncUpdate) -> (summary: SyncSummary)
        requires
            update.transaction_updates.wf(),
        ensures
            summary.block_num == update.block_num,
            summary.new_public_notes@ == inserted_notes(update.note_updates.updated_input_notes@),
            summary.new_private_notes@.len() == 0,
            summary.committed_notes@ == ordered_ids(
                committed_ids(
                    update.note_updates.updated_input_notes@,
                    update.note_updates.updated_output_notes@,
                ),
            ),
            summary.consumed_notes@ == ordered_ids(
                update.note_updates.consumed_input_note_ids@.to_set(),
            ),
            increasing(summary.committed_notes@),
            summary.committed_notes@.to_set() == committed_ids(
                update.note_updates.updated_input_notes@,
                update.note_updates.updated_output_notes@,
            ),
            increasing(summary.consumed_notes@),
            summary.consumed_notes@.to_set()
                == update.note_updates.consumed_input_note_ids@.to_set(),
            summary.updated_accounts@ == update.account_updates@.updated_public_accounts.map_values(
                |account: PublicAccountUpdate| account.spec_id(),
            ),
            summary.locked_accounts@
                == update.account_updates@.mismatched_private_accounts.map_values(
                |account: (AccountId, Word)| account.0,
            ),
            summary.committed_transactions@ == tx_ids(
                update.transaction_updates.txs().filter(|tx: TxView| tx.status is Committed),
            ),
    {
        let notes = &update.note_updates;
        let public = update.account_updates.updated_public_accounts();
        let mut updated_accounts: Vec<AccountId> = Vec::new();
        let mut i: usize = 0;
        while i < public.len()
            invariant
                i <= public.len(),
                updated_accounts@.len() == i,
                forall|j: int|
                    0 <= j < i ==> #[trigger] updated_accounts@[j] == public@[j].spec_id(),
            decreases public.len() - i,
        {
            updated_accounts.push(public[i].id());
            i += 1;
        }
        assert(updated_accounts@ =~= public@.map_values(
            |account: PublicAccountUpdate| account.spec_id(),
        ));
        let private = update.account_updates.mismatched_private_accounts();
        let mut locked_accounts: Vec<AccountId> = Vec::new();
        let mut k: usize = 0;
        while k < private.len()
            invariant
                k <= private.len(),
                locked_accounts@.len() == k,
                forall|j: int| 0 <= j < k ==> #[trigger] locked_accounts@[j] == private@[j].0,
            decreases private.len() - k,
        {
            locked_accounts.push(private[k].0);
            k += 1;
        }
        assert(locked_accounts@ =~= private@.map_values(
            |account: (AccountId, Word)| account.0,
        ));
        let committed = update.transaction_updates.committed_transactions();
        SyncSummary {
            block_num: update.block_num,
            new_public_notes: list_inserted(&notes.updated_input_notes),
            new_private_notes: Vec::new(),
            committed_notes: list_keys(&collect_committed(notes)),
            consumed_notes: list_keys(&collect_ids(&notes.consumed_input_note_ids)),
            updated_accounts,
            locked_accounts,
            committed_transactions: ids_of(&committed),
        }
    }
}

} // verus!
