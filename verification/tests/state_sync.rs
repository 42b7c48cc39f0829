use miden_protocol::crypto::merkle::mmr::PartialMmr;
use miden_protocol::note::Nullifier as ProtocolNullifier;
use miden_protocol::testing::account_id::{
    ACCOUNT_ID_PUBLIC_FUNGIBLE_FAUCET, ACCOUNT_ID_REGULAR_PRIVATE_ACCOUNT_UPDATABLE_CODE,
};
use miden_protocol::{Felt, Word as ProtocolWord};
use pswap_sync::primitives::{AccountId, NoteId, Nullifier, TransactionId, Word};
use pswap_sync::sync::account_update::{AccountUpdates, FullAccount, PublicAccountUpdate};
use pswap_sync::sync::state_sync::{
    apply_transactions, begin_update, discard_superseded, list_consumptions, nullifier_tags,
    nullifiers_state_sync, InputNoteUpdate, NoteConsumption, NoteUpdateType, NullifierUpdate,
    OutputNoteUpdate, StateSync, SyncSummary,
};
use pswap_sync::sync::transaction::{
    DiscardCause, RpcTransactionRecord, TransactionDetails, TransactionRecord, TransactionStatus,
    TransactionUpdateTracker,
};

fn word(n: u64) -> Word {
    Word { a: n, b: 0, c: 0, d: 0 }
}

fn nullifier(n: u64) -> Nullifier {
    Nullifier { word: word(n) }
}

fn note_id(n: u64) -> NoteId {
    NoteId { word: word(n) }
}

fn account() -> AccountId {
    AccountId::try_from_u128(ACCOUNT_ID_REGULAR_PRIVATE_ACCOUNT_UPDATABLE_CODE).unwrap()
}

fn faucet() -> AccountId {
    AccountId::try_from_u128(ACCOUNT_ID_PUBLIC_FUNGIBLE_FAUCET).unwrap()
}

fn pending(id: u64, init: u64, result: u64, expiration_block_num: u32) -> TransactionRecord {
    TransactionRecord {
        id: TransactionId { word: word(id) },
        details: TransactionDetails {
            account_id: account(),
            init_account_state: word(init),
            final_account_state: word(result),
            input_note_nullifiers: vec![],
            submission_height: 1,
            expiration_block_num,
        },
        status: TransactionStatus::Pending,
    }
}

fn included(id: u64, init: u64, result: u64, nullifiers: &[u64]) -> RpcTransactionRecord {
    RpcTransactionRecord {
        block_num: 7,
        id: TransactionId { word: word(id) },
        account_id: account(),
        initial_state_commitment: word(init),
        final_state_commitment: word(result),
        input_notes: nullifiers.iter().map(|n| nullifier(*n)).collect(),
        erased_output_notes: vec![],
    }
}

fn statuses(tracker: &TransactionUpdateTracker) -> Vec<TransactionStatus> {
    tracker.transactions.entries.iter().map(|entry| entry.1.status).collect()
}

#[test]
fn observers_are_attached_in_order() {
    let mut sync = StateSync::new("node", "screener", Some(20)).with_note_observer("pswap");
    assert_eq!(sync.rpc_api, "node");
    assert_eq!(sync.note_observers, vec!["screener", "pswap"]);
    assert_eq!(sync.tx_discard_delta, Some(20));
    assert!(sync.sync_nullifiers);
    sync.disable_nullifier_sync();
    assert!(!sync.sync_nullifiers);
    sync.enable_nullifier_sync();
    assert!(sync.sync_nullifiers);
}

#[test]
fn update_starts_empty() {
    let update = begin_update(&PartialMmr::default(), vec![pending(1, 1, 2, 9)]).unwrap();
    assert_eq!(update.block_num, 0);
    assert!(update.partial_blockchain_updates.block_headers().is_empty());
    assert!(update.note_updates.updated_input_notes.is_empty());
    assert!(update.account_updates.updated_public_accounts().is_empty());
    assert_eq!(statuses(&update.transaction_updates), vec![TransactionStatus::Pending]);
}

#[test]
fn transactions_are_committed_before_others_expire() {
    let mut tracker = TransactionUpdateTracker::new(vec![
        pending(1, 1, 2, 10),
        pending(2, 2, 3, 10),
        pending(3, 3, 4, 10),
    ]);
    // A transaction of the account that this client did not submit, in another block.
    let foreign = RpcTransactionRecord { block_num: 8, ..included(9, 5, 6, &[30]) };
    let records = vec![included(2, 2, 3, &[20]), included(1, 1, 2, &[10]), foreign];
    let nullifiers = apply_transactions(&mut tracker, &records, 10, 99, None);
    assert_eq!(nullifiers, vec![nullifier(10), nullifier(20), nullifier(30)]);
    let committed = TransactionStatus::Committed { block_number: 7, commit_timestamp: 99 };
    assert_eq!(
        statuses(&tracker),
        vec![committed, committed, TransactionStatus::Discarded(DiscardCause::Expired)]
    );
    assert_eq!(tracker.external_nullifier_account(&nullifier(30)), Some(account()));
    assert_eq!(tracker.external_nullifier_account(&nullifier(10)), None);
}

#[test]
fn superseded_states_discard_their_transactions() {
    let mut tracker =
        TransactionUpdateTracker::new(vec![pending(1, 1, 2, 10), pending(2, 2, 3, 10)]);
    discard_superseded(&mut tracker, &vec![word(77)]);
    assert_eq!(statuses(&tracker), vec![TransactionStatus::Pending; 2]);
    discard_superseded(&mut tracker, &vec![word(2)]);
    assert_eq!(
        statuses(&tracker),
        vec![
            TransactionStatus::Discarded(DiscardCause::Superseded),
            TransactionStatus::Discarded(DiscardCause::DiscardedInitialState),
        ]
    );
}

#[test]
fn nullifier_tags_are_those_of_the_protocol() {
    let high: u64 = 0xabcd_0123_4567_89ab;
    let plain = Nullifier { word: Word { a: 1, b: 2, c: 3, d: high } };
    let limbs = [1, 2, 3, high].map(Felt::new_unchecked);
    let expected = ProtocolNullifier::from_raw(ProtocolWord::new(limbs)).prefix();
    assert_eq!(nullifier_tags(&vec![plain, nullifier(5)]), vec![expected, 0]);
    assert_eq!(expected, 0xabcd);
}

#[test]
fn consumptions_behind_the_synced_block_wait() {
    let mut tracker = TransactionUpdateTracker::new(vec![]);
    tracker.apply_transaction_inclusion(&included(1, 1, 2, &[5]), 0);
    let update = |n: u64, block_num: u32| NullifierUpdate { nullifier: nullifier(n), block_num };
    let updates = vec![update(5, 9), update(6, 11), update(7, 10)];
    let expected = vec![
        NoteConsumption {
            nullifier: nullifier(5),
            block_num: 9,
            external_consumer: Some(account()),
        },
        NoteConsumption { nullifier: nullifier(7), block_num: 10, external_consumer: None },
    ];
    assert_eq!(list_consumptions(&updates, 10, &tracker), expected);
}

#[test]
fn consumptions_discard_what_wanted_the_same_notes() {
    let consuming = |id: u64, init: u64, result: u64, note: u64| {
        let mut tx = pending(id, init, result, 90);
        tx.details.input_note_nullifiers = vec![word(note)];
        tx
    };
    let mut tracker = TransactionUpdateTracker::new(vec![
        consuming(1, 1, 2, 5),
        consuming(2, 2, 3, 6),
        consuming(3, 7, 8, 7),
    ]);
    tracker.apply_transaction_inclusion(&included(3, 7, 8, &[]), 4);
    let update = |n: u64, block_num: u32| NullifierUpdate { nullifier: nullifier(n), block_num };
    let updates = vec![update(7, 9), update(5, 9), update(6, 11)];
    let consumptions = nullifiers_state_sync(&updates, 10, &mut tracker);
    let consumed: Vec<Nullifier> = consumptions.iter().map(|c| c.nullifier).collect();
    assert_eq!(consumed, vec![nullifier(7), nullifier(5)]);
    assert_eq!(
        statuses(&tracker),
        vec![
            TransactionStatus::Discarded(DiscardCause::InputConsumed),
            TransactionStatus::Discarded(DiscardCause::DiscardedInitialState),
            TransactionStatus::Committed { block_number: 7, commit_timestamp: 4 },
        ]
    );
}

#[test]
fn summary_lists_what_changed() {
    let mut update = begin_update(&PartialMmr::default(), vec![pending(1, 1, 2, 90)]).unwrap();
    apply_transactions(&mut update.transaction_updates, &vec![included(1, 1, 2, &[])], 7, 3, None);
    update.block_num = 7;
    let input = |id: Option<u64>, update_type: NoteUpdateType, is_committed: bool| InputNoteUpdate {
        id: id.map(note_id),
        update_type,
        is_committed,
    };
    update.note_updates.updated_input_notes = vec![
        input(Some(9), NoteUpdateType::Insert, true),
        input(Some(4), NoteUpdateType::Update, true),
        input(Some(3), NoteUpdateType::InsertCommitted, true),
        input(Some(5), NoteUpdateType::Update, false),
        input(None, NoteUpdateType::Insert, true),
        input(Some(6), NoteUpdateType::Unchanged, true),
    ];
    let output = |id: u64, update_type: NoteUpdateType, is_committed: bool| OutputNoteUpdate {
        id: note_id(id),
        update_type,
        is_committed,
    };
    update.note_updates.updated_output_notes = vec![
        output(2, NoteUpdateType::Update, true),
        output(4, NoteUpdateType::Update, true),
        output(1, NoteUpdateType::Insert, true),
        output(8, NoteUpdateType::Update, false),
    ];
    update.note_updates.consumed_input_note_ids = vec![note_id(8), note_id(2), note_id(8)];
    let full = PublicAccountUpdate::Full(FullAccount { id: faucet(), bytes: vec![] });
    update.account_updates = AccountUpdates::new(vec![full], vec![(account(), word(1))]);

    let summary = SyncSummary::from_update(&update);
    assert_eq!(summary.block_num, 7);
    assert_eq!(summary.new_public_notes, vec![note_id(9)]);
    assert!(summary.new_private_notes.is_empty());
    assert_eq!(summary.committed_notes, vec![note_id(2), note_id(3), note_id(4)]);
    assert_eq!(summary.consumed_notes, vec![note_id(2), note_id(8)]);
    assert_eq!(summary.updated_accounts, vec![faucet()]);
    assert_eq!(summary.locked_accounts, vec![account()]);
    assert_eq!(summary.committed_transactions, vec![TransactionId { word: word(1) }]);
}
