use miden_protocol::testing::account_id::{
    ACCOUNT_ID_PUBLIC_FUNGIBLE_FAUCET, ACCOUNT_ID_REGULAR_PRIVATE_ACCOUNT_UPDATABLE_CODE,
};
use pswap_sync::primitives::{AccountId, Nullifier, TransactionId, Word};
use pswap_sync::sync::transaction::{
    DiscardCause, RpcTransactionRecord, TransactionDetails, TransactionRecord, TransactionStatus,
    TransactionUpdateTracker,
};

fn word(n: u64) -> Word {
    Word { a: n, b: 0, c: 0, d: 0 }
}

fn nullifier(n: u64) -> Nullifier {
    Nullifier { word: word(n) }
}

fn tx_id(n: u64) -> TransactionId {
    TransactionId { word: word(n) }
}

fn account() -> AccountId {
    AccountId::try_from_u128(ACCOUNT_ID_REGULAR_PRIVATE_ACCOUNT_UPDATABLE_CODE).unwrap()
}

fn other_account() -> AccountId {
    AccountId::try_from_u128(ACCOUNT_ID_PUBLIC_FUNGIBLE_FAUCET).unwrap()
}

/// A pending transaction of the account from one state to another, submitted at block 10 and valid
/// until block 100.
fn pending(id: u64, init: u64, result: u64, nullifiers: &[u64]) -> TransactionRecord {
    TransactionRecord {
        id: tx_id(id),
        details: TransactionDetails {
            account_id: account(),
            init_account_state: word(init),
            final_account_state: word(result),
            input_note_nullifiers: nullifiers.iter().map(|n| word(*n)).collect(),
            submission_height: 10,
            expiration_block_num: 100,
        },
        status: TransactionStatus::Pending,
    }
}

fn included(id: u64, account_id: AccountId, init: u64, nullifiers: &[u64]) -> RpcTransactionRecord {
    RpcTransactionRecord {
        block_num: 20,
        id: tx_id(id),
        account_id,
        initial_state_commitment: word(init),
        final_state_commitment: word(init + 1),
        input_notes: nullifiers.iter().map(|n| nullifier(*n)).collect(),
        erased_output_notes: vec![],
    }
}

fn statuses(tracker: &TransactionUpdateTracker) -> Vec<TransactionStatus> {
    tracker.transactions.entries.iter().map(|entry| entry.1.status).collect()
}

/// Three transactions, each building on the one before, and one beside them.
fn chain() -> TransactionUpdateTracker {
    TransactionUpdateTracker::new(vec![
        pending(3, 3, 4, &[30]),
        pending(1, 1, 2, &[10]),
        pending(2, 2, 3, &[20]),
        pending(4, 8, 9, &[40]),
    ])
}

const PENDING: TransactionStatus = TransactionStatus::Pending;
const BUILT_ON_DISCARDED: TransactionStatus =
    TransactionStatus::Discarded(DiscardCause::DiscardedInitialState);

#[test]
fn only_pending_transactions_change_status() {
    let mut tx = pending(1, 1, 2, &[]);
    assert!(tx.commit_transaction(5, 77));
    let committed = TransactionStatus::Committed { block_number: 5, commit_timestamp: 77 };
    assert_eq!(tx.status, committed);
    assert!(!tx.discard_transaction(DiscardCause::Stale));
    assert!(!tx.commit_transaction(6, 78));
    assert_eq!(tx.status, committed);

    let mut tx = pending(1, 1, 2, &[]);
    assert!(tx.discard_transaction(DiscardCause::Expired));
    assert_eq!(tx.status, TransactionStatus::Discarded(DiscardCause::Expired));
    assert!(!tx.commit_transaction(5, 77));
}

#[test]
fn transactions_are_followed_in_the_order_of_their_identifiers() {
    let tracker = TransactionUpdateTracker::new(vec![
        pending(2, 1, 2, &[]),
        pending(1, 1, 2, &[]),
        pending(2, 5, 6, &[]),
    ]);
    let ids: Vec<TransactionId> =
        tracker.transactions.entries.iter().map(|entry| entry.0).collect();
    assert_eq!(ids, vec![tx_id(1), tx_id(2)]);
    // Of two with one identifier the later counts.
    assert_eq!(tracker.transactions.entries[1].1.details.init_account_state, word(5));
}

#[test]
fn inclusion_commits_by_identifier_first() {
    let mut tracker = chain();
    tracker.apply_transaction_inclusion(&included(2, other_account(), 77, &[5]), 1234);
    let committed = TransactionStatus::Committed { block_number: 20, commit_timestamp: 1234 };
    assert_eq!(statuses(&tracker), vec![PENDING, committed, PENDING, PENDING]);
    assert_eq!(tracker.external_nullifier_account(&nullifier(5)), None);
    assert_eq!(tracker.committed_transactions().len(), 1);
    assert_eq!(tracker.committed_transactions()[0].id, tx_id(2));
}

#[test]
fn inclusion_commits_by_account_and_start_otherwise() {
    let mut tracker = chain();
    tracker.apply_transaction_inclusion(&included(99, account(), 3, &[5]), 1);
    let committed = TransactionStatus::Committed { block_number: 20, commit_timestamp: 1 };
    assert_eq!(statuses(&tracker), vec![PENDING, PENDING, committed, PENDING]);
    assert_eq!(tracker.external_nullifier_account(&nullifier(5)), None);
}

#[test]
fn unknown_inclusion_records_the_consumer() {
    let mut tracker = chain();
    tracker.apply_transaction_inclusion(&included(99, other_account(), 3, &[5, 6]), 1);
    assert_eq!(statuses(&tracker), vec![PENDING; 4]);
    assert_eq!(tracker.external_nullifier_account(&nullifier(5)), Some(other_account()));
    assert_eq!(tracker.external_nullifier_account(&nullifier(6)), Some(other_account()));
    assert_eq!(tracker.external_nullifier_account(&nullifier(7)), None);
    tracker.apply_transaction_inclusion(&included(98, account(), 55, &[6]), 1);
    assert_eq!(tracker.external_nullifier_account(&nullifier(6)), Some(account()));
}

#[test]
fn expired_transactions_fall_with_those_that_build_on_them() {
    let mut tracker = TransactionUpdateTracker::new(vec![
        pending(1, 1, 2, &[]),
        TransactionRecord {
            id: tx_id(2),
            details: TransactionDetails {
                account_id: account(),
                init_account_state: word(2),
                final_account_state: word(3),
                input_note_nullifiers: vec![],
                submission_height: 10,
                expiration_block_num: 50,
            },
            status: PENDING,
        },
        pending(3, 3, 4, &[]),
    ]);
    tracker.apply_sync_height_update(49, None);
    assert_eq!(statuses(&tracker), vec![PENDING; 3]);
    // A transaction that expires at the new height is discarded.
    tracker.apply_sync_height_update(50, None);
    assert_eq!(
        statuses(&tracker),
        vec![PENDING, TransactionStatus::Discarded(DiscardCause::Expired), BUILT_ON_DISCARDED]
    );
    assert_eq!(tracker.discarded_transactions().len(), 2);
    assert_eq!(tracker.updated_transaction_ids(), vec![tx_id(2), tx_id(3)]);
}

#[test]
fn stale_transactions_are_discarded() {
    let stale = TransactionStatus::Discarded(DiscardCause::Stale);
    let mut tracker = TransactionUpdateTracker::new(vec![pending(1, 1, 2, &[])]);
    // Submitted at block 10: at block 15 five blocks ago.
    tracker.apply_sync_height_update(15, Some(5));
    assert_eq!(statuses(&tracker), vec![PENDING]);
    tracker.apply_sync_height_update(15, Some(16));
    assert_eq!(statuses(&tracker), vec![PENDING]);
    tracker.apply_sync_height_update(16, Some(5));
    assert_eq!(statuses(&tracker), vec![stale]);

    // One that is both stale and expired is stale.
    let mut tracker = TransactionUpdateTracker::new(vec![pending(1, 1, 2, &[])]);
    tracker.apply_sync_height_update(200, Some(5));
    assert_eq!(statuses(&tracker), vec![stale]);
    let mut tracker = TransactionUpdateTracker::new(vec![pending(1, 1, 2, &[])]);
    tracker.apply_sync_height_update(200, None);
    assert_eq!(statuses(&tracker), vec![TransactionStatus::Discarded(DiscardCause::Expired)]);
}

#[test]
fn consumed_input_discards_the_transaction() {
    let mut tracker = chain();
    tracker.apply_input_note_nullified(nullifier(20));
    let consumed = TransactionStatus::Discarded(DiscardCause::InputConsumed);
    assert_eq!(statuses(&tracker), vec![PENDING, consumed, BUILT_ON_DISCARDED, PENDING]);
    tracker.apply_input_note_nullified(nullifier(20));
    assert_eq!(statuses(&tracker), vec![PENDING, consumed, BUILT_ON_DISCARDED, PENDING]);
    tracker.apply_input_note_nullified(nullifier(999));
    assert_eq!(statuses(&tracker), vec![PENDING, consumed, BUILT_ON_DISCARDED, PENDING]);
}

#[test]
fn committed_transactions_are_not_discarded() {
    let mut tracker = chain();
    tracker.apply_transaction_inclusion(&included(2, account(), 2, &[]), 1);
    tracker.apply_input_note_nullified(nullifier(20));
    tracker.apply_input_note_nullified(nullifier(10));
    let committed = TransactionStatus::Committed { block_number: 20, commit_timestamp: 1 };
    let consumed = TransactionStatus::Discarded(DiscardCause::InputConsumed);
    // The third builds on a committed one and stays.
    assert_eq!(statuses(&tracker), vec![consumed, committed, PENDING, PENDING]);
    assert_eq!(tracker.updated_transaction_ids(), vec![tx_id(2), tx_id(1)]);
}

#[test]
fn invalid_start_discards_the_whole_chain() {
    let mut tracker = chain();
    tracker.apply_invalid_initial_account_state(word(1));
    let discarded = BUILT_ON_DISCARDED;
    assert_eq!(statuses(&tracker), vec![discarded, discarded, discarded, PENDING]);
}

#[test]
fn superseded_result_discards_its_transaction() {
    let mut tracker = chain();
    tracker.apply_superseded_account_state(word(3));
    let superseded = TransactionStatus::Discarded(DiscardCause::Superseded);
    assert_eq!(statuses(&tracker), vec![PENDING, superseded, BUILT_ON_DISCARDED, PENDING]);
}
