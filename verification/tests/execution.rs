use miden_protocol::testing::account_id::{
    ACCOUNT_ID_PUBLIC_FUNGIBLE_FAUCET, ACCOUNT_ID_REGULAR_PRIVATE_ACCOUNT_UPDATABLE_CODE,
};
use pswap_sync::primitives::{AccountId, Nullifier, TransactionId, Word};
use pswap_sync::sync::execution::{
    check_starts, compute_ordered_nullifiers, derive_account_commitments,
    group_txs_by_account_block, walk_execution_chain,
};
use pswap_sync::sync::transaction::RpcTransactionRecord;

fn word(n: u64) -> Word {
    Word { a: n, b: 0, c: 0, d: 0 }
}

fn nullifier(n: u64) -> Nullifier {
    Nullifier { word: word(n) }
}

fn account_a() -> AccountId {
    AccountId::try_from_u128(ACCOUNT_ID_REGULAR_PRIVATE_ACCOUNT_UPDATABLE_CODE).unwrap()
}

fn account_b() -> AccountId {
    AccountId::try_from_u128(ACCOUNT_ID_PUBLIC_FUNGIBLE_FAUCET).unwrap()
}

fn make_tx(
    account_id: AccountId,
    init_state: u64,
    final_state: u64,
    nullifier_vals: &[u64],
    block_num: u32,
) -> RpcTransactionRecord {
    RpcTransactionRecord {
        block_num,
        id: TransactionId { word: word(1000 * init_state + final_state) },
        account_id,
        initial_state_commitment: word(init_state),
        final_state_commitment: word(final_state),
        input_notes: nullifier_vals.iter().map(|v| nullifier(*v)).collect(),
        erased_output_notes: vec![],
    }
}

fn make_rpc_tx(
    init_state: u64,
    final_state: u64,
    nullifier_vals: &[u64],
    block_number: u32,
) -> RpcTransactionRecord {
    make_tx(account_a(), init_state, final_state, nullifier_vals, block_number)
}

#[test]
fn chains_rpc_transactions_by_state_commitment() {
    // Chain: tx_a (state 1->2) -> tx_b (state 2->3) -> tx_c (state 3->4)
    // Passed in reverse order to verify chaining uses state, not insertion order.
    let tx_a = make_rpc_tx(1, 2, &[10], 5);
    let tx_b = make_rpc_tx(2, 3, &[20], 5);
    let tx_c = make_rpc_tx(3, 4, &[30], 5);

    let result = compute_ordered_nullifiers(&vec![tx_c, tx_a, tx_b]);

    assert_eq!(result[0], nullifier(10));
    assert_eq!(result[1], nullifier(20));
    assert_eq!(result[2], nullifier(30));
}

#[test]
fn groups_independently_by_account_and_block() {
    // Account A, block 5: two chained txs.
    let tx_a1 = make_rpc_tx(1, 2, &[10], 5);
    let tx_a2 = make_rpc_tx(2, 3, &[20], 5);

    // Account A, block 6: independent chain.
    let tx_a3 = make_rpc_tx(3, 4, &[30], 6);

    // Account B, block 5: independent chain.
    let tx_b1 = make_tx(account_b(), 100, 200, &[40], 5);

    let result = compute_ordered_nullifiers(&vec![tx_a2, tx_b1, tx_a3, tx_a1]);

    let pos = |val: u64| -> usize {
        result.iter().position(|n| *n == nullifier(val)).unwrap()
    };

    // Within the same group, chain order is preserved.
    assert!(pos(10) < pos(20));
    // Nullifiers from different groups are all present.
    assert!(result.contains(&nullifier(30)));
    assert!(result.contains(&nullifier(40)));
    // Of one account, an earlier block comes first.
    assert!(pos(20) < pos(30));
}

#[test]
fn multiple_nullifiers_per_transaction_are_consecutive() {
    // Single tx consuming 3 notes: all should appear consecutively.
    let tx = make_rpc_tx(1, 2, &[10, 20, 30], 5);

    let result = compute_ordered_nullifiers(&vec![tx]);

    assert_eq!(result.len(), 3);
    assert!(result.contains(&nullifier(10)));
    assert!(result.contains(&nullifier(20)));
    assert!(result.contains(&nullifier(30)));
    assert_eq!(result, vec![nullifier(10), nullifier(20), nullifier(30)]);
}

#[test]
fn empty_input_returns_empty_vec() {
    let result = compute_ordered_nullifiers(&vec![]);
    assert!(result.is_empty());
}

/// Test scenario:
/// - Account A, block 5: chain 1 - 2 - 3 (older group; must be dominated by block 6).
/// - Account A, block 6: chain 3 - 4 - 5 (final state = 5).
/// - Account B, block 6: single tx 10 - 20 (final state = 20).
#[test]
fn derive_account_commitments_walks_chains_per_account() {
    let tx_a_b5_1 = make_tx(account_a(), 1, 2, &[], 5);
    let tx_a_b5_2 = make_tx(account_a(), 2, 3, &[], 5);
    let tx_a_b6_1 = make_tx(account_a(), 3, 4, &[], 6);
    let tx_a_b6_2 = make_tx(account_a(), 4, 5, &[], 6);
    let tx_b_b6 = make_tx(account_b(), 10, 20, &[], 6);

    // Insert transactions not ordered by execution order.
    let result = derive_account_commitments(&vec![
        tx_a_b6_1, tx_b_b6, tx_a_b5_2, tx_a_b6_2, tx_a_b5_1,
    ]);

    assert_eq!(result.len(), 2, "one entry per account");
    assert!(
        result.contains(&(account_a(), word(5))),
        "account A: must walk block 6's chain, not return block 5 or an intermediate",
    );
    assert!(
        result.contains(&(account_b(), word(20))),
        "account B: must be resolved independently of account A",
    );
}

#[test]
fn earlier_blocks_do_not_change_the_commitments() {
    let mut records = vec![make_rpc_tx(3, 4, &[], 6), make_tx(account_b(), 10, 20, &[], 2)];
    let before = derive_account_commitments(&records);
    records.push(make_rpc_tx(1, 3, &[], 5));
    assert_eq!(derive_account_commitments(&records), before);
}

#[test]
fn transaction_without_effect_is_ordered_where_its_state_is_reached() {
    // 1 -> 2, then 2 -> 2, then 2 -> 3, then 3 -> 3.
    let records = vec![
        make_rpc_tx(2, 2, &[21], 5),
        make_rpc_tx(3, 3, &[33], 5),
        make_rpc_tx(2, 3, &[22], 5),
        make_rpc_tx(1, 2, &[11], 5),
    ];
    let expected = vec![nullifier(11), nullifier(21), nullifier(22), nullifier(33)];
    assert_eq!(compute_ordered_nullifiers(&records), expected);
    assert_eq!(derive_account_commitments(&records), vec![(account_a(), word(3))]);

    // One that leaves the account in an intermediate state does not decide where it ends.
    let records = vec![
        make_rpc_tx(2, 2, &[], 5),
        make_rpc_tx(1, 2, &[], 5),
        make_rpc_tx(2, 3, &[], 5),
    ];
    assert_eq!(derive_account_commitments(&records), vec![(account_a(), word(3))]);
}

#[test]
fn transactions_without_effect_alone_keep_their_order() {
    let records = vec![make_rpc_tx(7, 7, &[2], 5), make_rpc_tx(7, 7, &[1], 5)];
    assert_eq!(compute_ordered_nullifiers(&records), vec![nullifier(2), nullifier(1)]);
    assert_eq!(derive_account_commitments(&records), vec![(account_a(), word(7))]);
}

#[test]
fn transactions_off_the_chain_come_last_or_not_at_all() {
    // The walk goes 1 -> 2; 8 -> 9 does not follow, and 5 -> 5 is never reached.
    let txs = [make_rpc_tx(1, 2, &[], 5), make_rpc_tx(8, 9, &[], 5), make_rpc_tx(5, 5, &[], 5)];
    let ordered = walk_execution_chain(&txs.iter().collect());
    let starts: Vec<u64> = ordered.iter().map(|tx| tx.initial_state_commitment.a).collect();
    assert_eq!(starts, vec![1, 5]);

    // Of two that start from one state the later counts.
    let txs = [make_rpc_tx(1, 2, &[], 5), make_rpc_tx(1, 3, &[], 5)];
    let ordered = walk_execution_chain(&txs.iter().collect());
    assert_eq!(ordered.len(), 1);
    assert_eq!(ordered[0].final_state_commitment, word(3));
}

#[test]
fn groups_are_keyed_by_account_then_block() {
    let records = vec![
        make_rpc_tx(3, 4, &[], 6),
        make_tx(account_b(), 10, 20, &[], 5),
        make_rpc_tx(1, 2, &[], 5),
        make_rpc_tx(2, 3, &[], 5),
    ];
    let groups = group_txs_by_account_block(&records);
    let mut keys: Vec<(u128, u32, usize)> = Vec::new();
    for entry in &groups.entries {
        keys.push((entry.0.account_id.to_u128(), entry.0.block_num, entry.1.len()));
    }
    let (a, b) = (account_a().to_u128(), account_b().to_u128());
    let mut expected = vec![(a, 5, 2), (a, 6, 1), (b, 5, 1)];
    expected.sort();
    assert_eq!(keys, expected);
}

#[test]
fn cycles_are_told_apart() {
    assert!(check_starts(&vec![]));
    assert!(check_starts(&vec![make_rpc_tx(1, 2, &[], 5), make_rpc_tx(2, 2, &[], 5)]));
    let cycle = vec![make_rpc_tx(1, 2, &[], 5), make_rpc_tx(2, 1, &[], 5)];
    assert!(!check_starts(&cycle));
    // Over two blocks there is no cycle.
    assert!(check_starts(&vec![make_rpc_tx(1, 2, &[], 5), make_rpc_tx(2, 1, &[], 6)]));
}
