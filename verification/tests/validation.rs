use miden_protocol::account::AccountId as ProtocolAccountId;
use miden_protocol::block::account_tree::{AccountIdKey, AccountTree};
use miden_protocol::block::BlockHeader as ProtocolHeader;
use miden_protocol::crypto::merkle::smt::Smt;
use miden_protocol::testing::account_id::{
    ACCOUNT_ID_PUBLIC_FUNGIBLE_FAUCET, ACCOUNT_ID_REGULAR_PRIVATE_ACCOUNT_UPDATABLE_CODE,
    ACCOUNT_ID_REGULAR_PUBLIC_ACCOUNT_IMMUTABLE_CODE, ACCOUNT_ID_SENDER,
};
use miden_protocol::utils::serde::Serializable;
use miden_protocol::{Felt, Word as ProtocolWord};
use pswap_sync::account::AccountHeader;
use pswap_sync::block::BlockHeader;
use pswap_sync::mmr::MmrDelta;
use pswap_sync::primitives::{AccountId, TransactionId, Word};
use pswap_sync::rpc::note::NoteSyncBlock;
use pswap_sync::sorted_map::SortedMap;
use pswap_sync::sync::accounts::{sync_public_account, NodeAccount, PublicAccountSync};
use pswap_sync::sync::error::{ChainValidationError, SyncError};
use pswap_sync::sync::transaction::RpcTransactionRecord;
use pswap_sync::sync::validation::{
    plan_fetch, validate_account_proof, validate_chain_mmr_response, validate_note_blocks_range,
    validate_transaction_records_range, verify_private_account_mismatch, AccountWitness,
    ChainMmrInfo, FetchAction, FetchPlan,
};

const ACCOUNT_A: u128 = ACCOUNT_ID_REGULAR_PUBLIC_ACCOUNT_IMMUTABLE_CODE;
const ACCOUNT_B: u128 = ACCOUNT_ID_REGULAR_PRIVATE_ACCOUNT_UPDATABLE_CODE;

fn protocol_id(raw: u128) -> ProtocolAccountId {
    raw.try_into().unwrap()
}

fn account(raw: u128) -> AccountId {
    AccountId::try_from_u128(raw).unwrap()
}

fn protocol_word(n: u64) -> ProtocolWord {
    ProtocolWord::from([
        Felt::new_unchecked(n),
        Felt::new_unchecked(0),
        Felt::new_unchecked(0),
        Felt::new_unchecked(0),
    ])
}

fn word(n: u64) -> Word {
    Word { a: n, b: 0, c: 0, d: 0 }
}

fn header_with_account_root(header: &ProtocolHeader, account_root: ProtocolWord) -> ProtocolHeader {
    ProtocolHeader::new(
        header.version(),
        header.prev_block_commitment(),
        header.block_num(),
        header.chain_commitment(),
        account_root,
        header.nullifier_root(),
        header.note_root(),
        header.tx_commitment(),
        header.tx_kernel_commitment(),
        header.validator_key().clone(),
        header.fee_parameters().clone(),
        header.timestamp(),
    )
}

fn plain_header(header: &ProtocolHeader) -> BlockHeader {
    BlockHeader::from_bytes(header.to_bytes()).unwrap()
}

fn header_of(block_num: u32) -> BlockHeader {
    plain_header(&ProtocolHeader::mock(block_num, None, None, &[], ProtocolWord::empty()))
}

/// A chain tip whose account tree holds the two accounts, at commitments 71 and 72.
fn chain_tip() -> (AccountTree<Smt>, BlockHeader) {
    let entries = [(ACCOUNT_A, 71), (ACCOUNT_B, 72)].map(|(id, commitment)| {
        (AccountIdKey::from(protocol_id(id)).as_word(), protocol_word(commitment))
    });
    let tree = AccountTree::new(Smt::with_entries(entries).unwrap()).unwrap();
    let header = ProtocolHeader::mock(9u32, None, None, &[], ProtocolWord::empty());
    let header = plain_header(&header_with_account_root(&header, tree.root()));
    (tree, header)
}

/// The proof that an honest node gives.
fn account_proof(tree: &AccountTree<Smt>, id: u128) -> AccountWitness {
    AccountWitness::from_bytes(tree.open(protocol_id(id)).to_bytes()).unwrap()
}

fn tampered(header: &BlockHeader, account_root: Word) -> BlockHeader {
    let mut fields = header.fields;
    fields.account_root = account_root;
    BlockHeader { fields, bytes: header.bytes.clone() }
}

fn make_tx_record(account_id: AccountId, block_num: u32) -> RpcTransactionRecord {
    RpcTransactionRecord {
        block_num,
        id: TransactionId { word: word(3) },
        account_id,
        initial_state_commitment: word(1),
        final_state_commitment: word(2),
        input_notes: vec![],
        erased_output_notes: vec![],
    }
}

fn note_block(block_num: u32) -> NoteSyncBlock {
    NoteSyncBlock {
        block_header: header_of(block_num),
        mmr_path: vec![],
        notes: SortedMap::new(),
    }
}

fn chain_mmr_response(block_from: u32, block_to: u32) -> ChainMmrInfo {
    ChainMmrInfo {
        block_from,
        block_to,
        mmr_delta: MmrDelta { leaves: block_to as usize, data: vec![] },
        block_header: header_of(block_to),
    }
}

// CHAIN UPDATES
// ------------------------------------------------------------------------------------------------

#[test]
fn validate_chain_mmr_response_rejects_tampered_responses() {
    let chain_tip: u32 = 3;
    let current: u32 = 0;

    // Sanity check: the untampered response passes validation.
    validate_chain_mmr_response(&chain_mmr_response(current, chain_tip), current).unwrap();

    // The returned block header doesn't correspond to `block_to`.
    let mut response = chain_mmr_response(current, chain_tip);
    response.block_header = header_of(chain_tip - 1);
    assert!(matches!(
        validate_chain_mmr_response(&response, current),
        Err(SyncError::ChainValidation(ChainValidationError::HeaderMismatch {
            header: 2,
            block_to: 3
        }))
    ));

    // `block_from` doesn't match the block the sync was requested from.
    let mut response = chain_mmr_response(current, chain_tip);
    response.block_from = current + 1;
    assert!(matches!(
        validate_chain_mmr_response(&response, current),
        Err(SyncError::ChainValidation(ChainValidationError::StartMismatch {
            requested: 0,
            block_from: 1
        }))
    ));

    // `block_to` (and its header) regress behind the client's current block.
    let mut response = chain_mmr_response(current, chain_tip);
    response.block_from = chain_tip;
    response.block_to = 0;
    response.block_header = header_of(0);
    assert!(matches!(
        validate_chain_mmr_response(&response, chain_tip),
        Err(SyncError::ChainValidation(ChainValidationError::BehindCurrent {
            block_to: 0,
            current: 3
        }))
    ));
}

#[test]
fn validate_note_blocks_range_rejects_out_of_range_blocks() {
    let chain_tip: u32 = 3;
    let current: u32 = 0;

    // Sanity check: an empty block list passes validation.
    validate_note_blocks_range(&vec![], current, chain_tip).unwrap();
    validate_note_blocks_range(&vec![note_block(1), note_block(3)], current, chain_tip).unwrap();

    // A note block outside the requested range: genesis is always outside it.
    let result = validate_note_blocks_range(&vec![note_block(0)], current, chain_tip);
    assert!(matches!(
        result,
        Err(SyncError::ChainValidation(ChainValidationError::NoteBlockOutOfRange {
            block_num: 0,
            current: 0,
            chain_tip: 3
        }))
    ));

    // The first one that is out of range is reported.
    let blocks = vec![note_block(2), note_block(4), note_block(5)];
    assert!(matches!(
        validate_note_blocks_range(&blocks, current, chain_tip),
        Err(SyncError::ChainValidation(ChainValidationError::NoteBlockOutOfRange {
            block_num: 4,
            ..
        }))
    ));
}

#[test]
fn validate_transaction_records_range_rejects_out_of_range_blocks() {
    let account_id = account(ACCOUNT_ID_PUBLIC_FUNGIBLE_FAUCET);
    let current: u32 = 5;
    let chain_tip: u32 = 10;

    validate_transaction_records_range(&vec![make_tx_record(account_id, 7)], current, chain_tip)
        .unwrap();

    let result = validate_transaction_records_range(
        &vec![make_tx_record(account_id, 11)],
        current,
        chain_tip,
    );
    assert!(matches!(
        result,
        Err(SyncError::ChainValidation(ChainValidationError::TransactionOutOfRange {
            block_num: 11,
            current: 5,
            chain_tip: 10
        }))
    ));

    let result = validate_transaction_records_range(
        &vec![make_tx_record(account_id, 5)],
        current,
        chain_tip,
    );
    assert!(matches!(
        result,
        Err(SyncError::ChainValidation(ChainValidationError::TransactionOutOfRange {
            block_num: 5,
            ..
        }))
    ));
}

#[test]
fn fetch_asks_for_what_can_match() {
    let response = chain_mmr_response(4, 9);
    let plan = plan_fetch(&response, 4, true, true).unwrap().unwrap();
    assert_eq!(plan, FetchPlan { block_from: 5, block_to: 9, notes: true, transactions: true });
    assert_eq!(plan.first(), FetchAction::SyncNotes { block_from: 5, block_to: 9 });
    let next = plan.after_notes(&vec![note_block(5)]).unwrap();
    assert_eq!(next, FetchAction::SyncTransactions { block_from: 5, block_to: 9 });
    let records = vec![make_tx_record(account(ACCOUNT_A), 9)];
    assert_eq!(plan.after_transactions(&records).unwrap(), FetchAction::Complete);

    let plan = plan_fetch(&response, 4, false, true).unwrap().unwrap();
    assert_eq!(plan.first(), FetchAction::SyncTransactions { block_from: 5, block_to: 9 });
    let plan = plan_fetch(&response, 4, true, false).unwrap().unwrap();
    assert_eq!(plan.after_notes(&vec![]).unwrap(), FetchAction::Complete);
    let plan = plan_fetch(&response, 4, false, false).unwrap().unwrap();
    assert_eq!(plan.first(), FetchAction::Complete);
}

#[test]
fn fetch_stops_at_the_tip_and_on_bad_answers() {
    assert_eq!(plan_fetch(&chain_mmr_response(4, 4), 4, true, true).unwrap(), None);
    assert!(plan_fetch(&chain_mmr_response(3, 9), 4, true, true).is_err());

    let plan = plan_fetch(&chain_mmr_response(4, 9), 4, true, true).unwrap().unwrap();
    assert!(matches!(
        plan.after_notes(&vec![note_block(4)]),
        Err(SyncError::ChainValidation(ChainValidationError::NoteBlockOutOfRange {
            block_num: 4,
            current: 4,
            chain_tip: 9
        }))
    ));
    assert!(matches!(
        plan.after_transactions(&vec![make_tx_record(account(ACCOUNT_A), 10)]),
        Err(SyncError::ChainValidation(ChainValidationError::TransactionOutOfRange {
            block_num: 10,
            current: 4,
            chain_tip: 9
        }))
    ));
}

// ACCOUNT PROOFS
// ------------------------------------------------------------------------------------------------

#[test]
fn verify_private_account_mismatch_ignores_forged_commitment() {
    let (tree, header) = chain_tip();
    let proof = account_proof(&tree, ACCOUNT_B);

    let result =
        verify_private_account_mismatch(&proof, 9, account(ACCOUNT_B), word(72), &header).unwrap();

    assert!(
        result.is_none(),
        "an unproven commitment must not lock an account whose on-chain state matches local"
    );
}

#[test]
fn verify_private_account_mismatch_reports_proven_divergence() {
    let (tree, header) = chain_tip();
    let proof = account_proof(&tree, ACCOUNT_B);
    let stale_local_commitment = word(0xdead_beef);

    let result = verify_private_account_mismatch(
        &proof,
        9,
        account(ACCOUNT_B),
        stale_local_commitment,
        &header,
    )
    .unwrap();

    assert_eq!(
        result,
        Some(word(72)),
        "a proven divergence should return the proven commitment to lock with"
    );
}

#[test]
fn verify_private_account_mismatch_rejects_unverifiable_proof() {
    let (tree, header) = chain_tip();
    let proof = account_proof(&tree, ACCOUNT_B);
    let tampered_header = tampered(&header, word(0xbad0_bad0));

    let result = verify_private_account_mismatch(
        &proof,
        9,
        account(ACCOUNT_B),
        word(72),
        &tampered_header,
    );
    match result {
        Err(SyncError::ChainValidation(ChainValidationError::ProofRootMismatch { account_id })) => {
            assert_eq!(account_id, account(ACCOUNT_B));
        }
        other => panic!("expected a root mismatch, got {other:?}"),
    }
}

#[test]
fn verify_private_account_mismatch_rejects_other_block() {
    let (tree, header) = chain_tip();
    let proof = account_proof(&tree, ACCOUNT_B);
    let result =
        verify_private_account_mismatch(&proof, 8, account(ACCOUNT_B), word(1), &header);
    assert!(matches!(
        result,
        Err(SyncError::ChainValidation(ChainValidationError::ProofBlockMismatch {
            block_num: 8,
            chain_tip: 9
        }))
    ));
}

#[test]
fn verify_private_account_mismatch_ignores_absent_and_other_accounts() {
    let (tree, header) = chain_tip();
    let absent = account_proof(&tree, ACCOUNT_ID_SENDER);
    assert_eq!(absent.state_commitment(), Word::empty());
    let result = verify_private_account_mismatch(
        &absent,
        9,
        account(ACCOUNT_ID_SENDER),
        word(1),
        &header,
    );
    assert_eq!(result.unwrap(), None);

    let other = account_proof(&tree, ACCOUNT_A);
    let result =
        verify_private_account_mismatch(&other, 9, account(ACCOUNT_B), word(1), &header);
    assert_eq!(result.unwrap(), None);
}

#[test]
fn validate_account_proof_rejects_mismatched_account() {
    let (tree, header) = chain_tip();

    // An honest proof for B, validated as if A had been requested.
    let proof = account_proof(&tree, ACCOUNT_B);
    match validate_account_proof(&proof, 9, account(ACCOUNT_A), &header) {
        Err(SyncError::ChainValidation(ChainValidationError::ProofAccountMismatch {
            returned,
            account_id,
        })) => {
            assert_eq!(returned, account(ACCOUNT_B));
            assert_eq!(account_id, account(ACCOUNT_A));
        }
        other => panic!("expected an account mismatch, got {other:?}"),
    }
}

#[test]
fn validate_account_proof_rejects_wrong_account_root() {
    let (tree, header) = chain_tip();
    let wrong_header = tampered(&header, word(999));

    // An honest proof for the account, validated against a header with a bogus account root.
    let proof = account_proof(&tree, ACCOUNT_A);
    match validate_account_proof(&proof, 9, account(ACCOUNT_A), &wrong_header) {
        Err(SyncError::ChainValidation(ChainValidationError::ProofRootMismatch { account_id })) => {
            assert_eq!(account_id, account(ACCOUNT_A));
        }
        other => panic!("expected a root mismatch, got {other:?}"),
    }
}

#[test]
fn validate_account_proof_rejects_wrong_block() {
    let (tree, header) = chain_tip();

    // An honest proof, but reported at a block other than the target.
    let proof = account_proof(&tree, ACCOUNT_A);
    let result = validate_account_proof(&proof, 9 + 1, account(ACCOUNT_A), &header);
    assert!(matches!(
        result,
        Err(SyncError::ChainValidation(ChainValidationError::ProofBlockMismatch {
            block_num: 10,
            chain_tip: 9
        }))
    ));
}

#[test]
fn honest_account_proofs_are_accepted() {
    let (tree, header) = chain_tip();
    let proof = account_proof(&tree, ACCOUNT_A);
    assert_eq!(proof.id(), account(ACCOUNT_A));
    assert_eq!(proof.state_commitment(), word(71));
    assert_eq!(proof.root(), header.fields.account_root);
    validate_account_proof(&proof, 9, account(ACCOUNT_A), &header).unwrap();

    let local = AccountHeader {
        id: account(ACCOUNT_A),
        nonce: 4,
        vault_root: word(0),
        storage_commitment: word(0),
        code_commitment: word(0),
    };
    let node = |nonce: u64| NodeAccount { nonce, vault_oversized: false, maps_oversized: vec![] };
    let decide = |nonce: u64, block_num: u32| {
        sync_public_account(&proof, block_num, &node(nonce), &local, &header)
    };
    assert_eq!(decide(5, 9).unwrap(), PublicAccountSync::ApplyFull);
    assert_eq!(decide(4, 9).unwrap(), PublicAccountSync::Superseded);
    assert_eq!(decide(3, 9).unwrap(), PublicAccountSync::Ignore);
    assert!(decide(5, 8).is_err());
    assert!(AccountWitness::from_bytes(vec![1, 2, 3]).is_none());
}
