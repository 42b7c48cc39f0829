use miden_protocol::testing::account_id::{
    ACCOUNT_ID_PUBLIC_FUNGIBLE_FAUCET, ACCOUNT_ID_REGULAR_PRIVATE_ACCOUNT_UPDATABLE_CODE,
    ACCOUNT_ID_REGULAR_PUBLIC_ACCOUNT_IMMUTABLE_CODE,
};
use pswap_sync::account::{AccountHeader, SlotName};
use pswap_sync::primitives::{AccountId, Word};
use pswap_sync::sync::account_update::{
    AccountUpdates, AccountVaultUpdate, FullAccount, PublicAccountUpdate, StorageMapUpdate,
};
use pswap_sync::sync::accounts::{
    build_delta_update, private_accounts_to_verify, public_accounts_to_sync,
    reconcile_public_account, sync_public_accounts, update_range, PublicAccountOutcome,
    PublicAccountSync, SlotHeader,
};

fn word(n: u64) -> Word {
    Word { a: n, b: 0, c: 0, d: 0 }
}

fn public_id() -> AccountId {
    AccountId::try_from_u128(ACCOUNT_ID_REGULAR_PUBLIC_ACCOUNT_IMMUTABLE_CODE).unwrap()
}

fn faucet_id() -> AccountId {
    AccountId::try_from_u128(ACCOUNT_ID_PUBLIC_FUNGIBLE_FAUCET).unwrap()
}

fn private_id() -> AccountId {
    AccountId::try_from_u128(ACCOUNT_ID_REGULAR_PRIVATE_ACCOUNT_UPDATABLE_CODE).unwrap()
}

fn header(id: AccountId, nonce: u64) -> AccountHeader {
    AccountHeader {
        id,
        nonce,
        vault_root: word(0),
        storage_commitment: word(0),
        code_commitment: word(0),
    }
}

fn full(id: AccountId) -> PublicAccountUpdate {
    PublicAccountUpdate::Full(FullAccount { id, bytes: vec![7] })
}

/// What a sync makes of the node's state of the one public account, at a nonce.
fn sync_one_account(
    local_header: AccountHeader,
    node_nonce: u64,
    account_updates: &mut AccountUpdates,
) -> Vec<Word> {
    let commitment_updates = vec![(local_header.id, word(4711))];
    let mut outcomes = Vec::new();
    for changed in public_accounts_to_sync(&vec![local_header], &commitment_updates) {
        let outcome =
            match reconcile_public_account(node_nonce, changed.nonce, false, &vec![false, false]) {
                PublicAccountSync::ApplyFull => PublicAccountOutcome::Apply(full(changed.id)),
                PublicAccountSync::ApplyDelta => unreachable!("nothing is oversized"),
                PublicAccountSync::Superseded => PublicAccountOutcome::Superseded,
                PublicAccountSync::Ignore => PublicAccountOutcome::Ignore,
            };
        outcomes.push((changed, outcome));
    }
    sync_public_accounts(account_updates, outcomes)
}

#[test]
fn sync_public_accounts_ignores_older_node_snapshot() {
    // Local state is at a higher nonce than the node's snapshot (our own tx isn't committed
    // there yet), so the node snapshot must be ignored.
    let local_header = header(public_id(), 2);
    let mut account_updates = AccountUpdates::default();

    let superseded = sync_one_account(local_header, 1, &mut account_updates);

    assert!(
        account_updates.updated_public_accounts().is_empty(),
        "public account sync should ignore node snapshots that are older than local"
    );
    assert!(superseded.is_empty(), "an older node snapshot must not supersede the local state");
}

#[test]
fn sync_public_accounts_marks_same_nonce_mismatch_as_superseded() {
    // Local state is at the same nonce as the node's but with a different commitment: a fork
    // where the local transaction lost the race and must be discarded.
    let local_header = header(public_id(), 1);
    let mut account_updates = AccountUpdates::default();

    let superseded = sync_one_account(local_header, 1, &mut account_updates);

    assert!(
        account_updates.updated_public_accounts().is_empty(),
        "a same-nonce fork must not overwrite the account while its tx is still pending"
    );
    assert_eq!(
        superseded,
        vec![local_header.to_commitment()],
        "the superseded local state should be reported so its transaction is discarded"
    );
}

#[test]
fn newer_node_snapshot_is_taken_over() {
    let mut account_updates = AccountUpdates::default();
    let superseded = sync_one_account(header(public_id(), 1), 2, &mut account_updates);
    assert!(superseded.is_empty());
    assert_eq!(account_updates.updated_public_accounts().len(), 1);
    assert_eq!(account_updates.updated_public_accounts()[0].id(), public_id());
}

#[test]
fn outcomes_are_recorded_in_order() {
    let mut updates = AccountUpdates::new(vec![full(private_id())], vec![(private_id(), word(1))]);
    let (first, second) = (header(public_id(), 1), header(faucet_id(), 2));
    let superseded = sync_public_accounts(
        &mut updates,
        vec![
            (first, PublicAccountOutcome::Superseded),
            (second, PublicAccountOutcome::Apply(full(faucet_id()))),
            (first, PublicAccountOutcome::Apply(full(public_id()))),
            (second, PublicAccountOutcome::Superseded),
            (second, PublicAccountOutcome::Ignore),
        ],
    );
    assert_eq!(superseded, vec![first.to_commitment(), second.to_commitment()]);
    let ids: Vec<AccountId> =
        updates.updated_public_accounts().iter().map(|update| update.id()).collect();
    assert_eq!(ids, vec![private_id(), faucet_id(), public_id()]);
    assert_eq!(updates.mismatched_private_accounts(), &vec![(private_id(), word(1))]);
}

#[test]
fn oversized_parts_lead_to_incremental_updates() {
    let decide = |vault: bool, maps: Vec<bool>| reconcile_public_account(5, 4, vault, &maps);
    assert_eq!(decide(false, vec![]), PublicAccountSync::ApplyFull);
    assert_eq!(decide(false, vec![false, true]), PublicAccountSync::ApplyDelta);
    assert_eq!(decide(true, vec![false]), PublicAccountSync::ApplyDelta);
    let decision = reconcile_public_account(4, 4, true, &vec![true]);
    assert_eq!(decision, PublicAccountSync::Superseded);
    assert_eq!(reconcile_public_account(3, 4, true, &vec![]), PublicAccountSync::Ignore);
}

#[test]
fn only_changed_public_accounts_are_asked_for() {
    let public = header(public_id(), 1);
    let faucet = header(faucet_id(), 1);
    let private = header(private_id(), 1);
    let accounts = vec![public, private, faucet];
    let commitments = vec![
        (faucet_id(), word(9)),
        (public_id(), public.to_commitment()),
        (private_id(), word(9)),
    ];
    assert_eq!(public_accounts_to_sync(&accounts, &commitments), vec![faucet]);
    assert_eq!(public_accounts_to_sync(&vec![], &commitments), vec![]);
    let commitments = vec![(faucet_id(), word(9)), (public_id(), word(8))];
    assert_eq!(public_accounts_to_sync(&accounts, &commitments), vec![faucet, public]);
}

#[test]
fn only_diverging_private_accounts_are_verified() {
    let public = header(public_id(), 1);
    let private = header(private_id(), 1);
    let accounts = vec![public, private];
    let commitments = vec![(public_id(), word(9)), (private_id(), word(9))];
    assert_eq!(private_accounts_to_verify(&accounts, &commitments), vec![private]);
    let commitments = vec![(private_id(), private.to_commitment())];
    assert_eq!(private_accounts_to_verify(&accounts, &commitments), vec![]);
    assert_eq!(private_accounts_to_verify(&accounts, &vec![]), vec![]);
}

#[test]
fn incremental_update_gathers_what_was_fetched() {
    let slot = |name: &str, is_value: bool, value: u64| SlotHeader {
        name: SlotName::new(name).unwrap(),
        is_value,
        value: word(value),
    };
    let slots = vec![
        slot("miden::test::one", true, 1),
        slot("miden::test::map", false, 2),
        slot("miden::test::two", true, 3),
    ];
    let map_updates = vec![StorageMapUpdate {
        block_num: 6,
        slot_name: SlotName::new("miden::test::map").unwrap(),
        key: word(1),
        value: word(2),
    }];
    let vault_updates =
        vec![AccountVaultUpdate { block_num: 7, asset: None, vault_key: word(3) }];
    assert_eq!(update_range(4, 9), (5, 9));
    let update =
        build_delta_update(header(public_id(), 3), &slots, 4, 9, map_updates, vault_updates);
    match update {
        PublicAccountUpdate::Delta(delta) => {
            assert_eq!(delta.new_header(), &header(public_id(), 3));
            assert_eq!((delta.block_from(), delta.block_to()), (4, 9));
            let names: Vec<String> =
                delta.value_slot_names().iter().map(|name| name.as_str().to_string()).collect();
            assert_eq!(names, vec!["miden::test::one", "miden::test::two"]);
        }
        other => panic!("expected a delta, got {other:?}"),
    }
}
