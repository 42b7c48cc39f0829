use miden_protocol::account::{
    AccountHeader as ProtocolHeader, AccountId as ProtocolAccountId, AccountStorage, StorageMap,
    StorageMapKey, StorageSlot, StorageSlotName,
};
use miden_protocol::asset::{
    Asset as ProtocolAsset, AssetVault, FungibleAsset as ProtocolFungible,
    NonFungibleAsset as ProtocolNonFungible,
};
use miden_protocol::testing::account_id::{
    ACCOUNT_ID_PUBLIC_FUNGIBLE_FAUCET, ACCOUNT_ID_PUBLIC_NON_FUNGIBLE_FAUCET,
    ACCOUNT_ID_REGULAR_PUBLIC_ACCOUNT_IMMUTABLE_CODE,
};
use miden_protocol::{Felt, Word as ProtocolWord};
use pswap_sync::account::{AccountHeader, SlotName};
use pswap_sync::asset::{Asset, FungibleAsset, NonFungibleAsset};
use pswap_sync::primitives::{AccountId, Word};
use pswap_sync::sync::account_update::{
    replay_storage_updates, replay_vault_updates, AccountDeltaError, AccountUpdates,
    AccountVaultUpdate, FullAccount, PublicAccountDelta, PublicAccountUpdate, StorageMapUpdate,
};

fn account_id() -> AccountId {
    AccountId::try_from_u128(ACCOUNT_ID_REGULAR_PUBLIC_ACCOUNT_IMMUTABLE_CODE).unwrap()
}

fn faucet_id() -> ProtocolAccountId {
    ACCOUNT_ID_PUBLIC_FUNGIBLE_FAUCET.try_into().unwrap()
}

fn slot_name(name: &str) -> SlotName {
    SlotName::new(name).unwrap()
}

fn protocol_slot(name: &str) -> StorageSlotName {
    StorageSlotName::new(name).unwrap()
}

fn plain_word(word: ProtocolWord) -> Word {
    let [a, b, c, d]: [u64; 4] = word.into();
    Word { a, b, c, d }
}

fn protocol_word(n: u64) -> ProtocolWord {
    ProtocolWord::from([
        Felt::new_unchecked(n),
        Felt::new_unchecked(0),
        Felt::new_unchecked(0),
        Felt::new_unchecked(0),
    ])
}

fn word(n: u64) -> Word {
    Word { a: n, b: 0, c: 0, d: 0 }
}

fn protocol_fungible(amount: u64) -> ProtocolAsset {
    ProtocolAsset::Fungible(ProtocolFungible::new(faucet_id(), amount).unwrap())
}

fn fungible(amount: u64) -> Asset {
    let faucet = AccountId::try_from_u128(ACCOUNT_ID_PUBLIC_FUNGIBLE_FAUCET).unwrap();
    Asset::Fungible(FungibleAsset::new(faucet, amount).unwrap())
}

/// An asset of the protocol that is not fungible.
fn protocol_unique(data: u8) -> ProtocolAsset {
    ProtocolNonFungible::mock(&[data])
}

fn unique(data: u8) -> Asset {
    Asset::NonFungible(NonFungibleAsset {
        faucet_id: AccountId::try_from_u128(ACCOUNT_ID_PUBLIC_NON_FUNGIBLE_FAUCET).unwrap(),
        value: plain_word(protocol_unique(data).to_value_word()),
        callbacks: false,
    })
}

fn map_update(block_num: u32, slot: &str, key: u64, value: u64) -> StorageMapUpdate {
    StorageMapUpdate { block_num, slot_name: slot_name(slot), key: word(key), value: word(value) }
}

fn vault_update(block_num: u32, asset: Option<Asset>, vault_key: Word) -> AccountVaultUpdate {
    AccountVaultUpdate { block_num, asset, vault_key }
}

fn header_with_nonce(nonce: u64) -> AccountHeader {
    AccountHeader {
        id: account_id(),
        nonce,
        vault_root: word(0),
        storage_commitment: word(0),
        code_commitment: word(0),
    }
}

fn empty_payload(new_header: AccountHeader) -> PublicAccountDelta {
    PublicAccountDelta::new(new_header, 0, 1, vec![], vec![], vec![])
}

// REPLAY STORAGE UPDATES
// ------------------------------------------------------------------------------------------------

#[test]
fn replay_storage_empty_inputs_returns_empty_delta() {
    let storage = AccountStorage::new(vec![]).unwrap();
    let delta = replay_storage_updates(&storage, &vec![], &vec![]).unwrap();
    assert!(delta.is_empty());
}

#[test]
fn replay_storage_value_slot_changed_emits_delta() {
    let value_slot = protocol_slot("miden::test::value");
    let storage =
        AccountStorage::new(vec![StorageSlot::with_value(value_slot.clone(), protocol_word(1))])
            .unwrap();

    let delta = replay_storage_updates(
        &storage,
        &vec![(slot_name("miden::test::value"), word(2))],
        &vec![],
    )
    .unwrap();

    let entry = delta.get(&value_slot).expect("delta should contain value slot");
    assert_eq!(entry.clone().unwrap_value(), protocol_word(2));
}

#[test]
fn replay_storage_value_slot_unchanged_is_skipped() {
    let value_slot = protocol_slot("miden::test::value");
    let storage =
        AccountStorage::new(vec![StorageSlot::with_value(value_slot, protocol_word(1))]).unwrap();

    let delta = replay_storage_updates(
        &storage,
        &vec![(slot_name("miden::test::value"), word(1))],
        &vec![],
    )
    .unwrap();

    assert!(delta.is_empty());
}

#[test]
fn replay_storage_map_dedup_keeps_latest_block_per_key() {
    let map_slot = protocol_slot("miden::test::map");
    let storage = AccountStorage::new(vec![StorageSlot::with_empty_map(map_slot.clone())]).unwrap();

    let updates = vec![
        map_update(1, "miden::test::map", 42, 100),
        map_update(3, "miden::test::map", 42, 300),
        map_update(2, "miden::test::map", 42, 200),
    ];

    let delta = replay_storage_updates(&storage, &vec![], &updates).unwrap();

    let map_delta = delta.get(&map_slot).expect("delta should contain map slot").clone();
    let map = map_delta.unwrap_map();
    assert_eq!(map.entries().len(), 1);
    assert_eq!(*map.entries().values().next().unwrap(), protocol_word(300));
    assert_eq!(
        *map.entries().keys().next().unwrap(),
        StorageMapKey::from_raw(protocol_word(42))
    );
}

#[test]
fn replay_storage_map_multiple_keys_in_same_slot_all_kept() {
    let map_slot = protocol_slot("miden::test::map");
    let storage = AccountStorage::new(vec![StorageSlot::with_empty_map(map_slot.clone())]).unwrap();

    let updates = vec![
        map_update(1, "miden::test::map", 1, 100),
        map_update(2, "miden::test::map", 2, 200),
    ];

    let delta = replay_storage_updates(&storage, &vec![], &updates).unwrap();
    let map = delta.get(&map_slot).unwrap().clone().unwrap_map();
    assert_eq!(map.entries().len(), 2);
}

#[test]
fn later_listed_map_update_of_one_block_counts() {
    let map_slot = protocol_slot("miden::test::map");
    let storage = AccountStorage::new(vec![StorageSlot::with_empty_map(map_slot.clone())]).unwrap();
    let updates = vec![
        map_update(4, "miden::test::map", 7, 1),
        map_update(4, "miden::test::map", 7, 2),
        map_update(3, "miden::test::map", 7, 3),
    ];

    let delta = replay_storage_updates(&storage, &vec![], &updates).unwrap();

    let map = delta.get(&map_slot).unwrap().clone().unwrap_map();
    assert_eq!(map.entries().get(&StorageMapKey::from_raw(protocol_word(7))), Some(&protocol_word(2)));
}

#[test]
fn unknown_value_slot_counts_as_changed() {
    let storage = AccountStorage::new(vec![]).unwrap();
    let delta = replay_storage_updates(
        &storage,
        &vec![(slot_name("miden::test::value"), word(0))],
        &vec![],
    )
    .unwrap();
    let entry = delta.get(&protocol_slot("miden::test::value")).unwrap();
    assert_eq!(entry.clone().unwrap_value(), protocol_word(0));
}

#[test]
fn slot_used_as_value_and_map_is_rejected() {
    let storage = AccountStorage::new(vec![]).unwrap();
    let outcome = replay_storage_updates(
        &storage,
        &vec![(slot_name("miden::test::slot"), word(5))],
        &vec![map_update(1, "miden::test::slot", 1, 2)],
    );
    match outcome {
        Err(AccountDeltaError::StorageSlotUsedAsDifferentTypes(name)) => {
            assert_eq!(name.as_str(), "miden::test::slot");
        }
        other => panic!("expected a conflict, got {other:?}"),
    }
}

#[test]
fn unchanged_value_slot_does_not_conflict_with_its_map() {
    let name = protocol_slot("miden::test::slot");
    let storage =
        AccountStorage::new(vec![StorageSlot::with_value(name.clone(), protocol_word(5))]).unwrap();
    let delta = replay_storage_updates(
        &storage,
        &vec![(slot_name("miden::test::slot"), word(5))],
        &vec![map_update(1, "miden::test::slot", 1, 2)],
    )
    .unwrap();
    assert_eq!(delta.get(&name).unwrap().clone().unwrap_map().entries().len(), 1);
}

#[test]
fn map_slot_is_found_by_its_root() {
    let name = protocol_slot("miden::test::map");
    let map = StorageMap::with_entries([(
        StorageMapKey::from_raw(protocol_word(1)),
        protocol_word(2),
    )])
    .unwrap();
    let root = plain_word(map.root());
    let storage = AccountStorage::new(vec![StorageSlot::with_map(name, map)]).unwrap();

    let values = vec![(slot_name("miden::test::map"), root)];
    assert!(replay_storage_updates(&storage, &values, &vec![]).unwrap().is_empty());
    let values = vec![(slot_name("miden::test::map"), word(9))];
    assert!(!replay_storage_updates(&storage, &values, &vec![]).unwrap().is_empty());
}

// REPLAY VAULT UPDATES
// ------------------------------------------------------------------------------------------------

#[test]
fn replay_vault_empty_inputs_returns_empty_delta() {
    let vault = AssetVault::new(&[]).unwrap();
    let delta = replay_vault_updates(&vault, &vec![]).unwrap();
    assert!(delta.is_empty());
}

#[test]
fn replay_vault_added_asset_emits_add() {
    let vault = AssetVault::new(&[]).unwrap();
    let asset = fungible(100);
    let updates = vec![vault_update(1, Some(asset), asset.vault_key())];

    let delta = replay_vault_updates(&vault, &updates).unwrap();
    let added: Vec<_> = delta.added_assets().collect();
    assert_eq!(added, vec![protocol_fungible(100)]);
    assert_eq!(delta.removed_assets().count(), 0);
}

#[test]
fn replay_vault_removed_asset_emits_remove() {
    let asset = fungible(100);
    let vault = AssetVault::new(&[protocol_fungible(100)]).unwrap();
    let updates = vec![vault_update(1, None, asset.vault_key())];

    let delta = replay_vault_updates(&vault, &updates).unwrap();
    let removed: Vec<_> = delta.removed_assets().collect();
    assert_eq!(removed, vec![protocol_fungible(100)]);
    assert_eq!(delta.added_assets().count(), 0);
}

#[test]
fn replay_vault_replace_asset_emits_net_diff() {
    let asset_b = fungible(150);
    let vault = AssetVault::new(&[protocol_fungible(100)]).unwrap();
    let updates = vec![vault_update(1, Some(asset_b), asset_b.vault_key())];

    let delta = replay_vault_updates(&vault, &updates).unwrap();
    let added: Vec<_> = delta.added_assets().collect();
    assert_eq!(added, vec![protocol_fungible(50)]);
    assert_eq!(delta.removed_assets().count(), 0);
}

#[test]
fn replay_vault_dedup_keeps_latest_block_per_key() {
    let vault = AssetVault::new(&[]).unwrap();
    let asset_v1 = fungible(100);
    let asset_v2 = fungible(200);
    let asset_v3 = fungible(300);
    let key = asset_v1.vault_key();

    let updates = vec![
        vault_update(1, Some(asset_v1), key),
        vault_update(3, Some(asset_v3), key),
        vault_update(2, Some(asset_v2), key),
    ];

    let delta = replay_vault_updates(&vault, &updates).unwrap();
    let added: Vec<_> = delta.added_assets().collect();
    assert_eq!(added, vec![protocol_fungible(300)]);
}

#[test]
fn replay_vault_added_then_removed_is_noop() {
    let vault = AssetVault::new(&[]).unwrap();
    let asset = fungible(100);
    let key = asset.vault_key();

    let updates = vec![vault_update(1, Some(asset), key), vault_update(2, None, key)];

    let delta = replay_vault_updates(&vault, &updates).unwrap();
    assert!(delta.is_empty());
}

#[test]
fn replay_vault_reduced_asset_emits_net_removal() {
    let vault = AssetVault::new(&[protocol_fungible(100)]).unwrap();
    let asset = fungible(30);
    let updates = vec![vault_update(1, Some(asset), asset.vault_key())];

    let delta = replay_vault_updates(&vault, &updates).unwrap();
    let removed: Vec<_> = delta.removed_assets().collect();
    assert_eq!(removed, vec![protocol_fungible(70)]);
    assert_eq!(delta.added_assets().count(), 0);
}

#[test]
fn replay_vault_handles_unique_assets() {
    let vault = AssetVault::new(&[protocol_unique(1), protocol_fungible(5)]).unwrap();
    let updates = vec![
        vault_update(1, None, unique(1).vault_key()),
        vault_update(1, Some(unique(2)), unique(2).vault_key()),
        vault_update(1, Some(fungible(5)), fungible(5).vault_key()),
    ];

    let delta = replay_vault_updates(&vault, &updates).unwrap();
    let added: Vec<_> = delta.added_assets().collect();
    let removed: Vec<_> = delta.removed_assets().collect();
    assert_eq!(added, vec![protocol_unique(2)]);
    assert_eq!(removed, vec![protocol_unique(1)]);
}

#[test]
fn unique_asset_under_two_keys_is_rejected() {
    let vault = AssetVault::new(&[]).unwrap();
    let updates =
        vec![vault_update(1, Some(unique(3)), word(1)), vault_update(1, Some(unique(3)), word(2))];
    match replay_vault_updates(&vault, &updates) {
        Err(AccountDeltaError::AssetRejected { asset, .. }) => assert_eq!(asset, unique(3)),
        other => panic!("expected a rejected asset, got {other:?}"),
    }
}

#[test]
fn vault_keys_are_those_of_the_protocol() {
    let key = plain_word(protocol_fungible(7).vault_key().to_word());
    assert_eq!(fungible(7).vault_key(), key);
    let key = plain_word(protocol_unique(9).vault_key().to_word());
    assert_eq!(unique(9).vault_key(), key);
    assert_eq!(unique(9).faucet_id().to_u128(), ACCOUNT_ID_PUBLIC_NON_FUNGIBLE_FAUCET);
    assert_ne!(unique(9).vault_key(), unique(8).vault_key());
    assert_eq!(fungible(7).vault_key(), fungible(8).vault_key());
    assert_ne!(fungible(7).vault_key(), unique(9).vault_key());
}

// COMPUTE ACCOUNT DELTA
// ------------------------------------------------------------------------------------------------

#[test]
fn compute_delta_happy_path_emits_nonce_delta() {
    let local_header = header_with_nonce(1);
    let local_storage = AccountStorage::new(vec![]).unwrap();
    let local_vault = AssetVault::new(&[]).unwrap();
    let payload = empty_payload(header_with_nonce(4));

    let delta =
        payload.compute_account_delta(&local_header, &local_storage, &local_vault).unwrap();

    assert_eq!(delta.nonce_delta, 3);
    assert!(delta.storage.is_empty());
    assert!(delta.vault.is_empty());
    assert_eq!(delta.account_id, account_id());
}

#[test]
fn compute_delta_rejects_equal_nonce() {
    let local_header = header_with_nonce(5);
    let local_storage = AccountStorage::new(vec![]).unwrap();
    let local_vault = AssetVault::new(&[]).unwrap();
    let payload = empty_payload(header_with_nonce(5));

    let err =
        payload.compute_account_delta(&local_header, &local_storage, &local_vault).unwrap_err();

    assert!(matches!(err, AccountDeltaError::NonMonotonicNonce { local: 5, new: 5, .. }));
}

#[test]
fn compute_delta_rejects_decreasing_nonce() {
    let local_header = header_with_nonce(10);
    let local_storage = AccountStorage::new(vec![]).unwrap();
    let local_vault = AssetVault::new(&[]).unwrap();
    let payload = empty_payload(header_with_nonce(9));

    let err =
        payload.compute_account_delta(&local_header, &local_storage, &local_vault).unwrap_err();

    assert!(matches!(err, AccountDeltaError::NonMonotonicNonce { local: 10, new: 9, .. }));
}

#[test]
fn delta_gathers_values_maps_and_assets() {
    let payload = PublicAccountDelta::new(
        header_with_nonce(2),
        3,
        8,
        vec![(slot_name("miden::test::value"), word(4))],
        vec![map_update(5, "miden::test::map", 1, 2)],
        vec![vault_update(6, Some(fungible(9)), fungible(9).vault_key())],
    );
    assert_eq!(payload.id(), account_id());
    assert_eq!(payload.new_header(), &header_with_nonce(2));
    assert_eq!(payload.block_from(), 3);
    assert_eq!(payload.block_to(), 8);
    let names = payload.value_slot_names();
    assert_eq!(names.len(), 1);
    assert_eq!(names[0].as_str(), "miden::test::value");

    let storage = AccountStorage::new(vec![]).unwrap();
    let vault = AssetVault::new(&[]).unwrap();
    let delta = payload.compute_account_delta(&header_with_nonce(1), &storage, &vault).unwrap();
    assert_eq!(delta.nonce_delta, 1);
    assert_eq!(delta.storage.values().count(), 1);
    assert_eq!(delta.storage.maps().count(), 1);
    assert_eq!(delta.vault.added_assets().count(), 1);
}

#[test]
fn account_commitments_are_those_of_the_protocol() {
    let header = AccountHeader {
        id: account_id(),
        nonce: 7,
        vault_root: word(1),
        storage_commitment: word(2),
        code_commitment: word(3),
    };
    let expected = ProtocolHeader::new(
        ACCOUNT_ID_REGULAR_PUBLIC_ACCOUNT_IMMUTABLE_CODE.try_into().unwrap(),
        Felt::new(7).unwrap(),
        protocol_word(1),
        protocol_word(2),
        protocol_word(3),
    )
    .to_commitment();
    assert_eq!(header.to_commitment(), plain_word(expected));
    assert_eq!(header.id(), account_id());
}

#[test]
fn slot_names_are_those_of_the_protocol() {
    let name = slot_name("miden::test::value");
    let expected = protocol_slot("miden::test::value").id();
    assert_eq!(name.id().suffix, expected.suffix().as_canonical_u64());
    assert_eq!(name.id().prefix, expected.prefix().as_canonical_u64());
    assert_eq!(name.as_str(), "miden::test::value");
    assert!(SlotName::new("").is_none());
    assert!(SlotName::new("single").is_none());
    assert!(SlotName::new("miden::_test").is_none());
}

// ACCOUNT UPDATES
// ------------------------------------------------------------------------------------------------

#[test]
fn account_updates_are_appended() {
    let full = || PublicAccountUpdate::Full(FullAccount { id: account_id(), bytes: vec![1] });
    let faucet = AccountId::try_from_u128(ACCOUNT_ID_PUBLIC_FUNGIBLE_FAUCET).unwrap();
    let mut updates = AccountUpdates::default();
    assert!(updates.updated_public_accounts().is_empty());
    assert!(updates.mismatched_private_accounts().is_empty());

    updates.extend(AccountUpdates::new(vec![full()], vec![(faucet, word(1))]));
    let delta = PublicAccountUpdate::Delta(empty_payload(header_with_nonce(1)));
    updates.extend(AccountUpdates::new(vec![delta], vec![(account_id(), word(2))]));

    let public = updates.updated_public_accounts();
    assert!(matches!(public[0], PublicAccountUpdate::Full(_)));
    assert!(matches!(public[1], PublicAccountUpdate::Delta(_)));
    assert_eq!(public[0].id(), account_id());
    assert_eq!(public[1].id(), account_id());
    assert_eq!(
        updates.mismatched_private_accounts(),
        &vec![(faucet, word(1)), (account_id(), word(2))]
    );
}
