//! Account headers, the parts of an account's state, and the changes between two states.
use miden_protocol::account::{
    AccountHeader as ProtocolHeader, AccountId as ProtocolId, AccountStorage, AccountStorageDelta,
    AccountVaultDelta, StorageMapKey, StorageSlotName,
};
use miden_protocol::asset::{
    Asset as ProtocolAsset, AssetVault, FungibleAsset as ProtocolFungible,
    NonFungibleAsset as ProtocolNonFungible,
};
use miden_protocol::errors::AccountDeltaError as ProtocolError;
use miden_protocol::{Felt, Word as ProtocolWord};
use vstd::prelude::*;

use crate::asset::{Asset, AssetAmount, FungibleAsset, NonFungibleAsset};
use crate::primitives::{AccountId, Word, FIELD_ORDER};
use crate::sorted_map::Key;

verus! {

// HEADER
// ================================================================================================

/// What describes the state of an account.
#[derive(Clone, Copy, Debug, PartialEq, Eq, Structural)]
pub struct AccountHeader {
    pub id: AccountId,
    pub nonce: u64,
    pub vault_root: Word,
    pub storage_commitment: Word,
    pub code_commitment: Word,
}

/// The commitment to an account, given its identifier in integer form, its nonce, and the
/// commitments to its vault, its storage and its code.
pub uninterp spec fn account_commitment_of(
    id: u128,
    nonce: u64,
    vault_root: Word,
    storage_commitment: Word,
    code_commitment: Word,
) -> Word;

/// Computes the commitment to an account with `AccountHeader::to_commitment`, a hash over the
/// header. The claims are that it depends on the header alone and is canonical.
#[verifier::external_body]
fn commit_to_header(header: &AccountHeader) -> (commitment: Word)
    requires
        header.wf(),
    ensures
        commitment == account_commitment_of(
            header.id@,
            header.nonce,
            header.vault_root,
            header.storage_commitment,
            header.code_commitment,
        ),
        commitment.is_canonical(),
{
    let word = |w: Word| ProtocolWord::new([w.a, w.b, w.c, w.d].map(Felt::new_unchecked));
    let [a, b, c, d]: [u64; 4] = ProtocolHeader::new(
        header.id.raw.try_into().unwrap(),
        Felt::new_unchecked(header.nonce),
        word(header.vault_root),
        word(header.storage_commitment),
        word(header.code_commitment),
    ).to_commitment().into();
    Word { a, b, c, d }
}

impl AccountHeader {
    pub open spec fn wf(self) -> bool {
        &&& self.nonce < FIELD_ORDER
        &&& self.vault_root.is_canonical()
        &&& self.storage_commitment.is_canonical()
        &&& self.code_commitment.is_canonical()
    }

    pub open spec fn spec_commitment(self) -> Word {
        account_commitment_of(
            self.id@,
            self.nonce,
            self.vault_root,
            self.storage_commitment,
            self.code_commitment,
        )
    }

    pub fn id(&self) -> (id: AccountId)
        ensures
            id == self.id,
    {
        self.id
    }

    /// The commitment to the account.
    pub fn to_commitment(&self) -> (commitment: Word)
        requires
            self.wf(),
        ensures
            commitment == self.spec_commitment(),
            commitment.is_canonical(),
    {
        commit_to_header(self)
    }
}

// SLOT NAMES
// ================================================================================================

/// What a storage slot is found and ordered by.
#[derive(Clone, Copy, Debug, PartialEq, Eq, Structural)]
pub struct SlotId {
    pub prefix: u64,
    pub suffix: u64,
}

impl Key for SlotId {
    open spec fn precedes(self, other: SlotId) -> bool {
        self.prefix < other.prefix || (self.prefix == other.prefix && self.suffix < other.suffix)
    }

    proof fn lemma_irreflexive(x: SlotId) {
    }

    proof fn lemma_transitive(x: SlotId, y: SlotId, z: SlotId) {
    }

    proof fn lemma_total(x: SlotId, y: SlotId) {
    }

    fn is_before(&self, other: &SlotId) -> bool {
        self.prefix < other.prefix || (self.prefix == other.prefix && self.suffix < other.suffix)
    }
}

/// The slot that a name stands for, if the name is a valid one.
pub uninterp spec fn slot_id_of(name: Seq<char>) -> Option<SlotId>;

/// Derives a slot's identifier from its name, with `StorageSlotName::new` and
/// `StorageSlotName::id`. The claim is that the outcome depends on the name alone.
#[verifier::external_body]
fn derive_slot_id(name: &str) -> (id: Option<SlotId>)
    ensures
        id == slot_id_of(name@),
{
    let id = StorageSlotName::new(name).ok()?.id();
    let prefix = id.prefix().as_canonical_u64();
    Some(SlotId { prefix, suffix: id.suffix().as_canonical_u64() })
}

/// The name of a storage slot.
#[derive(Debug)]
pub struct SlotName {
    pub(crate) text: String,
    pub(crate) id: SlotId,
}

impl View for SlotName {
    type V = Seq<char>;

    closed spec fn view(&self) -> Seq<char> {
        self.text@
    }
}

impl Clone for SlotName {
    fn clone(&self) -> (copy: SlotName)
        ensures
            copy@ == self@,
    {
        proof {
            use_type_invariant(self);
        }
        SlotName { text: self.text.clone(), id: self.id }
    }
}

impl SlotName {
    #[verifier::type_invariant]
    pub closed spec fn well_formed(self) -> bool {
        slot_id_of(self.text@) == Some(self.id)
    }

    pub open spec fn spec_id(self) -> SlotId {
        slot_id_of(self@).unwrap()
    }

    /// Takes a text as the name of a slot, if it is a valid one.
    pub fn new(text: &str) -> (name: Option<SlotName>)
        ensures
            name is Some <==> slot_id_of(text@) is Some,
            name matches Some(name) ==> name@ == text@,
    {
        match derive_slot_id(text) {
            Some(id) => Some(SlotName { text: text.to_string(), id }),
            None => None,
        }
    }

    pub fn as_str(&self) -> (text: &str)
        ensures
            text@ == self@,
    {
        self.text.as_str()
    }

    /// What the slot is found and ordered by.
    pub fn id(&self) -> (id: SlotId)
        ensures
            id == self.spec_id(),
    {
        proof {
            use_type_invariant(self);
        }
        self.id
    }
}

// STORAGE
// ================================================================================================

#[verifier::external_type_specification]
#[verifier::external_body]
pub struct ExAccountStorage(AccountStorage);

/// The values that the slots of a storage hold; of a map slot, its root.
pub uninterp spec fn storage_items_of(storage: AccountStorage) -> Map<SlotId, Word>;

/// Reads a slot with `AccountStorage::get_item`, which looks for the first slot with the name's
/// identifier. The claim is that it finds what the storage holds there, if anything.
#[verifier::external_body]
pub(crate) fn storage_item(storage: &AccountStorage, name: &SlotName) -> (item: Option<Word>)
    ensures
        item == (if storage_items_of(*storage).contains_key(name.spec_id()) {
            Some(storage_items_of(*storage)[name.spec_id()])
        } else {
            None
        }),
{
    let name = StorageSlotName::new(name.text.as_str()).unwrap();
    let [a, b, c, d]: [u64; 4] = storage.get_item(&name).ok()?.into();
    Some(Word { a, b, c, d })
}

#[verifier::external_type_specification]
#[verifier::external_body]
pub struct ExAccountStorageDelta(AccountStorageDelta);

/// The new values of value slots that a storage delta holds.
pub uninterp spec fn value_changes_of(delta: AccountStorageDelta) -> Map<SlotId, Word>;

/// The new entries of map slots that a storage delta holds.
pub uninterp spec fn map_changes_of(delta: AccountStorageDelta) -> Map<SlotId, Map<Word, Word>>;

/// Makes a storage delta with `AccountStorageDelta::new`. The claim is that it holds nothing.
#[verifier::external_body]
pub(crate) fn new_storage_delta() -> (delta: AccountStorageDelta)
    ensures
        value_changes_of(delta).dom() == Set::<SlotId>::empty(),
        map_changes_of(delta).dom() == Set::<SlotId>::empty(),
{
    AccountStorageDelta::new()
}

/// Records a slot's new value with `AccountStorageDelta::set_item`. The claims are that it is
/// refused exactly where the delta holds map entries for the slot, and that otherwise it replaces
/// what the delta held of the slot, and nothing else.
#[verifier::external_body]
pub(crate) fn set_item(delta: &mut AccountStorageDelta, name: &SlotName, value: Word) -> (accepted:
    bool)
    requires
        value.is_canonical(),
    ensures
        accepted == !map_changes_of(*old(delta)).contains_key(name.spec_id()),
        value_changes_of(*final(delta)) == (if accepted {
            value_changes_of(*old(delta)).insert(name.spec_id(), value)
        } else {
            value_changes_of(*old(delta))
        }),
        map_changes_of(*final(delta)) == map_changes_of(*old(delta)),
{
    let name = StorageSlotName::new(name.text.as_str()).unwrap();
    let felts = [value.a, value.b, value.c, value.d].map(Felt::new_unchecked);
    delta.set_item(name, ProtocolWord::new(felts)).is_ok()
}

/// The entries that are recorded for a slot; none where nothing is.
pub open spec fn entries_at(changes: Map<SlotId, Map<Word, Word>>, slot: SlotId) -> Map<
    Word,
    Word,
> {
    if changes.contains_key(slot) {
        changes[slot]
    } else {
        Map::empty()
    }
}

/// Records a map entry's new value with `AccountStorageDelta::set_map_item`. The claims are that
/// it is refused exactly where the delta holds a value for the slot, and that otherwise it
/// replaces what the delta held of that entry, and nothing else.
#[verifier::external_body]
pub(crate) fn set_map_item(
    delta: &mut AccountStorageDelta,
    name: &SlotName,
    key: Word,
    value: Word,
) -> (accepted: bool)
    requires
        key.is_canonical(),
        value.is_canonical(),
    ensures
        accepted == !value_changes_of(*old(delta)).contains_key(name.spec_id()),
        map_changes_of(*final(delta)) == (if accepted {
            map_changes_of(*old(delta)).insert(
                name.spec_id(),
                entries_at(map_changes_of(*old(delta)), name.spec_id()).insert(key, value),
            )
        } else {
            map_changes_of(*old(delta))
        }),
        value_changes_of(*final(delta)) == value_changes_of(*old(delta)),
{
    let name = StorageSlotName::new(name.text.as_str()).unwrap();
    let word = |w: Word| ProtocolWord::new([w.a, w.b, w.c, w.d].map(Felt::new_unchecked));
    delta.set_map_item(name, StorageMapKey::from_raw(word(key)), word(value)).is_ok()
}

// VAULT
// ================================================================================================

#[verifier::external_type_specification]
#[verifier::external_body]
pub struct ExAssetVault(AssetVault);

/// The assets that a vault holds, by their keys.
pub uninterp spec fn vault_assets_of(vault: AssetVault) -> Map<Word, Asset>;

/// Lists the assets of a vault with `AssetVault::assets`, in no particular order. The claims are
/// that these are the assets which the vault holds, that each is kept under its own key, and that
/// each is a valid asset.
#[verifier::external_body]
pub(crate) fn vault_assets(vault: &AssetVault) -> (assets: Vec<Asset>)
    ensures
        forall|i: int|
            0 <= i < assets@.len() ==> (#[trigger] assets@[i]).wf() && vault_assets_of(
                *vault,
            ).contains_pair(assets@[i].spec_vault_key(), assets@[i]),
        forall|key: Word| #[trigger]
            vault_assets_of(*vault).contains_key(key) ==> exists|i: int|
                0 <= i < assets@.len() && (#[trigger] assets@[i]).spec_vault_key() == key,
{
    let id = |faucet: ProtocolId| AccountId { raw: faucet.into() };
    vault.assets().map(|asset| match asset {
        ProtocolAsset::Fungible(asset) => {
            let (faucet_id, callbacks) = (id(asset.faucet_id()), asset.callbacks().as_u8() == 1);
            let amount = AssetAmount { value: asset.amount().as_u64() };
            Asset::Fungible(FungibleAsset { faucet_id, amount, callbacks })
        },
        ProtocolAsset::NonFungible(asset) => {
            let (faucet_id, callbacks) = (id(asset.faucet_id()), asset.callbacks().as_u8() == 1);
            let [a, b, c, d] = asset.to_value_word().into();
            let value = Word { a, b, c, d };
            Asset::NonFungible(NonFungibleAsset { faucet_id, value, callbacks })
        },
    }).collect()
}

#[verifier::external_type_specification]
#[verifier::external_body]
pub struct ExAccountVaultDelta(AccountVaultDelta);

/// The changes of balances that a vault delta holds, by the keys of the assets.
pub uninterp spec fn fungible_changes_of(delta: AccountVaultDelta) -> Map<Word, i64>;

/// The other assets that a vault delta holds, by their keys: the asset's value, and whether it
/// was added.
pub uninterp spec fn non_fungible_changes_of(delta: AccountVaultDelta) -> Map<Word, (Word, bool)>;

/// Balance changes after one more. A balance that comes out even is dropped; a change beyond 64
/// bits cannot be held.
pub open spec fn balance_after(changes: Map<Word, i64>, key: Word, change: int) -> Option<
    Map<Word, i64>,
> {
    if !changes.contains_key(key) {
        if change == 0 {
            Some(changes)
        } else {
            Some(changes.insert(key, change as i64))
        }
    } else {
        let sum = changes[key] + change;
        if sum < i64::MIN || sum > i64::MAX {
            None
        } else if sum == 0 {
            Some(changes.remove(key))
        } else {
            Some(changes.insert(key, sum as i64))
        }
    }
}

/// Changes of other assets after one more. An addition and a removal under one key cancel out;
/// two of one kind cannot be held.
pub open spec fn membership_after(
    changes: Map<Word, (Word, bool)>,
    key: Word,
    value: Word,
    added: bool,
) -> Option<Map<Word, (Word, bool)>> {
    if !changes.contains_key(key) {
        Some(changes.insert(key, (value, added)))
    } else if changes[key].1 == added {
        None
    } else {
        Some(changes.remove(key))
    }
}

/// The changes to a vault.
#[verifier::ext_equal]
pub ghost struct VaultChanges {
    pub fungible: Map<Word, i64>,
    pub non_fungible: Map<Word, (Word, bool)>,
}

/// What a vault delta holds.
pub open spec fn vault_changes_of(delta: AccountVaultDelta) -> VaultChanges {
    VaultChanges {
        fungible: fungible_changes_of(delta),
        non_fungible: non_fungible_changes_of(delta),
    }
}

/// Vault changes after one asset more was added or removed.
pub open spec fn vault_after(changes: VaultChanges, asset: Asset, added: bool) -> Option<
    VaultChanges,
> {
    match asset {
        Asset::Fungible(fungible) => {
            let change = if added {
                fungible.amount.value as int
            } else {
                -(fungible.amount.value as int)
            };
            match balance_after(changes.fungible, asset.spec_vault_key(), change) {
                Some(fungible) => Some(VaultChanges { fungible, ..changes }),
                None => None,
            }
        },
        Asset::NonFungible(other) => match membership_after(
            changes.non_fungible,
            asset.spec_vault_key(),
            other.value,
            added,
        ) {
            Some(non_fungible) => Some(VaultChanges { non_fungible, ..changes }),
            None => None,
        },
    }
}

/// Makes a vault delta with `AccountVaultDelta::default`. The claim is that it holds nothing.
#[verifier::external_body]
pub(crate) fn new_vault_delta() -> (delta: AccountVaultDelta)
    ensures
        fungible_changes_of(delta).dom() == Set::<Word>::empty(),
        non_fungible_changes_of(delta).dom() == Set::<Word>::empty(),
{
    AccountVaultDelta::default()
}

#[verifier::external_type_specification]
#[verifier::external_body]
pub struct ExAccountDeltaError(ProtocolError);

/// Records an asset as added, with `AccountVaultDelta::add_asset`. The claims are that the delta
/// takes it exactly where it can hold it, that it then holds that change as well, and that
/// otherwise it holds what it held. What the error of the protocol says is not stated.
#[verifier::external_body]
pub(crate) fn add_asset(delta: &mut AccountVaultDelta, asset: &Asset) -> (outcome: Result<
    (),
    ProtocolError,
>)
    requires
        asset.wf(),
    ensures
        outcome is Ok <==> vault_after(vault_changes_of(*old(delta)), *asset, true) is Some,
        vault_changes_of(*final(delta)) == (match vault_after(
            vault_changes_of(*old(delta)),
            *asset,
            true,
        ) {
            Some(changes) => changes,
            None => vault_changes_of(*old(delta)),
        }),
{
    let w = |w: Word| ProtocolWord::new([w.a, w.b, w.c, w.d].map(Felt::new_unchecked));
    let id = |id: AccountId| ProtocolId::try_from(id.raw).unwrap();
    let (asset, callbacks): (ProtocolAsset, _) = match asset {
        Asset::Fungible(asset) => (
            ProtocolFungible::new(id(asset.faucet_id), asset.amount.value).unwrap().into(),
            asset.callbacks),
        Asset::NonFungible(asset) => (
            ProtocolNonFungible::from_parts(id(asset.faucet_id), w(asset.value)).into(),
            asset.callbacks),
    };
    delta.add_asset(asset.with_callbacks(u8::from(callbacks).try_into().unwrap()))
}

/// Records an asset as removed, with `AccountVaultDelta::remove_asset`. The claims are that the delta
/// takes it exactly where it can hold it, that it then holds that change as well, and that
/// otherwise it holds what it held. What the error of the protocol says is not stated.
#[verifier::external_body]
pub(crate) fn remove_asset(delta: &mut AccountVaultDelta, asset: &Asset) -> (outcome: Result<
    (),
    ProtocolError,
>)
    requires
        asset.wf(),
    ensures
        outcome is Ok <==> vault_after(vault_changes_of(*old(delta)), *asset, false) is Some,
        vault_changes_of(*final(delta)) == (match vault_after(
            vault_changes_of(*old(delta)),
            *asset,
            false,
        ) {
            Some(changes) => changes,
            None => vault_changes_of(*old(delta)),
        }),
{
    let w = |w: Word| ProtocolWord::new([w.a, w.b, w.c, w.d].map(Felt::new_unchecked));
    let id = |id: AccountId| ProtocolId::try_from(id.raw).unwrap();
    let (asset, callbacks): (ProtocolAsset, _) = match asset {
        Asset::Fungible(asset) => (
            ProtocolFungible::new(id(asset.faucet_id), asset.amount.value).unwrap().into(),
            asset.callbacks),
        Asset::NonFungible(asset) => (
            ProtocolNonFungible::from_parts(id(asset.faucet_id), w(asset.value)).into(),
            asset.callbacks),
    };
    delta.remove_asset(asset.with_callbacks(u8::from(callbacks).try_into().unwrap()))
}

/// Slots stand in the order of their prefixes, and with one prefix in that of their suffixes.
pub proof fn law_slots_stand_in_order(left: SlotId, right: SlotId)
    ensures
        left.prefix < right.prefix ==> left.precedes(right),
        left.prefix == right.prefix ==> (left.precedes(right) <==> left.suffix < right.suffix),
{
}

} // verus!
