//! Updates to tracked accounts, and the deltas that incremental updates amount to.
use miden_protocol::account::{AccountStorage, AccountStorageDelta, AccountVaultDelta};
use miden_protocol::asset::AssetVault;
use miden_protocol::errors::AccountDeltaError as ProtocolError;
use vstd::prelude::*;

use crate::account::{
    add_asset, entries_at, map_changes_of, new_storage_delta, new_vault_delta, remove_asset,
    set_item, set_map_item, storage_item, storage_items_of, value_changes_of, vault_after,
    vault_assets, vault_assets_of, vault_changes_of, AccountHeader, SlotId, SlotName, VaultChanges,
};
use crate::asset::{law_key_tells_kind, Asset};
use crate::primitives::{is_account_id, AccountId, BlockNumber, Word};
use crate::sorted_map::{
    as_map, has_key, lemma_entry_in_map, lemma_ordered_entries, lemma_ordered_entries_exist,
    ordered_entries, sorted, Key, SortedMap,
};

verus! {

// INCREMENTAL UPDATES
// ================================================================================================

/// A new value of an entry of a map slot, as of a block.
#[derive(Debug)]
pub struct StorageMapUpdate {
    pub block_num: BlockNumber,
    pub slot_name: SlotName,
    pub key: Word,
    pub value: Word,
}

impl StorageMapUpdate {
    pub open spec fn wf(self) -> bool {
        self.key.is_canonical() && self.value.is_canonical()
    }
}

/// What a vault holds under a key, as of a block; `None` where it holds nothing.
#[derive(Clone, Copy, Debug)]
pub struct AccountVaultUpdate {
    pub block_num: BlockNumber,
    pub asset: Option<Asset>,
    pub vault_key: Word,
}

impl AccountVaultUpdate {
    pub open spec fn wf(self) -> bool {
        self.asset matches Some(asset) ==> asset.wf()
    }
}

/// Why updates do not amount to a delta.
#[derive(Debug)]
pub enum AccountDeltaError {
    /// The new nonce does not come after the local one.
    NonMonotonicNonce { account_id: AccountId, local: u64, new: u64 },
    /// A slot would be changed both as a value and as a map.
    StorageSlotUsedAsDifferentTypes(SlotName),
    /// The vault delta did not take an asset.
    AssetRejected { asset: Asset, source: ProtocolError },
}

// STORAGE
// ================================================================================================

/// An entry of a map slot; slots come before keys in the order.
#[derive(Clone, Copy, Debug, PartialEq, Eq, Structural)]
pub struct SlotEntry {
    pub slot: SlotId,
    pub key: Word,
}

impl Key for SlotEntry {
    open spec fn precedes(self, other: SlotEntry) -> bool {
        self.slot.precedes(other.slot) || (self.slot == other.slot && Key::precedes(
            self.key,
            other.key,
        ))
    }

    proof fn lemma_irreflexive(x: SlotEntry) {
        SlotId::lemma_irreflexive(x.slot);
        <Word as Key>::lemma_irreflexive(x.key);
    }

    proof fn lemma_transitive(x: SlotEntry, y: SlotEntry, z: SlotEntry) {
        if x.slot == y.slot && y.slot == z.slot {
            <Word as Key>::lemma_transitive(x.key, y.key, z.key);
        } else if x.slot != y.slot && y.slot != z.slot {
            SlotId::lemma_transitive(x.slot, y.slot, z.slot);
        }
    }

    proof fn lemma_total(x: SlotEntry, y: SlotEntry) {
        SlotId::lemma_total(x.slot, y.slot);
        <Word as Key>::lemma_total(x.key, y.key);
    }

    fn is_before(&self, other: &SlotEntry) -> bool {
        self.slot.is_before(&other.slot) || (self.slot == other.slot && Key::is_before(
            &self.key,
            &other.key,
        ))
    }
}

/// The value slots whose new value is not the one in a storage, with their new values; of two new
/// values for one slot the later counts.
pub open spec fn changed_values(local: Map<SlotId, Word>, updates: Seq<(SlotName, Word)>) -> Map<
    SlotId,
    Word,
>
    decreases updates.len(),
{
    if updates.len() == 0 {
        Map::empty()
    } else {
        let before = changed_values(local, updates.drop_last());
        let slot = updates.last().0.spec_id();
        let value = updates.last().1;
        if local.contains_key(slot) && local[slot] == value {
            before
        } else {
            before.insert(slot, value)
        }
    }
}

/// The latest update of an entry, by block number; of two in one block the later counts.
pub open spec fn latest_entry(updates: Seq<StorageMapUpdate>, entry: SlotEntry) -> Option<
    (BlockNumber, Word),
>
    decreases updates.len(),
{
    if updates.len() == 0 {
        None
    } else {
        let before = latest_entry(updates.drop_last(), entry);
        let update = updates.last();
        if update.slot_name.spec_id() != entry.slot || update.key != entry.key {
            before
        } else {
            match before {
                Some((block_num, value)) if block_num > update.block_num => before,
                _ => Some((update.block_num, update.value)),
            }
        }
    }
}

/// The latest values of a slot's updated entries.
pub open spec fn latest_values(updates: Seq<StorageMapUpdate>, slot: SlotId) -> Map<Word, Word> {
    Map::new(
        |key: Word| latest_entry(updates, SlotEntry { slot, key }) is Some,
        |key: Word| latest_entry(updates, SlotEntry { slot, key }).unwrap().1,
    )
}

/// Whether some entry of a slot is updated.
pub open spec fn is_slot_updated(updates: Seq<StorageMapUpdate>, slot: SlotId) -> bool {
    exists|key: Word| #[trigger] latest_entry(updates, SlotEntry { slot, key }) is Some
}

/// The latest values of all updated entries, by slot.
pub open spec fn latest_maps(updates: Seq<StorageMapUpdate>) -> Map<SlotId, Map<Word, Word>> {
    Map::new(
        |slot: SlotId| is_slot_updated(updates, slot),
        |slot: SlotId| latest_values(updates, slot),
    )
}

/// Whether a slot would be changed both as a value and as a map.
pub open spec fn is_conflicting(
    local: Map<SlotId, Word>,
    values: Seq<(SlotName, Word)>,
    updates: Seq<StorageMapUpdate>,
    slot: SlotId,
) -> bool {
    changed_values(local, values).contains_key(slot) && is_slot_updated(updates, slot)
}

/// What replaying storage updates gives: the changed value slots and the latest map entries, or
/// the first slot that would be changed both ways.
pub open spec fn is_storage_replay(
    storage: AccountStorage,
    values: Seq<(SlotName, Word)>,
    updates: Seq<StorageMapUpdate>,
    outcome: Result<AccountStorageDelta, AccountDeltaError>,
) -> bool {
    let local = storage_items_of(storage);
    match outcome {
        Ok(delta) => {
            &&& forall|slot: SlotId| !#[trigger] is_conflicting(local, values, updates, slot)
            &&& value_changes_of(delta) == changed_values(local, values)
            &&& map_changes_of(delta) == latest_maps(updates)
        },
        Err(AccountDeltaError::StorageSlotUsedAsDifferentTypes(name)) => {
            &&& is_conflicting(local, values, updates, name.spec_id())
            &&& forall|slot: SlotId| #[trigger]
                is_conflicting(local, values, updates, slot) ==> slot == name.spec_id()
                    || name.spec_id().precedes(slot)
        },
        Err(_) => false,
    }
}

/// For each updated entry, the position of its latest update.
fn index_latest(updates: &Vec<StorageMapUpdate>) -> (latest: SortedMap<SlotEntry, usize>)
    ensures
        latest.wf(),
        forall|entry: SlotEntry| #[trigger]
            latest@.contains_key(entry) == latest_entry(updates@, entry) is Some,
        forall|entry: SlotEntry| #[trigger]
            latest@.contains_key(entry) ==> is_latest(updates@, entry, latest@[entry] as int),
{
    let mut latest: SortedMap<SlotEntry, usize> = SortedMap::new();
    let mut i: usize = 0;
    while i < updates.len()
        invariant
            i <= updates.len(),
            latest.wf(),
            forall|entry: SlotEntry| #[trigger]
                latest@.contains_key(entry) == latest_entry(
                    updates@.take(i as int),
                    entry,
                ) is Some,
            forall|entry: SlotEntry| #[trigger]
                latest@.contains_key(entry) ==> is_latest(
                    updates@.take(i as int),
                    entry,
                    latest@[entry] as int,
                ),
        decreases updates.len() - i,
    {
        let update = &updates[i];
        let entry = SlotEntry { slot: update.slot_name.id(), key: update.key };
        let ghost held = latest@;
        let ghost taken = updates@.take(i as int);
        let ghost grown = updates@.take(i + 1);
        proof {
            assert(grown.drop_last() =~= taken);
            assert(grown.last() == *update);
            assert forall|j: int| 0 <= j < i implies grown[j] == taken[j] by {}
        }
        let newer = match latest.get(&entry) {
            Some(held) => {
                assert(is_latest(taken, entry, *held as int));
                updates[*held].block_num <= update.block_num
            },
            None => true,
        };
        if newer {
            latest.insert(entry, i);
        }
        proof {
            assert forall|other: SlotEntry| #[trigger] latest@.contains_key(other) implies is_latest(
                grown,
                other,
                latest@[other] as int,
            ) by {
                if other != entry {
                    assert(held.contains_key(other));
                    assert(is_latest(taken, other, held[other] as int));
                } else if held.contains_key(other) {
                    assert(is_latest(taken, other, held[other] as int));
                }
            }
            assert forall|other: SlotEntry| #[trigger]
                latest@.contains_key(other) == latest_entry(grown, other) is Some by {
                assert(held.contains_key(other) == latest_entry(taken, other) is Some);
            }
        }
        i += 1;
    }
    assert(updates@.take(updates@.len() as int) =~= updates@);
    latest
}

/// Whether the update at a position is the latest one of an entry.
pub open spec fn is_latest(updates: Seq<StorageMapUpdate>, entry: SlotEntry, i: int) -> bool {
    &&& 0 <= i < updates.len()
    &&& updates[i].slot_name.spec_id() == entry.slot
    &&& updates[i].key == entry.key
    &&& latest_entry(updates, entry) == Some((updates[i].block_num, updates[i].value))
}

/// Whether some of the first entries are of a slot.
spec fn is_slot_among(entries: Seq<(SlotEntry, usize)>, slot: SlotId) -> bool {
    exists|j: int| 0 <= j < entries.len() && (#[trigger] entries[j]).0.slot == slot
}

/// What a storage delta holds once the latest updates of the first entries are recorded.
spec fn are_recorded(
    updates: Seq<StorageMapUpdate>,
    entries: Seq<(SlotEntry, usize)>,
    changes: Map<SlotId, Map<Word, Word>>,
) -> bool {
    &&& forall|slot: SlotId| #[trigger] changes.contains_key(slot) == is_slot_among(entries, slot)
    &&& forall|slot: SlotId, key: Word| #[trigger]
        entries_at(changes, slot).contains_key(key) == has_key(entries, SlotEntry { slot, key })
    &&& forall|j: int|
        0 <= j < entries.len() ==> entries_at(changes, (#[trigger] entries[j]).0.slot).contains_pair(
            entries[j].0.key,
            updates[entries[j].1 as int].value,
        )
}

proof fn lemma_record(
    updates: Seq<StorageMapUpdate>,
    entries: Seq<(SlotEntry, usize)>,
    changes: Map<SlotId, Map<Word, Word>>,
    k: int,
)
    requires
        sorted(entries),
        0 <= k < entries.len(),
        are_recorded(updates, entries.take(k), changes),
    ensures
        are_recorded(
            updates,
            entries.take(k + 1),
            changes.insert(
                entries[k].0.slot,
                entries_at(changes, entries[k].0.slot).insert(
                    entries[k].0.key,
                    updates[entries[k].1 as int].value,
                ),
            ),
        ),
{
    let before = entries.take(k);
    let after = entries.take(k + 1);
    let entry = entries[k].0;
    let value = updates[entries[k].1 as int].value;
    let grown = changes.insert(entry.slot, entries_at(changes, entry.slot).insert(entry.key, value));
    assert(after[k] == entries[k]);
    assert forall|slot: SlotId| #[trigger]
        grown.contains_key(slot) == is_slot_among(after, slot) by {
        if is_slot_among(before, slot) {
            let j = choose|j: int| 0 <= j < before.len() && (#[trigger] before[j]).0.slot == slot;
            assert(after[j].0.slot == slot);
        }
        if is_slot_among(after, slot) {
            let j = choose|j: int| 0 <= j < after.len() && (#[trigger] after[j]).0.slot == slot;
            if j < k {
                assert(before[j].0.slot == slot);
            }
        }
        assert(changes.contains_key(slot) == is_slot_among(before, slot));
    }
    assert forall|slot: SlotId, key: Word| #[trigger]
        entries_at(grown, slot).contains_key(key) == has_key(after, SlotEntry { slot, key }) by {
        assert(entries_at(changes, slot).contains_key(key) == has_key(
            before,
            SlotEntry { slot, key },
        ));
        if has_key(before, SlotEntry { slot, key }) {
            let j = choose|j: int|
                0 <= j < before.len() && (#[trigger] before[j]).0 == (SlotEntry { slot, key });
            assert(after[j].0 == (SlotEntry { slot, key }));
        }
        if has_key(after, SlotEntry { slot, key }) {
            let j = choose|j: int|
                0 <= j < after.len() && (#[trigger] after[j]).0 == (SlotEntry { slot, key });
            if j < k {
                assert(before[j].0 == (SlotEntry { slot, key }));
            }
        }
    }
    assert forall|j: int| 0 <= j < after.len() implies entries_at(
        grown,
        (#[trigger] after[j]).0.slot,
    ).contains_pair(after[j].0.key, updates[after[j].1 as int].value) by {
        if j < k {
            assert(after[j] == before[j]);
            assert(entries[j].0.precedes(entries[k].0));
            SlotEntry::lemma_irreflexive(entry);
            assert(entries_at(changes, before[j].0.slot).contains_pair(
                before[j].0.key,
                updates[before[j].1 as int].value,
            ));
        }
    }
}

/// Computes the storage delta that updates amount to, over a local storage. Value slots count
/// where their value changes; of each map entry the latest value counts.
pub fn replay_storage_updates(
    local_storage: &AccountStorage,
    value_slot_updates: &Vec<(SlotName, Word)>,
    storage_map_updates: &Vec<StorageMapUpdate>,
) -> (outcome: Result<AccountStorageDelta, AccountDeltaError>)
    requires
        forall|i: int|
            0 <= i < value_slot_updates@.len() ==> (
            #[trigger] value_slot_updates@[i]).1.is_canonical(),
        forall|i: int|
            0 <= i < storage_map_updates@.len() ==> (#[trigger] storage_map_updates@[i]).wf(),
    ensures
        is_storage_replay(
            *local_storage,
            value_slot_updates@,
            storage_map_updates@,
            outcome,
        ),
{
    let ghost local = storage_items_of(*local_storage);
    let ghost values = value_slot_updates@;
    let ghost updates = storage_map_updates@;
    let mut delta = new_storage_delta();
    assert(value_changes_of(delta) =~= changed_values(local, values.take(0)));
    assert(map_changes_of(delta) =~= Map::empty());
    let mut i: usize = 0;
    while i < value_slot_updates.len()
        invariant
            i <= value_slot_updates.len(),
            values == value_slot_updates@,
            local == storage_items_of(*local_storage),
            forall|j: int| 0 <= j < values.len() ==> (#[trigger] values[j]).1.is_canonical(),
            value_changes_of(delta) == changed_values(local, values.take(i as int)),
            map_changes_of(delta) == Map::<SlotId, Map<Word, Word>>::empty(),
        decreases value_slot_updates.len() - i,
    {
        proof {
            assert(values.take(i + 1).drop_last() =~= values.take(i as int));
            assert(values.take(i + 1).last() == values[i as int]);
        }
        let name = &value_slot_updates[i].0;
        let value = value_slot_updates[i].1;
        let changed = match storage_item(local_storage, name) {
            Some(item) => item != value,
            None => true,
        };
        if changed {
            let accepted = set_item(&mut delta, name, value);
            assert(accepted);
        }
        i += 1;
    }
    assert(values.take(values.len() as int) =~= values);
    let latest = index_latest(storage_map_updates);
    let ghost entries = latest.entries@;
    assert(are_recorded(updates, entries.take(0), map_changes_of(delta)));
    let mut k: usize = 0;
    while k < latest.entries.len()
        invariant
            k <= latest.entries.len(),
            latest.wf(),
            entries == latest.entries@,
            updates == storage_map_updates@,
            values == value_slot_updates@,
            local == storage_items_of(*local_storage),
            forall|j: int| 0 <= j < updates.len() ==> (#[trigger] updates[j]).wf(),
            forall|entry: SlotEntry| #[trigger]
                latest@.contains_key(entry) == latest_entry(updates, entry) is Some,
            forall|entry: SlotEntry| #[trigger]
                latest@.contains_key(entry) ==> is_latest(updates, entry, latest@[entry] as int),
            value_changes_of(delta) == changed_values(local, values),
            are_recorded(updates, entries.take(k as int), map_changes_of(delta)),
            forall|j: int|
                0 <= j < k ==> !changed_values(local, values).contains_key(
                    (#[trigger] entries[j]).0.slot,
                ),
        decreases latest.entries.len() - k,
    {
        let entry = latest.entries[k].0;
        let at: usize = latest.entries[k].1;
        proof {
            lemma_entry_in_map(entries, k as int);
            assert(latest@.contains_key(entry));
            assert(latest@[entry] == at);
            assert(is_latest(updates, entry, at as int));
            lemma_record(updates, entries, map_changes_of(delta), k as int);
        }
        let update = &storage_map_updates[at];
        if !set_map_item(&mut delta, &update.slot_name, update.key, update.value) {
            proof {
                assert(latest_entry(
                    updates,
                    SlotEntry { slot: entry.slot, key: entry.key },
                ) is Some);
                assert(is_conflicting(local, values, updates, entry.slot));
                assert forall|slot: SlotId| #[trigger]
                    is_conflicting(local, values, updates, slot) implies slot == entry.slot
                    || entry.slot.precedes(slot) by {
                    lemma_updated_slot(updates, latest, slot);
                    let j = choose|j: int|
                        0 <= j < entries.len() && (#[trigger] entries[j]).0.slot == slot;
                    if j > k {
                        assert(entries[k as int].0.precedes(entries[j].0));
                    }
                }
            }
            return Err(
                AccountDeltaError::StorageSlotUsedAsDifferentTypes(update.slot_name.clone()),
            );
        }
        k += 1;
    }
    proof {
        assert(entries.take(entries.len() as int) =~= entries);
        let changes = map_changes_of(delta);
        assert forall|slot: SlotId| changes.contains_key(slot) == is_slot_updated(
            updates,
            slot,
        ) by {
            assert(changes.contains_key(slot) == is_slot_among(entries, slot));
            if is_slot_updated(updates, slot) {
                lemma_updated_slot(updates, latest, slot);
            }
            if is_slot_among(entries, slot) {
                let j = choose|j: int|
                    0 <= j < entries.len() && (#[trigger] entries[j]).0.slot == slot;
                lemma_entry_in_map(entries, j);
                let key = entries[j].0.key;
                assert(latest@.contains_key(entries[j].0));
                assert(latest_entry(updates, SlotEntry { slot, key }) is Some);
            }
        }
        assert forall|slot: SlotId| changes.contains_key(slot) implies changes[slot]
            == latest_values(updates, slot) by {
            let held = entries_at(changes, slot);
            let expected = latest_values(updates, slot);
            assert forall|key: Word| held.contains_key(key) == expected.contains_key(key) by {
                assert(held.contains_key(key) == has_key(entries, SlotEntry { slot, key }));
                assert(latest@.contains_key(SlotEntry { slot, key }) == latest_entry(
                    updates,
                    SlotEntry { slot, key },
                ) is Some);
            }
            assert forall|key: Word| held.contains_key(key) implies held[key] == expected[key] by {
                let entry = SlotEntry { slot, key };
                assert(has_key(entries, entry));
                let j = choose|j: int| 0 <= j < entries.len() && (#[trigger] entries[j]).0 == entry;
                lemma_entry_in_map(entries, j);
                assert(is_latest(updates, entry, latest@[entry] as int));
                assert(entries_at(changes, entries[j].0.slot).contains_pair(
                    entries[j].0.key,
                    updates[entries[j].1 as int].value,
                ));
            }
            assert(held =~= expected);
        }
        assert(changes =~= latest_maps(updates));
        assert forall|slot: SlotId| !#[trigger] is_conflicting(local, values, updates, slot) by {
            if is_conflicting(local, values, updates, slot) {
                lemma_updated_slot(updates, latest, slot);
                let j = choose|j: int|
                    0 <= j < entries.len() && (#[trigger] entries[j]).0.slot == slot;
            }
        }
    }
    Ok(delta)
}

proof fn lemma_updated_slot(
    updates: Seq<StorageMapUpdate>,
    latest: SortedMap<SlotEntry, usize>,
    slot: SlotId,
)
    requires
        latest.wf(),
        forall|entry: SlotEntry| #[trigger]
            latest@.contains_key(entry) == latest_entry(updates, entry) is Some,
        is_slot_updated(updates, slot),
    ensures
        is_slot_among(latest.entries@, slot),
        exists|j: int|
            0 <= j < latest.entries@.len() && (#[trigger] latest.entries@[j]).0.slot == slot,
{
    let key = choose|key: Word| #[trigger]
        latest_entry(updates, SlotEntry { slot, key }) is Some;
    let entry = SlotEntry { slot, key };
    assert(latest@.contains_key(entry));
    assert(has_key(latest.entries@, entry));
    let j = choose|j: int|
        0 <= j < latest.entries@.len() && (#[trigger] latest.entries@[j]).0 == entry;
    assert(latest.entries@[j].0.slot == slot);
}

// VAULT
// ================================================================================================

/// The latest update under a key, by block number; of two in one block the later counts.
pub open spec fn latest_asset(updates: Seq<AccountVaultUpdate>, key: Word) -> Option<
    (BlockNumber, Option<Asset>),
>
    decreases updates.len(),
{
    if updates.len() == 0 {
        None
    } else {
        let before = latest_asset(updates.drop_last(), key);
        let update = updates.last();
        if update.vault_key != key {
            before
        } else {
            match before {
                Some((block_num, _)) if block_num > update.block_num => before,
                _ => Some((update.block_num, update.asset)),
            }
        }
    }
}

/// What a vault holds once the latest update under each key took effect.
pub open spec fn final_vault(local: Map<Word, Asset>, updates: Seq<AccountVaultUpdate>) -> Map<
    Word,
    Asset,
> {
    Map::new(
        |key: Word|
            match latest_asset(updates, key) {
                Some((_, asset)) => asset is Some,
                None => local.contains_key(key),
            },
        |key: Word|
            match latest_asset(updates, key) {
                Some((_, Some(asset))) => asset,
                _ => local[key],
            },
    )
}

/// The removal and the addition that bring about what a vault finally holds under a key.
pub open spec fn changes_at(local: Map<Word, Asset>, key: Word, asset: Asset) -> Seq<
    (Asset, bool),
> {
    if !local.contains_key(key) {
        seq![(asset, true)]
    } else if local[key] != asset {
        seq![(local[key], false), (asset, true)]
    } else {
        Seq::empty()
    }
}

/// The changes under some keys, in order.
pub open spec fn changes_to(local: Map<Word, Asset>, entries: Seq<(Word, Asset)>) -> Seq<
    (Asset, bool),
>
    decreases entries.len(),
{
    if entries.len() == 0 {
        Seq::empty()
    } else {
        changes_to(local, entries.drop_last()) + changes_at(
            local,
            entries.last().0,
            entries.last().1,
        )
    }
}

/// The removals of what a vault finally holds no longer, in order.
pub open spec fn removals(kept: Map<Word, Asset>, entries: Seq<(Word, Asset)>) -> Seq<
    (Asset, bool),
>
    decreases entries.len(),
{
    if entries.len() == 0 {
        Seq::empty()
    } else if kept.contains_key(entries.last().0) {
        removals(kept, entries.drop_last())
    } else {
        removals(kept, entries.drop_last()).push((entries.last().1, false))
    }
}

/// The additions and removals that lead from one content of a vault to another: first those of
/// the keys that are finally there, then those of the keys that are gone, each in key order.
pub open spec fn vault_steps(local: Map<Word, Asset>, fin: Map<Word, Asset>) -> Seq<(Asset, bool)> {
    changes_to(local, ordered_entries(fin)) + removals(fin, ordered_entries(local))
}

/// What recording additions and removals one after the other gives: the changes, or the first
/// asset that could not be recorded.
pub open spec fn recorded(steps: Seq<(Asset, bool)>) -> Result<VaultChanges, Asset>
    decreases steps.len(),
{
    if steps.len() == 0 {
        Ok(VaultChanges { fungible: Map::empty(), non_fungible: Map::empty() })
    } else {
        match recorded(steps.drop_last()) {
            Err(asset) => Err(asset),
            Ok(changes) => match vault_after(changes, steps.last().0, steps.last().1) {
                Some(changes) => Ok(changes),
                None => Err(steps.last().0),
            },
        }
    }
}

/// What replaying vault updates gives.
pub open spec fn is_vault_replay(
    vault: AssetVault,
    updates: Seq<AccountVaultUpdate>,
    outcome: Result<AccountVaultDelta, AccountDeltaError>,
) -> bool {
    let local = vault_assets_of(vault);
    match recorded(vault_steps(local, final_vault(local, updates))) {
        Ok(changes) => outcome matches Ok(delta) && vault_changes_of(delta) == changes,
        Err(rejected) => outcome matches Err(AccountDeltaError::AssetRejected { asset, source: _ })
            && asset == rejected,
    }
}

/// The assets of a vault by their keys.
fn collect_vault(vault: &AssetVault) -> (assets: SortedMap<Word, Asset>)
    ensures
        assets.wf(),
        assets@ == vault_assets_of(*vault),
        forall|key: Word| #[trigger] assets@.contains_key(key) ==> assets@[key].wf(),
{
    let listed = vault_assets(vault);
    let ghost contents = vault_assets_of(*vault);
    let mut assets: SortedMap<Word, Asset> = SortedMap::new();
    let mut i: usize = 0;
    while i < listed.len()
        invariant
            i <= listed.len(),
            assets.wf(),
            forall|j: int|
                0 <= j < listed@.len() ==> (#[trigger] listed@[j]).wf() && contents.contains_pair(
                    listed@[j].spec_vault_key(),
                    listed@[j],
                ),
            forall|j: int|
                0 <= j < i ==> assets@.contains_key((#[trigger] listed@[j]).spec_vault_key()),
            forall|key: Word| #[trigger]
                assets@.contains_key(key) ==> contents.contains_pair(key, assets@[key])
                    && assets@[key].wf(),
        decreases listed.len() - i,
    {
        let asset = listed[i];
        assets.insert(asset.vault_key(), asset);
        i += 1;
    }
    proof {
        assert forall|key: Word| contents.contains_key(key) implies assets@.contains_key(key) by {
            let j = choose|j: int|
                0 <= j < listed@.len() && (#[trigger] listed@[j]).spec_vault_key() == key;
            assert(assets@.contains_key(listed@[j].spec_vault_key()));
        }
        assert(assets@ =~= contents);
    }
    assets
}

/// The latest update under each key.
fn latest_assets(updates: &Vec<AccountVaultUpdate>) -> (latest: SortedMap<
    Word,
    (BlockNumber, Option<Asset>),
>)
    requires
        forall|i: int| 0 <= i < updates@.len() ==> (#[trigger] updates@[i]).wf(),
    ensures
        latest.wf(),
        forall|key: Word|
            latest_asset(updates@, key) == (if #[trigger] latest@.contains_key(key) {
                Some(latest@[key])
            } else {
                None
            }),
        forall|key: Word| #[trigger]
            latest@.contains_key(key) ==> (latest@[key].1 matches Some(asset) ==> asset.wf()),
{
    let mut latest: SortedMap<Word, (BlockNumber, Option<Asset>)> = SortedMap::new();
    let mut i: usize = 0;
    while i < updates.len()
        invariant
            i <= updates.len(),
            latest.wf(),
            forall|j: int| 0 <= j < updates@.len() ==> (#[trigger] updates@[j]).wf(),
            forall|key: Word|
                latest_asset(updates@.take(i as int), key) == (
                if #[trigger] latest@.contains_key(key) {
                    Some(latest@[key])
                } else {
                    None
                }),
            forall|key: Word| #[trigger]
                latest@.contains_key(key) ==> (latest@[key].1 matches Some(asset) ==> asset.wf()),
        decreases updates.len() - i,
    {
        let update = updates[i];
        let ghost held = latest@;
        proof {
            assert(updates@.take(i + 1).drop_last() =~= updates@.take(i as int));
            assert(updates@.take(i + 1).last() == update);
        }
        let newer = match latest.get(&update.vault_key) {
            Some(entry) => entry.0 <= update.block_num,
            None => true,
        };
        if newer {
            latest.insert(update.vault_key, (update.block_num, update.asset));
        }
        assert forall|key: Word|
            latest_asset(updates@.take(i + 1), key) == (if #[trigger] latest@.contains_key(key) {
                Some(latest@[key])
            } else {
                None
            }) by {
            assert(latest_asset(updates@.take(i as int), key) == (if held.contains_key(key) {
                Some(held[key])
            } else {
                None
            }));
        }
        i += 1;
    }
    assert(updates@.take(updates@.len() as int) =~= updates@);
    latest
}

/// What a vault holds once updates took effect.
fn apply_vault_updates(vault: &AssetVault, updates: &Vec<AccountVaultUpdate>) -> (fin: SortedMap<
    Word,
    Asset,
>)
    requires
        forall|i: int| 0 <= i < updates@.len() ==> (#[trigger] updates@[i]).wf(),
    ensures
        fin.wf(),
        fin@ == final_vault(vault_assets_of(*vault), updates@),
        forall|key: Word| #[trigger] fin@.contains_key(key) ==> fin@[key].wf(),
{
    let mut fin = collect_vault(vault);
    let ghost local = fin@;
    let latest = latest_assets(updates);
    let ghost entries = latest.entries@;
    let mut k: usize = 0;
    while k < latest.entries.len()
        invariant
            k <= latest.entries.len(),
            latest.wf(),
            fin.wf(),
            entries == latest.entries@,
            forall|key: Word| #[trigger]
                latest@.contains_key(key) ==> (latest@[key].1 matches Some(asset) ==> asset.wf()),
            forall|key: Word| #[trigger] fin@.contains_key(key) ==> fin@[key].wf(),
            forall|j: int|
                0 <= j < k ==> match (#[trigger] entries[j]).1.1 {
                    Some(asset) => fin@.contains_pair(entries[j].0, asset),
                    None => !fin@.contains_key(entries[j].0),
                },
            forall|key: Word|
                !has_key(entries.take(k as int), key) ==> fin@.contains_key(key)
                    == #[trigger] local.contains_key(key) && (fin@.contains_key(key) ==> fin@[key]
                    == local[key]),
        decreases latest.entries.len() - k,
    {
        let key = latest.entries[k].0;
        let ghost before = fin@;
        proof {
            lemma_entry_in_map(entries, k as int);
            assert(latest@.contains_key(key));
            assert(entries.take(k + 1)[k as int].0 == key);
            assert forall|other: Word| !has_key(entries.take(k + 1), other) implies !has_key(
                entries.take(k as int),
                other,
            ) && other != key by {
                if has_key(entries.take(k as int), other) {
                    let j = choose|j: int|
                        0 <= j < k && (#[trigger] entries.take(k as int)[j]).0 == other;
                    assert(entries.take(k + 1)[j].0 == other);
                }
                if other == key {
                    assert(has_key(entries.take(k + 1), key));
                }
            }
            assert forall|j: int| 0 <= j < k implies (#[trigger] entries[j]).0 != key by {
                assert(entries[j].0.precedes(entries[k as int].0));
                <Word as Key>::lemma_irreflexive(key);
            }
        }
        match latest.entries[k].1.1 {
            Some(asset) => {
                fin.insert(key, asset);
            },
            None => {
                fin.remove(&key);
            },
        }
        proof {
            assert forall|other: Word| !has_key(entries.take(k + 1), other) implies fin@.contains_key(
                other,
            ) == #[trigger] local.contains_key(other) && (fin@.contains_key(other) ==> fin@[other]
                == local[other]) by {
                assert(!has_key(entries.take(k as int), other) && other != key);
                assert(before.contains_key(other) == local.contains_key(other));
            }
            let next = k + 1;
            assert(entries.take(next as int) == entries.take(k + 1));
        }
        k += 1;
    }
    proof {
        let expected = final_vault(local, updates@);
        assert(entries.take(entries.len() as int) =~= entries);
        assert forall|key: Word|
            #![trigger fin@.contains_key(key)]
            #![trigger expected.contains_key(key)]
            fin@.contains_key(key) == expected.contains_key(key) && (fin@.contains_key(key)
                ==> fin@[key] == expected[key]) by {
            assert(latest@.contains_key(key) == has_key(entries, key));
            if has_key(entries, key) {
                let j = choose|j: int| 0 <= j < entries.len() && (#[trigger] entries[j]).0 == key;
                lemma_entry_in_map(entries, j);
                assert(latest@[key] == entries[j].1);
            } else {
                assert(fin@.contains_key(key) == local.contains_key(key));
            }
        }
        assert(fin@ =~= expected);
    }
    fin
}

/// The additions and removals that lead from one content of a vault to another.
fn list_steps(local: &SortedMap<Word, Asset>, fin: &SortedMap<Word, Asset>) -> (steps: Vec<
    (Asset, bool),
>)
    requires
        local.wf(),
        fin.wf(),
        forall|key: Word| #[trigger] local@.contains_key(key) ==> local@[key].wf(),
        forall|key: Word| #[trigger] fin@.contains_key(key) ==> fin@[key].wf(),
    ensures
        steps@ == vault_steps(local@, fin@),
        forall|i: int| 0 <= i < steps@.len() ==> (#[trigger] steps@[i]).0.wf(),
{
    let mut steps: Vec<(Asset, bool)> = Vec::new();
    let mut i: usize = 0;
    while i < fin.entries.len()
        invariant
            i <= fin.entries.len(),
            local.wf(),
            fin.wf(),
            forall|key: Word| #[trigger] local@.contains_key(key) ==> local@[key].wf(),
            forall|key: Word| #[trigger] fin@.contains_key(key) ==> fin@[key].wf(),
            steps@ == changes_to(local@, fin.entries@.take(i as int)),
            forall|j: int| 0 <= j < steps@.len() ==> (#[trigger] steps@[j]).0.wf(),
        decreases fin.entries.len() - i,
    {
        let key = fin.entries[i].0;
        let asset = fin.entries[i].1;
        let ghost before = steps@;
        proof {
            assert(fin.entries@.take(i + 1).drop_last() =~= fin.entries@.take(i as int));
            assert(fin.entries@.take(i + 1).last() == fin.entries@[i as int]);
            lemma_entry_in_map(fin.entries@, i as int);
            assert(fin@.contains_key(key));
        }
        match local.get(&key) {
            None => {
                steps.push((asset, true));
            },
            Some(held) => {
                if *held != asset {
                    steps.push((*held, false));
                    steps.push((asset, true));
                }
            },
        }
        assert(steps@ =~= before + changes_at(local@, key, asset));
        i += 1;
    }
    assert(fin.entries@.take(fin.entries@.len() as int) =~= fin.entries@);
    let ghost changes = steps@;
    let mut k: usize = 0;
    assert(changes + removals(fin@, local.entries@.take(0)) =~= changes);
    while k < local.entries.len()
        invariant
            k <= local.entries.len(),
            local.wf(),
            fin.wf(),
            forall|key: Word| #[trigger] local@.contains_key(key) ==> local@[key].wf(),
            steps@ == changes + removals(fin@, local.entries@.take(k as int)),
            forall|j: int| 0 <= j < steps@.len() ==> (#[trigger] steps@[j]).0.wf(),
        decreases local.entries.len() - k,
    {
        proof {
            assert(local.entries@.take(k + 1).drop_last() =~= local.entries@.take(k as int));
            assert(local.entries@.take(k + 1).last() == local.entries@[k as int]);
            lemma_entry_in_map(local.entries@, k as int);
            assert(local@.contains_key(local.entries@[k as int].0));
        }
        let ghost before = removals(fin@, local.entries@.take(k as int));
        if !fin.contains_key(&local.entries[k].0) {
            let gone = (local.entries[k].1, false);
            steps.push(gone);
            assert((changes + before).push(gone) =~= changes + before.push(gone));
        }
        k += 1;
    }
    proof {
        assert(local.entries@.take(local.entries@.len() as int) =~= local.entries@);
        lemma_ordered_entries(local.entries@);
        lemma_ordered_entries(fin.entries@);
    }
    steps
}

/// Computes the vault delta that updates amount to, over a local vault. Under each key the latest
/// update counts; what is recorded is the difference between what the vault held and what it
/// finally holds.
pub fn replay_vault_updates(
    local_vault: &AssetVault,
    vault_updates: &Vec<AccountVaultUpdate>,
) -> (outcome: Result<AccountVaultDelta, AccountDeltaError>)
    requires
        forall|i: int| 0 <= i < vault_updates@.len() ==> (#[trigger] vault_updates@[i]).wf(),
    ensures
        is_vault_replay(*local_vault, vault_updates@, outcome),
{
    let local = collect_vault(local_vault);
    let fin = apply_vault_updates(local_vault, vault_updates);
    let steps = list_steps(&local, &fin);
    let mut delta = new_vault_delta();
    let mut i: usize = 0;
    assert(recorded(steps@.take(0)) == Ok::<VaultChanges, Asset>(vault_changes_of(delta))) by {
        assert(vault_changes_of(delta) =~= VaultChanges {
            fungible: Map::empty(),
            non_fungible: Map::empty(),
        });
    }
    while i < steps.len()
        invariant
            i <= steps.len(),
            forall|j: int| 0 <= j < steps@.len() ==> (#[trigger] steps@[j]).0.wf(),
            recorded(steps@.take(i as int)) == Ok::<VaultChanges, Asset>(vault_changes_of(delta)),
            steps@ == vault_steps(
                vault_assets_of(*local_vault),
                final_vault(vault_assets_of(*local_vault), vault_updates@),
            ),
        decreases steps.len() - i,
    {
        let (asset, added) = steps[i];
        proof {
            assert(steps@.take(i + 1).drop_last() =~= steps@.take(i as int));
            assert(steps@.take(i + 1).last() == steps@[i as int]);
        }
        let taken = if added {
            add_asset(&mut delta, &asset)
        } else {
            remove_asset(&mut delta, &asset)
        };
        if let Err(source) = taken {
            proof {
                lemma_rejection_stays(steps@, i + 1);
            }
            return Err(AccountDeltaError::AssetRejected { asset, source });
        }
        i += 1;
    }
    assert(steps@.take(steps@.len() as int) =~= steps@);
    Ok(delta)
}

/// Once an asset could not be recorded, what comes later does not matter.
proof fn lemma_rejection_stays(steps: Seq<(Asset, bool)>, n: int)
    requires
        0 <= n <= steps.len(),
        recorded(steps.take(n)) is Err,
    ensures
        recorded(steps) == recorded(steps.take(n)),
    decreases steps.len() - n,
{
    if n < steps.len() {
        assert(steps.take(n + 1).drop_last() =~= steps.take(n));
        lemma_rejection_stays(steps, n + 1);
    } else {
        assert(steps.take(n) =~= steps);
    }
}

/// Whether each asset is kept under its own key.
pub open spec fn well_keyed(assets: Map<Word, Asset>) -> bool {
    forall|key: Word| #[trigger]
        assets.contains_key(key) ==> assets[key].spec_vault_key() == key && assets[key].wf()
            && is_account_id(assets[key].spec_faucet_id()@)
}

/// How much of a fungible asset is kept under a key.
pub open spec fn balance(assets: Map<Word, Asset>, key: Word) -> int {
    if assets.contains_key(key) {
        match assets[key] {
            Asset::Fungible(asset) => asset.amount.value as int,
            Asset::NonFungible(_) => 0,
        }
    } else {
        0
    }
}

/// The value of another asset that is kept under a key.
pub open spec fn token(assets: Map<Word, Asset>, key: Word) -> Option<Word> {
    if assets.contains_key(key) {
        match assets[key] {
            Asset::Fungible(_) => None,
            Asset::NonFungible(asset) => Some(asset.value),
        }
    } else {
        None
    }
}

/// The difference between two contents of a vault, under some keys: the balances that differ,
/// with the difference, and the other assets that only one of the two has.
pub open spec fn difference_at(
    local: Map<Word, Asset>,
    fin: Map<Word, Asset>,
    keys: Set<Word>,
) -> VaultChanges {
    VaultChanges {
        fungible: Map::new(
            |key: Word| keys.contains(key) && balance(fin, key) != balance(local, key),
            |key: Word| (balance(fin, key) - balance(local, key)) as i64,
        ),
        non_fungible: Map::new(
            |key: Word| keys.contains(key) && token(fin, key) is Some != token(local, key) is Some,
            |key: Word|
                match token(fin, key) {
                    Some(value) => (value, true),
                    None => (token(local, key).unwrap(), false),
                },
        ),
    }
}

/// The difference between two contents of a vault.
pub open spec fn difference(local: Map<Word, Asset>, fin: Map<Word, Asset>) -> VaultChanges {
    difference_at(local, fin, Set::full())
}

spec fn keys_of(entries: Seq<(Word, Asset)>) -> Set<Word> {
    Set::new(|key: Word| has_key(entries, key))
}

proof fn lemma_keys_grow(entries: Seq<(Word, Asset)>, n: int)
    requires
        0 <= n < entries.len(),
    ensures
        keys_of(entries.take(n + 1)) == keys_of(entries.take(n)).insert(entries[n].0),
{
    let before = entries.take(n);
    let after = entries.take(n + 1);
    assert forall|key: Word| has_key(after, key) == (has_key(before, key) || key
        == entries[n].0) by {
        if has_key(before, key) {
            let j = choose|j: int| 0 <= j < before.len() && (#[trigger] before[j]).0 == key;
            assert(after[j].0 == key);
        }
        if has_key(after, key) {
            let j = choose|j: int| 0 <= j < after.len() && (#[trigger] after[j]).0 == key;
            if j < n {
                assert(before[j].0 == key);
            }
        }
        assert(after[n].0 == entries[n].0);
    }
    assert(keys_of(after) =~= keys_of(before).insert(entries[n].0));
}

proof fn lemma_recorded_push(steps: Seq<(Asset, bool)>, step: (Asset, bool))
    requires
        recorded(steps) is Ok,
    ensures
        recorded(steps.push(step)) == (match vault_after(
            recorded(steps)->Ok_0,
            step.0,
            step.1,
        ) {
            Some(changes) => Ok::<VaultChanges, Asset>(changes),
            None => Err(step.0),
        }),
{
    assert(steps.push(step).drop_last() =~= steps);
}

/// The changes at one more key bring about the difference at that key.
proof fn lemma_changes_at(
    local: Map<Word, Asset>,
    fin: Map<Word, Asset>,
    keys: Set<Word>,
    steps: Seq<(Asset, bool)>,
    key: Word,
)
    requires
        well_keyed(local),
        well_keyed(fin),
        fin.contains_key(key),
        !keys.contains(key),
        recorded(steps) == Ok::<VaultChanges, Asset>(difference_at(local, fin, keys)),
    ensures
        recorded(steps + changes_at(local, key, fin[key])) == Ok::<VaultChanges, Asset>(
            difference_at(local, fin, keys.insert(key)),
        ),
{
    let before = difference_at(local, fin, keys);
    let after = difference_at(local, fin, keys.insert(key));
    let asset = fin[key];
    assert(asset.spec_vault_key() == key);
    if !local.contains_key(key) {
        assert(steps + changes_at(local, key, asset) =~= steps.push((asset, true)));
        lemma_recorded_push(steps, (asset, true));
        assert(vault_after(before, asset, true) == Some(after)) by {
            assert(vault_after(before, asset, true).unwrap() =~= after);
        }
    } else if local[key] != asset {
        let held = local[key];
        law_key_tells_kind(held, asset);
        let removed = steps.push((held, false));
        assert(steps + changes_at(local, key, asset) =~= removed.push((asset, true)));
        lemma_recorded_push(steps, (held, false));
        let between = vault_after(before, held, false).unwrap();
        assert(vault_after(before, held, false) == Some(between));
        lemma_recorded_push(removed, (asset, true));
        assert(vault_after(between, asset, true) == Some(after)) by {
            assert(vault_after(between, asset, true).unwrap() =~= after);
        }
    } else {
        assert(steps + changes_at(local, key, asset) =~= steps);
        assert(before =~= after);
    }
}

proof fn lemma_changes_to(local: Map<Word, Asset>, entries: Seq<(Word, Asset)>, n: int)
    requires
        well_keyed(local),
        sorted(entries),
        well_keyed(as_map(entries)),
        0 <= n <= entries.len(),
    ensures
        recorded(changes_to(local, entries.take(n))) == Ok::<VaultChanges, Asset>(
            difference_at(local, as_map(entries), keys_of(entries.take(n))),
        ),
    decreases n,
{
    let fin = as_map(entries);
    if n == 0 {
        assert(entries.take(0).len() == 0);
        assert(difference_at(local, fin, keys_of(entries.take(0))) =~= VaultChanges {
            fungible: Map::empty(),
            non_fungible: Map::empty(),
        });
    } else {
        lemma_changes_to(local, entries, n - 1);
        let before = entries.take(n - 1);
        let key = entries[n - 1].0;
        assert(entries.take(n).drop_last() =~= before);
        lemma_entry_in_map(entries, n - 1);
        assert(!has_key(before, key)) by {
            if has_key(before, key) {
                let j = choose|j: int| 0 <= j < before.len() && (#[trigger] before[j]).0 == key;
                assert(entries[j].0.precedes(entries[n - 1].0));
                <Word as Key>::lemma_irreflexive(key);
            }
        }
        lemma_changes_at(local, fin, keys_of(before), changes_to(local, before), key);
        lemma_keys_grow(entries, n - 1);
    }
}

proof fn lemma_removals(
    fin: Map<Word, Asset>,
    entries: Seq<(Word, Asset)>,
    n: int,
    steps: Seq<(Asset, bool)>,
)
    requires
        well_keyed(fin),
        sorted(entries),
        well_keyed(as_map(entries)),
        0 <= n <= entries.len(),
        recorded(steps) == Ok::<VaultChanges, Asset>(
            difference_at(as_map(entries), fin, fin.dom()),
        ),
    ensures
        recorded(steps + removals(fin, entries.take(n))) == Ok::<VaultChanges, Asset>(
            difference_at(as_map(entries), fin, fin.dom().union(keys_of(entries.take(n)))),
        ),
    decreases n,
{
    let local = as_map(entries);
    if n == 0 {
        assert(removals(fin, entries.take(0)) =~= Seq::empty());
        assert(steps + removals(fin, entries.take(0)) =~= steps);
        assert(fin.dom().union(keys_of(entries.take(0))) =~= fin.dom());
    } else {
        lemma_removals(fin, entries, n - 1, steps);
        let earlier = entries.take(n - 1);
        let key = entries[n - 1].0;
        let asset = entries[n - 1].1;
        assert(entries.take(n).drop_last() =~= earlier);
        assert(entries.take(n).last() == entries[n - 1]);
        lemma_entry_in_map(entries, n - 1);
        lemma_keys_grow(entries, n - 1);
        let keys = fin.dom().union(keys_of(earlier));
        let grown = fin.dom().union(keys_of(entries.take(n)));
        assert(grown =~= keys.insert(key));
        let before = difference_at(local, fin, keys);
        let after = difference_at(local, fin, grown);
        if fin.contains_key(key) {
            assert(grown =~= keys);
        } else {
            assert(!has_key(earlier, key)) by {
                if has_key(earlier, key) {
                    let j = choose|j: int|
                        0 <= j < earlier.len() && (#[trigger] earlier[j]).0 == key;
                    assert(entries[j].0.precedes(entries[n - 1].0));
                    <Word as Key>::lemma_irreflexive(key);
                }
            }
            let done = steps + removals(fin, earlier);
            assert(steps + removals(fin, entries.take(n)) =~= done.push((asset, false)));
            lemma_recorded_push(done, (asset, false));
            assert(local.contains_key(key));
            assert(asset.spec_vault_key() == key);
            assert(vault_after(before, asset, false) == Some(after)) by {
                assert(vault_after(before, asset, false).unwrap() =~= after);
            }
        }
    }
}

/// Replaying records exactly the difference between what a vault held and what it finally holds:
/// of each balance the net change, and of other assets those that came or went. This is where each
/// asset is kept under its own key.
pub proof fn law_replay_records_difference(
    local: Seq<(Word, Asset)>,
    fin: Seq<(Word, Asset)>,
)
    requires
        sorted(local),
        sorted(fin),
        well_keyed(as_map(local)),
        well_keyed(as_map(fin)),
    ensures
        recorded(vault_steps(as_map(local), as_map(fin))) == Ok::<VaultChanges, Asset>(
            difference(as_map(local), as_map(fin)),
        ),
{
    let before = as_map(local);
    let after = as_map(fin);
    lemma_ordered_entries(local);
    lemma_ordered_entries(fin);
    lemma_changes_to(before, fin, fin.len() as int);
    assert(fin.take(fin.len() as int) =~= fin);
    assert(keys_of(fin) =~= after.dom());
    lemma_removals(after, local, local.len() as int, changes_to(before, fin));
    assert(local.take(local.len() as int) =~= local);
    let keys = after.dom().union(keys_of(local));
    assert(difference_at(before, after, keys) =~= difference(before, after)) by {
        assert forall|key: Word| !keys.contains(key) implies !before.contains_key(key)
            && !after.contains_key(key) by {}
    }
}

/// Of a map entry's updates, one of the highest block counts.
pub proof fn law_latest_map_update_counts(updates: Seq<StorageMapUpdate>, entry: SlotEntry)
    ensures
        forall|i: int|
            0 <= i < updates.len() && (#[trigger] updates[i]).slot_name.spec_id() == entry.slot
                && updates[i].key == entry.key ==> (latest_entry(updates, entry) matches Some(latest)
                && latest.0 >= updates[i].block_num),
        latest_entry(updates, entry) is Some ==> exists|i: int|
            #![trigger updates[i]]
            is_latest(updates, entry, i),
    decreases updates.len(),
{
    if updates.len() > 0 {
        let before = updates.drop_last();
        law_latest_map_update_counts(before, entry);
        assert forall|i: int|
            0 <= i < updates.len() && (#[trigger] updates[i]).slot_name.spec_id() == entry.slot
                && updates[i].key == entry.key implies (latest_entry(
            updates,
            entry,
        ) matches Some(latest) && latest.0 >= updates[i].block_num) by {
            if i < before.len() {
                assert(before[i] == updates[i]);
            }
        }
        if latest_entry(updates, entry) is Some {
            if latest_entry(before, entry) is Some {
                let i = choose|i: int| #![trigger before[i]] is_latest(before, entry, i);
                assert(updates[i] == before[i]);
                assert(updates[updates.len() - 1] == updates.last());
            } else {
                assert(updates[updates.len() - 1] == updates.last());
            }
            if latest_entry(updates, entry) == latest_entry(before, entry) {
                let i = choose|i: int| #![trigger before[i]] is_latest(before, entry, i);
                assert(is_latest(updates, entry, i));
            } else {
                assert(is_latest(updates, entry, updates.len() - 1));
            }
        }
    }
}

/// Of the updates under a vault key, one of the highest block counts.
pub proof fn law_latest_vault_update_counts(updates: Seq<AccountVaultUpdate>, key: Word)
    ensures
        forall|i: int|
            0 <= i < updates.len() && (#[trigger] updates[i]).vault_key == key ==> (latest_asset(
                updates,
                key,
            ) matches Some(latest) && latest.0 >= updates[i].block_num),
        latest_asset(updates, key) matches Some(latest) ==> exists|i: int|
            0 <= i < updates.len() && (#[trigger] updates[i]).vault_key == key
                && updates[i].block_num == latest.0 && updates[i].asset == latest.1,
    decreases updates.len(),
{
    if updates.len() > 0 {
        let before = updates.drop_last();
        law_latest_vault_update_counts(before, key);
        assert forall|i: int|
            0 <= i < updates.len() && (#[trigger] updates[i]).vault_key == key implies (
        latest_asset(updates, key) matches Some(latest) && latest.0 >= updates[i].block_num) by {
            if i < before.len() {
                assert(before[i] == updates[i]);
            }
        }
        if let Some(latest) = latest_asset(updates, key) {
            if latest_asset(before, key) == Some(latest) {
                let i = choose|i: int|
                    0 <= i < before.len() && (#[trigger] before[i]).vault_key == key
                        && before[i].block_num == latest.0 && before[i].asset == latest.1;
                assert(updates[i] == before[i]);
            } else {
                assert(updates[updates.len() - 1] == updates.last());
            }
        }
    }
}

/// Whether a slot's new value is not the one in a storage.
pub open spec fn is_new_value(
    local: Map<SlotId, Word>,
    updates: Seq<(SlotName, Word)>,
    i: int,
    slot: SlotId,
) -> bool {
    &&& 0 <= i < updates.len()
    &&& updates[i].0.spec_id() == slot
    &&& !local.contains_pair(slot, updates[i].1)
}

/// A value slot is recorded exactly where one of its new values is not the one in the storage.
pub proof fn law_changed_values_are_recorded(
    local: Map<SlotId, Word>,
    updates: Seq<(SlotName, Word)>,
    slot: SlotId,
)
    ensures
        changed_values(local, updates).contains_key(slot) <==> exists|i: int| #[trigger]
            is_new_value(local, updates, i, slot),
    decreases updates.len(),
{
    if updates.len() > 0 {
        let before = updates.drop_last();
        let n = before.len() as int;
        law_changed_values_are_recorded(local, before, slot);
        assert(updates[n] == updates.last());
        if changed_values(local, updates).contains_key(slot) {
            if is_new_value(local, updates, n, slot) {
            } else {
                let i = choose|i: int| #[trigger] is_new_value(local, before, i, slot);
                assert(updates[i] == before[i]);
                assert(is_new_value(local, updates, i, slot));
            }
        }
        if exists|i: int| #[trigger] is_new_value(local, updates, i, slot) {
            let i = choose|i: int| #[trigger] is_new_value(local, updates, i, slot);
            if i < n {
                assert(updates[i] == before[i]);
                assert(is_new_value(local, before, i, slot));
            }
        }
    }
}

/// Of a value slot's new values that are not the one in the storage, the last one is recorded.
pub proof fn law_last_changed_value_counts(
    local: Map<SlotId, Word>,
    updates: Seq<(SlotName, Word)>,
    i: int,
)
    requires
        0 <= i < updates.len(),
        !local.contains_pair(updates[i].0.spec_id(), updates[i].1),
        forall|j: int|
            i < j < updates.len() && (#[trigger] updates[j]).0.spec_id() == updates[i].0.spec_id()
                ==> local.contains_pair(updates[j].0.spec_id(), updates[j].1),
    ensures
        changed_values(local, updates).contains_pair(updates[i].0.spec_id(), updates[i].1),
    decreases updates.len(),
{
    let before = updates.drop_last();
    let n = before.len() as int;
    assert(updates[n] == updates.last());
    if i < n {
        assert(before[i] == updates[i]);
        assert forall|j: int|
            i < j < before.len() && (#[trigger] before[j]).0.spec_id()
                == before[i].0.spec_id() implies local.contains_pair(
            before[j].0.spec_id(),
            before[j].1,
        ) by {
            assert(before[j] == updates[j]);
        }
        law_last_changed_value_counts(local, before, i);
    }
}

/// An entry's update counts where every other update of the entry is of an earlier block, or of the
/// same block and stands before it.
pub proof fn law_last_map_update_counts(updates: Seq<StorageMapUpdate>, i: int)
    requires
        0 <= i < updates.len(),
        forall|j: int|
            0 <= j < updates.len() && j != i && (#[trigger] updates[j]).slot_name.spec_id()
                == updates[i].slot_name.spec_id() && updates[j].key == updates[i].key
                ==> updates[j].block_num < updates[i].block_num || (updates[j].block_num
                == updates[i].block_num && j < i),
    ensures
        ({
            let slot = updates[i].slot_name.spec_id();
            &&& latest_maps(updates).contains_key(slot)
            &&& latest_maps(updates)[slot].contains_key(updates[i].key)
            &&& latest_maps(updates)[slot][updates[i].key] == updates[i].value
        }),
{
    let slot = updates[i].slot_name.spec_id();
    let entry = SlotEntry { slot, key: updates[i].key };
    lemma_last_map_update(updates, entry, i);
    assert(latest_entry(updates, SlotEntry { slot, key: updates[i].key }) is Some);
}

proof fn lemma_last_map_update(updates: Seq<StorageMapUpdate>, entry: SlotEntry, i: int)
    requires
        0 <= i < updates.len(),
        updates[i].slot_name.spec_id() == entry.slot,
        updates[i].key == entry.key,
        forall|j: int|
            0 <= j < updates.len() && j != i && (#[trigger] updates[j]).slot_name.spec_id()
                == entry.slot && updates[j].key == entry.key ==> updates[j].block_num
                < updates[i].block_num || (updates[j].block_num == updates[i].block_num && j < i),
    ensures
        latest_entry(updates, entry) == Some((updates[i].block_num, updates[i].value)),
    decreases updates.len(),
{
    let before = updates.drop_last();
    let n = before.len() as int;
    assert(updates[n] == updates.last());
    if i < n {
        assert forall|j: int|
            0 <= j < before.len() && j != i && (#[trigger] before[j]).slot_name.spec_id()
                == entry.slot && before[j].key == entry.key implies before[j].block_num
            < before[i].block_num || (before[j].block_num == before[i].block_num && j < i) by {
            assert(before[j] == updates[j]);
        }
        lemma_last_map_update(before, entry, i);
    } else {
        law_latest_map_update_counts(before, entry);
        if latest_entry(before, entry) is Some {
            let k = choose|k: int| #![trigger before[k]] is_latest(before, entry, k);
            assert(updates[k] == before[k]);
        }
    }
}

/// Map entries that no update is of are not recorded.
pub proof fn law_untouched_entries_are_not_recorded(
    updates: Seq<StorageMapUpdate>,
    slot: SlotId,
    key: Word,
)
    requires
        forall|i: int|
            0 <= i < updates.len() ==> (#[trigger] updates[i]).slot_name.spec_id() != slot
                || updates[i].key != key,
    ensures
        latest_maps(updates).contains_key(slot) ==> !latest_maps(updates)[slot].contains_key(key),
{
    let entry = SlotEntry { slot, key };
    law_latest_map_update_counts(updates, entry);
    if latest_entry(updates, entry) is Some {
        let k = choose|k: int| #![trigger updates[k]] is_latest(updates, entry, k);
    }
}

/// A slot is in conflict exactly where one of its new values would be recorded and one of its map
/// entries is updated.
pub proof fn law_conflicting_slots(
    local: Map<SlotId, Word>,
    values: Seq<(SlotName, Word)>,
    updates: Seq<StorageMapUpdate>,
    slot: SlotId,
)
    ensures
        is_conflicting(local, values, updates, slot) <==> (exists|i: int| #[trigger]
            is_new_value(local, values, i, slot)) && (exists|i: int|
            0 <= i < updates.len() && (#[trigger] updates[i]).slot_name.spec_id() == slot),
{
    law_changed_values_are_recorded(local, values, slot);
    if is_slot_updated(updates, slot) {
        let key = choose|key: Word| #[trigger]
            latest_entry(updates, SlotEntry { slot, key }) is Some;
        let entry = SlotEntry { slot, key };
        law_latest_map_update_counts(updates, entry);
        let k = choose|k: int| #![trigger updates[k]] is_latest(updates, entry, k);
        assert(updates[k].slot_name.spec_id() == slot);
    }
    if exists|i: int| 0 <= i < updates.len() && (#[trigger] updates[i]).slot_name.spec_id() == slot {
        let i = choose|i: int|
            0 <= i < updates.len() && (#[trigger] updates[i]).slot_name.spec_id() == slot;
        let entry = SlotEntry { slot, key: updates[i].key };
        law_latest_map_update_counts(updates, entry);
        assert(latest_entry(updates, SlotEntry { slot, key: updates[i].key }) is Some);
    }
}

/// Under each key a vault finally holds what the last of the latest block's updates says, and what
/// it held where there is no update.
pub proof fn law_last_vault_update_counts(
    local: Map<Word, Asset>,
    updates: Seq<AccountVaultUpdate>,
    key: Word,
)
    ensures
        forall|i: int|
            0 <= i < updates.len() && (#[trigger] updates[i]).vault_key == key && is_last_update(
                updates,
                i,
            ) ==> match updates[i].asset {
                Some(asset) => final_vault(local, updates).contains_pair(key, asset),
                None => !final_vault(local, updates).contains_key(key),
            },
        (forall|i: int| 0 <= i < updates.len() ==> (#[trigger] updates[i]).vault_key != key) ==> {
            &&& final_vault(local, updates).contains_key(key) == local.contains_key(key)
            &&& local.contains_key(key) ==> final_vault(local, updates)[key] == local[key]
        },
{
    assert forall|i: int|
        0 <= i < updates.len() && (#[trigger] updates[i]).vault_key == key && is_last_update(
            updates,
            i,
        ) implies match updates[i].asset {
        Some(asset) => final_vault(local, updates).contains_pair(key, asset),
        None => !final_vault(local, updates).contains_key(key),
    } by {
        lemma_last_vault_update(updates, i);
    }
    law_latest_vault_update_counts(updates, key);
}

/// Whether every other update under the key of an update is of an earlier block, or of the same
/// block and stands before it.
pub open spec fn is_last_update(updates: Seq<AccountVaultUpdate>, i: int) -> bool {
    forall|j: int|
        0 <= j < updates.len() && j != i && (#[trigger] updates[j]).vault_key
            == updates[i].vault_key ==> updates[j].block_num < updates[i].block_num || (
        updates[j].block_num == updates[i].block_num && j < i)
}

proof fn lemma_last_vault_update(updates: Seq<AccountVaultUpdate>, i: int)
    requires
        0 <= i < updates.len(),
        is_last_update(updates, i),
    ensures
        latest_asset(updates, updates[i].vault_key) == Some(
            (updates[i].block_num, updates[i].asset),
        ),
    decreases updates.len(),
{
    let before = updates.drop_last();
    let n = before.len() as int;
    assert(updates[n] == updates.last());
    if i < n {
        assert forall|j: int|
            0 <= j < before.len() && j != i && (#[trigger] before[j]).vault_key
                == before[i].vault_key implies before[j].block_num < before[i].block_num || (
        before[j].block_num == before[i].block_num && j < i) by {
            assert(before[j] == updates[j]);
        }
        lemma_last_vault_update(before, i);
    } else {
        law_latest_vault_update_counts(before, updates[i].vault_key);
        if let Some(latest) = latest_asset(before, updates[i].vault_key) {
            let k = choose|k: int|
                0 <= k < before.len() && (#[trigger] before[k]).vault_key == updates[i].vault_key
                    && before[k].block_num == latest.0 && before[k].asset == latest.1;
            assert(updates[k] == before[k]);
        }
    }
}

/// What replaying records leads from what a vault held to what it finally holds: each balance with
/// its change gives the final balance, a balance without one stays, an asset of the other kind that
/// came is recorded as added with its value, and one that went as removed with its value.
pub proof fn law_recorded_changes_lead_to_the_final_vault(
    local: Seq<(Word, Asset)>,
    fin: Seq<(Word, Asset)>,
    key: Word,
)
    requires
        sorted(local),
        sorted(fin),
        well_keyed(as_map(local)),
        well_keyed(as_map(fin)),
    ensures
        ({
            let before = as_map(local);
            let after = as_map(fin);
            recorded(vault_steps(before, after)) matches Ok(changes) && {
                &&& changes.fungible.contains_key(key) ==> changes.fungible[key] != 0 && balance(
                    before,
                    key,
                ) + changes.fungible[key] == balance(after, key)
                &&& !changes.fungible.contains_key(key) ==> balance(before, key) == balance(
                    after,
                    key,
                )
                &&& match (token(before, key), token(after, key)) {
                    (None, Some(value)) => changes.non_fungible.contains_pair(key, (value, true)),
                    (Some(value), None) => changes.non_fungible.contains_pair(key, (value, false)),
                    _ => !changes.non_fungible.contains_key(key),
                }
            }
        }),
{
    law_replay_records_difference(local, fin);
    let before = as_map(local);
    let after = as_map(fin);
    assert(before.contains_key(key) ==> before[key].wf());
    assert(after.contains_key(key) ==> after[key].wf());
}

/// The asset that is reported is that of the first change that cannot be recorded.
pub proof fn law_first_unrecordable_asset_is_reported(steps: Seq<(Asset, bool)>, rejected: Asset)
    requires
        recorded(steps) == Err::<VaultChanges, Asset>(rejected),
    ensures
        exists|n: int|
            0 <= n < steps.len() && (#[trigger] steps[n]).0 == rejected && (recorded(
                steps.take(n),
            ) matches Ok(changes) && vault_after(changes, steps[n].0, steps[n].1) is None),
    decreases steps.len(),
{
    let before = steps.drop_last();
    assert(steps[steps.len() - 1] == steps.last());
    if recorded(before) is Err {
        law_first_unrecordable_asset_is_reported(before, rejected);
        let n = choose|n: int|
            0 <= n < before.len() && (#[trigger] before[n]).0 == rejected && (recorded(
                before.take(n),
            ) matches Ok(changes) && vault_after(changes, before[n].0, before[n].1) is None);
        assert(steps[n] == before[n]);
        assert(steps.take(n) =~= before.take(n));
    } else {
        assert(steps.take(steps.len() - 1) =~= before);
    }
}

/// A storage delta that replaying gives records a value slot exactly where a new value of it is not
/// the one in the storage, and with the last such value; and under each map entry the last value of
/// the latest block. Where there is none, the slot that is reported is in conflict, and none before
/// it is.
pub proof fn law_storage_replay_records_the_latest(
    storage: AccountStorage,
    values: Seq<(SlotName, Word)>,
    updates: Seq<StorageMapUpdate>,
    outcome: Result<AccountStorageDelta, AccountDeltaError>,
    i: int,
)
    requires
        is_storage_replay(storage, values, updates, outcome),
    ensures
        outcome matches Ok(delta) ==> {
            let local = storage_items_of(storage);
            &&& 0 <= i < values.len() && !local.contains_pair(
                values[i].0.spec_id(),
                values[i].1,
            ) ==> value_changes_of(delta).contains_key(values[i].0.spec_id())
            &&& 0 <= i < values.len() && !local.contains_pair(values[i].0.spec_id(), values[i].1)
                && (forall|j: int|
                i < j < values.len() ==> (#[trigger] values[j]).0.spec_id()
                    != values[i].0.spec_id()) ==> value_changes_of(delta)[values[i].0.spec_id()]
                == values[i].1
            &&& 0 <= i < updates.len() && is_last_map_update(updates, i) ==> {
                let slot = updates[i].slot_name.spec_id();
                &&& map_changes_of(delta).contains_key(slot)
                &&& map_changes_of(delta)[slot].contains_pair(updates[i].key, updates[i].value)
            }
        },
        outcome matches Err(error) ==> (error matches
            AccountDeltaError::StorageSlotUsedAsDifferentTypes(name) && (exists|k: int|
            0 <= k < values.len() && (#[trigger] values[k]).0.spec_id() == name.spec_id()) && (
        exists|k: int|
            0 <= k < updates.len() && (#[trigger] updates[k]).slot_name.spec_id()
                == name.spec_id())),
{
    let local = storage_items_of(storage);
    match outcome {
        Ok(delta) => {
            if 0 <= i < values.len() {
                let slot = values[i].0.spec_id();
                law_changed_values_are_recorded(local, values, slot);
                if !local.contains_pair(slot, values[i].1) {
                    assert(is_new_value(local, values, i, slot));
                    if forall|j: int|
                        i < j < values.len() ==> (#[trigger] values[j]).0.spec_id() != slot {
                        law_last_changed_value_counts(local, values, i);
                    }
                }
            }
            if 0 <= i < updates.len() && is_last_map_update(updates, i) {
                law_last_map_update_counts(updates, i);
            }
        },
        Err(AccountDeltaError::StorageSlotUsedAsDifferentTypes(name)) => {
            law_conflicting_slots(local, values, updates, name.spec_id());
            let k = choose|k: int| #[trigger] is_new_value(local, values, k, name.spec_id());
            assert(values[k].0.spec_id() == name.spec_id());
        },
        Err(_) => {},
    }
}

/// Whether every other update of an update's entry is of an earlier block, or of the same block and
/// stands before it.
pub open spec fn is_last_map_update(updates: Seq<StorageMapUpdate>, i: int) -> bool {
    forall|j: int|
        0 <= j < updates.len() && j != i && (#[trigger] updates[j]).slot_name.spec_id()
            == updates[i].slot_name.spec_id() && updates[j].key == updates[i].key
            ==> updates[j].block_num < updates[i].block_num || (updates[j].block_num
            == updates[i].block_num && j < i)
}

/// A vault delta that replaying gives leads from the balances that the vault held to those that the
/// updates leave it with. This is where each asset is kept under its own key.
pub proof fn law_vault_replay_leads_to_the_final_vault(
    vault: AssetVault,
    updates: Seq<AccountVaultUpdate>,
    outcome: Result<AccountVaultDelta, AccountDeltaError>,
    key: Word,
)
    requires
        is_vault_replay(vault, updates, outcome),
        vault_assets_of(vault).dom().finite(),
        final_vault(vault_assets_of(vault), updates).dom().finite(),
        well_keyed(vault_assets_of(vault)),
        well_keyed(final_vault(vault_assets_of(vault), updates)),
    ensures
        ({
            let before = vault_assets_of(vault);
            let after = final_vault(before, updates);
            outcome matches Ok(delta) && {
                let changes = vault_changes_of(delta);
                &&& balance(before, key) + (if changes.fungible.contains_key(key) {
                    changes.fungible[key] as int
                } else {
                    0
                }) == balance(after, key)
                &&& match (token(before, key), token(after, key)) {
                    (None, Some(value)) => changes.non_fungible.contains_pair(key, (value, true)),
                    (Some(value), None) => changes.non_fungible.contains_pair(key, (value, false)),
                    _ => !changes.non_fungible.contains_key(key),
                }
            }
        }),
{
    let before = vault_assets_of(vault);
    let after = final_vault(before, updates);
    lemma_ordered_entries_exist(before);
    lemma_ordered_entries_exist(after);
    law_recorded_changes_lead_to_the_final_vault(
        ordered_entries(before),
        ordered_entries(after),
        key,
    );
}

/// A delta that is computed is of the account of the new header, and its nonce change leads from the
/// local nonce to the new one. Where the nonce does not increase, there is no delta, and both nonces
/// are reported.
pub proof fn law_delta_leads_to_the_new_nonce(
    update: DeltaView,
    local_header: AccountHeader,
    local_storage: AccountStorage,
    local_vault: AssetVault,
    outcome: Result<AccountDelta, AccountDeltaError>,
)
    requires
        is_account_delta(update, local_header, local_storage, local_vault, outcome),
    ensures
        outcome matches Ok(delta) ==> {
            &&& delta.account_id == update.new_header.id
            &&& local_header.nonce + delta.nonce_delta == update.new_header.nonce
            &&& delta.nonce_delta > 0
        },
        outcome matches Err(AccountDeltaError::NonMonotonicNonce { account_id, local, new }) ==> {
            &&& account_id == update.new_header.id
            &&& local == local_header.nonce
            &&& new == update.new_header.nonce
            &&& new <= local
        },
        update.new_header.nonce <= local_header.nonce ==> outcome matches Err(
            AccountDeltaError::NonMonotonicNonce { .. },
        ),
{
}

// PUBLIC ACCOUNT UPDATE
// ================================================================================================

/// The changes between two states of an account.
#[derive(Debug)]
pub struct AccountDelta {
    pub account_id: AccountId,
    pub storage: AccountStorageDelta,
    pub vault: AccountVaultDelta,
    pub nonce_delta: u64,
}

/// A new account header, with the incremental updates that lead to it over a range of blocks.
#[derive(Debug)]
pub struct PublicAccountDelta {
    pub(crate) new_header: AccountHeader,
    pub(crate) block_from: BlockNumber,
    pub(crate) block_to: BlockNumber,
    pub(crate) value_slot_updates: Vec<(SlotName, Word)>,
    pub(crate) storage_map_updates: Vec<StorageMapUpdate>,
    pub(crate) vault_updates: Vec<AccountVaultUpdate>,
}

/// What a [`PublicAccountDelta`] holds.
#[verifier::ext_equal]
pub ghost struct DeltaView {
    pub new_header: AccountHeader,
    pub block_from: BlockNumber,
    pub block_to: BlockNumber,
    pub value_slot_updates: Seq<(SlotName, Word)>,
    pub storage_map_updates: Seq<StorageMapUpdate>,
    pub vault_updates: Seq<AccountVaultUpdate>,
}

impl View for PublicAccountDelta {
    type V = DeltaView;

    closed spec fn view(&self) -> DeltaView {
        DeltaView {
            new_header: self.new_header,
            block_from: self.block_from,
            block_to: self.block_to,
            value_slot_updates: self.value_slot_updates@,
            storage_map_updates: self.storage_map_updates@,
            vault_updates: self.vault_updates@,
        }
    }
}

impl DeltaView {
    pub open spec fn wf(self) -> bool {
        &&& forall|i: int|
            0 <= i < self.value_slot_updates.len() ==> (
            #[trigger] self.value_slot_updates[i]).1.is_canonical()
        &&& forall|i: int|
            0 <= i < self.storage_map_updates.len() ==> (
            #[trigger] self.storage_map_updates[i]).wf()
        &&& forall|i: int|
            0 <= i < self.vault_updates.len() ==> (#[trigger] self.vault_updates[i]).wf()
    }
}

/// What computing an account delta gives.
pub open spec fn is_account_delta(
    update: DeltaView,
    local_header: AccountHeader,
    local_storage: AccountStorage,
    local_vault: AssetVault,
    outcome: Result<AccountDelta, AccountDeltaError>,
) -> bool {
    let values = update.value_slot_updates;
    let maps = update.storage_map_updates;
    match outcome {
        Ok(delta) => {
            &&& local_header.nonce < update.new_header.nonce
            &&& delta.account_id == update.new_header.id
            &&& delta.nonce_delta == update.new_header.nonce - local_header.nonce
            &&& is_storage_replay(local_storage, values, maps, Ok(delta.storage))
            &&& is_vault_replay(local_vault, update.vault_updates, Ok(delta.vault))
        },
        Err(error) => if update.new_header.nonce <= local_header.nonce {
            error == (AccountDeltaError::NonMonotonicNonce {
                account_id: update.new_header.id,
                local: local_header.nonce,
                new: update.new_header.nonce,
            })
        } else if error is StorageSlotUsedAsDifferentTypes {
            is_storage_replay(local_storage, values, maps, Err(error))
        } else {
            &&& forall|slot: SlotId|
                !#[trigger] is_conflicting(storage_items_of(local_storage), values, maps, slot)
            &&& is_vault_replay(local_vault, update.vault_updates, Err(error))
        },
    }
}

impl PublicAccountDelta {
    pub fn new(
        new_header: AccountHeader,
        block_from: BlockNumber,
        block_to: BlockNumber,
        value_slot_updates: Vec<(SlotName, Word)>,
        storage_map_updates: Vec<StorageMapUpdate>,
        vault_updates: Vec<AccountVaultUpdate>,
    ) -> (delta: PublicAccountDelta)
        ensures
            delta@ == (DeltaView {
                new_header,
                block_from,
                block_to,
                value_slot_updates: value_slot_updates@,
                storage_map_updates: storage_map_updates@,
                vault_updates: vault_updates@,
            }),
    {
        PublicAccountDelta {
            new_header,
            block_from,
            block_to,
            value_slot_updates,
            storage_map_updates,
            vault_updates,
        }
    }

    /// The account that the delta is of.
    pub fn id(&self) -> (id: AccountId)
        ensures
            id == self@.new_header.id,
    {
        self.new_header.id
    }

    /// The header that the delta leads to.
    pub fn new_header(&self) -> (header: &AccountHeader)
        ensures
            *header == self@.new_header,
    {
        &self.new_header
    }

    /// The first block of the range.
    pub fn block_from(&self) -> (block_num: BlockNumber)
        ensures
            block_num == self@.block_from,
    {
        self.block_from
    }

    /// The last block of the range.
    pub fn block_to(&self) -> (block_num: BlockNumber)
        ensures
            block_num == self@.block_to,
    {
        self.block_to
    }

    /// The names of the value slots that [`Self::compute_account_delta`] looks at.
    pub fn value_slot_names(&self) -> (names: Vec<SlotName>)
        ensures
            names@.map_values(|name: SlotName| name@) == self@.value_slot_updates.map_values(
                |update: (SlotName, Word)| update.0@,
            ),
    {
        let mut names: Vec<SlotName> = Vec::new();
        let mut i: usize = 0;
        while i < self.value_slot_updates.len()
            invariant
                i <= self.value_slot_updates.len(),
                names@.len() == i,
                forall|j: int|
                    0 <= j < i ==> (#[trigger] names@[j])@ == self.value_slot_updates@[j].0@,
            decreases self.value_slot_updates.len() - i,
        {
            names.push(self.value_slot_updates[i].0.clone());
            i += 1;
        }
        assert(names@.map_values(|name: SlotName| name@) =~= self@.value_slot_updates.map_values(
            |update: (SlotName, Word)| update.0@,
        ));
        names
    }

    /// Computes the account delta that the updates amount to, over the local state. The nonce has
    /// to increase.
    pub fn compute_account_delta(
        &self,
        local_header: &AccountHeader,
        local_storage: &AccountStorage,
        local_vault: &AssetVault,
    ) -> (outcome: Result<AccountDelta, AccountDeltaError>)
        requires
            self@.wf(),
        ensures
            is_account_delta(self@, *local_header, *local_storage, *local_vault, outcome),
    {
        let local: u64 = local_header.nonce;
        let new: u64 = self.new_header.nonce;
        if new <= local {
            return Err(
                AccountDeltaError::NonMonotonicNonce { account_id: self.new_header.id, local, new },
            );
        }
        proof {
            assert(self@.value_slot_updates == self.value_slot_updates@);
            assert(self@.storage_map_updates == self.storage_map_updates@);
            assert(self@.vault_updates == self.vault_updates@);
        }
        let storage = match replay_storage_updates(
            local_storage,
            &self.value_slot_updates,
            &self.storage_map_updates,
        ) {
            Ok(storage) => storage,
            Err(error) => return Err(error),
        };
        let vault = match replay_vault_updates(local_vault, &self.vault_updates) {
            Ok(vault) => vault,
            Err(error) => return Err(error),
        };
        Ok(AccountDelta { account_id: self.new_header.id, storage, vault, nonce_delta: new - local })
    }
}

/// The whole state of an account, in its serialised form.
#[derive(Debug)]
pub struct FullAccount {
    pub id: AccountId,
    pub bytes: Vec<u8>,
}

/// An update to a tracked public account: its new state as a whole, or, where it is too large for
/// that, the updates that lead to it.
#[derive(Debug)]
pub enum PublicAccountUpdate {
    Full(FullAccount),
    Delta(PublicAccountDelta),
}

impl PublicAccountUpdate {
    pub open spec fn spec_id(self) -> AccountId {
        match self {
            PublicAccountUpdate::Full(account) => account.id,
            PublicAccountUpdate::Delta(delta) => delta@.new_header.id,
        }
    }

    pub fn id(&self) -> (id: AccountId)
        ensures
            id == self.spec_id(),
    {
        match self {
            PublicAccountUpdate::Full(account) => account.id,
            PublicAccountUpdate::Delta(delta) => delta.id(),
        }
    }
}

// ACCOUNT UPDATES
// ================================================================================================

/// What a sync found out about tracked accounts.
#[derive(Debug)]
pub struct AccountUpdates {
    /// New states of public accounts.
    pub(crate) updated_public_accounts: Vec<PublicAccountUpdate>,
    /// Private accounts whose commitment on chain is not the local one, with the commitment.
    pub(crate) mismatched_private_accounts: Vec<(AccountId, Word)>,
}

/// What [`AccountUpdates`] hold.
#[verifier::ext_equal]
pub ghost struct AccountUpdatesView {
    pub updated_public_accounts: Seq<PublicAccountUpdate>,
    pub mismatched_private_accounts: Seq<(AccountId, Word)>,
}

impl View for AccountUpdates {
    type V = AccountUpdatesView;

    closed spec fn view(&self) -> AccountUpdatesView {
        AccountUpdatesView {
            updated_public_accounts: self.updated_public_accounts@,
            mismatched_private_accounts: self.mismatched_private_accounts@,
        }
    }
}

impl Default for AccountUpdates {
    fn default() -> (updates: AccountUpdates)
        ensures
            updates@.updated_public_accounts.len() == 0,
            updates@.mismatched_private_accounts.len() == 0,
    {
        AccountUpdates::new(Vec::new(), Vec::new())
    }
}

impl AccountUpdates {
    pub fn new(
        updated_public_accounts: Vec<PublicAccountUpdate>,
        mismatched_private_accounts: Vec<(AccountId, Word)>,
    ) -> (updates: AccountUpdates)
        ensures
            updates@.updated_public_accounts == updated_public_accounts@,
            updates@.mismatched_private_accounts == mismatched_private_accounts@,
    {
        AccountUpdates { updated_public_accounts, mismatched_private_accounts }
    }

    pub fn updated_public_accounts(&self) -> (accounts: &Vec<PublicAccountUpdate>)
        ensures
            accounts@ == self@.updated_public_accounts,
    {
        &self.updated_public_accounts
    }

    pub fn mismatched_private_accounts(&self) -> (accounts: &Vec<(AccountId, Word)>)
        ensures
            accounts@ == self@.mismatched_private_accounts,
    {
        &self.mismatched_private_accounts
    }

    /// Adds other updates behind these.
    pub fn extend(&mut self, other: AccountUpdates)
        ensures
            final(self)@.updated_public_accounts == old(self)@.updated_public_accounts
                + other@.updated_public_accounts,
            final(self)@.mismatched_private_accounts == old(self)@.mismatched_private_accounts
                + other@.mismatched_private_accounts,
    {
        let mut public = other.updated_public_accounts;
        let mut private = other.mismatched_private_accounts;
        self.updated_public_accounts.append(&mut public);
        self.mismatched_private_accounts.append(&mut private);
    }
}

} // verus!
