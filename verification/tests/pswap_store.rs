use miden_protocol::account::AccountId as ProtocolAccountId;
use miden_protocol::asset::{AssetAmount as ProtocolAmount, FungibleAsset as ProtocolAsset};
use miden_protocol::note::{Note as ProtocolNote, NoteType as ProtocolNoteType};
use miden_protocol::testing::account_id::{
    ACCOUNT_ID_PUBLIC_FUNGIBLE_FAUCET, ACCOUNT_ID_PUBLIC_FUNGIBLE_FAUCET_1,
    ACCOUNT_ID_REGULAR_PUBLIC_ACCOUNT_IMMUTABLE_CODE,
    ACCOUNT_ID_REGULAR_PUBLIC_ACCOUNT_IMMUTABLE_CODE_2,
};
use miden_protocol::utils::serde::Serializable;
use miden_protocol::{Felt, Word as ProtocolWord};
use miden_standards::note::{
    PswapNote as StandardOrder, PswapNoteAttachment as StandardAttachment, PswapNoteStorage,
};
use pswap_sync::asset::{AssetAmount, FungibleAsset, MAX_ASSET_AMOUNT};
use pswap_sync::note::{AttachmentHeaders, Note, NoteAttachment, NoteInclusionProof};
use pswap_sync::primitives::{AccountId, NoteId, Word};
use pswap_sync::pswap::cancel::{build_pswap_cancel, check_reclaimable, find_tip, TipTable};
use pswap_sync::pswap::discovery::{lineages_to_load, try_discover_pswap_rounds};
use pswap_sync::pswap::errors::{AmountColumn, PswapLineageError};
use pswap_sync::pswap::lineage::{
    PswapLineageFilter, PswapLineageRecord, PswapLineageRoundUpdate, PswapLineageState,
};
use pswap_sync::pswap::note::{PswapNote, PswapNoteAttachment};
use pswap_sync::pswap::observer::{
    build_chain_note_updates, build_initial_lineage_record, extract_pswap_attachment,
    is_quiet_sync, PswapChainObserver, PswapTransactionObserver, PSWAP_ATTACHMENT_SCHEME,
};
use pswap_sync::pswap::store::{
    apply_pswap_round, asset_pair_subscription, lineage_row, placeholders, record_from_row,
    select_lineages, sql_filter_part, update_lineage_tip, LineageRow, StoreError,
};
use pswap_sync::rpc::note::{CommittedNote, FetchedNote};
use pswap_sync::sync::tag::{NoteTagRecord, NoteTagSource};

// FIXTURES
// ================================================================================================

fn protocol_id(raw: u128) -> ProtocolAccountId {
    ProtocolAccountId::try_from(raw).unwrap()
}

fn account(raw: u128) -> AccountId {
    AccountId::try_from_u128(raw).unwrap()
}

fn plain_note(note: &ProtocolNote) -> Note {
    Note::from_bytes(note.to_bytes()).unwrap()
}

fn plain_word(word: ProtocolWord) -> Word {
    let [a, b, c, d]: [u64; 4] = word.into();
    Word { a, b, c, d }
}

fn build_order(
    serial: [u64; 4],
    note_type: ProtocolNoteType,
    offered_amount: u64,
    requested_amount: u64,
) -> StandardOrder {
    let requested =
        ProtocolAsset::new(protocol_id(ACCOUNT_ID_PUBLIC_FUNGIBLE_FAUCET_1), requested_amount)
            .unwrap();
    let offered =
        ProtocolAsset::new(protocol_id(ACCOUNT_ID_PUBLIC_FUNGIBLE_FAUCET), offered_amount).unwrap();
    let storage = PswapNoteStorage::builder()
        .requested_asset(requested)
        .creator_account_id(protocol_id(ACCOUNT_ID_REGULAR_PUBLIC_ACCOUNT_IMMUTABLE_CODE_2))
        .build();
    StandardOrder::builder()
        .sender(protocol_id(ACCOUNT_ID_REGULAR_PUBLIC_ACCOUNT_IMMUTABLE_CODE))
        .storage(storage)
        .serial_number(ProtocolWord::from(serial.map(|element| Felt::new(element).unwrap())))
        .note_type(note_type)
        .offered_asset(offered)
        .build()
        .unwrap()
}

fn build_test_pswap(offered_amount: u64, requested_amount: u64) -> StandardOrder {
    build_order([1, 2, 3, 4], ProtocolNoteType::Public, offered_amount, requested_amount)
}

fn build_private_test_pswap(offered_amount: u64, requested_amount: u64) -> StandardOrder {
    build_order([7, 8, 9, 10], ProtocolNoteType::Private, offered_amount, requested_amount)
}

fn plain_order(order: &StandardOrder) -> PswapNote {
    PswapNote::from_note(&plain_note(&ProtocolNote::from(order.clone()))).unwrap()
}

fn build_initial_record(order: &StandardOrder) -> PswapLineageRecord {
    build_initial_lineage_record(&plain_order(order), 7)
}

fn attachment(order: &StandardOrder, amount: u64, depth: u32) -> StandardAttachment {
    StandardAttachment::new(ProtocolAmount::new(amount).unwrap(), order.order_id(), depth)
}

fn payback_note(order: &StandardOrder, amount: u64, depth: u32) -> ProtocolNote {
    order
        .payback_note(
            protocol_id(ACCOUNT_ID_REGULAR_PUBLIC_ACCOUNT_IMMUTABLE_CODE),
            &attachment(order, amount, depth),
        )
        .unwrap()
}

fn remainder_note(
    order: &StandardOrder,
    payout: u64,
    depth: u32,
    offered: u64,
    requested: u64,
) -> ProtocolNote {
    order
        .remainder_note(
            protocol_id(ACCOUNT_ID_REGULAR_PUBLIC_ACCOUNT_IMMUTABLE_CODE),
            &attachment(order, payout, depth),
            ProtocolAmount::new(offered).unwrap(),
            ProtocolAmount::new(requested).unwrap(),
        )
        .unwrap()
}

fn dummy_inclusion_proof(block: u32) -> NoteInclusionProof {
    NoteInclusionProof { block_num: block, note_index: 0, empty_nodes_mask: 0, path: vec![] }
}

fn offered_asset(amount: u64) -> FungibleAsset {
    FungibleAsset::new(account(ACCOUNT_ID_PUBLIC_FUNGIBLE_FAUCET), amount).unwrap()
}

fn requested_asset(amount: u64) -> FungibleAsset {
    FungibleAsset::new(account(ACCOUNT_ID_PUBLIC_FUNGIBLE_FAUCET_1), amount).unwrap()
}

fn amount(value: u64) -> AssetAmount {
    AssetAmount::new(value).unwrap()
}

fn commit_note(note: &ProtocolNote, block: u32) -> CommittedNote {
    let plain = plain_note(note);
    let metadata = plain.metadata().unwrap();
    CommittedNote::new(plain.id(), metadata, dummy_inclusion_proof(block))
}

fn plain_attachments(note: &ProtocolNote) -> Vec<NoteAttachment> {
    note.attachments()
        .iter()
        .map(|entry| NoteAttachment {
            scheme: entry.attachment_scheme().as_u16(),
            words: entry.content().as_words().iter().map(|word| plain_word(*word)).collect(),
        })
        .collect()
}

fn fetched_note(note: &ProtocolNote, block: u32) -> FetchedNote {
    let plain = plain_note(note);
    let metadata = plain.metadata().unwrap();
    FetchedNote::Private(
        plain.id(),
        metadata,
        plain_attachments(note),
        dummy_inclusion_proof(block),
    )
}

/// Keeps rows, input notes and tags the way a database would.
#[derive(Default)]
struct TestStore {
    rows: Vec<LineageRow>,
    /// Each input note, and whether it was there before its round.
    input_notes: Vec<(NoteId, bool)>,
    tags: Vec<NoteTagRecord>,
}

impl TestStore {
    fn upsert(&mut self, record: &PswapLineageRecord) {
        let row = lineage_row(record);
        self.rows.retain(|other| other.order_id != row.order_id);
        self.rows.push(row);
    }

    fn take_row(&mut self, order_id: u64) -> Option<LineageRow> {
        let position = self.rows.iter().position(|row| row.order_id == order_id)?;
        Some(self.rows.remove(position))
    }

    fn get(&self, order_id: u64) -> Option<PswapLineageRecord> {
        let row = self.rows.iter().find(|row| row.order_id == order_id)?;
        Some(record_from_row(row).unwrap())
    }

    fn list(&self, filter: &PswapLineageFilter) -> Vec<PswapLineageRecord> {
        let records = self.rows.iter().map(|row| record_from_row(row).unwrap()).collect();
        select_lineages(records, filter)
    }

    fn holds(&self, note: &Option<(Note, NoteInclusionProof)>) -> bool {
        match note {
            Some((note, _)) => self.input_notes.iter().any(|(id, _)| *id == note.id()),
            None => false,
        }
    }

    /// Stores a round, or leaves everything as it was.
    fn apply_round(&mut self, update: &PswapLineageRoundUpdate) -> Result<(), StoreError> {
        let payback_present = self.holds(&update.payback);
        let remainder_present = self.holds(&update.remainder);
        let current = self.get(update.order_id).map(|record| lineage_row(&record));
        let plan = apply_pswap_round(current, update, payback_present, remainder_present)?;
        self.take_row(update.order_id);
        self.rows.push(plan.row);
        self.input_notes.extend(plan.new_notes.iter().map(|(note, _)| (note.id(), false)));
        self.tags.retain(|tag| Some(*tag) != plan.dropped_tag);
        Ok(())
    }

    /// What a sync does about orders: resolves the notes that were seen, finds the rounds, and
    /// stores them.
    fn apply(
        &mut self,
        observer: &mut PswapChainObserver,
        seen: &[&ProtocolNote],
        consumed: &[&ProtocolNote],
        block: u32,
    ) {
        let consumed: Vec<NoteId> = consumed.iter().map(|note| plain_note(note).id()).collect();
        let pending = observer.take_pending();
        if is_quiet_sync(&pending, &consumed) {
            return;
        }
        let fetched = seen.iter().map(|note| fetched_note(note, block)).collect();
        let lineages = self.list(&PswapLineageFilter::All);
        let updates = build_chain_note_updates(&pending, &fetched, &lineages);
        let active = match lineages_to_load(&consumed, &updates) {
            Some(filter) => self.list(&filter),
            None => return,
        };
        let rounds = try_discover_pswap_rounds(&active, &consumed, block, &updates).unwrap();
        for round in rounds {
            self.apply_round(&round).unwrap();
        }
    }
}

/// Shows the notes of a sync to a fresh observer, and applies the sync.
fn sync(store: &mut TestStore, seen: &[&ProtocolNote], consumed: &[&ProtocolNote], block: u32) {
    let mut observer = PswapChainObserver::new();
    for note in seen {
        observer.observe(&commit_note(note, block));
    }
    store.apply(&mut observer, seen, consumed, block);
}

fn round(order_id: u64, round_depth: u32, tip: Option<NoteId>) -> PswapLineageRoundUpdate {
    PswapLineageRoundUpdate {
        order_id,
        round_depth,
        consumer_account_id: account(ACCOUNT_ID_REGULAR_PUBLIC_ACCOUNT_IMMUTABLE_CODE),
        fill_amount: requested_asset(10),
        payout_amount: offered_asset(20),
        remaining_offered: offered_asset(80),
        remaining_requested: requested_asset(40),
        state: PswapLineageState::Active,
        tip_note_id: tip,
        at_block: 8,
        payback: None,
        remainder: None,
    }
}

// ROWS
// ================================================================================================

/// A record survives being stored.
#[test]
fn lineage_round_trip_via_sqlite_store() {
    let mut store = TestStore::default();
    let record = build_initial_record(&build_test_pswap(100, 50));
    let order_id = record.order_id();

    store.upsert(&record);

    let fetched = store.get(order_id).expect("just upserted, should be present");

    assert_eq!(fetched.order_id(), record.order_id());
    assert_eq!(fetched.current_tip_note_id, record.current_tip_note_id);
    assert_eq!(fetched.current_depth, record.current_depth);
    assert_eq!(fetched.remaining_offered, record.remaining_offered);
    assert_eq!(fetched.remaining_requested, record.remaining_requested);
    assert_eq!(fetched.state, record.state);
    assert_eq!(fetched.creator_account_id(), record.creator_account_id());
    assert_eq!(fetched.offered_asset().amount(), record.offered_asset().amount());
}

/// The columns keep amounts and no callback flags: all else of a record reads back.
#[test]
fn record_with_callbacks_reads_back_without_them() {
    let mut record = build_initial_record(&build_test_pswap(100, 50));
    record.remaining_offered.callbacks = true;
    record.remaining_requested.callbacks = true;
    let read = record_from_row(&lineage_row(&record)).unwrap();
    assert_eq!(read.original_pswap, record.original_pswap);
    assert_eq!(read.current_tip_note_id, record.current_tip_note_id);
    assert_eq!(read.current_depth, record.current_depth);
    assert_eq!(read.remaining_offered, offered_asset(100));
    assert_eq!(read.remaining_requested, requested_asset(50));
    assert_eq!(read.state, record.state);
    assert_eq!(read.created_at_block, record.created_at_block);
    assert_eq!(read.updated_at_block, record.updated_at_block);
}

/// The columns are those of the stored format: the tip is text, the note is bytes.
#[test]
fn lineage_row_lays_out_columns() {
    let order = build_test_pswap(100, 50);
    let note = ProtocolNote::from(order.clone());
    let row = lineage_row(&build_initial_record(&order));
    assert_eq!(row.order_id, 2);
    assert_eq!(row.original_pswap, note.to_bytes());
    assert_eq!(row.current_tip_note_id, note.id().as_word().to_string());
    assert_eq!(row.current_tip_note_id, note.id().to_hex());
    assert_eq!(row.remaining_offered, 100);
    assert_eq!(row.remaining_requested, 50);
    assert_eq!(row.state, 0);
    assert_eq!((row.created_at_block, row.updated_at_block), (7, 7));
}

/// Rows that hold no record are refused.
#[test]
fn record_from_row_rejects_broken_columns() {
    let good = || lineage_row(&build_initial_record(&build_test_pswap(100, 50)));
    assert!(record_from_row(&good()).is_ok());

    let mut upper = good();
    upper.current_tip_note_id =
        format!("0x{}", upper.current_tip_note_id[2..].to_uppercase());
    assert_eq!(
        record_from_row(&upper).unwrap().current_tip_note_id,
        record_from_row(&good()).unwrap().current_tip_note_id
    );

    for text in ["", "0x12", "not an identifier"] {
        let mut row = good();
        row.current_tip_note_id = text.to_string();
        assert_eq!(record_from_row(&row).unwrap_err(), StoreError::DataDeserialization);
    }
    let mut row = good();
    row.current_tip_note_id = format!("0x{}", "f".repeat(64));
    assert_eq!(record_from_row(&row).unwrap_err(), StoreError::DataDeserialization);
    let mut row = good();
    row.original_pswap = vec![1, 2, 3];
    assert_eq!(record_from_row(&row).unwrap_err(), StoreError::DataDeserialization);
    let mut row = good();
    row.original_pswap = payback_note(&build_test_pswap(100, 50), 20, 1).to_bytes();
    assert_eq!(record_from_row(&row).unwrap_err(), StoreError::DataDeserialization);
    let mut row = good();
    row.state = 9;
    assert_eq!(
        record_from_row(&row).unwrap_err(),
        StoreError::Row(PswapLineageError::UnknownState(9))
    );
    row.remaining_offered = MAX_ASSET_AMOUNT + 1;
    assert_eq!(
        record_from_row(&row).unwrap_err(),
        StoreError::Row(PswapLineageError::InconsistentRow(
            AmountColumn::RemainingOffered,
            MAX_ASSET_AMOUNT + 1
        ))
    );
}

/// A round has to advance its lineage by exactly one; a refused round changes nothing.
#[test]
fn apply_pswap_round_rejects_non_monotonic_depth() {
    let mut store = TestStore::default();
    let record = build_initial_record(&build_test_pswap(100, 50));
    let order_id = record.order_id();
    store.upsert(&record);

    // The lineage is at depth 0; only depth 1 is accepted.
    let bad = round(order_id, 3, Some(record.current_tip_note_id));
    let result = store.apply_round(&bad);
    assert!(result.is_err(), "expected non-monotonic depth to be rejected");
    assert_eq!(
        result.unwrap_err(),
        StoreError::NonMonotonicDepth { round_depth: 3, order_id, current_depth: 0 }
    );

    let after = store.get(order_id).expect("row still present");
    assert_eq!(after.current_depth, 0, "depth must not have advanced");
    assert_eq!(after.remaining_offered, record.remaining_offered);
    assert_eq!(after.remaining_requested, record.remaining_requested);
    assert_eq!(after.state, PswapLineageState::Active);
}

/// A round of an order that is not tracked is refused.
#[test]
fn apply_pswap_round_rejects_unknown_order_id() {
    let mut store = TestStore::default();
    let bogus = round(0xdead_beef, 1, None);
    let result = store.apply_round(&bogus);
    assert!(result.is_err(), "expected unknown order_id to be rejected");
    assert_eq!(result.unwrap_err(), StoreError::UnknownOrder(0xdead_beef));
}

/// The same round is not stored twice, and the last depth cannot be left.
#[test]
fn rounds_are_stored_once() {
    let record = build_initial_record(&build_test_pswap(100, 50));
    let tip = record.current_tip_note_id;
    let first = round(record.order_id(), 1, Some(tip));
    let advanced = update_lineage_tip(Some(lineage_row(&record)), &first).unwrap();
    assert_eq!(advanced.current_depth, 1);
    assert_eq!(advanced.remaining_offered, 80);
    assert_eq!(advanced.remaining_requested, 40);
    assert_eq!(advanced.updated_at_block, 8);
    assert_eq!(advanced.created_at_block, 7);
    assert!(update_lineage_tip(Some(advanced), &first).is_err());

    let mut last = lineage_row(&record);
    last.current_depth = u32::MAX;
    let wrapped = round(record.order_id(), 0, None);
    assert!(update_lineage_tip(Some(last), &wrapped).is_err());
}

/// `Active` and `All` both list the single tracked row.
#[test]
fn list_pswap_lineages_filters_by_state() {
    let mut store = TestStore::default();
    store.upsert(&build_initial_record(&build_test_pswap(100, 50)));

    let active = store.list(&PswapLineageFilter::Active);
    assert_eq!(active.len(), 1);
    assert_eq!(active[0].state, PswapLineageState::Active);

    let all = store.list(&PswapLineageFilter::All);
    assert_eq!(all.len(), 1, "All filter returns every row");
}

/// `ActiveByTipNoteIds` lists the active lineages with one of the tips.
#[test]
fn list_pswap_lineages_filters_by_tip_note_ids() {
    let mut store = TestStore::default();
    let rec = build_initial_record(&build_test_pswap(100, 50));
    let real_tip = rec.current_tip_note_id;
    store.upsert(&rec);
    let phantom_tip = build_initial_record(&build_test_pswap(999, 999)).current_tip_note_id;

    let empty = store.list(&PswapLineageFilter::ActiveByTipNoteIds(Vec::new()));
    assert!(empty.is_empty(), "empty note-id set should return no rows");

    let none = store.list(&PswapLineageFilter::ActiveByTipNoteIds(vec![phantom_tip]));
    assert!(none.is_empty(), "non-matching note id should return no rows");

    let one = store.list(&PswapLineageFilter::ActiveByTipNoteIds(vec![real_tip]));
    assert_eq!(one.len(), 1, "matching note id should return its lineage");
    assert_eq!(one[0].current_tip_note_id, real_tip);

    let mixed = store.list(&PswapLineageFilter::ActiveByTipNoteIds(vec![
        phantom_tip,
        real_tip,
        phantom_tip,
    ]));
    assert_eq!(mixed.len(), 1, "mixed set should return only the matching lineage");
    assert_eq!(mixed[0].current_tip_note_id, real_tip);
}

/// Selection keeps the order of the records.
#[test]
fn selection_keeps_the_order() {
    let make = |depth: u32, state: PswapLineageState| {
        let mut record = build_initial_record(&build_test_pswap(100, 50));
        record.current_depth = depth;
        record.state = state;
        record
    };
    let records = vec![
        make(1, PswapLineageState::Active),
        make(2, PswapLineageState::Reclaimed),
        make(3, PswapLineageState::Active),
    ];
    let selected = select_lineages(records, &PswapLineageFilter::Active);
    let depths: Vec<u32> = selected.iter().map(|record| record.current_depth).collect();
    assert_eq!(depths, vec![1, 3]);
}

#[test]
fn query_clauses() {
    assert_eq!(sql_filter_part(&PswapLineageFilter::All), "");
    assert_eq!(sql_filter_part(&PswapLineageFilter::Active), " WHERE state = ?");
    assert_eq!(sql_filter_part(&PswapLineageFilter::ByOrderId(2)), " WHERE order_id = ?");
    let creator = account(ACCOUNT_ID_REGULAR_PUBLIC_ACCOUNT_IMMUTABLE_CODE);
    assert_eq!(sql_filter_part(&PswapLineageFilter::ByCreator(creator)), "");
    assert_eq!(sql_filter_part(&PswapLineageFilter::ActiveByTipNoteIds(vec![])), "");
    assert_eq!(placeholders(0), "");
    assert_eq!(placeholders(1), "?");
    assert_eq!(placeholders(3), "?,?,?");
}

// SYNCS
// ================================================================================================

/// A private order is filled in part: the lineage advances, and its tip moves to the remainder.
#[test]
fn private_pswap_partial_fill_advances_lineage_end_to_end() {
    let mut store = TestStore::default();
    let order = build_private_test_pswap(100, 50);
    store.upsert(&build_initial_record(&order));

    let new_offered = amount(60); // 100 - 40
    let new_requested = amount(30); // 50 - 20
    let payback = payback_note(&order, 20, 1);
    let remainder = remainder_note(&order, 40, 1, 60, 30);

    let p0_note = ProtocolNote::from(order.clone());
    sync(&mut store, &[&payback, &remainder], &[&p0_note], 5);

    let order_id = order.order_id().as_canonical_u64();
    let remainder_id = plain_note(&remainder).id();
    let lineage = store.get(order_id).expect("lineage exists in store");
    assert_eq!(lineage.current_depth, 1, "lineage advanced to depth 1");
    assert_eq!(lineage.state, PswapLineageState::Active, "still Active after partial fill");
    assert_eq!(lineage.current_tip_note_id, remainder_id, "tip moved to remainder");
    assert_eq!(lineage.remaining_offered.amount(), new_offered);
    assert_eq!(lineage.remaining_requested.amount(), new_requested);

    let by_tip = store.list(&PswapLineageFilter::ActiveByTipNoteIds(vec![remainder_id]));
    assert_eq!(by_tip.len(), 1, "lineage findable by new tip note id");
    // Both notes are there to be consumed.
    assert_eq!(store.input_notes.len(), 2);
}

/// A payback alone fills the rest of the order.
#[test]
fn private_pswap_full_fill_marks_fully_filled() {
    let mut store = TestStore::default();
    let order = build_private_test_pswap(100, 50);
    store.upsert(&build_initial_record(&order));

    let payback = payback_note(&order, 50, 1);
    let p0_note = ProtocolNote::from(order.clone());
    sync(&mut store, &[&payback], &[&p0_note], 7);

    let lineage = store.get(order.order_id().as_canonical_u64()).unwrap();
    assert_eq!(lineage.current_depth, 1);
    assert_eq!(lineage.state, PswapLineageState::FullyFilled);
    assert_eq!(lineage.remaining_offered.amount(), AssetAmount::zero());
    assert_eq!(lineage.remaining_requested.amount(), AssetAmount::zero());
}

/// A consumed tip without notes was reclaimed.
#[test]
fn private_pswap_reclaim_marks_reclaimed() {
    let mut store = TestStore::default();
    let order = build_private_test_pswap(100, 50);
    store.upsert(&build_initial_record(&order));

    let p0_note = ProtocolNote::from(order.clone());
    sync(&mut store, &[], &[&p0_note], 9);

    let lineage = store.get(order.order_id().as_canonical_u64()).unwrap();
    assert_eq!(lineage.state, PswapLineageState::Reclaimed);
    assert_eq!(lineage.remaining_offered.amount(), AssetAmount::zero());
    assert_eq!(lineage.remaining_requested.amount(), AssetAmount::zero());
}

/// Two rounds of one sync are both stored.
#[test]
fn private_pswap_multi_round_same_sync_advances_twice() {
    let mut store = TestStore::default();
    let order = build_private_test_pswap(100, 50);
    store.upsert(&build_initial_record(&order));

    let payback_1 = payback_note(&order, 20, 1);
    let remainder_1 = remainder_note(&order, 40, 1, 60, 30);
    let payback_2 = payback_note(&order, 30, 2);

    let p0_note = ProtocolNote::from(order.clone());
    sync(
        &mut store,
        &[&payback_1, &remainder_1, &payback_2],
        &[&p0_note, &remainder_1],
        15,
    );

    let lineage = store.get(order.order_id().as_canonical_u64()).unwrap();
    assert_eq!(lineage.current_depth, 2, "advanced through both rounds in one sync");
    assert_eq!(lineage.state, PswapLineageState::FullyFilled);
    assert_eq!(lineage.remaining_offered.amount(), AssetAmount::zero());
    assert_eq!(lineage.remaining_requested.amount(), AssetAmount::zero());
    // Both paybacks are kept; the remainder in between is spent.
    assert_eq!(store.input_notes.len(), 2);
    assert!(store.input_notes.iter().all(|(id, _)| *id != plain_note(&remainder_1).id()));
}

/// Notes of an order that is not tracked change nothing.
#[test]
fn foreign_pswap_attachment_note_is_filtered_out() {
    let mut store = TestStore::default();
    let foreign = build_order([99, 98, 97, 96], ProtocolNoteType::Private, 100, 50);
    let foreign_payback = payback_note(&foreign, 20, 1);
    let foreign_p0_note = ProtocolNote::from(foreign.clone());
    sync(&mut store, &[&foreign_payback], &[&foreign_p0_note], 5);

    assert!(
        store.get(foreign.order_id().as_canonical_u64()).is_none(),
        "foreign PSWAP must not be inserted into our store",
    );
    assert!(store.input_notes.is_empty());
}

/// A note of a round that is over does not advance the lineage again.
#[test]
fn stale_depth_payback_does_not_advance_lineage() {
    let mut store = TestStore::default();
    let order = build_private_test_pswap(100, 50);

    // The lineage went through its first round already.
    let mut record = build_initial_record(&order);
    let already_at = remainder_note(&order, 40, 1, 60, 30);
    record.current_depth = 1;
    record.current_tip_note_id = plain_note(&already_at).id();
    record.remaining_offered = offered_asset(60);
    record.remaining_requested = requested_asset(30);
    store.upsert(&record);

    let stale_payback = payback_note(&order, 20, 1);
    sync(&mut store, &[&stale_payback], &[], 20);

    let lineage = store.get(order.order_id().as_canonical_u64()).unwrap();
    assert_eq!(lineage.current_depth, 1, "stale depth-1 must not re-advance to 2");
    assert_eq!(lineage.state, PswapLineageState::Active);
}

/// An order that ended is never advanced again.
#[test]
fn terminal_lineage_is_not_re_advanced() {
    let mut store = TestStore::default();
    let order = build_private_test_pswap(100, 50);

    let mut record = build_initial_record(&order);
    record.state = PswapLineageState::FullyFilled;
    store.upsert(&record);
    let zombie_payback = payback_note(&order, 20, 1);
    let p0_note = ProtocolNote::from(order.clone());
    sync(&mut store, &[&zombie_payback], &[&p0_note], 30);

    let lineage = store.get(order.order_id().as_canonical_u64()).unwrap();
    assert_eq!(lineage.state, PswapLineageState::FullyFilled);
    assert_eq!(lineage.current_depth, record.current_depth);
}

/// A sync without notes and without consumptions changes nothing.
#[test]
fn empty_sync_is_no_op() {
    let mut store = TestStore::default();
    let order = build_private_test_pswap(100, 50);
    store.upsert(&build_initial_record(&order));

    sync(&mut store, &[], &[], 0);

    let lineage = store.get(order.order_id().as_canonical_u64()).unwrap();
    assert_eq!(lineage.current_depth, 0);
    assert_eq!(lineage.state, PswapLineageState::Active);
}

/// A note that is already there is left as it is.
#[test]
fn apply_round_skips_insert_when_payback_already_present() {
    let mut store = TestStore::default();
    let order = build_private_test_pswap(100, 50);
    store.upsert(&build_initial_record(&order));

    let payback = payback_note(&order, 20, 1);
    let remainder = remainder_note(&order, 40, 1, 60, 30);
    let payback_id = plain_note(&payback).id();
    store.input_notes.push((payback_id, true));

    let p0_note = ProtocolNote::from(order.clone());
    sync(&mut store, &[&payback, &remainder], &[&p0_note], 5);

    let lineage = store.get(order.order_id().as_canonical_u64()).unwrap();
    assert_eq!(lineage.current_depth, 1);

    let rows: Vec<&(NoteId, bool)> =
        store.input_notes.iter().filter(|(id, _)| *id == payback_id).collect();
    assert_eq!(rows.len(), 1, "payback must not be duplicated");
    assert!(
        rows[0].1,
        "dedup must leave the pre-existing Expected record intact, not overwrite it",
    );
}

/// The same note on both sides of a round is inserted once.
#[test]
fn round_inserts_each_note_once() {
    let order = build_private_test_pswap(100, 50);
    let record = build_initial_record(&order);
    let note = plain_note(&payback_note(&order, 20, 1));
    let mut update = round(record.order_id(), 1, Some(note.id()));
    update.payback = Some((note.clone(), dummy_inclusion_proof(5)));
    update.remainder = Some((note.clone(), dummy_inclusion_proof(5)));
    let plan = apply_pswap_round(Some(lineage_row(&record)), &update, false, false).unwrap();
    assert_eq!(plan.new_notes, vec![(note, dummy_inclusion_proof(5))]);
    assert_eq!(plan.dropped_tag, None);
    let plan = apply_pswap_round(Some(lineage_row(&record)), &update, true, true).unwrap();
    assert!(plan.new_notes.is_empty());
}

/// The subscription that creating an order registers is dropped when the order ends.
#[test]
fn subscription_lives_as_long_as_its_order() {
    let mut store = TestStore::default();
    let order = build_private_test_pswap(100, 50);
    let note = plain_note(&ProtocolNote::from(order.clone()));
    let remainder = plain_note(&remainder_note(&order, 40, 1, 60, 30));
    let payback = plain_note(&payback_note(&order, 20, 1));

    // Paybacks are no orders, and remainders belong to someone else's.
    let observer = PswapTransactionObserver::new(());
    let added = observer.observe(&vec![payback, remainder, note.clone()], 7);
    assert_eq!(added.len(), 1);
    let tag = StandardOrder::create_tag(
        order.note_type(),
        order.offered_asset(),
        order.storage().requested_asset(),
    );
    let expected = NoteTagRecord {
        tag: tag.as_u32(),
        source: NoteTagSource::Subscription(note.id()),
    };
    assert_eq!(added[0].tag, expected);
    assert_eq!(added[0].record.current_tip_note_id, note.id());
    assert_eq!(added[0].record.created_at_block, 7);
    assert_eq!(added[0].record.remaining_offered, offered_asset(100));
    assert_eq!(asset_pair_subscription(&note.bytes), Ok(expected));
    assert_eq!(asset_pair_subscription(&vec![1]), Err(StoreError::DataDeserialization));

    store.upsert(&added[0].record);
    store.tags.push(added[0].tag);
    let other = NoteTagRecord::with_user_source(added[0].tag.tag);
    store.tags.push(other);

    let p0_note = ProtocolNote::from(order.clone());
    sync(&mut store, &[], &[&p0_note], 9);
    assert_eq!(store.tags, vec![other]);
}

/// A terminal round of a row whose note cannot be read is refused.
#[test]
fn terminal_round_needs_the_original_note() {
    let record = build_initial_record(&build_test_pswap(100, 50));
    let mut row = lineage_row(&record);
    row.original_pswap = vec![];
    let mut update = round(record.order_id(), 1, None);
    update.state = PswapLineageState::Reclaimed;
    assert_eq!(
        apply_pswap_round(Some(row), &update, false, false).err(),
        Some(StoreError::DataDeserialization)
    );
}

// OBSERVATION
// ================================================================================================

#[test]
fn observer_keeps_notes_with_a_pswap_header() {
    let scheme = StandardOrder::PSWAP_ATTACHMENT_SCHEME.as_u16();
    assert_eq!(PSWAP_ATTACHMENT_SCHEME, scheme);
    let order = build_private_test_pswap(100, 50);
    let mut observer = PswapChainObserver::new();
    // The order itself carries no attachment.
    observer.observe(&commit_note(&ProtocolNote::from(order.clone()), 5));
    assert!(observer.pending_pswap_notes.is_empty());
    let payback = commit_note(&payback_note(&order, 20, 1), 5);
    observer.observe(&payback);
    // The slot does not matter.
    let mut later = payback.clone();
    later.metadata.attachment_headers =
        AttachmentHeaders { first: None, second: Some(1), third: None, fourth: Some(scheme) };
    observer.observe(&later);
    let pending = observer.take_pending();
    assert_eq!(pending.len(), 2);
    assert_eq!(pending[0].note_id, payback.note_id);
    assert_eq!(pending[0].sender, payback.sender());
    assert_eq!(pending[0].tag, payback.tag());
    assert_eq!(pending[0].block_num, 5);
    assert!(observer.take_pending().is_empty());
    assert!(is_quiet_sync(&vec![], &vec![]));
    assert!(!is_quiet_sync(&pending, &vec![]));
    assert!(!is_quiet_sync(&vec![], &vec![payback.note_id]));
}

#[test]
fn attachment_words_are_read() {
    let attachment = |scheme: u16, words: Vec<Word>| NoteAttachment { scheme, words };
    let word = |a: u64, c: u64| Word { a, b: 8, c, d: 0 };
    let read = |attachments: Vec<NoteAttachment>| extract_pswap_attachment(&attachments);
    let scheme = PSWAP_ATTACHMENT_SCHEME;
    assert_eq!(
        read(vec![attachment(1, vec![word(5, 5)]), attachment(scheme, vec![word(20, 1)])]),
        Some(PswapNoteAttachment { amount: amount(20), order_id: 8, depth: 1 })
    );
    assert_eq!(read(vec![]), None);
    assert_eq!(read(vec![attachment(1, vec![word(20, 1)])]), None);
    assert_eq!(read(vec![attachment(scheme, vec![])]), None);
    assert_eq!(read(vec![attachment(scheme, vec![word(MAX_ASSET_AMOUNT + 1, 1)])]), None);
    assert_eq!(read(vec![attachment(scheme, vec![word(20, 1 << 32)])]), None);
    // The first attachment of the scheme decides.
    assert_eq!(
        read(vec![attachment(scheme, vec![]), attachment(scheme, vec![word(20, 1)])]),
        None
    );
    let order = build_private_test_pswap(100, 50);
    assert_eq!(
        extract_pswap_attachment(&plain_attachments(&payback_note(&order, 20, 3))),
        Some(PswapNoteAttachment { amount: amount(20), order_id: 8, depth: 3 })
    );
}

/// Only notes that were asked for, of active orders and later rounds, become chain notes.
#[test]
fn resolution_filters_notes() {
    let order = build_private_test_pswap(100, 50);
    let payback = payback_note(&order, 20, 1);
    let mut observer = PswapChainObserver::new();
    observer.observe(&commit_note(&payback, 5));
    let pending = observer.take_pending();
    let resolve = |pending: &Vec<_>, record: PswapLineageRecord| {
        build_chain_note_updates(pending, &vec![fetched_note(&payback, 5)], &vec![record])
    };
    let updates = resolve(&pending, build_initial_record(&order));
    assert_eq!(updates.len(), 1);
    assert_eq!(updates[0].note_id, plain_note(&payback).id());
    assert_eq!(updates[0].attachment.depth, 1);
    assert_eq!(updates[0].attachment.amount, amount(20));
    assert_eq!(updates[0].tag, payback.metadata().tag().as_u32());

    assert!(resolve(&vec![], build_initial_record(&order)).is_empty());
    let mut ended = build_initial_record(&order);
    ended.state = PswapLineageState::Reclaimed;
    assert!(resolve(&pending, ended).is_empty());
    let mut advanced = build_initial_record(&order);
    advanced.current_depth = 1;
    assert!(resolve(&pending, advanced).is_empty());
    let other = build_initial_record(&build_test_pswap(100, 50));
    assert!(resolve(&pending, other).is_empty());
}

// RECLAIMING
// ================================================================================================

#[test]
fn reclaim_needs_an_active_order_of_a_local_creator() {
    let order = build_private_test_pswap(100, 50);
    let creator = account(ACCOUNT_ID_REGULAR_PUBLIC_ACCOUNT_IMMUTABLE_CODE_2);
    let stranger = account(ACCOUNT_ID_REGULAR_PUBLIC_ACCOUNT_IMMUTABLE_CODE);

    assert_eq!(check_reclaimable(8, None).unwrap_err(), PswapLineageError::NotFound(8));
    let mut ended = build_initial_record(&order);
    ended.state = PswapLineageState::FullyFilled;
    assert_eq!(
        check_reclaimable(8, Some(ended)).unwrap_err(),
        PswapLineageError::NotActive(PswapLineageState::FullyFilled)
    );
    let record = check_reclaimable(8, Some(build_initial_record(&order))).unwrap();
    assert_eq!(
        find_tip(&record, &vec![stranger]).unwrap_err(),
        PswapLineageError::CreatorNotLocal(creator)
    );
    // The original is a note that this wallet put out; remainders come in.
    let query = find_tip(&record, &vec![stranger, creator]).unwrap();
    assert_eq!(query.table, TipTable::OutputNotes);
    assert_eq!(query.note_id, record.current_tip_note_id);
    assert_eq!(query.creator, creator);
    let mut advanced = build_initial_record(&order);
    advanced.current_depth = 1;
    assert_eq!(find_tip(&advanced, &vec![creator]).unwrap().table, TipTable::InputNotes);

    assert_eq!(
        build_pswap_cancel(query, None).unwrap_err(),
        PswapLineageError::TipMissing
    );
    let tip = plain_note(&ProtocolNote::from(order.clone()));
    let request = build_pswap_cancel(query, Some(tip.clone())).unwrap();
    assert_eq!(request.tip_note, tip);
    assert_eq!(request.creator, creator);
}
