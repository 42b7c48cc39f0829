//! What the persistent store decides about lineage rows: how a record is laid out in columns and
//! read back, which rows a filter lists, and how a round changes the store.
use vstd::prelude::*;
use vstd::string::StringExecFns;

use super::discovery::{after_rounds, lineage_rounds, law_depth_advances_by_one, ChainNoteView};
use super::errors::PswapLineageError;
use super::lineage::{
    build_record_from_columns, record_of_columns, LineageView, PswapLineageFilter,
    PswapLineageRecord, PswapLineageRoundUpdate, PswapLineageState, RoundView,
};
use super::note::{raw_terms_of, PswapNote, PswapTerms, PswapView};
use crate::asset::{FungibleAsset, MAX_ASSET_AMOUNT};
use crate::encoding::{note_id_from_hex, note_id_from_hex_of, note_id_hex, note_id_hex_of};
use crate::note::{note_id_of, Note, NoteInclusionProof, NoteView, ProofView};
use crate::primitives::{BlockNumber, NoteId};
use crate::sync::tag::{NoteTagRecord, NoteTagSource};

verus! {

/// Failures of the store's lineage operations.
#[derive(Clone, Copy, Debug, PartialEq, Eq, Structural)]
pub enum StoreError {
    /// A stored note, order or identifier cannot be decoded.
    DataDeserialization,
    /// A stored row's columns do not make a record.
    Row(PswapLineageError),
    /// A round belongs to an order that is not tracked.
    UnknownOrder(u64),
    /// A round does not advance its lineage by exactly one.
    NonMonotonicDepth { round_depth: u32, order_id: u64, current_depth: u32 },
}

// ROWS
// ================================================================================================

/// The columns of a stored lineage.
#[derive(Debug, PartialEq, Eq)]
pub struct LineageRow {
    pub order_id: u64,
    /// The original note, serialised.
    pub original_pswap: Vec<u8>,
    /// The tip's identifier, as hexadecimal text.
    pub current_tip_note_id: String,
    pub current_depth: u32,
    pub remaining_offered: u64,
    pub remaining_requested: u64,
    pub state: u8,
    pub created_at_block: BlockNumber,
    pub updated_at_block: BlockNumber,
}

/// What a [`LineageRow`] stands for.
#[verifier::ext_equal]
pub ghost struct RowView {
    pub order_id: u64,
    pub original_pswap: Seq<u8>,
    pub current_tip_note_id: Seq<char>,
    pub current_depth: u32,
    pub remaining_offered: u64,
    pub remaining_requested: u64,
    pub state: u8,
    pub created_at_block: BlockNumber,
    pub updated_at_block: BlockNumber,
}

impl View for LineageRow {
    type V = RowView;

    open spec fn view(&self) -> RowView {
        RowView {
            order_id: self.order_id,
            original_pswap: self.original_pswap@,
            current_tip_note_id: self.current_tip_note_id@,
            current_depth: self.current_depth,
            remaining_offered: self.remaining_offered,
            remaining_requested: self.remaining_requested,
            state: self.state,
            created_at_block: self.created_at_block,
            updated_at_block: self.updated_at_block,
        }
    }
}

/// The columns of a record.
pub open spec fn row_of(record: LineageView) -> RowView {
    RowView {
        order_id: record.order_id(),
        original_pswap: record.original_pswap.note.bytes,
        current_tip_note_id: note_id_hex_of(record.current_tip_note_id),
        current_depth: record.current_depth,
        remaining_offered: record.remaining_offered.amount.value,
        remaining_requested: record.remaining_requested.amount.value,
        state: record.state.spec_as_u8(),
        created_at_block: record.created_at_block,
        updated_at_block: record.updated_at_block,
    }
}

/// Whether a record is a valid one: its order is what its note encodes, its tip is a canonical
/// identifier, and what is left are amounts that assets can have.
pub open spec fn storable(record: LineageView) -> bool {
    &&& record.original_pswap.wf()
    &&& note_id_of(record.original_pswap.note.bytes) == Some(record.original_pswap.note.id)
    &&& record.current_tip_note_id.word.is_canonical()
    &&& record.remaining_offered.wf()
    &&& record.remaining_requested.wf()
}

/// Whether what a round leaves of a lineage is valid.
pub open spec fn storable_round(round: RoundView) -> bool {
    &&& round.tip_note_id matches Some(tip) ==> tip.word.is_canonical()
    &&& round.remaining_offered.wf()
    &&& round.remaining_requested.wf()
}

/// What a record is after it was stored and read back. The columns keep the amounts that are left
/// and nothing else of the two assets: these come back as assets of the order's faucets, with
/// callbacks disabled. All else comes back as it was.
pub open spec fn as_stored(record: LineageView) -> LineageView {
    LineageView {
        remaining_offered: FungibleAsset::spec_of(
            record.terms().offered_asset.faucet_id,
            record.remaining_offered.amount.value,
        ),
        remaining_requested: FungibleAsset::spec_of(
            record.terms().requested_asset.faucet_id,
            record.remaining_requested.amount.value,
        ),
        ..record
    }
}

/// Lays a record out in columns. A valid record is read back with its order, tip, depth, amounts,
/// state and blocks.
pub fn lineage_row(record: &PswapLineageRecord) -> (row: LineageRow)
    ensures
        row@ == row_of(record@),
        storable(record@) ==> record_of_row(row@) == Ok::<LineageView, StoreError>(
            as_stored(record@),
        ),
{
    let original_pswap = record.original_pswap.note.bytes.clone();
    assert(original_pswap@ =~= record.original_pswap.note.bytes@);
    LineageRow {
        order_id: record.order_id(),
        original_pswap,
        current_tip_note_id: note_id_hex(record.current_tip_note_id),
        current_depth: record.current_depth,
        remaining_offered: record.remaining_offered.amount.value,
        remaining_requested: record.remaining_requested.amount.value,
        state: record.state.as_u8(),
        created_at_block: record.created_at_block,
        updated_at_block: record.updated_at_block,
    }
}

/// The order that an encoded note carries, when it carries one.
pub open spec fn order_in(bytes: Seq<u8>) -> Option<PswapView> {
    match (note_id_of(bytes), raw_terms_of(bytes)) {
        (Some(id), Some(raw)) => Some(
            PswapView { terms: PswapTerms::of(raw), note: NoteView { id, bytes } },
        ),
        _ => None,
    }
}

/// What a row stands for.
pub open spec fn record_of_row(row: RowView) -> Result<LineageView, StoreError> {
    match (order_in(row.original_pswap), note_id_from_hex_of(row.current_tip_note_id)) {
        (Some(order), Some(tip)) => match record_of_columns(
            order,
            tip,
            row.current_depth,
            row.remaining_offered,
            row.remaining_requested,
            row.state,
            row.created_at_block,
            row.updated_at_block,
        ) {
            Ok(record) => Ok(record),
            Err(err) => Err(StoreError::Row(err)),
        },
        _ => Err(StoreError::DataDeserialization),
    }
}

pub open spec fn view_read(record: Result<PswapLineageRecord, StoreError>) -> Result<
    LineageView,
    StoreError,
> {
    match record {
        Ok(record) => Ok(record@),
        Err(err) => Err(err),
    }
}

/// Decodes the order that an encoded note carries.
fn decode_order(bytes: &Vec<u8>) -> (order: Option<PswapNote>)
    ensures
        match order {
            Some(order) => Some(order@),
            None => None,
        } == order_in(bytes@),
        order matches Some(order) ==> order@.wf(),
{
    let copy = bytes.clone();
    assert(copy@ =~= bytes@);
    match Note::from_bytes(copy) {
        Some(note) => PswapNote::from_note(&note),
        None => None,
    }
}

/// Reads a record back from its columns.
pub fn record_from_row(row: &LineageRow) -> (record: Result<PswapLineageRecord, StoreError>)
    ensures
        view_read(record) == record_of_row(row@),
        record matches Ok(record) ==> record@.wf(),
{
    let original_pswap = match decode_order(&row.original_pswap) {
        Some(order) => order,
        None => {
            return Err(StoreError::DataDeserialization);
        },
    };
    let tip = match note_id_from_hex(row.current_tip_note_id.as_str()) {
        Some(tip) => tip,
        None => {
            return Err(StoreError::DataDeserialization);
        },
    };
    match build_record_from_columns(
        original_pswap,
        tip,
        row.current_depth,
        row.remaining_offered,
        row.remaining_requested,
        row.state,
        row.created_at_block,
        row.updated_at_block,
    ) {
        Ok(record) => Ok(record),
        Err(err) => Err(StoreError::Row(err)),
    }
}

// LISTING
// ================================================================================================

/// Keeps the lineages that a filter selects, in their order.
pub fn select_lineages(
    records: Vec<PswapLineageRecord>,
    filter: &PswapLineageFilter,
) -> (selected: Vec<PswapLineageRecord>)
    ensures
        selected@ == records@.filter(|record: PswapLineageRecord| filter.selects(record@)),
{
    let ghost keep = |record: PswapLineageRecord| filter.selects(record@);
    let ghost all = records@;
    let mut rest = records;
    let mut reversed: Vec<PswapLineageRecord> = Vec::new();
    // Moves the selected ones out from the back, so that they come out reversed.
    while rest.len() > 0
        invariant
            keep == (|record: PswapLineageRecord| filter.selects(record@)),
            rest@.len() <= all.len(),
            rest@ == all.take(rest@.len() as int),
            all.filter(keep) == rest@.filter(keep) + reversed@.reverse(),
        decreases rest.len(),
    {
        let ghost before = rest@;
        let ghost kept = reversed@;
        let record = rest.pop().unwrap();
        proof {
            assert(before.drop_last() == rest@);
            assert(before.last() == record);
            assert(rest@ =~= all.take(rest@.len() as int));
            reveal(Seq::filter);
        }
        if filter.matches(&record) {
            reversed.push(record);
            assert(reversed@.reverse() =~= seq![record] + kept.reverse());
            assert(rest@.filter(keep).push(record) + kept.reverse() =~= rest@.filter(keep)
                + reversed@.reverse());
        }
    }
    let ghost collected = reversed@;
    let mut selected: Vec<PswapLineageRecord> = Vec::new();
    proof {
        reveal(Seq::filter);
        assert(rest@.filter(keep) =~= Seq::<PswapLineageRecord>::empty());
        assert(all.filter(keep) =~= collected.reverse());
    }
    while reversed.len() > 0
        invariant
            reversed@.len() <= collected.len(),
            reversed@ == collected.take(reversed@.len() as int),
            selected@ + reversed@.reverse() == collected.reverse(),
        decreases reversed.len(),
    {
        let ghost before = reversed@;
        let ghost kept = selected@;
        let record = reversed.pop().unwrap();
        assert(reversed@ =~= collected.take(reversed@.len() as int));
        assert(before.reverse() =~= seq![record] + reversed@.reverse());
        selected.push(record);
        assert(selected@ + reversed@.reverse() =~= kept + before.reverse());
    }
    assert(selected@ =~= collected.reverse());
    selected
}

/// The clause that a filter adds to the query for lineage rows. Creators live inside the stored
/// note, and tips go through a list of their own, so neither adds one.
pub open spec fn spec_sql_filter_part(filter: PswapLineageFilter) -> Seq<char> {
    match filter {
        PswapLineageFilter::Active => " WHERE state = ?"@,
        PswapLineageFilter::ByOrderId(_) => " WHERE order_id = ?"@,
        _ => ""@,
    }
}

pub fn sql_filter_part(filter: &PswapLineageFilter) -> (clause: &'static str)
    ensures
        clause@ == spec_sql_filter_part(*filter),
{
    match filter {
        PswapLineageFilter::Active => " WHERE state = ?",
        PswapLineageFilter::ByOrderId(_) => " WHERE order_id = ?",
        _ => "",
    }
}

/// `count` question marks, separated by commas.
pub open spec fn spec_placeholders(count: nat) -> Seq<char>
    decreases count,
{
    if count == 0 {
        Seq::empty()
    } else if count == 1 {
        "?"@
    } else {
        spec_placeholders((count - 1) as nat) + ",?"@
    }
}

/// The parameter list of a query for the lineages with one of `count` tips.
pub fn placeholders(count: usize) -> (list: String)
    ensures
        list@ == spec_placeholders(count as nat),
{
    let mut list = String::new();
    assert(list@ =~= spec_placeholders(0));
    let mut i: usize = 0;
    while i < count
        invariant
            i <= count,
            list@ == spec_placeholders(i as nat),
        decreases count - i,
    {
        let ghost before = list@;
        if i == 0 {
            list.append("?");
            assert(before + "?"@ =~= "?"@);
        } else {
            list.append(",?");
        }
        i += 1;
    }
    list
}

// ROUNDS
// ================================================================================================

/// The row after a round: a terminal round leaves the last live tip in place.
pub open spec fn row_after_round(row: RowView, round: RoundView) -> RowView {
    RowView {
        current_tip_note_id: match round.tip_note_id {
            Some(tip) => note_id_hex_of(tip),
            None => row.current_tip_note_id,
        },
        current_depth: round.round_depth,
        remaining_offered: round.remaining_offered.amount.value,
        remaining_requested: round.remaining_requested.amount.value,
        state: round.state.spec_as_u8(),
        updated_at_block: round.at_block,
        ..row
    }
}

/// What storing a round makes of its lineage's row. The row has to be there, and the round has
/// to advance it by exactly one.
pub open spec fn stored_round(current: Option<RowView>, round: RoundView) -> Result<
    RowView,
    StoreError,
> {
    match current {
        None => Err(StoreError::UnknownOrder(round.order_id)),
        Some(row) => if round.round_depth != row.current_depth + 1 {
            Err(
                StoreError::NonMonotonicDepth {
                    round_depth: round.round_depth,
                    order_id: round.order_id,
                    current_depth: row.current_depth,
                },
            )
        } else {
            Ok(row_after_round(row, round))
        },
    }
}

pub open spec fn view_row(row: Option<LineageRow>) -> Option<RowView> {
    match row {
        Some(row) => Some(row@),
        None => None,
    }
}

/// Advances a lineage's row by one round. A row that reads as a record then reads as that record
/// after the round, as it is stored.
pub fn update_lineage_tip(
    current: Option<LineageRow>,
    update: &PswapLineageRoundUpdate,
) -> (advanced: Result<LineageRow, StoreError>)
    ensures
        match advanced {
            Ok(row) => Ok(row@),
            Err(err) => Err(err),
        } == stored_round(view_row(current), update@),
        current matches Some(row) ==> advanced matches Ok(after) ==> record_of_row(row@) matches Ok(
            record,
        ) ==> storable_round(update@) ==> record_of_row(after@) == Ok::<LineageView, StoreError>(
            as_stored(record.after_round(update@)),
        ),
{
    let row = match current {
        Some(row) => row,
        None => {
            return Err(StoreError::UnknownOrder(update.order_id));
        },
    };
    if row.current_depth == u32::MAX || update.round_depth != row.current_depth + 1 {
        return Err(
            StoreError::NonMonotonicDepth {
                round_depth: update.round_depth,
                order_id: update.order_id,
                current_depth: row.current_depth,
            },
        );
    }
    let current_tip_note_id = match update.tip_note_id {
        Some(tip) => note_id_hex(tip),
        None => row.current_tip_note_id,
    };
    Ok(
        LineageRow {
            order_id: row.order_id,
            original_pswap: row.original_pswap,
            current_tip_note_id,
            current_depth: update.round_depth,
            remaining_offered: update.remaining_offered.amount.value,
            remaining_requested: update.remaining_requested.amount.value,
            state: update.state.as_u8(),
            created_at_block: row.created_at_block,
            updated_at_block: update.at_block,
        },
    )
}

/// The subscription that an order's creation registered.
pub open spec fn subscription_of(order: PswapView) -> NoteTagRecord {
    NoteTagRecord {
        tag: order.terms.spec_asset_pair_tag(),
        source: NoteTagSource::Subscription(order.note.id),
    }
}

/// The subscription to drop when an order ends, recomputed from the stored note.
pub fn asset_pair_subscription(original_pswap: &Vec<u8>) -> (record: Result<
    NoteTagRecord,
    StoreError,
>)
    ensures
        record == (match order_in(original_pswap@) {
            Some(order) => Ok::<NoteTagRecord, StoreError>(subscription_of(order)),
            None => Err(StoreError::DataDeserialization),
        }),
{
    match decode_order(original_pswap) {
        Some(order) => Ok(
            NoteTagRecord {
                tag: order.terms.asset_pair_tag(),
                source: NoteTagSource::Subscription(order.note.id()),
            },
        ),
        None => Err(StoreError::DataDeserialization),
    }
}

/// What storing a round changes.
pub struct RoundPlan {
    /// The lineage's row after the round.
    pub row: LineageRow,
    /// The notes to insert as unverified input notes.
    pub new_notes: Vec<(Note, NoteInclusionProof)>,
    /// The subscription to drop; there is one when the round is terminal.
    pub dropped_tag: Option<NoteTagRecord>,
}

/// What a [`RoundPlan`] stands for.
#[verifier::ext_equal]
pub ghost struct PlanView {
    pub row: RowView,
    pub new_notes: Seq<(NoteView, ProofView)>,
    pub dropped_tag: Option<NoteTagRecord>,
}

pub open spec fn view_new_notes(notes: Seq<(Note, NoteInclusionProof)>) -> Seq<
    (NoteView, ProofView),
> {
    notes.map_values(|note: (Note, NoteInclusionProof)| (note.0@, note.1@))
}

impl View for RoundPlan {
    type V = PlanView;

    open spec fn view(&self) -> PlanView {
        PlanView {
            row: self.row@,
            new_notes: view_new_notes(self.new_notes@),
            dropped_tag: self.dropped_tag,
        }
    }
}

/// The notes of a round that the store does not hold yet. A note that is already there is richer
/// than the rebuilt one, and stays.
pub open spec fn notes_to_insert(
    round: RoundView,
    payback_present: bool,
    remainder_present: bool,
) -> Seq<(NoteView, ProofView)> {
    let paybacks = match round.payback {
        Some(payback) if !payback_present => seq![payback],
        _ => Seq::empty(),
    };
    match round.remainder {
        Some(remainder) if !remainder_present && !(paybacks.len() > 0 && paybacks[0].0.id
            == remainder.0.id) => paybacks.push(remainder),
        _ => paybacks,
    }
}

/// What storing a round changes, given the row of its order and which of its notes are already
/// stored.
pub open spec fn round_plan(
    current: Option<RowView>,
    round: RoundView,
    payback_present: bool,
    remainder_present: bool,
) -> Result<PlanView, StoreError> {
    match stored_round(current, round) {
        Err(err) => Err(err),
        Ok(row) => {
            let new_notes = notes_to_insert(round, payback_present, remainder_present);
            if round.state == PswapLineageState::Active {
                Ok(PlanView { row, new_notes, dropped_tag: None })
            } else {
                match order_in(row.original_pswap) {
                    None => Err(StoreError::DataDeserialization),
                    Some(order) => Ok(
                        PlanView { row, new_notes, dropped_tag: Some(subscription_of(order)) },
                    ),
                }
            }
        },
    }
}

/// Decides what storing a round changes: the lineage's row, the notes to insert, and on a
/// terminal round the subscription to drop. All of it is to happen at once, or none.
pub fn apply_pswap_round(
    current: Option<LineageRow>,
    update: &PswapLineageRoundUpdate,
    payback_present: bool,
    remainder_present: bool,
) -> (plan: Result<RoundPlan, StoreError>)
    ensures
        match plan {
            Ok(plan) => Ok(plan@),
            Err(err) => Err(err),
        } == round_plan(view_row(current), update@, payback_present, remainder_present),
        current matches Some(row) ==> plan matches Ok(plan) ==> record_of_row(row@) matches Ok(
            record,
        ) ==> storable_round(update@) ==> record_of_row(plan.row@) == Ok::<
            LineageView,
            StoreError,
        >(as_stored(record.after_round(update@))),
{
    let row = match update_lineage_tip(current, update) {
        Ok(row) => row,
        Err(err) => {
            return Err(err);
        },
    };
    let mut new_notes: Vec<(Note, NoteInclusionProof)> = Vec::new();
    let mut inserted: Option<NoteId> = None;
    if let Some((note, proof)) = &update.payback {
        if !payback_present {
            inserted = Some(note.id());
            new_notes.push((note.clone(), proof.clone()));
        }
    }
    let ghost paybacks = view_new_notes(new_notes@);
    if let Some((note, proof)) = &update.remainder {
        let same = match inserted {
            Some(id) => id == note.id(),
            None => false,
        };
        if !remainder_present && !same {
            new_notes.push((note.clone(), proof.clone()));
            assert(view_new_notes(new_notes@) =~= paybacks.push((note@, proof@)));
        }
    }
    assert(view_new_notes(new_notes@) =~= notes_to_insert(
        update@,
        payback_present,
        remainder_present,
    ));
    let dropped_tag = match update.state {
        PswapLineageState::Active => None,
        _ => match asset_pair_subscription(&row.original_pswap) {
            Ok(record) => Some(record),
            Err(err) => {
                return Err(err);
            },
        },
    };
    Ok(RoundPlan { row, new_notes, dropped_tag })
}

// LAWS
// ================================================================================================

/// A round is stored exactly when its order is tracked and it advances the lineage by one; a
/// refused round leaves nothing to write.
pub proof fn law_round_stored_iff_next(current: Option<RowView>, round: RoundView)
    ensures
        stored_round(current, round) is Ok <==> (current matches Some(row) && round.round_depth
            == row.current_depth + 1),
{
}

/// Storing the same round twice is refused the second time.
pub proof fn law_round_not_stored_twice(current: RowView, round: RoundView)
    requires
        stored_round(Some(current), round) is Ok,
    ensures
        stored_round(Some(stored_round(Some(current), round).unwrap()), round) is Err,
{
}

/// The rounds that discovery finds for a lineage are accepted one after the other.
pub proof fn law_discovered_rounds_are_accepted(
    lineage: LineageView,
    consumed: Seq<NoteId>,
    notes: Seq<ChainNoteView>,
    block_number: BlockNumber,
    i: int,
    current: RowView,
)
    requires
        0 <= i < lineage_rounds(lineage, consumed, notes, block_number).len(),
        current.current_depth == after_rounds(
            lineage,
            lineage_rounds(lineage, consumed, notes, block_number).take(i),
        ).current_depth,
    ensures
        stored_round(
            Some(current),
            lineage_rounds(lineage, consumed, notes, block_number)[i],
        ) is Ok,
{
    law_depth_advances_by_one(lineage, consumed, notes, block_number);
    let rounds = lineage_rounds(lineage, consumed, notes, block_number);
    let round = rounds[i];
    if i > 0 {
        let before = rounds.take(i);
        assert(before.last() == rounds[i - 1]);
    } else {
        assert(rounds.take(0) =~= Seq::<RoundView>::empty());
    }
}

/// Storing a record keeps its order, tip, depth, amounts, state and blocks. Once stored it stays
/// as it is, and so does a record whose assets are of the order's faucets, with callbacks disabled.
pub proof fn law_storing_keeps_the_record(record: LineageView)
    ensures
        ({
            let read = as_stored(record);
            &&& read.original_pswap == record.original_pswap
            &&& read.order_id() == record.order_id()
            &&& read.current_tip_note_id == record.current_tip_note_id
            &&& read.current_depth == record.current_depth
            &&& read.remaining_offered.amount == record.remaining_offered.amount
            &&& read.remaining_requested.amount == record.remaining_requested.amount
            &&& read.state == record.state
            &&& read.created_at_block == record.created_at_block
            &&& read.updated_at_block == record.updated_at_block
            &&& as_stored(read) == read
        }),
        record.remaining_offered.faucet_id == record.terms().offered_asset.faucet_id
            && !record.remaining_offered.callbacks && record.remaining_requested.faucet_id
            == record.terms().requested_asset.faucet_id && !record.remaining_requested.callbacks
            ==> as_stored(record) == record,
{
}

/// A round after a record was stored and read back leads to what the round leads to without that.
pub proof fn law_storing_does_not_change_rounds(
    record: LineageView,
    round_depth: u32,
    block_number: BlockNumber,
    notes: Seq<ChainNoteView>,
)
    ensures
        match (
            record.round(round_depth, block_number, notes),
            as_stored(record).round(round_depth, block_number, notes),
        ) {
            (Ok(round), Ok(other)) => {
                &&& as_stored(as_stored(record).after_round(other)) == as_stored(
                    record.after_round(round),
                )
                &&& other.fill_amount.amount == round.fill_amount.amount
                &&& other.payout_amount.amount == round.payout_amount.amount
                &&& other.payback == round.payback
                &&& other.remainder == round.remainder
            },
            (Err(error), Err(other)) => error == other,
            _ => false,
        },
{
}

/// What a discovered round leaves of a stored lineage can itself be stored.
pub proof fn law_discovered_rounds_are_storable(
    lineage: LineageView,
    round_depth: u32,
    block_number: BlockNumber,
    notes: Seq<ChainNoteView>,
    round: RoundView,
)
    requires
        storable(lineage),
        lineage.round(round_depth, block_number, notes) == Ok::<RoundView, PswapLineageError>(
            round,
        ),
        forall|i: int| 0 <= i < notes.len() ==> (#[trigger] notes[i]).note_id.word.is_canonical(),
    ensures
        storable_round(round),
        storable(lineage.after_round(round)),
{
}

/// Each column of a row holds what it is named after: the order and its encoded note, the tip as
/// text, the depth, the two amounts that are left, the state's byte and the two blocks.
pub proof fn law_columns_hold_the_record(record: LineageView)
    ensures
        ({
            let row = row_of(record);
            &&& row.order_id == record.original_pswap.terms.serial_number.b
            &&& row.original_pswap == record.original_pswap.note.bytes
            &&& row.current_tip_note_id == note_id_hex_of(record.current_tip_note_id)
            &&& row.current_depth == record.current_depth
            &&& row.remaining_offered == record.remaining_offered.amount.value
            &&& row.remaining_requested == record.remaining_requested.amount.value
            &&& PswapLineageState::spec_try_from_u8(row.state) == Ok::<
                PswapLineageState,
                PswapLineageError,
            >(record.state)
            &&& row.created_at_block == record.created_at_block
            &&& row.updated_at_block == record.updated_at_block
        }),
{
}

/// A row reads as a record exactly where its note carries an order, its tip is an identifier, its
/// amounts are ones that assets can have and its state byte is known. The record then has what the
/// columns hold.
pub proof fn law_row_reads_as_its_columns(row: RowView)
    ensures
        record_of_row(row) is Ok <==> {
            &&& note_id_of(row.original_pswap) is Some
            &&& raw_terms_of(row.original_pswap) is Some
            &&& note_id_from_hex_of(row.current_tip_note_id) is Some
            &&& row.remaining_offered <= MAX_ASSET_AMOUNT
            &&& row.remaining_requested <= MAX_ASSET_AMOUNT
            &&& row.state <= 2
        },
        record_of_row(row) matches Ok(record) ==> {
            &&& record.original_pswap.note.bytes == row.original_pswap
            &&& note_id_of(row.original_pswap) == Some(record.original_pswap.note.id)
            &&& raw_terms_of(row.original_pswap) matches Some(raw) && record.terms()
                == PswapTerms::of(raw)
            &&& note_id_from_hex_of(row.current_tip_note_id) == Some(record.current_tip_note_id)
            &&& record.current_depth == row.current_depth
            &&& record.remaining_offered.amount.value == row.remaining_offered
            &&& record.remaining_offered.faucet_id == record.terms().offered_asset.faucet_id
            &&& record.remaining_requested.amount.value == row.remaining_requested
            &&& record.remaining_requested.faucet_id == record.terms().requested_asset.faucet_id
            &&& record.state.spec_as_u8() == row.state
            &&& record.created_at_block == row.created_at_block
            &&& record.updated_at_block == row.updated_at_block
        },
{
}

/// Storing a round in a record's row gives the row of the record after the round: a round does to
/// the store what it does in memory.
pub proof fn law_stored_round_is_the_round(record: LineageView, round: RoundView)
    requires
        round.round_depth == record.current_depth + 1,
    ensures
        stored_round(Some(row_of(record)), round) == Ok::<RowView, StoreError>(
            row_of(record.after_round(round)),
        ),
{
}

/// Storing a round leaves alone which order a row is of, the note that carries it and the block that
/// it was created at. A round that is refused is reported with its order, and where the order is
/// tracked with both depths.
pub proof fn law_round_keeps_the_order(current: Option<RowView>, round: RoundView)
    ensures
        match stored_round(current, round) {
            Ok(row) => current matches Some(before) && {
                &&& row.order_id == before.order_id
                &&& row.original_pswap == before.original_pswap
                &&& row.created_at_block == before.created_at_block
                &&& row.current_depth == before.current_depth + 1
                &&& row.updated_at_block == round.at_block
                &&& round.tip_note_id is None ==> row.current_tip_note_id
                    == before.current_tip_note_id
                &&& round.tip_note_id matches Some(tip) ==> row.current_tip_note_id
                    == note_id_hex_of(tip)
                &&& row.remaining_offered == round.remaining_offered.amount.value
                &&& row.remaining_requested == round.remaining_requested.amount.value
                &&& PswapLineageState::spec_try_from_u8(row.state) == Ok::<
                    PswapLineageState,
                    PswapLineageError,
                >(round.state)
            },
            Err(StoreError::UnknownOrder(order_id)) => current is None && order_id == round.order_id,
            Err(StoreError::NonMonotonicDepth { round_depth, order_id, current_depth }) => {
                &&& round_depth == round.round_depth
                &&& order_id == round.order_id
                &&& current matches Some(before) && current_depth == before.current_depth
                &&& round_depth != current_depth + 1
            },
            Err(_) => false,
        },
{
}

/// A round's payback is inserted exactly where the store does not hold it; its remainder is, where
/// the store does not hold it and it is not the payback that is inserted. Both come with their
/// places, no other note is inserted, and none twice.
pub proof fn law_missing_notes_are_inserted(
    round: RoundView,
    payback_present: bool,
    remainder_present: bool,
)
    ensures
        ({
            let inserted = notes_to_insert(round, payback_present, remainder_present);
            let pays = round.payback is Some && !payback_present;
            &&& pays ==> inserted.contains(round.payback.unwrap())
            &&& round.remainder is Some && !remainder_present && !(pays
                && round.payback.unwrap().0.id == round.remainder.unwrap().0.id)
                ==> inserted.contains(round.remainder.unwrap())
            &&& forall|i: int|
                0 <= i < inserted.len() ==> (pays && #[trigger] inserted[i]
                    == round.payback.unwrap()) || (round.remainder == Some(inserted[i])
                    && !remainder_present)
            &&& forall|i: int, j: int|
                0 <= i < j < inserted.len() ==> (#[trigger] inserted[i]).0.id != (
                #[trigger] inserted[j]).0.id
        }),
{
    let inserted = notes_to_insert(round, payback_present, remainder_present);
    if round.payback is Some && !payback_present {
        assert(inserted[0] == round.payback.unwrap());
    }
    if inserted.len() > 0 {
        assert(inserted[inserted.len() - 1] == inserted.last());
    }
}

/// A stored round advances its row and inserts the notes that the store lacks. A round that leaves
/// its order open drops no subscription. One that ends it drops the order's: the
/// tag of its asset pair, anchored to its own note.
pub proof fn law_ended_order_drops_its_subscription(
    current: Option<RowView>,
    round: RoundView,
    payback_present: bool,
    remainder_present: bool,
)
    ensures
        round_plan(current, round, payback_present, remainder_present) matches Ok(plan) ==> {
            &&& stored_round(current, round) == Ok::<RowView, StoreError>(plan.row)
            &&& plan.new_notes == notes_to_insert(round, payback_present, remainder_present)
            &&& plan.dropped_tag is None <==> round.state == PswapLineageState::Active
            &&& plan.dropped_tag matches Some(tag) ==> {
                &&& order_in(plan.row.original_pswap) matches Some(order) && tag.tag
                    == order.terms.spec_asset_pair_tag() && tag.source
                    == NoteTagSource::Subscription(order.note.id)
            }
        },
        round_plan(current, round, payback_present, remainder_present) is Ok <==> stored_round(
            current,
            round,
        ) is Ok && (round.state == PswapLineageState::Active || order_in(
            current.unwrap().original_pswap,
        ) is Some),
{
}

/// There are as many question marks as tips, and a comma between any two.
pub proof fn law_one_placeholder_for_each_tip(count: nat)
    ensures
        count == 0 ==> spec_placeholders(count).len() == 0,
        count > 0 ==> spec_placeholders(count).len() == 2 * count - 1,
        forall|i: int|
            0 <= i < spec_placeholders(count).len() ==> #[trigger] spec_placeholders(count)[i] == (
            if i % 2 == 0 {
                '?'
            } else {
                ','
            }),
    decreases count,
{
    reveal_strlit("?");
    reveal_strlit(",?");
    if count > 1 {
        law_one_placeholder_for_each_tip((count - 1) as nat);
        let before = spec_placeholders((count - 1) as nat);
        let list = spec_placeholders(count);
        assert forall|i: int| 0 <= i < list.len() implies #[trigger] list[i] == (if i % 2 == 0 {
            '?'
        } else {
            ','
        }) by {
            if i < before.len() {
                assert(list[i] == before[i]);
            }
        }
    }
}

/// Exactly the filters by state and by order add a clause to the query: the former compares the
/// state, the latter the order.
pub proof fn law_clauses_compare_what_the_filter_is_by(filter: PswapLineageFilter)
    ensures
        filter is Active ==> spec_sql_filter_part(filter) == " WHERE state = ?"@,
        filter is ByOrderId ==> spec_sql_filter_part(filter) == " WHERE order_id = ?"@,
        filter is All || filter is ByCreator || filter is ActiveByTipNoteIds
            ==> spec_sql_filter_part(filter) == ""@,
{
}

} // verus!
