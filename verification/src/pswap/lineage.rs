//! The persistent record of one PSWAP order, and one round's transition of it.
use vstd::prelude::*;

use super::errors::{AmountColumn, PswapLineageError};
use super::note::{PswapNote, PswapTerms, PswapView};
use super::types::OrderIdKey;
use crate::asset::{FungibleAsset, MAX_ASSET_AMOUNT};
use crate::note::{Note, NoteInclusionProof, NoteView, ProofView};
use crate::primitives::{AccountId, BlockNumber, NoteId, NoteTag, NoteType, Word};

verus! {

/// Lifecycle state of an order.
#[derive(Clone, Copy, Debug, PartialEq, Eq, Structural)]
pub enum PswapLineageState {
    /// Still fillable and reclaimable.
    Active,
    /// Fully filled. Terminal.
    FullyFilled,
    /// Reclaimed by the creator. Terminal.
    Reclaimed,
}

impl PswapLineageState {
    /// The byte that stands for the state in storage. The values are part of the on-disk
    /// encoding.
    pub open spec fn spec_as_u8(self) -> u8 {
        match self {
            PswapLineageState::Active => 0,
            PswapLineageState::FullyFilled => 1,
            PswapLineageState::Reclaimed => 2,
        }
    }

    pub fn as_u8(self) -> (byte: u8)
        ensures
            byte == self.spec_as_u8(),
    {
        match self {
            PswapLineageState::Active => 0,
            PswapLineageState::FullyFilled => 1,
            PswapLineageState::Reclaimed => 2,
        }
    }

    /// The state that a stored byte stands for; unknown bytes are errors.
    pub open spec fn spec_try_from_u8(value: u8) -> Result<
        PswapLineageState,
        PswapLineageError,
    > {
        if value == 0 {
            Ok(PswapLineageState::Active)
        } else if value == 1 {
            Ok(PswapLineageState::FullyFilled)
        } else if value == 2 {
            Ok(PswapLineageState::Reclaimed)
        } else {
            Err(PswapLineageError::UnknownState(value))
        }
    }

    pub fn try_from_u8(value: u8) -> (state: Result<PswapLineageState, PswapLineageError>)
        ensures
            state == PswapLineageState::spec_try_from_u8(value),
    {
        match value {
            0 => Ok(PswapLineageState::Active),
            1 => Ok(PswapLineageState::FullyFilled),
            2 => Ok(PswapLineageState::Reclaimed),
            other => Err(PswapLineageError::UnknownState(other)),
        }
    }
}

/// Every state survives being stored and read back.
pub proof fn law_state_byte_round_trip(state: PswapLineageState)
    ensures
        PswapLineageState::spec_try_from_u8(state.spec_as_u8()) == Ok::<
            PswapLineageState,
            PswapLineageError,
        >(state),
{
}

/// Only the byte of a state is read as that state.
pub proof fn law_state_byte_unique(value: u8, state: PswapLineageState)
    requires
        PswapLineageState::spec_try_from_u8(value) == Ok::<PswapLineageState, PswapLineageError>(
            state,
        ),
    ensures
        value == state.spec_as_u8(),
{
}

/// Persistent record of one order's chain.
///
/// `original_pswap` is the source of every immutable detail. The other fields describe the live
/// tip and what is left to fill.
#[derive(Debug)]
pub struct PswapLineageRecord {
    /// The original order, at depth 0.
    pub original_pswap: PswapNote,
    /// The current tip: the original note at depth 0, a remainder afterwards.
    pub current_tip_note_id: NoteId,
    /// The number of rounds that the order has gone through.
    pub current_depth: u32,
    /// Offered units still unfilled.
    pub remaining_offered: FungibleAsset,
    /// Requested units still unfilled.
    pub remaining_requested: FungibleAsset,
    pub state: PswapLineageState,
    /// The block at which the order was submitted.
    pub created_at_block: BlockNumber,
    /// The block of the latest round.
    pub updated_at_block: BlockNumber,
}

/// What a [`PswapLineageRecord`] stands for.
#[verifier::ext_equal]
pub ghost struct LineageView {
    pub original_pswap: PswapView,
    pub current_tip_note_id: NoteId,
    pub current_depth: u32,
    pub remaining_offered: FungibleAsset,
    pub remaining_requested: FungibleAsset,
    pub state: PswapLineageState,
    pub created_at_block: BlockNumber,
    pub updated_at_block: BlockNumber,
}

impl View for PswapLineageRecord {
    type V = LineageView;

    open spec fn view(&self) -> LineageView {
        LineageView {
            original_pswap: self.original_pswap@,
            current_tip_note_id: self.current_tip_note_id,
            current_depth: self.current_depth,
            remaining_offered: self.remaining_offered,
            remaining_requested: self.remaining_requested,
            state: self.state,
            created_at_block: self.created_at_block,
            updated_at_block: self.updated_at_block,
        }
    }
}

impl LineageView {
    pub open spec fn terms(self) -> PswapTerms {
        self.original_pswap.terms
    }

    pub open spec fn order_id(self) -> u64 {
        self.original_pswap.terms.spec_order_id()
    }

    /// Whether the order is one that its note encodes and what is left of it are valid amounts.
    pub open spec fn wf(self) -> bool {
        &&& self.original_pswap.wf()
        &&& self.remaining_offered.wf()
        &&& self.remaining_requested.wf()
    }
}

impl Clone for PswapLineageRecord {
    fn clone(&self) -> (copy: Self)
        ensures
            copy@ == self@,
    {
        PswapLineageRecord {
            original_pswap: self.original_pswap.clone(),
            current_tip_note_id: self.current_tip_note_id,
            current_depth: self.current_depth,
            remaining_offered: self.remaining_offered,
            remaining_requested: self.remaining_requested,
            state: self.state,
            created_at_block: self.created_at_block,
            updated_at_block: self.updated_at_block,
        }
    }
}

impl PswapLineageRecord {
    /// The identifier that every note of the chain shares.
    pub fn order_id(&self) -> (order_id: u64)
        ensures
            order_id == self@.order_id(),
    {
        self.original_pswap.order_id()
    }

    /// The order's identifier as a map key.
    pub fn order_id_key(&self) -> (key: OrderIdKey)
        ensures
            key.value == self@.order_id(),
    {
        OrderIdKey { value: self.order_id() }
    }

    /// The identifier of the original note.
    pub fn initial_note_id(&self) -> (id: NoteId)
        ensures
            id == self@.original_pswap.note.id,
    {
        self.original_pswap.note.id()
    }

    /// The account that created the order and receives every payback.
    pub fn creator_account_id(&self) -> (id: AccountId)
        ensures
            id == self@.terms().creator_account_id,
    {
        self.original_pswap.terms.creator_account_id
    }

    /// The account that submitted the order.
    pub fn sender_account_id(&self) -> (id: AccountId)
        ensures
            id == self@.terms().sender,
    {
        self.original_pswap.terms.sender
    }

    /// The asset that the creator offered.
    pub fn offered_asset(&self) -> (asset: FungibleAsset)
        ensures
            asset == self@.terms().offered_asset,
    {
        self.original_pswap.terms.offered_asset
    }

    /// The asset that the creator wants in exchange.
    pub fn requested_asset(&self) -> (asset: FungibleAsset)
        ensures
            asset == self@.terms().requested_asset,
    {
        self.original_pswap.terms.requested_asset
    }

    /// The type of the original note and of every remainder.
    pub fn note_type(&self) -> (note_type: NoteType)
        ensures
            note_type == self@.terms().note_type,
    {
        self.original_pswap.terms.note_type
    }

    /// The type of every payback note.
    pub fn payback_note_type(&self) -> (note_type: NoteType)
        ensures
            note_type == self@.terms().payback_note_type,
    {
        self.original_pswap.terms.payback_note_type
    }

    /// The original order's serial number.
    pub fn initial_serial_number(&self) -> (serial_number: Word)
        ensures
            serial_number == self@.terms().serial_number,
    {
        self.original_pswap.terms.serial_number
    }

    /// The tag under which every remainder of this chain travels.
    pub fn asset_pair_tag(&self) -> (tag: NoteTag)
        ensures
            tag == self@.terms().spec_asset_pair_tag(),
    {
        self.original_pswap.terms.asset_pair_tag()
    }
}

/// A rebuilt note with the proof that it is part of a block.
pub open spec fn view_proven(proven: Option<(Note, NoteInclusionProof)>) -> Option<
    (NoteView, ProofView),
> {
    match proven {
        Some((note, proof)) => Some((note@, proof@)),
        None => None,
    }
}

/// One round's transition of a lineage.
///
/// A fill consumes the tip and emits a payback and at most one remainder; a reclaim consumes the
/// tip and emits nothing.
#[derive(Debug)]
pub struct PswapLineageRoundUpdate {
    pub order_id: u64,
    /// The depth after this round.
    pub round_depth: u32,
    /// The account that consumed the tip; the creator, on a reclaim.
    pub consumer_account_id: AccountId,
    /// Requested units filled this round: what the payback says, or all that was left where the
    /// round is a full fill.
    pub fill_amount: FungibleAsset,
    /// Offered units paid out this round: what the remainder says, or all that was left where the
    /// round is terminal.
    pub payout_amount: FungibleAsset,
    /// Offered units left after this round.
    pub remaining_offered: FungibleAsset,
    /// Requested units left after this round.
    pub remaining_requested: FungibleAsset,
    /// The state after this round.
    pub state: PswapLineageState,
    /// The new tip; `None` when the round is terminal.
    pub tip_note_id: Option<NoteId>,
    pub at_block: BlockNumber,
    /// The rebuilt payback, which is the note that was seen; `None` only on a reclaim.
    pub payback: Option<(Note, NoteInclusionProof)>,
    /// The rebuilt remainder, which is the note that was seen; `None` when the round is terminal or
    /// was followed by another.
    pub remainder: Option<(Note, NoteInclusionProof)>,
}

/// What a [`PswapLineageRoundUpdate`] stands for.
#[verifier::ext_equal]
pub ghost struct RoundView {
    pub order_id: u64,
    pub round_depth: u32,
    pub consumer_account_id: AccountId,
    pub fill_amount: FungibleAsset,
    pub payout_amount: FungibleAsset,
    pub remaining_offered: FungibleAsset,
    pub remaining_requested: FungibleAsset,
    pub state: PswapLineageState,
    pub tip_note_id: Option<NoteId>,
    pub at_block: BlockNumber,
    pub payback: Option<(NoteView, ProofView)>,
    pub remainder: Option<(NoteView, ProofView)>,
}

impl View for PswapLineageRoundUpdate {
    type V = RoundView;

    open spec fn view(&self) -> RoundView {
        RoundView {
            order_id: self.order_id,
            round_depth: self.round_depth,
            consumer_account_id: self.consumer_account_id,
            fill_amount: self.fill_amount,
            payout_amount: self.payout_amount,
            remaining_offered: self.remaining_offered,
            remaining_requested: self.remaining_requested,
            state: self.state,
            tip_note_id: self.tip_note_id,
            at_block: self.at_block,
            payback: view_proven(self.payback),
            remainder: view_proven(self.remainder),
        }
    }
}

impl LineageView {
    /// The lineage after a round.
    pub open spec fn after_round(self, round: RoundView) -> LineageView {
        LineageView {
            current_depth: round.round_depth,
            remaining_offered: round.remaining_offered,
            remaining_requested: round.remaining_requested,
            state: round.state,
            updated_at_block: round.at_block,
            current_tip_note_id: match round.tip_note_id {
                Some(tip) => tip,
                None => self.current_tip_note_id,
            },
            ..self
        }
    }
}

impl PswapLineageRecord {
    /// Advances the record by one round.
    pub fn apply_round_in_memory(self, update: &PswapLineageRoundUpdate) -> (record:
        PswapLineageRecord)
        ensures
            record@ == self@.after_round(update@),
    {
        PswapLineageRecord {
            original_pswap: self.original_pswap,
            current_tip_note_id: match update.tip_note_id {
                Some(tip) => tip,
                None => self.current_tip_note_id,
            },
            current_depth: update.round_depth,
            remaining_offered: update.remaining_offered,
            remaining_requested: update.remaining_requested,
            state: update.state,
            created_at_block: self.created_at_block,
            updated_at_block: update.at_block,
        }
    }
}

/// A round moves a lineage to the round's depth, state and amounts as of the round's block, and to
/// the round's tip where it has one; the order that the lineage is of, and when it was created, never
/// change.
pub proof fn law_round_moves_the_lineage(lineage: LineageView, round: RoundView)
    ensures
        ({
            let after = lineage.after_round(round);
            &&& after.original_pswap == lineage.original_pswap
            &&& after.created_at_block == lineage.created_at_block
            &&& after.current_depth == round.round_depth
            &&& after.state == round.state
            &&& after.remaining_offered == round.remaining_offered
            &&& after.remaining_requested == round.remaining_requested
            &&& after.updated_at_block == round.at_block
            &&& round.tip_note_id is None ==> after.current_tip_note_id
                == lineage.current_tip_note_id
            &&& round.tip_note_id matches Some(tip) ==> after.current_tip_note_id == tip
        }),
{
}

/// Which lineages to list.
#[derive(Debug, PartialEq, Eq)]
pub enum PswapLineageFilter {
    /// Every lineage.
    All,
    /// The active ones.
    Active,
    /// Those of a creator.
    ByCreator(AccountId),
    /// The one of an order.
    ByOrderId(u64),
    /// The active ones whose tip is among the given notes.
    ActiveByTipNoteIds(Vec<NoteId>),
}

impl PswapLineageFilter {
    /// Whether a lineage is to be listed.
    pub open spec fn selects(self, lineage: LineageView) -> bool {
        match self {
            PswapLineageFilter::All => true,
            PswapLineageFilter::Active => lineage.state == PswapLineageState::Active,
            PswapLineageFilter::ByCreator(creator) => lineage.terms().creator_account_id == creator,
            PswapLineageFilter::ByOrderId(order_id) => lineage.order_id() == order_id,
            PswapLineageFilter::ActiveByTipNoteIds(tips) => lineage.state
                == PswapLineageState::Active && tips@.contains(lineage.current_tip_note_id),
        }
    }

    /// Whether a lineage is to be listed.
    pub fn matches(&self, record: &PswapLineageRecord) -> (selected: bool)
        ensures
            selected == self.selects(record@),
    {
        match self {
            PswapLineageFilter::All => true,
            PswapLineageFilter::Active => record.state == PswapLineageState::Active,
            PswapLineageFilter::ByCreator(creator) => record.creator_account_id() == *creator,
            PswapLineageFilter::ByOrderId(order_id) => record.order_id() == *order_id,
            PswapLineageFilter::ActiveByTipNoteIds(tips) => record.state
                == PswapLineageState::Active && contains_note_id(tips, &record.current_tip_note_id),
        }
    }
}

/// Each filter lists the lineages that it is named after.
pub proof fn law_filters_list(
    lineage: LineageView,
    creator: AccountId,
    order_id: u64,
    tips: Vec<NoteId>,
)
    ensures
        PswapLineageFilter::All.selects(lineage),
        PswapLineageFilter::Active.selects(lineage) <==> lineage.state is Active,
        PswapLineageFilter::ByCreator(creator).selects(lineage)
            <==> lineage.original_pswap.terms.creator_account_id == creator,
        PswapLineageFilter::ByOrderId(order_id).selects(lineage)
            <==> lineage.original_pswap.terms.serial_number.b == order_id,
        PswapLineageFilter::ActiveByTipNoteIds(tips).selects(lineage) <==> lineage.state is Active
            && exists|i: int| 0 <= i < tips@.len() && tips@[i] == lineage.current_tip_note_id,
{
}

/// Whether a note is among the given ones.
pub fn contains_note_id(ids: &Vec<NoteId>, id: &NoteId) -> (found: bool)
    ensures
        found == ids@.contains(*id),
{
    let mut i: usize = 0;
    while i < ids.len()
        invariant
            i <= ids.len(),
            forall|j: int| 0 <= j < i ==> ids@[j] != *id,
        decreases ids.len() - i,
    {
        if ids[i] == *id {
            assert(ids@[i as int] == *id);
            return true;
        }
        i += 1;
    }
    false
}

/// What the columns of a stored row stand for.
pub open spec fn record_of_columns(
    original_pswap: PswapView,
    current_tip_note_id: NoteId,
    current_depth: u32,
    remaining_offered: u64,
    remaining_requested: u64,
    state_byte: u8,
    created_at_block: BlockNumber,
    updated_at_block: BlockNumber,
) -> Result<LineageView, PswapLineageError> {
    if remaining_offered > MAX_ASSET_AMOUNT {
        Err(PswapLineageError::InconsistentRow(AmountColumn::RemainingOffered, remaining_offered))
    } else if remaining_requested > MAX_ASSET_AMOUNT {
        Err(
            PswapLineageError::InconsistentRow(
                AmountColumn::RemainingRequested,
                remaining_requested,
            ),
        )
    } else {
        match PswapLineageState::spec_try_from_u8(state_byte) {
            Err(err) => Err(err),
            Ok(state) => Ok(
                LineageView {
                    original_pswap,
                    current_tip_note_id,
                    current_depth,
                    remaining_offered: FungibleAsset::spec_of(
                        original_pswap.terms.offered_asset.faucet_id,
                        remaining_offered,
                    ),
                    remaining_requested: FungibleAsset::spec_of(
                        original_pswap.terms.requested_asset.faucet_id,
                        remaining_requested,
                    ),
                    state,
                    created_at_block,
                    updated_at_block,
                },
            ),
        }
    }
}

/// The view of a read row.
pub open spec fn view_record(record: Result<PswapLineageRecord, PswapLineageError>) -> Result<
    LineageView,
    PswapLineageError,
> {
    match record {
        Ok(record) => Ok(record@),
        Err(err) => Err(err),
    }
}

/// Builds a record from the columns of a stored row, rejecting amounts that no asset can have
/// and unknown state bytes.
pub fn build_record_from_columns(
    original_pswap: PswapNote,
    current_tip_note_id: NoteId,
    current_depth: u32,
    remaining_offered: u64,
    remaining_requested: u64,
    state_byte: u8,
    created_at_block: BlockNumber,
    updated_at_block: BlockNumber,
) -> (record: Result<PswapLineageRecord, PswapLineageError>)
    ensures
        view_record(record) == record_of_columns(
            original_pswap@,
            current_tip_note_id,
            current_depth,
            remaining_offered,
            remaining_requested,
            state_byte,
            created_at_block,
            updated_at_block,
        ),
{
    let offered = match FungibleAsset::new(
        original_pswap.terms.offered_asset.faucet_id,
        remaining_offered,
    ) {
        Ok(asset) => asset,
        Err(_) => {
            return Err(
                PswapLineageError::InconsistentRow(
                    AmountColumn::RemainingOffered,
                    remaining_offered,
                ),
            );
        },
    };
    let requested = match FungibleAsset::new(
        original_pswap.terms.requested_asset.faucet_id,
        remaining_requested,
    ) {
        Ok(asset) => asset,
        Err(_) => {
            return Err(
                PswapLineageError::InconsistentRow(
                    AmountColumn::RemainingRequested,
                    remaining_requested,
                ),
            );
        },
    };
    let state = match PswapLineageState::try_from_u8(state_byte) {
        Ok(state) => state,
        Err(err) => {
            return Err(err);
        },
    };
    Ok(
        PswapLineageRecord {
            original_pswap,
            current_tip_note_id,
            current_depth,
            remaining_offered: offered,
            remaining_requested: requested,
            state,
            created_at_block,
            updated_at_block,
        },
    )
}

/// Columns make a record exactly where both amounts are ones that assets can have and the state byte
/// is known; the first that is not is reported. The record holds what the columns hold.
pub proof fn law_columns_make_a_record(
    original_pswap: PswapView,
    tip: NoteId,
    depth: u32,
    offered: u64,
    requested: u64,
    state_byte: u8,
    created_at: BlockNumber,
    updated_at: BlockNumber,
)
    ensures
        match record_of_columns(
            original_pswap,
            tip,
            depth,
            offered,
            requested,
            state_byte,
            created_at,
            updated_at,
        ) {
            Ok(record) => {
                &&& offered <= MAX_ASSET_AMOUNT
                &&& requested <= MAX_ASSET_AMOUNT
                &&& record.original_pswap == original_pswap
                &&& record.current_tip_note_id == tip
                &&& record.current_depth == depth
                &&& record.remaining_offered.amount.value == offered
                &&& record.remaining_offered.faucet_id
                    == original_pswap.terms.offered_asset.faucet_id
                &&& !record.remaining_offered.callbacks
                &&& record.remaining_requested.amount.value == requested
                &&& record.remaining_requested.faucet_id
                    == original_pswap.terms.requested_asset.faucet_id
                &&& !record.remaining_requested.callbacks
                &&& record.state.spec_as_u8() == state_byte
                &&& record.created_at_block == created_at
                &&& record.updated_at_block == updated_at
            },
            Err(PswapLineageError::InconsistentRow(AmountColumn::RemainingOffered, amount)) => amount
                == offered && offered > MAX_ASSET_AMOUNT,
            Err(PswapLineageError::InconsistentRow(AmountColumn::RemainingRequested, amount)) =>
            amount == requested && requested > MAX_ASSET_AMOUNT && offered <= MAX_ASSET_AMOUNT,
            Err(PswapLineageError::UnknownState(byte)) => byte == state_byte && byte > 2 && offered
                <= MAX_ASSET_AMOUNT && requested <= MAX_ASSET_AMOUNT,
            Err(_) => false,
        },
{
}

} // verus!
