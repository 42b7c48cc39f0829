//! Correlates the notes consumed in a sync with the PSWAP notes seen in it, and derives the
//! rounds that each tracked order went through.
use vstd::prelude::*;

use super::errors::PswapLineageError;
use super::lineage::{
    contains_note_id, LineageView, PswapLineageFilter, PswapLineageRecord,
    PswapLineageRoundUpdate, PswapLineageState, RoundView,
};
use super::note::PswapNoteAttachment;
use crate::asset::{AssetAmount, FungibleAsset, MAX_ASSET_AMOUNT};
use crate::note::{NoteInclusionProof, ProofView};
use crate::primitives::{AccountId, BlockNumber, NoteId, NoteTag};
use crate::sync::execution::lemma_filtered;

verus! {

/// A PSWAP note seen on chain, resolved against a tracked order.
#[derive(Debug)]
pub struct PswapChainNoteUpdate {
    pub note_id: NoteId,
    pub attachment: PswapNoteAttachment,
    pub sender: AccountId,
    /// A payback carries its creator's account tag, a remainder the asset-pair tag.
    pub tag: NoteTag,
    pub block_num: BlockNumber,
    pub inclusion_proof: NoteInclusionProof,
}

/// What a [`PswapChainNoteUpdate`] stands for.
#[verifier::ext_equal]
pub ghost struct ChainNoteView {
    pub note_id: NoteId,
    pub attachment: PswapNoteAttachment,
    pub sender: AccountId,
    pub tag: NoteTag,
    pub block_num: BlockNumber,
    pub inclusion_proof: ProofView,
}

impl View for PswapChainNoteUpdate {
    type V = ChainNoteView;

    open spec fn view(&self) -> ChainNoteView {
        ChainNoteView {
            note_id: self.note_id,
            attachment: self.attachment,
            sender: self.sender,
            tag: self.tag,
            block_num: self.block_num,
            inclusion_proof: self.inclusion_proof@,
        }
    }
}

/// The views of some chain notes.
pub open spec fn view_notes(notes: Seq<PswapChainNoteUpdate>) -> Seq<ChainNoteView> {
    notes.map_values(|note: PswapChainNoteUpdate| note@)
}

/// The views of some referenced chain notes.
pub open spec fn view_note_refs(notes: Seq<&PswapChainNoteUpdate>) -> Seq<ChainNoteView> {
    notes.map_values(|note: &PswapChainNoteUpdate| note@)
}

// PER-ROUND CLASSIFICATION
// ================================================================================================

impl LineageView {
    /// No units of the order's offered asset.
    pub open spec fn zero_offered(self) -> FungibleAsset {
        FungibleAsset::spec_of(self.terms().offered_asset.faucet_id, 0)
    }

    /// No units of the order's requested asset.
    pub open spec fn zero_requested(self) -> FungibleAsset {
        FungibleAsset::spec_of(self.terms().requested_asset.faucet_id, 0)
    }

    /// The round in which the creator takes back what is left.
    pub open spec fn reclaim_round(self, round_depth: u32, block_number: BlockNumber) -> RoundView {
        RoundView {
            order_id: self.order_id(),
            round_depth,
            consumer_account_id: self.terms().creator_account_id,
            fill_amount: self.zero_requested(),
            payout_amount: self.remaining_offered,
            remaining_offered: self.zero_offered(),
            remaining_requested: self.zero_requested(),
            state: PswapLineageState::Reclaimed,
            tip_note_id: None,
            at_block: block_number,
            payback: None,
            remainder: None,
        }
    }

    /// The round that fills the rest of the order: it takes all that was left on both sides. The
    /// rebuilt payback has to be the note that was seen.
    pub open spec fn full_fill_round(
        self,
        round_depth: u32,
        block_number: BlockNumber,
        payback: ChainNoteView,
    ) -> Result<RoundView, PswapLineageError> {
        match self.original_pswap.payback(payback.sender, payback.attachment) {
            None => Err(PswapLineageError::Reconstruction),
            Some(note) => if note.id != payback.note_id {
                Err(
                    PswapLineageError::NoteIdMismatch {
                        rebuilt: note.id,
                        observed: payback.note_id,
                    },
                )
            } else {
                Ok(
                    RoundView {
                        order_id: self.order_id(),
                        round_depth,
                        consumer_account_id: payback.sender,
                        fill_amount: self.remaining_requested,
                        payout_amount: self.remaining_offered,
                        remaining_offered: self.zero_offered(),
                        remaining_requested: self.zero_requested(),
                        state: PswapLineageState::FullyFilled,
                        tip_note_id: None,
                        at_block: block_number,
                        payback: Some((note, payback.inclusion_proof)),
                        remainder: None,
                    },
                )
            },
        }
    }

    /// What is left of the requested side after a fill; nothing, when more was filled than was
    /// left.
    pub open spec fn requested_after(self, fill: FungibleAsset) -> FungibleAsset {
        if fill.amount.value <= self.remaining_requested.amount.value {
            self.remaining_requested.spec_sub_amount(fill.amount)
        } else {
            self.zero_requested()
        }
    }

    /// What is left of the offered side after a payout; nothing, when more was paid out than was
    /// left.
    pub open spec fn offered_after(self, payout: FungibleAsset) -> FungibleAsset {
        if payout.amount.value <= self.remaining_offered.amount.value {
            self.remaining_offered.spec_sub_amount(payout.amount)
        } else {
            self.zero_offered()
        }
    }

    /// The round that fills part of the order, given which note is the payback and which the
    /// remainder. The rebuilt notes have to be those that were seen.
    pub open spec fn split_round(
        self,
        round_depth: u32,
        block_number: BlockNumber,
        payback: ChainNoteView,
        remainder: ChainNoteView,
    ) -> Result<RoundView, PswapLineageError> {
        match self.original_pswap.payback(payback.sender, payback.attachment) {
            None => Err(PswapLineageError::Reconstruction),
            Some(payback_note) => {
                let fill = payback.attachment.amount.value;
                let payout = remainder.attachment.amount.value;
                if payback_note.id != payback.note_id {
                    Err(
                        PswapLineageError::NoteIdMismatch {
                            rebuilt: payback_note.id,
                            observed: payback.note_id,
                        },
                    )
                } else if fill > MAX_ASSET_AMOUNT {
                    Err(PswapLineageError::AssetError(crate::asset::AssetError { amount: fill }))
                } else if payout > MAX_ASSET_AMOUNT {
                    Err(PswapLineageError::AssetError(crate::asset::AssetError { amount: payout }))
                } else {
                    let fill_amount = FungibleAsset::spec_of(
                        self.terms().requested_asset.faucet_id,
                        fill,
                    );
                    let payout_amount = FungibleAsset::spec_of(
                        self.terms().offered_asset.faucet_id,
                        payout,
                    );
                    let requested = self.requested_after(fill_amount);
                    let offered = self.offered_after(payout_amount);
                    match self.original_pswap.remainder(
                        remainder.sender,
                        remainder.attachment,
                        offered.amount,
                        requested.amount,
                    ) {
                        None => Err(PswapLineageError::Reconstruction),
                        Some(remainder_note) => if remainder_note.id != remainder.note_id {
                            Err(
                                PswapLineageError::NoteIdMismatch {
                                    rebuilt: remainder_note.id,
                                    observed: remainder.note_id,
                                },
                            )
                        } else {
                            Ok(
                                RoundView {
                                    order_id: self.order_id(),
                                    round_depth,
                                    consumer_account_id: payback.sender,
                                    fill_amount,
                                    payout_amount,
                                    remaining_offered: offered,
                                    remaining_requested: requested,
                                    state: PswapLineageState::Active,
                                    tip_note_id: Some(remainder.note_id),
                                    at_block: block_number,
                                    payback: Some((payback_note, payback.inclusion_proof)),
                                    remainder: Some((remainder_note, remainder.inclusion_proof)),
                                },
                            )
                        },
                    }
                }
            },
        }
    }

    /// The round that fills part of the order. The note with the creator's account tag is the
    /// payback; when the first has it, the first is, and otherwise the second.
    pub open spec fn partial_fill_round(
        self,
        round_depth: u32,
        block_number: BlockNumber,
        first: ChainNoteView,
        second: ChainNoteView,
    ) -> Result<RoundView, PswapLineageError> {
        if first.tag == self.terms().creator_account_id.spec_target_tag() {
            self.split_round(round_depth, block_number, first, second)
        } else {
            self.split_round(round_depth, block_number, second, first)
        }
    }

    /// The round that up to two notes of one depth stand for.
    pub open spec fn round(
        self,
        round_depth: u32,
        block_number: BlockNumber,
        notes: Seq<ChainNoteView>,
    ) -> Result<RoundView, PswapLineageError> {
        if notes.len() == 0 {
            Ok(self.reclaim_round(round_depth, block_number))
        } else if notes.len() == 1 {
            self.full_fill_round(round_depth, block_number, notes[0])
        } else {
            self.partial_fill_round(round_depth, block_number, notes[0], notes[1])
        }
    }
}

/// The view of a built round.
pub open spec fn view_round(round: Result<PswapLineageRoundUpdate, PswapLineageError>) -> Result<
    RoundView,
    PswapLineageError,
> {
    match round {
        Ok(round) => Ok(round@),
        Err(err) => Err(err),
    }
}

fn zero_offered(lineage: &PswapLineageRecord) -> (asset: FungibleAsset)
    ensures
        asset == lineage@.zero_offered(),
{
    FungibleAsset::zero(lineage.offered_asset().faucet_id)
}

fn zero_requested(lineage: &PswapLineageRecord) -> (asset: FungibleAsset)
    ensures
        asset == lineage@.zero_requested(),
{
    FungibleAsset::zero(lineage.requested_asset().faucet_id)
}

/// Builds the round that the notes of one depth stand for: none for a reclaim, a payback alone
/// for a full fill, a payback and a remainder for a partial fill. The PSWAP script emits no
/// more than two.
pub fn build_round_update(
    lineage: &PswapLineageRecord,
    round_depth: u32,
    block_number: BlockNumber,
    notes: &[&PswapChainNoteUpdate],
) -> (round: Result<PswapLineageRoundUpdate, PswapLineageError>)
    requires
        notes@.len() <= 2,
    ensures
        view_round(round) == lineage@.round(round_depth, block_number, view_note_refs(notes@)),
{
    if notes.len() == 0 {
        Ok(build_reclaim_round(lineage, round_depth, block_number))
    } else if notes.len() == 1 {
        build_full_fill_round(lineage, round_depth, block_number, notes[0])
    } else {
        build_partial_fill_round(lineage, round_depth, block_number, notes[0], notes[1])
    }
}

fn build_reclaim_round(
    lineage: &PswapLineageRecord,
    round_depth: u32,
    block_number: BlockNumber,
) -> (round: PswapLineageRoundUpdate)
    ensures
        round@ == lineage@.reclaim_round(round_depth, block_number),
{
    PswapLineageRoundUpdate {
        order_id: lineage.order_id(),
        round_depth,
        consumer_account_id: lineage.creator_account_id(),
        fill_amount: zero_requested(lineage),
        payout_amount: lineage.remaining_offered,
        remaining_offered: zero_offered(lineage),
        remaining_requested: zero_requested(lineage),
        state: PswapLineageState::Reclaimed,
        tip_note_id: None,
        at_block: block_number,
        payback: None,
        remainder: None,
    }
}

fn build_full_fill_round(
    lineage: &PswapLineageRecord,
    round_depth: u32,
    block_number: BlockNumber,
    payback_update: &PswapChainNoteUpdate,
) -> (round: Result<PswapLineageRoundUpdate, PswapLineageError>)
    ensures
        view_round(round) == lineage@.full_fill_round(round_depth, block_number, payback_update@),
{
    let payback = match lineage.original_pswap.payback_note(
        payback_update.sender,
        &payback_update.attachment,
    ) {
        Some(note) => note,
        None => {
            return Err(PswapLineageError::Reconstruction);
        },
    };
    if payback.id() != payback_update.note_id {
        return Err(
            PswapLineageError::NoteIdMismatch {
                rebuilt: payback.id(),
                observed: payback_update.note_id,
            },
        );
    }
    Ok(
        PswapLineageRoundUpdate {
            order_id: lineage.order_id(),
            round_depth,
            consumer_account_id: payback_update.sender,
            fill_amount: lineage.remaining_requested,
            payout_amount: lineage.remaining_offered,
            remaining_offered: zero_offered(lineage),
            remaining_requested: zero_requested(lineage),
            state: PswapLineageState::FullyFilled,
            tip_note_id: None,
            at_block: block_number,
            payback: Some((payback, payback_update.inclusion_proof.clone())),
            remainder: None,
        },
    )
}

fn build_partial_fill_round(
    lineage: &PswapLineageRecord,
    round_depth: u32,
    block_number: BlockNumber,
    first: &PswapChainNoteUpdate,
    second: &PswapChainNoteUpdate,
) -> (round: Result<PswapLineageRoundUpdate, PswapLineageError>)
    ensures
        view_round(round) == lineage@.partial_fill_round(
            round_depth,
            block_number,
            first@,
            second@,
        ),
{
    let payback_tag: NoteTag = lineage.creator_account_id().target_tag();
    let (payback_update, remainder_update) = if first.tag == payback_tag {
        (first, second)
    } else {
        (second, first)
    };
    let payback_note = match lineage.original_pswap.payback_note(
        payback_update.sender,
        &payback_update.attachment,
    ) {
        Some(note) => note,
        None => {
            return Err(PswapLineageError::Reconstruction);
        },
    };
    if payback_note.id() != payback_update.note_id {
        return Err(
            PswapLineageError::NoteIdMismatch {
                rebuilt: payback_note.id(),
                observed: payback_update.note_id,
            },
        );
    }
    let fill_amount = match FungibleAsset::new(
        lineage.requested_asset().faucet_id,
        payback_update.attachment.amount.value,
    ) {
        Ok(asset) => asset,
        Err(err) => {
            return Err(PswapLineageError::AssetError(err));
        },
    };
    let payout_amount = match FungibleAsset::new(
        lineage.offered_asset().faucet_id,
        remainder_update.attachment.amount.value,
    ) {
        Ok(asset) => asset,
        Err(err) => {
            return Err(PswapLineageError::AssetError(err));
        },
    };
    // More than what was left counts as all of it.
    let remaining_requested = match lineage.remaining_requested.sub_amount(fill_amount.amount) {
        Some(rest) => rest,
        None => zero_requested(lineage),
    };
    let remaining_offered = match lineage.remaining_offered.sub_amount(payout_amount.amount) {
        Some(rest) => rest,
        None => zero_offered(lineage),
    };
    let remainder_note = match lineage.original_pswap.remainder_note(
        remainder_update.sender,
        &remainder_update.attachment,
        remaining_offered.amount,
        remaining_requested.amount,
    ) {
        Some(note) => note,
        None => {
            return Err(PswapLineageError::Reconstruction);
        },
    };
    if remainder_note.id() != remainder_update.note_id {
        return Err(
            PswapLineageError::NoteIdMismatch {
                rebuilt: remainder_note.id(),
                observed: remainder_update.note_id,
            },
        );
    }
    Ok(
        PswapLineageRoundUpdate {
            order_id: lineage.order_id(),
            round_depth,
            consumer_account_id: payback_update.sender,
            fill_amount,
            payout_amount,
            remaining_offered,
            remaining_requested,
            state: PswapLineageState::Active,
            tip_note_id: Some(remainder_update.note_id),
            at_block: block_number,
            payback: Some((payback_note, payback_update.inclusion_proof.clone())),
            remainder: Some((remainder_note, remainder_update.inclusion_proof.clone())),
        },
    )
}

// DISCOVERY
// ================================================================================================

/// The chain notes of one order at one depth, in the order in which they were seen.
pub open spec fn round_notes(notes: Seq<ChainNoteView>, order_id: u64, depth: u32) -> Seq<
    ChainNoteView,
> {
    notes.filter(
        |note: ChainNoteView|
            note.attachment.order_id == order_id && note.attachment.depth == depth,
    )
}

/// The rounds that a lineage goes through in a sync, before intermediate remainders are dropped.
///
/// An active lineage goes through a round when its tip was consumed or when there are notes of
/// the next depth, for only the consumption of the tip can emit those. It stops at a terminal
/// round and at one that cannot be built.
pub open spec fn lineage_walk(
    lineage: LineageView,
    consumed: Seq<NoteId>,
    notes: Seq<ChainNoteView>,
    block_number: BlockNumber,
) -> Seq<RoundView>
    decreases u32::MAX - lineage.current_depth,
{
    if lineage.state != PswapLineageState::Active || lineage.current_depth == u32::MAX {
        Seq::empty()
    } else {
        let depth = (lineage.current_depth + 1) as u32;
        let emitted = round_notes(notes, lineage.order_id(), depth);
        if !consumed.contains(lineage.current_tip_note_id) && emitted.len() == 0 {
            Seq::empty()
        } else {
            match lineage.round(depth, block_number, emitted) {
                Err(_) => Seq::empty(),
                Ok(round) => seq![round] + lineage_walk(
                    lineage.after_round(round),
                    consumed,
                    notes,
                    block_number,
                ),
            }
        }
    }
}

/// The rounds with the remainder of every round but the last dropped: a remainder that a later
/// round consumed is already spent.
pub open spec fn keep_last_remainder(rounds: Seq<RoundView>) -> Seq<RoundView> {
    Seq::new(
        rounds.len(),
        |i: int|
            if i + 1 < rounds.len() {
                RoundView { remainder: None, ..rounds[i] }
            } else {
                rounds[i]
            },
    )
}

/// The rounds of one lineage in a sync.
pub open spec fn lineage_rounds(
    lineage: LineageView,
    consumed: Seq<NoteId>,
    notes: Seq<ChainNoteView>,
    block_number: BlockNumber,
) -> Seq<RoundView> {
    keep_last_remainder(lineage_walk(lineage, consumed, notes, block_number))
}

/// The rounds of several lineages in a sync, lineage by lineage.
pub open spec fn discovered_rounds(
    lineages: Seq<LineageView>,
    consumed: Seq<NoteId>,
    notes: Seq<ChainNoteView>,
    block_number: BlockNumber,
) -> Seq<RoundView>
    decreases lineages.len(),
{
    if lineages.len() == 0 {
        Seq::empty()
    } else {
        discovered_rounds(lineages.drop_last(), consumed, notes, block_number) + lineage_rounds(
            lineages.last(),
            consumed,
            notes,
            block_number,
        )
    }
}

/// Whether the notes are such as the PSWAP script emits along the walk of a lineage: at most two in
/// each round, and no round behind the last depth that can be counted.
pub open spec fn emitted_by_script(
    lineage: LineageView,
    consumed: Seq<NoteId>,
    notes: Seq<ChainNoteView>,
    block_number: BlockNumber,
) -> bool
    decreases u32::MAX - lineage.current_depth,
{
    if lineage.state != PswapLineageState::Active {
        true
    } else if lineage.current_depth == u32::MAX {
        false
    } else {
        let depth = (lineage.current_depth + 1) as u32;
        let emitted = round_notes(notes, lineage.order_id(), depth);
        if !consumed.contains(lineage.current_tip_note_id) && emitted.len() == 0 {
            true
        } else {
            emitted.len() <= 2 && match lineage.round(depth, block_number, emitted) {
                Err(_) => true,
                Ok(round) => emitted_by_script(
                    lineage.after_round(round),
                    consumed,
                    notes,
                    block_number,
                ),
            }
        }
    }
}

pub open spec fn view_rounds(rounds: Seq<PswapLineageRoundUpdate>) -> Seq<RoundView> {
    rounds.map_values(|round: PswapLineageRoundUpdate| round@)
}

pub open spec fn view_lineages(lineages: Seq<PswapLineageRecord>) -> Seq<LineageView> {
    lineages.map_values(|lineage: PswapLineageRecord| lineage@)
}

/// Which lineages discovery has to load; none at all when nothing was consumed and no PSWAP note
/// was seen.
pub fn lineages_to_load(
    consumed_note_ids: &Vec<NoteId>,
    chain_note_updates: &Vec<PswapChainNoteUpdate>,
) -> (filter: Option<PswapLineageFilter>)
    ensures
        filter is None <==> consumed_note_ids@.len() == 0 && chain_note_updates@.len() == 0,
        filter matches Some(filter) ==> filter matches PswapLineageFilter::ActiveByTipNoteIds(tips)
            && tips@ == consumed_note_ids@,
{
    if consumed_note_ids.is_empty() && chain_note_updates.is_empty() {
        None
    } else {
        let tips = consumed_note_ids.clone();
        assert(tips@ =~= consumed_note_ids@);
        Some(PswapLineageFilter::ActiveByTipNoteIds(tips))
    }
}

fn collect_round_notes<'a>(
    notes: &'a Vec<PswapChainNoteUpdate>,
    lineage: &PswapLineageRecord,
    depth: u32,
) -> (round: Vec<&'a PswapChainNoteUpdate>)
    ensures
        view_note_refs(round@) == round_notes(view_notes(notes@), lineage@.order_id(), depth),
{
    let key = lineage.order_id_key();
    let mut round: Vec<&'a PswapChainNoteUpdate> = Vec::new();
    let ghost keep = |note: ChainNoteView|
        note.attachment.order_id == lineage@.order_id() && note.attachment.depth == depth;
    assert(view_note_refs(round@) =~= view_notes(notes@).take(0).filter(keep)) by {
        reveal(Seq::filter);
    }
    let mut i: usize = 0;
    while i < notes.len()
        invariant
            i <= notes.len(),
            key.value == lineage@.order_id(),
            keep == (|note: ChainNoteView|
                note.attachment.order_id == lineage@.order_id() && note.attachment.depth == depth),
            view_note_refs(round@) == view_notes(notes@).take(i as int).filter(keep),
        decreases notes.len() - i,
    {
        let note = &notes[i];
        let ghost before = round@;
        if note.attachment.order_id == key.value && note.attachment.depth == depth {
            round.push(note);
            assert(view_note_refs(round@) =~= view_note_refs(before).push(note@));
        }
        proof {
            let views = view_notes(notes@);
            assert(views.take(i + 1).drop_last() =~= views.take(i as int));
            assert(views.take(i + 1).last() == note@);
            reveal(Seq::filter);
        }
        i += 1;
    }
    assert(view_notes(notes@).take(notes@.len() as int) =~= view_notes(notes@));
    round
}

/// Returns the rounds that each active lineage went through in a sync, in order.
///
/// All rounds found in a sync carry the sync's last block. Only the last round of a lineage keeps
/// its remainder; every payback is kept.
pub fn discover_pswap_rounds(
    active_lineages: &Vec<PswapLineageRecord>,
    consumed_note_ids: &Vec<NoteId>,
    sync_block: BlockNumber,
    chain_note_updates: &Vec<PswapChainNoteUpdate>,
) -> (rounds: Vec<PswapLineageRoundUpdate>)
    requires
        forall|i: int|
            0 <= i < active_lineages@.len() ==> emitted_by_script(
                (#[trigger] active_lineages@[i])@,
                consumed_note_ids@,
                view_notes(chain_note_updates@),
                sync_block,
            ),
    ensures
        view_rounds(rounds@) == discovered_rounds(
            view_lineages(active_lineages@),
            consumed_note_ids@,
            view_notes(chain_note_updates@),
            sync_block,
        ),
{
    let mut rounds: Vec<PswapLineageRoundUpdate> = Vec::new();
    let ghost lineages = view_lineages(active_lineages@);
    let ghost notes = view_notes(chain_note_updates@);
    let mut i: usize = 0;
    assert(view_rounds(rounds@) =~= Seq::<RoundView>::empty());
    while i < active_lineages.len()
        invariant
            i <= active_lineages.len(),
            lineages == view_lineages(active_lineages@),
            notes == view_notes(chain_note_updates@),
            forall|j: int|
                0 <= j < active_lineages@.len() ==> emitted_by_script(
                    (#[trigger] active_lineages@[j])@,
                    consumed_note_ids@,
                    notes,
                    sync_block,
                ),
            view_rounds(rounds@) == discovered_rounds(
                lineages.take(i as int),
                consumed_note_ids@,
                notes,
                sync_block,
            ),
        decreases active_lineages.len() - i,
    {
        let ghost before = rounds@;
        if let Some(found) = walk_lineage(
            &active_lineages[i],
            consumed_note_ids,
            sync_block,
            chain_note_updates,
        ) {
            let mut found = found;
            let ghost found_views = view_rounds(found@);
            rounds.append(&mut found);
            assert(view_rounds(rounds@) =~= view_rounds(before) + found_views);
        }
        proof {
            assert(emitted_by_script(
                active_lineages@[i as int]@,
                consumed_note_ids@,
                notes,
                sync_block,
            ));
            assert(lineages.take(i + 1).drop_last() =~= lineages.take(i as int));
            assert(lineages.take(i + 1).last() == active_lineages@[i as int]@);
        }
        i += 1;
    }
    assert(lineages.take(lineages.len() as int) =~= lineages);
    rounds
}

/// Returns the rounds that each active lineage went through in a sync, where the notes are such as
/// the PSWAP script emits; `None` where they are not.
pub fn try_discover_pswap_rounds(
    active_lineages: &Vec<PswapLineageRecord>,
    consumed_note_ids: &Vec<NoteId>,
    sync_block: BlockNumber,
    chain_note_updates: &Vec<PswapChainNoteUpdate>,
) -> (rounds: Option<Vec<PswapLineageRoundUpdate>>)
    ensures
        rounds is Some <==> forall|i: int|
            0 <= i < active_lineages@.len() ==> emitted_by_script(
                (#[trigger] active_lineages@[i])@,
                consumed_note_ids@,
                view_notes(chain_note_updates@),
                sync_block,
            ),
        rounds matches Some(rounds) ==> view_rounds(rounds@) == discovered_rounds(
            view_lineages(active_lineages@),
            consumed_note_ids@,
            view_notes(chain_note_updates@),
            sync_block,
        ),
{
    let mut i: usize = 0;
    while i < active_lineages.len()
        invariant
            i <= active_lineages.len(),
            forall|j: int|
                0 <= j < i ==> emitted_by_script(
                    (#[trigger] active_lineages@[j])@,
                    consumed_note_ids@,
                    view_notes(chain_note_updates@),
                    sync_block,
                ),
        decreases active_lineages.len() - i,
    {
        if walk_lineage(
            &active_lineages[i],
            consumed_note_ids,
            sync_block,
            chain_note_updates,
        ).is_none() {
            return None;
        }
        i += 1;
    }
    Some(
        discover_pswap_rounds(active_lineages, consumed_note_ids, sync_block, chain_note_updates),
    )
}

/// Walks one lineage through the rounds of a sync; `None` where the notes are not such as the
/// PSWAP script emits.
fn walk_lineage(
    record: &PswapLineageRecord,
    consumed_note_ids: &Vec<NoteId>,
    sync_block: BlockNumber,
    chain_note_updates: &Vec<PswapChainNoteUpdate>,
) -> (rounds: Option<Vec<PswapLineageRoundUpdate>>)
    ensures
        rounds is Some <==> emitted_by_script(
            record@,
            consumed_note_ids@,
            view_notes(chain_note_updates@),
            sync_block,
        ),
        rounds matches Some(rounds) ==> view_rounds(rounds@) == lineage_rounds(
            record@,
            consumed_note_ids@,
            view_notes(chain_note_updates@),
            sync_block,
        ),
{
    let mut lineage = record.clone();
    let mut rounds: Vec<PswapLineageRoundUpdate> = Vec::new();
    let ghost consumed = consumed_note_ids@;
    let ghost notes = view_notes(chain_note_updates@);
    let ghost whole = lineage_walk(record@, consumed, notes, sync_block);
    let ghost sound = emitted_by_script(record@, consumed, notes, sync_block);
    assert(view_rounds(rounds@) + lineage_walk(lineage@, consumed, notes, sync_block) =~= whole);
    while lineage.state == PswapLineageState::Active
        invariant_except_break
            consumed == consumed_note_ids@,
            notes == view_notes(chain_note_updates@),
            sound == emitted_by_script(record@, consumed, notes, sync_block),
            sound == emitted_by_script(lineage@, consumed, notes, sync_block),
            whole == view_rounds(rounds@) + lineage_walk(lineage@, consumed, notes, sync_block),
        ensures
            whole == view_rounds(rounds@),
            sound,
        decreases u32::MAX - lineage.current_depth,
    {
        if lineage.current_depth == u32::MAX {
            return None;
        }
        let round_depth: u32 = lineage.current_depth + 1;
        let emitted = collect_round_notes(chain_note_updates, &lineage, round_depth);
        assert(view_note_refs(emitted@).len() == emitted@.len());
        let tip_consumed = contains_note_id(consumed_note_ids, &lineage.current_tip_note_id);
        if !tip_consumed && emitted.is_empty() {
            assert(view_rounds(rounds@) + Seq::<RoundView>::empty() =~= view_rounds(rounds@));
            break;
        }
        if emitted.len() > 2 {
            return None;
        }
        let update = match build_round_update(
            &lineage,
            round_depth,
            sync_block,
            emitted.as_slice(),
        ) {
            Ok(update) => update,
            Err(_) => {
                assert(view_rounds(rounds@) + Seq::<RoundView>::empty() =~= view_rounds(rounds@));
                break;
            },
        };
        let ghost before = rounds@;
        lineage = lineage.apply_round_in_memory(&update);
        let ghost round = update@;
        rounds.push(update);
        proof {
            assert(view_rounds(rounds@) =~= view_rounds(before).push(round));
            let rest = lineage_walk(lineage@, consumed, notes, sync_block);
            assert(view_rounds(before) + (seq![round] + rest) =~= view_rounds(rounds@) + rest);
        }
    }
    drop_intermediate_remainders(&mut rounds);
    Some(rounds)
}

/// Drops the remainder of every round but the last.
fn drop_intermediate_remainders(rounds: &mut Vec<PswapLineageRoundUpdate>)
    ensures
        view_rounds(final(rounds)@) == keep_last_remainder(view_rounds(old(rounds)@)),
{
    let ghost start = rounds@;
    if rounds.is_empty() {
        assert(view_rounds(rounds@) =~= keep_last_remainder(view_rounds(start)));
        return;
    }
    let last: usize = rounds.len() - 1;
    let mut i: usize = 0;
    while i < last
        invariant
            rounds@.len() == start.len(),
            i <= last,
            last + 1 == start.len(),
            forall|j: int|
                0 <= j < i ==> (#[trigger] rounds@[j])@ == (RoundView {
                    remainder: None,
                    ..start[j]@
                }),
            forall|j: int| i <= j < start.len() ==> (#[trigger] rounds@[j]) == start[j],
        decreases last - i,
    {
        rounds[i].remainder = None;
        i += 1;
    }
    assert(view_rounds(rounds@) =~= keep_last_remainder(view_rounds(start)));
}

// LAWS
// ================================================================================================

/// The lineage after some rounds.
pub open spec fn after_rounds(lineage: LineageView, rounds: Seq<RoundView>) -> LineageView
    decreases rounds.len(),
{
    if rounds.len() == 0 {
        lineage
    } else {
        after_rounds(lineage, rounds.drop_last()).after_round(rounds.last())
    }
}

/// Every round of a lineage advances its depth by exactly one, belongs to its order and carries
/// the sync's block.
pub proof fn law_depth_advances_by_one(
    lineage: LineageView,
    consumed: Seq<NoteId>,
    notes: Seq<ChainNoteView>,
    block_number: BlockNumber,
)
    ensures
        forall|i: int|
            0 <= i < lineage_rounds(lineage, consumed, notes, block_number).len() ==> {
                let round = #[trigger] lineage_rounds(lineage, consumed, notes, block_number)[i];
                &&& round.round_depth == lineage.current_depth + 1 + i
                &&& round.order_id == lineage.order_id()
                &&& round.at_block == block_number
            },
    decreases u32::MAX - lineage.current_depth,
{
    let walk = lineage_walk(lineage, consumed, notes, block_number);
    if walk.len() > 0 {
        let next = lineage.after_round(walk[0]);
        let rest = lineage_walk(next, consumed, notes, block_number);
        law_depth_advances_by_one(next, consumed, notes, block_number);
        assert(walk =~= seq![walk[0]] + rest);
        assert forall|i: int| 0 <= i < walk.len() implies {
            let round = #[trigger] lineage_rounds(lineage, consumed, notes, block_number)[i];
            &&& round.round_depth == lineage.current_depth + 1 + i
            &&& round.order_id == lineage.order_id()
            &&& round.at_block == block_number
        } by {
            if i > 0 {
                assert(walk[i] == rest[i - 1]);
                let later = lineage_rounds(next, consumed, notes, block_number)[i - 1];
            }
        }
    }
}

/// A lineage in a terminal state goes through no round, whatever was consumed or seen.
pub proof fn law_terminal_never_advances(
    lineage: LineageView,
    consumed: Seq<NoteId>,
    notes: Seq<ChainNoteView>,
    block_number: BlockNumber,
)
    requires
        lineage.state != PswapLineageState::Active,
    ensures
        lineage_rounds(lineage, consumed, notes, block_number).len() == 0,
{
}

/// Every round but the last leaves the lineage active, has a payback and a new tip, and has its
/// remainder dropped.
pub proof fn law_only_last_round_keeps_remainder(
    lineage: LineageView,
    consumed: Seq<NoteId>,
    notes: Seq<ChainNoteView>,
    block_number: BlockNumber,
)
    ensures
        forall|i: int|
            0 <= i < lineage_rounds(lineage, consumed, notes, block_number).len() - 1 ==> {
                let round = #[trigger] lineage_rounds(lineage, consumed, notes, block_number)[i];
                &&& round.state == PswapLineageState::Active
                &&& round.payback is Some
                &&& round.tip_note_id is Some
                &&& round.remainder is None
            },
    decreases u32::MAX - lineage.current_depth,
{
    let walk = lineage_walk(lineage, consumed, notes, block_number);
    if walk.len() > 0 {
        let next = lineage.after_round(walk[0]);
        let rest = lineage_walk(next, consumed, notes, block_number);
        law_only_last_round_keeps_remainder(next, consumed, notes, block_number);
        assert(walk =~= seq![walk[0]] + rest);
        assert forall|i: int| 0 <= i < walk.len() - 1 implies {
            let round = #[trigger] lineage_rounds(lineage, consumed, notes, block_number)[i];
            &&& round.state == PswapLineageState::Active
            &&& round.payback is Some
            &&& round.tip_note_id is Some
            &&& round.remainder is None
        } by {
            if i > 0 {
                assert(walk[i] == rest[i - 1]);
                let later = lineage_rounds(next, consumed, notes, block_number)[i - 1];
            } else {
                assert(rest.len() > 0);
                assert(next.state == PswapLineageState::Active);
            }
        }
    }
}

/// A round never increases what is left on either side, and a terminal round leaves nothing.
pub proof fn law_round_never_increases_remaining(
    lineage: LineageView,
    round_depth: u32,
    block_number: BlockNumber,
    notes: Seq<ChainNoteView>,
    round: RoundView,
)
    requires
        lineage.round(round_depth, block_number, notes) == Ok::<RoundView, PswapLineageError>(
            round,
        ),
    ensures
        round.remaining_offered.amount.value <= lineage.remaining_offered.amount.value,
        round.remaining_requested.amount.value <= lineage.remaining_requested.amount.value,
        round.state != PswapLineageState::Active ==> round.remaining_offered.amount.value == 0
            && round.remaining_requested.amount.value == 0,
{
}

/// In a partial fill, what is left and what the round took add up to what was there, on each side
/// on which the round took no more than was left.
pub proof fn law_partial_fill_conserves(
    lineage: LineageView,
    round_depth: u32,
    block_number: BlockNumber,
    notes: Seq<ChainNoteView>,
    round: RoundView,
)
    requires
        lineage.round(round_depth, block_number, notes) == Ok::<RoundView, PswapLineageError>(
            round,
        ),
        round.state == PswapLineageState::Active,
    ensures
        round.fill_amount.amount.value <= lineage.remaining_requested.amount.value
            ==> round.remaining_requested.amount.value + round.fill_amount.amount.value
            == lineage.remaining_requested.amount.value,
        round.payout_amount.amount.value <= lineage.remaining_offered.amount.value
            ==> round.remaining_offered.amount.value + round.payout_amount.amount.value
            == lineage.remaining_offered.amount.value,
{
}

/// The notes of a round are those that were seen on chain: the payback is one of them, and the
/// remainder is one of them and the new tip.
pub proof fn law_rebuilt_notes_are_the_observed_ones(
    lineage: LineageView,
    round_depth: u32,
    block_number: BlockNumber,
    notes: Seq<ChainNoteView>,
    round: RoundView,
)
    requires
        lineage.round(round_depth, block_number, notes) == Ok::<RoundView, PswapLineageError>(
            round,
        ),
    ensures
        round.payback matches Some(payback) ==> exists|i: int|
            0 <= i < notes.len() && (#[trigger] notes[i]).note_id == payback.0.id
                && notes[i].inclusion_proof == payback.1,
        round.remainder matches Some(remainder) ==> round.tip_note_id == Some(remainder.0.id)
            && exists|i: int|
            0 <= i < notes.len() && (#[trigger] notes[i]).note_id == remainder.0.id
                && notes[i].inclusion_proof == remainder.1,
{
    if notes.len() == 1 {
        assert(notes[0].note_id == round.payback.unwrap().0.id);
    } else if notes.len() > 1 {
        let tag = lineage.terms().creator_account_id.spec_target_tag();
        let (payback, remainder) = if notes[0].tag == tag {
            (notes[0], notes[1])
        } else {
            (notes[1], notes[0])
        };
        assert(payback.note_id == round.payback.unwrap().0.id);
        assert(remainder.note_id == round.remainder.unwrap().0.id);
    }
}

/// A round with a payback, be it a full fill or a partial one, names as its consumer the sender of
/// the note on chain that is its payback, and the payback is rebuilt from that note's sender and
/// attachment. Only a reclaim has no payback, and only a reclaim names the creator as such.
pub proof fn law_consumer_sent_the_payback(
    lineage: LineageView,
    round_depth: u32,
    block_number: BlockNumber,
    notes: Seq<ChainNoteView>,
    round: RoundView,
)
    requires
        lineage.round(round_depth, block_number, notes) == Ok::<RoundView, PswapLineageError>(
            round,
        ),
    ensures
        round.payback matches Some(payback) ==> exists|i: int|
            0 <= i < notes.len() && (#[trigger] notes[i]).note_id == payback.0.id
                && notes[i].inclusion_proof == payback.1 && notes[i].sender
                == round.consumer_account_id && lineage.original_pswap.payback(
                notes[i].sender,
                notes[i].attachment,
            ) == Some(payback.0),
        round.payback is None <==> round.state == PswapLineageState::Reclaimed,
        round.payback is None ==> round.consumer_account_id == lineage.terms().creator_account_id,
{
    if notes.len() == 1 {
        assert(notes[0].note_id == round.payback.unwrap().0.id);
    } else if notes.len() > 1 {
        let at: int = if notes[0].tag == lineage.terms().creator_account_id.spec_target_tag() {
            0
        } else {
            1
        };
        assert(notes[at].note_id == round.payback.unwrap().0.id);
    }
}

/// How many notes there are decides what a round is: none make a reclaim, one makes a full fill, and
/// two make a partial fill, which alone leaves the order open, with a remainder as its tip.
pub proof fn law_number_of_notes_decides_the_round(
    lineage: LineageView,
    round_depth: u32,
    block_number: BlockNumber,
    notes: Seq<ChainNoteView>,
    round: RoundView,
)
    requires
        lineage.round(round_depth, block_number, notes) == Ok::<RoundView, PswapLineageError>(
            round,
        ),
    ensures
        round.state == PswapLineageState::Reclaimed <==> notes.len() == 0,
        round.state == PswapLineageState::FullyFilled <==> notes.len() == 1,
        round.state == PswapLineageState::Active <==> notes.len() >= 2,
        round.payback is Some <==> notes.len() >= 1,
        round.remainder is Some <==> notes.len() >= 2,
        round.tip_note_id is Some <==> notes.len() >= 2,
        round.order_id == lineage.terms().spec_order_id(),
        round.round_depth == round_depth,
        round.at_block == block_number,
        notes.len() < 2 ==> round.remaining_offered.faucet_id
            == lineage.terms().offered_asset.faucet_id,
        notes.len() < 2 ==> round.remaining_requested.faucet_id
            == lineage.terms().requested_asset.faucet_id,
        notes.len() == 0 ==> round.fill_amount.faucet_id
            == lineage.terms().requested_asset.faucet_id,
{
}

/// In a partial fill the note with the creator's tag is the payback, the second one where the first
/// does not have it, and the other note is the remainder. The round fills as much of the requested
/// asset as the payback says and pays out as much of the offered asset as the remainder says. What
/// is left is what was left without that, or nothing where it is more than was left; the remainder
/// is rebuilt from its note and from what is left, and is the new tip.
pub proof fn law_partial_fill_follows_its_notes(
    lineage: LineageView,
    round_depth: u32,
    block_number: BlockNumber,
    notes: Seq<ChainNoteView>,
    round: RoundView,
    at: int,
)
    requires
        notes.len() == 2,
        lineage.round(round_depth, block_number, notes) == Ok::<RoundView, PswapLineageError>(
            round,
        ),
        at == 0 || at == 1,
        at == 0 <==> notes[0].tag == lineage.terms().creator_account_id.spec_target_tag(),
    ensures
        ({
            let payback = notes[at];
            let remainder = notes[1 - at];
            let fill = payback.attachment.amount.value;
            let payout = remainder.attachment.amount.value;
            let requested = lineage.remaining_requested;
            let offered = lineage.remaining_offered;
            &&& round.consumer_account_id == payback.sender
            &&& round.payback matches Some(rebuilt) && rebuilt.0.id == payback.note_id && rebuilt.1
                == payback.inclusion_proof
            &&& round.remainder matches Some(rebuilt) && rebuilt.0.id == remainder.note_id
                && rebuilt.1 == remainder.inclusion_proof
            &&& lineage.original_pswap.remainder(
                remainder.sender,
                remainder.attachment,
                round.remaining_offered.amount,
                round.remaining_requested.amount,
            ) == Some(round.remainder.unwrap().0)
            &&& round.tip_note_id == Some(remainder.note_id)
            &&& round.fill_amount.amount.value == fill
            &&& round.fill_amount.faucet_id == lineage.terms().requested_asset.faucet_id
            &&& round.payout_amount.amount.value == payout
            &&& round.payout_amount.faucet_id == lineage.terms().offered_asset.faucet_id
            &&& fill <= requested.amount.value ==> round.remaining_requested.amount.value + fill
                == requested.amount.value && round.remaining_requested.faucet_id
                == requested.faucet_id
            &&& fill > requested.amount.value ==> round.remaining_requested.amount.value == 0
                && round.remaining_requested.faucet_id == lineage.terms().requested_asset.faucet_id
            &&& payout <= offered.amount.value ==> round.remaining_offered.amount.value + payout
                == offered.amount.value && round.remaining_offered.faucet_id == offered.faucet_id
            &&& payout > offered.amount.value ==> round.remaining_offered.amount.value == 0
                && round.remaining_offered.faucet_id == lineage.terms().offered_asset.faucet_id
        }),
{
}

/// A reclaim is always built. A full fill is built exactly where the rebuilt payback is the note
/// that was seen. A partial fill is built exactly where that holds of both notes and the two amounts
/// are valid. A mismatch is reported with the identifier of a note that was seen, and with another
/// one that was rebuilt for it.
pub proof fn law_round_is_built_where_the_notes_match(
    lineage: LineageView,
    round_depth: u32,
    block_number: BlockNumber,
    notes: Seq<ChainNoteView>,
)
    requires
        notes.len() <= 2,
    ensures
        ({
            let outcome = lineage.round(round_depth, block_number, notes);
            let order = lineage.original_pswap;
            let is_rebuilt = |i: int|
                order.payback(notes[i].sender, notes[i].attachment) matches Some(note) && note.id
                    == notes[i].note_id;
            &&& notes.len() == 0 ==> outcome is Ok
            &&& notes.len() == 1 ==> (outcome is Ok <==> is_rebuilt(0))
            &&& notes.len() == 2 ==> {
                let at: int = if notes[0].tag
                    == lineage.terms().creator_account_id.spec_target_tag() {
                    0
                } else {
                    1
                };
                let fill = notes[at].attachment.amount;
                let payout = notes[1 - at].attachment.amount;
                let requested = if fill.value <= lineage.remaining_requested.amount.value {
                    lineage.remaining_requested.amount.value - fill.value
                } else {
                    0
                };
                let offered = if payout.value <= lineage.remaining_offered.amount.value {
                    lineage.remaining_offered.amount.value - payout.value
                } else {
                    0
                };
                outcome is Ok <==> is_rebuilt(at) && fill.wf() && payout.wf() && (
                order.remainder(
                    notes[1 - at].sender,
                    notes[1 - at].attachment,
                    AssetAmount { value: offered as u64 },
                    AssetAmount { value: requested as u64 },
                ) matches Some(note) && note.id == notes[1 - at].note_id)
            }
            &&& outcome matches Err(PswapLineageError::NoteIdMismatch { rebuilt, observed })
                ==> rebuilt != observed && exists|i: int|
                0 <= i < notes.len() && (#[trigger] notes[i]).note_id == observed
        }),
{
    let outcome = lineage.round(round_depth, block_number, notes);
    if let Err(PswapLineageError::NoteIdMismatch { rebuilt: _, observed }) = outcome {
        if notes.len() == 1 {
            assert(notes[0].note_id == observed);
        } else {
            assert(notes[0].note_id == observed || notes[1].note_id == observed);
        }
    }
}

/// The notes of a round are those, and only those, of its order and depth.
pub proof fn law_round_notes_are_of_order_and_depth(
    notes: Seq<ChainNoteView>,
    order_id: u64,
    depth: u32,
)
    ensures
        forall|i: int|
            0 <= i < round_notes(notes, order_id, depth).len() ==> {
                let note = #[trigger] round_notes(notes, order_id, depth)[i];
                &&& notes.contains(note)
                &&& note.attachment.order_id == order_id
                &&& note.attachment.depth == depth
            },
        forall|i: int|
            0 <= i < notes.len() && (#[trigger] notes[i]).attachment.order_id == order_id
                && notes[i].attachment.depth == depth ==> round_notes(
                notes,
                order_id,
                depth,
            ).contains(notes[i]),
{
    let keep = |note: ChainNoteView|
        note.attachment.order_id == order_id && note.attachment.depth == depth;
    lemma_filtered(notes, keep);
    assert forall|i: int| 0 <= i < round_notes(notes, order_id, depth).len() implies {
        let note = #[trigger] round_notes(notes, order_id, depth)[i];
        &&& notes.contains(note)
        &&& note.attachment.order_id == order_id
        &&& note.attachment.depth == depth
    } by {
        assert(keep(round_notes(notes, order_id, depth)[i]));
    }
    assert forall|i: int|
        0 <= i < notes.len() && (#[trigger] notes[i]).attachment.order_id == order_id
            && notes[i].attachment.depth == depth implies round_notes(
        notes,
        order_id,
        depth,
    ).contains(notes[i]) by {
        assert(keep(notes[i]));
    }
}

/// The notes of a round stand in the order in which they were seen.
pub proof fn law_round_notes_keep_their_order(
    first: Seq<ChainNoteView>,
    second: Seq<ChainNoteView>,
    order_id: u64,
    depth: u32,
)
    ensures
        round_notes(first + second, order_id, depth) == round_notes(first, order_id, depth)
            + round_notes(second, order_id, depth),
{
    Seq::filter_distributes_over_add(
        first,
        second,
        |note: ChainNoteView|
            note.attachment.order_id == order_id && note.attachment.depth == depth,
    );
}

/// Whether a lineage goes through no further round: it has ended, it cannot be counted on, nothing
/// of it was consumed or seen, or its next round cannot be built.
pub open spec fn is_at_rest(
    lineage: LineageView,
    consumed: Seq<NoteId>,
    notes: Seq<ChainNoteView>,
    block_number: BlockNumber,
) -> bool {
    let depth = (lineage.current_depth + 1) as u32;
    ||| lineage.state != PswapLineageState::Active
    ||| lineage.current_depth == u32::MAX
    ||| !consumed.contains(lineage.current_tip_note_id) && round_notes(
        notes,
        lineage.order_id(),
        depth,
    ).len() == 0
    ||| next_round_fails(lineage, consumed, notes, block_number)
}

/// The rounds of a lineage take it as far as they can: once it went through them, it is at rest.
pub proof fn law_rounds_lead_to_rest(
    lineage: LineageView,
    consumed: Seq<NoteId>,
    notes: Seq<ChainNoteView>,
    block_number: BlockNumber,
)
    ensures
        is_at_rest(
            after_rounds(lineage, lineage_rounds(lineage, consumed, notes, block_number)),
            consumed,
            notes,
            block_number,
        ),
{
    let walk = lineage_walk(lineage, consumed, notes, block_number);
    let rounds = lineage_rounds(lineage, consumed, notes, block_number);
    let n = walk.len() as int;
    lemma_walk_goes_on(lineage, consumed, notes, block_number, n);
    lemma_remainders_do_not_matter(lineage, walk, rounds, n);
    assert(walk.skip(n) =~= Seq::empty());
    assert(rounds.take(n) =~= rounds);
    let reached = after_rounds(lineage, rounds);
    assert(lineage_walk(reached, consumed, notes, block_number).len() == 0);
}

/// Each round of a lineage is the one that the notes of its depth make of the lineage as the rounds
/// before it have left it, once the tip was consumed or such notes were seen. The last round keeps
/// its remainder, the others keep all but it.
pub proof fn law_each_round_follows_from_the_one_before(
    lineage: LineageView,
    consumed: Seq<NoteId>,
    notes: Seq<ChainNoteView>,
    block_number: BlockNumber,
    i: int,
)
    requires
        0 <= i < lineage_rounds(lineage, consumed, notes, block_number).len(),
    ensures
        ({
            let rounds = lineage_rounds(lineage, consumed, notes, block_number);
            let reached = after_rounds(lineage, rounds.take(i));
            let depth = (reached.current_depth + 1) as u32;
            let emitted = round_notes(notes, reached.order_id(), depth);
            &&& reached.state == PswapLineageState::Active
            &&& reached.current_depth < u32::MAX
            &&& consumed.contains(reached.current_tip_note_id) || emitted.len() > 0
            &&& reached.round(depth, block_number, emitted) matches Ok(built) && {
                &&& i == rounds.len() - 1 ==> rounds[i] == built
                &&& i < rounds.len() - 1 ==> rounds[i] == (RoundView { remainder: None, ..built })
            }
        }),
{
    let walk = lineage_walk(lineage, consumed, notes, block_number);
    let rounds = lineage_rounds(lineage, consumed, notes, block_number);
    lemma_walk_goes_on(lineage, consumed, notes, block_number, i);
    lemma_remainders_do_not_matter(lineage, walk, rounds, i);
    let reached = after_rounds(lineage, rounds.take(i));
    let rest = lineage_walk(reached, consumed, notes, block_number);
    assert(rest == walk.skip(i));
    assert(rest[0] == walk[i]);
}

/// Every lineage goes through its own rounds, whatever the others go through: the rounds of all are
/// those of the lineages before it, its own, and those of the lineages behind it.
pub proof fn law_lineages_advance_on_their_own(
    lineages: Seq<LineageView>,
    at: int,
    consumed: Seq<NoteId>,
    notes: Seq<ChainNoteView>,
    block_number: BlockNumber,
)
    requires
        0 <= at < lineages.len(),
    ensures
        discovered_rounds(lineages, consumed, notes, block_number) == discovered_rounds(
            lineages.take(at),
            consumed,
            notes,
            block_number,
        ) + lineage_rounds(lineages[at], consumed, notes, block_number) + discovered_rounds(
            lineages.skip(at + 1),
            consumed,
            notes,
            block_number,
        ),
{
    lemma_discovered_in_parts(
        lineages.take(at + 1),
        lineages.skip(at + 1),
        consumed,
        notes,
        block_number,
    );
    assert(lineages.take(at + 1) + lineages.skip(at + 1) =~= lineages);
    assert(lineages.take(at + 1).drop_last() =~= lineages.take(at));
}

/// A terminal round takes what was left: a full fill all of both sides, a reclaim the offered side
/// alone.
pub proof fn law_terminal_round_takes_the_rest(
    lineage: LineageView,
    round_depth: u32,
    block_number: BlockNumber,
    notes: Seq<ChainNoteView>,
    round: RoundView,
)
    requires
        lineage.round(round_depth, block_number, notes) == Ok::<RoundView, PswapLineageError>(
            round,
        ),
        round.state != PswapLineageState::Active,
    ensures
        round.payout_amount == lineage.remaining_offered,
        round.state == PswapLineageState::FullyFilled ==> round.fill_amount
            == lineage.remaining_requested,
        round.state == PswapLineageState::Reclaimed ==> round.fill_amount.amount.value == 0,
{
}

/// Which of the two notes of a partial fill comes first makes no difference, as long as exactly
/// one of them carries the payback's tag.
pub proof fn law_partial_fill_ignores_note_order(
    lineage: LineageView,
    round_depth: u32,
    block_number: BlockNumber,
    first: ChainNoteView,
    second: ChainNoteView,
)
    requires
        (first.tag == lineage.terms().creator_account_id.spec_target_tag()) != (second.tag
            == lineage.terms().creator_account_id.spec_target_tag()),
    ensures
        lineage.round(round_depth, block_number, seq![first, second]) == lineage.round(
            round_depth,
            block_number,
            seq![second, first],
        ),
{
}

/// A lineage whose tip was not consumed and whose order was not seen at the next depth stays as
/// it is.
pub proof fn law_quiet_lineage_stays(
    lineage: LineageView,
    consumed: Seq<NoteId>,
    notes: Seq<ChainNoteView>,
    block_number: BlockNumber,
)
    requires
        !consumed.contains(lineage.current_tip_note_id),
        lineage.current_depth < u32::MAX ==> round_notes(
            notes,
            lineage.order_id(),
            (lineage.current_depth + 1) as u32,
        ).len() == 0,
    ensures
        lineage_rounds(lineage, consumed, notes, block_number).len() == 0,
{
}

/// Whether the next round of a lineage fires but cannot be built.
pub open spec fn next_round_fails(
    lineage: LineageView,
    consumed: Seq<NoteId>,
    notes: Seq<ChainNoteView>,
    block_number: BlockNumber,
) -> bool {
    let depth = (lineage.current_depth + 1) as u32;
    let emitted = round_notes(notes, lineage.order_id(), depth);
    &&& lineage.state == PswapLineageState::Active
    &&& lineage.current_depth < u32::MAX
    &&& consumed.contains(lineage.current_tip_note_id) || emitted.len() > 0
    &&& lineage.round(depth, block_number, emitted) is Err
}

/// A round that cannot be built ends its lineage's rounds, with those before it kept, and leaves
/// the rounds of all other lineages as they would be without that lineage.
pub proof fn law_failed_round_stops_only_its_lineage(
    lineages: Seq<LineageView>,
    failed: int,
    built: int,
    consumed: Seq<NoteId>,
    notes: Seq<ChainNoteView>,
    block_number: BlockNumber,
)
    requires
        0 <= failed < lineages.len(),
        0 <= built <= lineage_rounds(lineages[failed], consumed, notes, block_number).len(),
        next_round_fails(
            after_rounds(
                lineages[failed],
                lineage_rounds(lineages[failed], consumed, notes, block_number).take(built),
            ),
            consumed,
            notes,
            block_number,
        ),
    ensures
        ({
            let before = discovered_rounds(lineages.take(failed), consumed, notes, block_number);
            let own = lineage_rounds(lineages[failed], consumed, notes, block_number);
            let behind = discovered_rounds(
                lineages.skip(failed + 1),
                consumed,
                notes,
                block_number,
            );
            &&& own.len() == built
            &&& forall|i: int|
                0 <= i < own.len() ==> (#[trigger] own[i]).round_depth
                    <= lineages[failed].current_depth + built
            &&& discovered_rounds(lineages, consumed, notes, block_number) == before + own + behind
            &&& discovered_rounds(lineages.remove(failed), consumed, notes, block_number) == before
                + behind
        }),
{
    let lineage = lineages[failed];
    let walk = lineage_walk(lineage, consumed, notes, block_number);
    let own = lineage_rounds(lineage, consumed, notes, block_number);
    lemma_walk_goes_on(lineage, consumed, notes, block_number, built);
    lemma_remainders_do_not_matter(lineage, walk, own, built);
    law_depth_advances_by_one(lineage, consumed, notes, block_number);
    lemma_discovered_in_parts(
        lineages.take(failed + 1),
        lineages.skip(failed + 1),
        consumed,
        notes,
        block_number,
    );
    lemma_discovered_in_parts(
        lineages.take(failed),
        lineages.skip(failed + 1),
        consumed,
        notes,
        block_number,
    );
    assert(lineages.take(failed + 1) + lineages.skip(failed + 1) =~= lineages);
    assert(lineages.take(failed) + lineages.skip(failed + 1) =~= lineages.remove(failed));
    assert(lineages.take(failed + 1).drop_last() =~= lineages.take(failed));
}

/// The rounds of a walk behind its first one are those of a walk that starts from there.
#[verifier::spinoff_prover]
proof fn lemma_walk_steps(
    lineage: LineageView,
    consumed: Seq<NoteId>,
    notes: Seq<ChainNoteView>,
    block_number: BlockNumber,
)
    requires
        lineage_walk(lineage, consumed, notes, block_number).len() > 0,
    ensures
        ({
            let walk = lineage_walk(lineage, consumed, notes, block_number);
            walk.skip(1) == lineage_walk(
                lineage.after_round(walk[0]),
                consumed,
                notes,
                block_number,
            )
        }),
{
    let walk = lineage_walk(lineage, consumed, notes, block_number);
    let rest = lineage_walk(lineage.after_round(walk[0]), consumed, notes, block_number);
    assert(walk =~= seq![walk[0]] + rest);
    assert(walk.skip(1) =~= rest);
}

/// The rounds of a walk behind its first few are those of a walk that starts from there.
#[verifier::spinoff_prover]
proof fn lemma_walk_goes_on(
    lineage: LineageView,
    consumed: Seq<NoteId>,
    notes: Seq<ChainNoteView>,
    block_number: BlockNumber,
    count: int,
)
    requires
        0 <= count <= lineage_walk(lineage, consumed, notes, block_number).len(),
    ensures
        lineage_walk(lineage, consumed, notes, block_number).skip(count) == lineage_walk(
            after_rounds(
                lineage,
                lineage_walk(lineage, consumed, notes, block_number).take(count),
            ),
            consumed,
            notes,
            block_number,
        ),
    decreases count,
{
    let walk = lineage_walk(lineage, consumed, notes, block_number);
    if count == 0 {
        assert(walk.skip(0) =~= walk);
    } else {
        lemma_walk_goes_on(lineage, consumed, notes, block_number, count - 1);
        let reached = after_rounds(lineage, walk.take(count - 1));
        let rest = walk.skip(count - 1);
        lemma_walk_steps(reached, consumed, notes, block_number);
        assert(walk.take(count).drop_last() =~= walk.take(count - 1));
        assert(walk.take(count).last() == rest[0]);
        assert(walk.skip(count) =~= rest.skip(1));
    }
}

/// Dropped remainders make no difference to what rounds lead to.
proof fn lemma_remainders_do_not_matter(
    lineage: LineageView,
    walk: Seq<RoundView>,
    rounds: Seq<RoundView>,
    count: int,
)
    requires
        rounds == keep_last_remainder(walk),
        0 <= count <= walk.len(),
    ensures
        after_rounds(lineage, rounds.take(count)) == after_rounds(lineage, walk.take(count)),
    decreases count,
{
    if count > 0 {
        lemma_remainders_do_not_matter(lineage, walk, rounds, count - 1);
        assert(rounds.take(count).drop_last() =~= rounds.take(count - 1));
        assert(walk.take(count).drop_last() =~= walk.take(count - 1));
    } else {
        assert(rounds.take(0) =~= walk.take(0));
    }
}

/// The rounds of some lineages and of those behind them stand one after the other.
proof fn lemma_discovered_in_parts(
    first: Seq<LineageView>,
    second: Seq<LineageView>,
    consumed: Seq<NoteId>,
    notes: Seq<ChainNoteView>,
    block_number: BlockNumber,
)
    ensures
        discovered_rounds(first + second, consumed, notes, block_number) == discovered_rounds(
            first,
            consumed,
            notes,
            block_number,
        ) + discovered_rounds(second, consumed, notes, block_number),
    decreases second.len(),
{
    if second.len() == 0 {
        assert(first + second =~= first);
        assert(discovered_rounds(first, consumed, notes, block_number) + Seq::<RoundView>::empty()
            =~= discovered_rounds(first, consumed, notes, block_number));
    } else {
        let shorter = second.drop_last();
        lemma_discovered_in_parts(first, shorter, consumed, notes, block_number);
        assert((first + second).drop_last() =~= first + shorter);
        assert(discovered_rounds(first + second, consumed, notes, block_number)
            =~= discovered_rounds(first, consumed, notes, block_number) + discovered_rounds(
            second,
            consumed,
            notes,
            block_number,
        ));
    }
}

/// A consumed tip with no notes at the next depth is a reclaim, and the only round of its
/// lineage.
pub proof fn law_consumed_without_notes_is_reclaim(
    lineage: LineageView,
    consumed: Seq<NoteId>,
    notes: Seq<ChainNoteView>,
    block_number: BlockNumber,
)
    requires
        lineage.state == PswapLineageState::Active,
        lineage.current_depth < u32::MAX,
        consumed.contains(lineage.current_tip_note_id),
        round_notes(notes, lineage.order_id(), (lineage.current_depth + 1) as u32).len() == 0,
    ensures
        lineage_rounds(lineage, consumed, notes, block_number) == seq![
            lineage.reclaim_round((lineage.current_depth + 1) as u32, block_number),
        ],
{
    let depth = (lineage.current_depth + 1) as u32;
    let round = lineage.reclaim_round(depth, block_number);
    let next = lineage.after_round(round);
    assert(lineage_walk(next, consumed, notes, block_number) =~= Seq::empty());
    assert(lineage_walk(lineage, consumed, notes, block_number) =~= seq![round]);
    assert(lineage_rounds(lineage, consumed, notes, block_number) =~= seq![round]);
}

/// Whether a note can matter to a lineage: it belongs to its order and to a later round.
pub open spec fn concerns(lineage: LineageView, note: ChainNoteView) -> bool {
    note.attachment.order_id == lineage.order_id() && note.attachment.depth > lineage.current_depth
}

/// Notes of other orders, and notes of rounds that the lineage already went through, make no
/// difference.
pub proof fn law_stale_and_foreign_notes_ignored(
    lineage: LineageView,
    consumed: Seq<NoteId>,
    notes: Seq<ChainNoteView>,
    block_number: BlockNumber,
)
    ensures
        lineage_rounds(lineage, consumed, notes, block_number) == lineage_rounds(
            lineage,
            consumed,
            notes.filter(|note: ChainNoteView| concerns(lineage, note)),
            block_number,
        ),
{
    let kept = notes.filter(|note: ChainNoteView| concerns(lineage, note));
    assert forall|depth: u32| depth > lineage.current_depth implies #[trigger] round_notes(
        notes,
        lineage.order_id(),
        depth,
    ) == round_notes(kept, lineage.order_id(), depth) by {
        lemma_filter_twice(
            notes,
            |note: ChainNoteView| concerns(lineage, note),
            |note: ChainNoteView|
                note.attachment.order_id == lineage.order_id() && note.attachment.depth == depth,
        );
    }
    lemma_walk_depends_on_round_notes(lineage, consumed, notes, kept, block_number);
}

proof fn lemma_filter_twice<A>(s: Seq<A>, p: spec_fn(A) -> bool, q: spec_fn(A) -> bool)
    requires
        forall|a: A| #[trigger] q(a) ==> p(a),
    ensures
        s.filter(p).filter(q) == s.filter(q),
    decreases s.len(),
{
    reveal(Seq::filter);
    if s.len() > 0 {
        lemma_filter_twice(s.drop_last(), p, q);
        if p(s.last()) {
            let rest = s.drop_last().filter(p);
            assert(rest.push(s.last()).drop_last() =~= rest);
        }
        assert(q(s.last()) ==> p(s.last()));
    }
}

proof fn lemma_walk_depends_on_round_notes(
    lineage: LineageView,
    consumed: Seq<NoteId>,
    notes: Seq<ChainNoteView>,
    others: Seq<ChainNoteView>,
    block_number: BlockNumber,
)
    requires
        forall|depth: u32|
            depth > lineage.current_depth ==> #[trigger] round_notes(
                notes,
                lineage.order_id(),
                depth,
            ) == round_notes(others, lineage.order_id(), depth),
    ensures
        lineage_walk(lineage, consumed, notes, block_number) == lineage_walk(
            lineage,
            consumed,
            others,
            block_number,
        ),
    decreases u32::MAX - lineage.current_depth,
{
    if lineage.state == PswapLineageState::Active && lineage.current_depth < u32::MAX {
        let depth = (lineage.current_depth + 1) as u32;
        let emitted = round_notes(notes, lineage.order_id(), depth);
        assert(emitted == round_notes(others, lineage.order_id(), depth));
        if let Ok(round) = lineage.round(depth, block_number, emitted) {
            lemma_walk_depends_on_round_notes(
                lineage.after_round(round),
                consumed,
                notes,
                others,
                block_number,
            );
        }
    }
}

/// Notes are such as the script emits where no round of the order has more than two of them and
/// fewer than two are of the last depth that can be counted.
pub proof fn law_few_notes_are_as_the_script_emits(
    lineage: LineageView,
    consumed: Seq<NoteId>,
    notes: Seq<ChainNoteView>,
    block_number: BlockNumber,
)
    requires
        lineage.current_depth < u32::MAX,
        forall|depth: u32| (#[trigger] round_notes(notes, lineage.order_id(), depth)).len() <= 2,
        round_notes(notes, lineage.order_id(), u32::MAX).len() < 2,
    ensures
        emitted_by_script(lineage, consumed, notes, block_number),
    decreases u32::MAX - lineage.current_depth,
{
    let depth = (lineage.current_depth + 1) as u32;
    let emitted = round_notes(notes, lineage.order_id(), depth);
    if lineage.state == PswapLineageState::Active && (consumed.contains(
        lineage.current_tip_note_id,
    ) || emitted.len() > 0) {
        if let Ok(round) = lineage.round(depth, block_number, emitted) {
            let next = lineage.after_round(round);
            if next.state == PswapLineageState::Active {
                law_number_of_notes_decides_the_round(lineage, depth, block_number, emitted, round);
                assert(depth < u32::MAX);
                assert(next.order_id() == lineage.order_id());
                law_few_notes_are_as_the_script_emits(next, consumed, notes, block_number);
            }
            assert(emitted_by_script(next, consumed, notes, block_number));
        }
    }
}

/// A round that cannot be built names its reason: a rebuilt note that is not the one that was seen,
/// an amount of one of the notes that no asset can have, or a note that cannot be rebuilt.
pub proof fn law_failed_round_names_its_reason(
    lineage: LineageView,
    round_depth: u32,
    block_number: BlockNumber,
    notes: Seq<ChainNoteView>,
)
    requires
        notes.len() <= 2,
    ensures
        match lineage.round(round_depth, block_number, notes) {
            Ok(_) => true,
            Err(PswapLineageError::NoteIdMismatch { rebuilt, observed }) => rebuilt != observed && (
            exists|i: int|
                0 <= i < notes.len() && (#[trigger] notes[i]).note_id == observed && (
                is_payback_of(lineage, notes[i], rebuilt) || is_remainder_of(
                    lineage,
                    notes[i],
                    rebuilt,
                ))),
            Err(PswapLineageError::AssetError(error)) => error.amount > MAX_ASSET_AMOUNT && (
            exists|i: int|
                0 <= i < notes.len() && (#[trigger] notes[i]).attachment.amount.value
                    == error.amount),
            Err(PswapLineageError::Reconstruction) => notes.len() > 0,
            Err(_) => false,
        },
{
    let outcome = lineage.round(round_depth, block_number, notes);
    if notes.len() == 1 {
        if let Err(PswapLineageError::NoteIdMismatch { rebuilt, observed }) = outcome {
            assert(notes[0].note_id == observed && is_payback_of(lineage, notes[0], rebuilt));
        }
    } else if notes.len() == 2 {
        let at: int = if notes[0].tag == lineage.terms().creator_account_id.spec_target_tag() {
            0
        } else {
            1
        };
        let payback = notes[at];
        let rest = notes[1 - at];
        if let Err(PswapLineageError::NoteIdMismatch { rebuilt, observed }) = outcome {
            if !is_payback_of(lineage, payback, rebuilt) || observed != payback.note_id {
                assert(notes[1 - at].note_id == observed);
                let fill = FungibleAsset::spec_of(
                    lineage.terms().requested_asset.faucet_id,
                    payback.attachment.amount.value,
                );
                let payout = FungibleAsset::spec_of(
                    lineage.terms().offered_asset.faucet_id,
                    rest.attachment.amount.value,
                );
                let offered = lineage.offered_after(payout).amount;
                let requested = lineage.requested_after(fill).amount;
                assert(lineage.original_pswap.remainder(
                    rest.sender,
                    rest.attachment,
                    offered,
                    requested,
                ).unwrap().id == rebuilt);
                assert(is_remainder_of(lineage, notes[1 - at], rebuilt));
            } else {
                assert(notes[at].note_id == observed);
            }
        }
        if let Err(PswapLineageError::AssetError(error)) = outcome {
            assert(notes[at].attachment.amount.value == error.amount
                || notes[1 - at].attachment.amount.value == error.amount);
        }
    }
}

/// Whether an identifier is that of the payback that is rebuilt for a note.
pub open spec fn is_payback_of(lineage: LineageView, note: ChainNoteView, id: NoteId) -> bool {
    lineage.original_pswap.payback(note.sender, note.attachment) matches Some(rebuilt) && rebuilt.id
        == id
}

/// Whether an identifier is that of a remainder that is rebuilt for a note.
pub open spec fn is_remainder_of(lineage: LineageView, note: ChainNoteView, id: NoteId) -> bool {
    exists|offered: AssetAmount, requested: AssetAmount|
        (#[trigger] lineage.original_pswap.remainder(
            note.sender,
            note.attachment,
            offered,
            requested,
        )) matches Some(rebuilt) && rebuilt.id == id
}

} // verus!
