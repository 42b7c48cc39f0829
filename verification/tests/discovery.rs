use miden_protocol::account::AccountId as ProtocolAccountId;
use miden_protocol::asset::{
    AssetAmount as ProtocolAmount, AssetCallbackFlag, FungibleAsset as ProtocolAsset,
};
use miden_protocol::note::{Note as ProtocolNote, NoteType as ProtocolNoteType};
use miden_protocol::testing::account_id::{
    ACCOUNT_ID_PUBLIC_FUNGIBLE_FAUCET, ACCOUNT_ID_PUBLIC_FUNGIBLE_FAUCET_1,
    ACCOUNT_ID_REGULAR_PUBLIC_ACCOUNT_IMMUTABLE_CODE,
    ACCOUNT_ID_REGULAR_PUBLIC_ACCOUNT_IMMUTABLE_CODE_2,
};
use miden_protocol::utils::serde::Serializable;
use miden_protocol::{Felt, Word as ProtocolWord};
use miden_standards::note::{
    PswapNote as StandardOrder, PswapNoteAttachment as StandardAttachment, PswapNoteStorage,
};
use pswap_sync::asset::{AssetAmount, AssetError, FungibleAsset, MAX_ASSET_AMOUNT};
use pswap_sync::note::{Note, NoteInclusionProof};
use pswap_sync::primitives::{AccountId, NoteId, Word};
use pswap_sync::pswap::discovery::{
    build_round_update, discover_pswap_rounds, lineages_to_load, try_discover_pswap_rounds,
    PswapChainNoteUpdate,
};
use pswap_sync::pswap::errors::PswapLineageError;
use pswap_sync::pswap::lineage::{
    PswapLineageFilter, PswapLineageRecord, PswapLineageState,
};
use pswap_sync::pswap::note::{PswapNote, PswapNoteAttachment};

fn protocol_id(raw: u128) -> ProtocolAccountId {
    ProtocolAccountId::try_from(raw).unwrap()
}

fn account(raw: u128) -> AccountId {
    AccountId::try_from_u128(raw).unwrap()
}

fn consumer() -> AccountId {
    account(ACCOUNT_ID_REGULAR_PUBLIC_ACCOUNT_IMMUTABLE_CODE)
}

fn creator() -> AccountId {
    account(ACCOUNT_ID_REGULAR_PUBLIC_ACCOUNT_IMMUTABLE_CODE_2)
}

fn plain_note(note: &ProtocolNote) -> Note {
    Note::from_bytes(note.to_bytes()).unwrap()
}

/// A public order of the consumer for the creator, with the serial number 1, 2, 3, 4.
fn build_test_pswap(offered_amount: u64, requested_amount: u64) -> StandardOrder {
    build_order(offered_amount, requested_amount, AssetCallbackFlag::Disabled)
}

/// The same, of assets with callbacks enabled.
fn build_test_pswap_with_callbacks(offered_amount: u64, requested_amount: u64) -> StandardOrder {
    build_order(offered_amount, requested_amount, AssetCallbackFlag::Enabled)
}

fn build_order(
    offered_amount: u64,
    requested_amount: u64,
    callbacks: AssetCallbackFlag,
) -> StandardOrder {
    let offered = ProtocolAsset::new(protocol_id(ACCOUNT_ID_PUBLIC_FUNGIBLE_FAUCET), offered_amount)
        .unwrap()
        .with_callbacks(callbacks);
    let requested =
        ProtocolAsset::new(protocol_id(ACCOUNT_ID_PUBLIC_FUNGIBLE_FAUCET_1), requested_amount)
            .unwrap()
            .with_callbacks(callbacks);
    let storage = PswapNoteStorage::builder()
        .requested_asset(requested)
        .creator_account_id(protocol_id(ACCOUNT_ID_REGULAR_PUBLIC_ACCOUNT_IMMUTABLE_CODE_2))
        .build();
    StandardOrder::builder()
        .sender(protocol_id(ACCOUNT_ID_REGULAR_PUBLIC_ACCOUNT_IMMUTABLE_CODE))
        .storage(storage)
        .serial_number(ProtocolWord::from([
            Felt::new(1).unwrap(),
            Felt::new(2).unwrap(),
            Felt::new(3).unwrap(),
            Felt::new(4).unwrap(),
        ]))
        .note_type(ProtocolNoteType::Public)
        .offered_asset(offered)
        .build()
        .unwrap()
}

fn plain_order(order: &StandardOrder) -> PswapNote {
    PswapNote::from_note(&plain_note(&ProtocolNote::from(order.clone()))).unwrap()
}

fn pswap_attachment(order: &StandardOrder, depth: u32, amount: u64) -> PswapNoteAttachment {
    PswapNoteAttachment {
        amount: AssetAmount::new(amount).unwrap(),
        order_id: order.order_id().as_canonical_u64(),
        depth,
    }
}

/// The payback that the standards library builds.
fn payback_note(order: &StandardOrder, attachment: &PswapNoteAttachment) -> ProtocolNote {
    let attachment = StandardAttachment::new(
        ProtocolAmount::new(attachment.amount.value).unwrap(),
        Felt::new(attachment.order_id).unwrap(),
        attachment.depth,
    );
    order
        .payback_note(protocol_id(ACCOUNT_ID_REGULAR_PUBLIC_ACCOUNT_IMMUTABLE_CODE), &attachment)
        .unwrap()
}

/// The remainder that the standards library builds.
fn remainder_note(
    order: &StandardOrder,
    attachment: &PswapNoteAttachment,
    offered: u64,
    requested: u64,
) -> ProtocolNote {
    let attachment = StandardAttachment::new(
        ProtocolAmount::new(attachment.amount.value).unwrap(),
        Felt::new(attachment.order_id).unwrap(),
        attachment.depth,
    );
    order
        .remainder_note(
            protocol_id(ACCOUNT_ID_REGULAR_PUBLIC_ACCOUNT_IMMUTABLE_CODE),
            &attachment,
            ProtocolAmount::new(offered).unwrap(),
            ProtocolAmount::new(requested).unwrap(),
        )
        .unwrap()
}

fn dummy_inclusion_proof(block: u32) -> NoteInclusionProof {
    NoteInclusionProof { block_num: block, note_index: 0, empty_nodes_mask: 0, path: vec![] }
}

/// Active lineage at depth 0.
fn initial_record(order: &StandardOrder, offered: u64, requested: u64) -> PswapLineageRecord {
    let pswap = plain_order(order);
    let tip = pswap.note.id();
    PswapLineageRecord {
        original_pswap: pswap,
        current_tip_note_id: tip,
        current_depth: 0,
        remaining_offered: offered_asset(offered),
        remaining_requested: requested_asset(requested),
        state: PswapLineageState::Active,
        created_at_block: 0,
        updated_at_block: 0,
    }
}

fn offered_asset(amount: u64) -> FungibleAsset {
    FungibleAsset::new(account(ACCOUNT_ID_PUBLIC_FUNGIBLE_FAUCET), amount).unwrap()
}

fn requested_asset(amount: u64) -> FungibleAsset {
    FungibleAsset::new(account(ACCOUNT_ID_PUBLIC_FUNGIBLE_FAUCET_1), amount).unwrap()
}

/// A chain note with the identifier and the tag of a note.
fn chain_update_from(
    note: &ProtocolNote,
    attachment: PswapNoteAttachment,
    sender: AccountId,
    block: u32,
) -> PswapChainNoteUpdate {
    PswapChainNoteUpdate {
        note_id: plain_note(note).id(),
        attachment,
        sender,
        tag: note.metadata().tag().as_u32(),
        block_num: block,
        inclusion_proof: dummy_inclusion_proof(block),
    }
}

fn amount(value: u64) -> AssetAmount {
    AssetAmount::new(value).unwrap()
}

/// The two chain notes of a round that fills part of an order, payback first.
fn partial_fill(
    order: &StandardOrder,
    depth: u32,
    fill: u64,
    payout: u64,
    offered_left: u64,
    requested_left: u64,
    block: u32,
) -> (PswapChainNoteUpdate, PswapChainNoteUpdate) {
    let payback_att = pswap_attachment(order, depth, fill);
    let remainder_att = pswap_attachment(order, depth, payout);
    let payback = payback_note(order, &payback_att);
    let remainder = remainder_note(order, &remainder_att, offered_left, requested_left);
    (
        chain_update_from(&payback, payback_att, consumer(), block),
        chain_update_from(&remainder, remainder_att, consumer(), block),
    )
}

/// The chain note of a round that fills the rest of an order.
fn full_fill(order: &StandardOrder, depth: u32, fill: u64, block: u32) -> PswapChainNoteUpdate {
    let att = pswap_attachment(order, depth, fill);
    chain_update_from(&payback_note(order, &att), att, consumer(), block)
}

/// Two notes make a partial fill: still active, both sides reduced.
#[test]
fn build_round_update_partial_fill_advances_active() {
    let order = build_test_pswap(100, 50);
    let record = initial_record(&order, 100, 50);

    let fill_amount = 20;
    let payout_amount = 40;
    let new_off = 100 - payout_amount;
    let new_req = 50 - fill_amount;

    let payback_att = pswap_attachment(&order, 1, fill_amount);
    let remainder_att = pswap_attachment(&order, 1, payout_amount);
    let payback = payback_note(&order, &payback_att);
    let remainder = remainder_note(&order, &remainder_att, new_off, new_req);

    let cand_payback = chain_update_from(&payback, payback_att, consumer(), 7);
    let cand_remainder = chain_update_from(&remainder, remainder_att, consumer(), 7);

    let update = build_round_update(&record, 1, 7, &[&cand_payback, &cand_remainder])
        .expect("partial fill must produce a round update");

    assert_eq!(update.round_depth, 1);
    assert_eq!(update.consumer_account_id, consumer());
    assert_eq!(update.fill_amount.amount(), amount(fill_amount));
    assert_eq!(update.payout_amount.amount(), amount(payout_amount));
    assert_eq!(update.remaining_offered.amount(), amount(new_off));
    assert_eq!(update.remaining_requested.amount(), amount(new_req));
    assert_eq!(update.state, PswapLineageState::Active);
    assert_eq!(update.tip_note_id, Some(plain_note(&remainder).id()));
    // Each side carries its note paired with its inclusion proof.
    assert!(update.payback.is_some());
    assert!(update.remainder.is_some());
    assert_eq!(update.payback.unwrap(), (plain_note(&payback), dummy_inclusion_proof(7)));
    assert_eq!(update.remainder.unwrap(), (plain_note(&remainder), dummy_inclusion_proof(7)));
}

/// Note order within a round must not change classification.
#[test]
fn build_round_update_partial_fill_classifies_regardless_of_note_order() {
    let order = build_test_pswap(100, 50);
    let record = initial_record(&order, 100, 50);

    let fill_amount = 20;
    let payout_amount = 40;
    let new_off = 100 - payout_amount;
    let new_req = 50 - fill_amount;

    let (cand_payback, cand_remainder) =
        partial_fill(&order, 1, fill_amount, payout_amount, new_off, new_req, 7);

    // Reverse the input order: remainder first.
    let update = build_round_update(&record, 1, 7, &[&cand_remainder, &cand_payback])
        .expect("partial fill must classify regardless of input order");

    assert_eq!(update.fill_amount.amount(), amount(fill_amount));
    assert_eq!(update.payout_amount.amount(), amount(payout_amount));
    assert_eq!(update.tip_note_id, Some(cand_remainder.note_id));
    assert_eq!(update.state, PswapLineageState::Active);
}

/// An attachment of depth 0 stands for no round; the error comes out.
#[test]
fn build_round_update_propagates_reconstruction_error() {
    let order = build_test_pswap(100, 50);
    let record = initial_record(&order, 100, 50);

    let bad_attachment = pswap_attachment(&order, 0, 20);
    let dummy_note = ProtocolNote::from(order);
    let cand = chain_update_from(&dummy_note, bad_attachment, consumer(), 5);

    let result = build_round_update(&record, 1, 5, &[&cand]);
    assert!(result.is_err(), "depth-0 attachment must fail reconstruction");
    assert_eq!(result.unwrap_err(), PswapLineageError::Reconstruction);
}

/// One note makes a full fill: no remainder, nothing left.
#[test]
fn build_round_update_full_fill_marks_fully_filled() {
    let order = build_test_pswap(30, 50);
    let record = initial_record(&order, 30, 50);

    let fill_amount = 50; // exhausts requested side
    let cand = full_fill(&order, 1, fill_amount, 9);

    let update = build_round_update(&record, 1, 9, &[&cand])
        .expect("full fill must produce a round update");

    assert_eq!(update.state, PswapLineageState::FullyFilled);
    assert_eq!(update.fill_amount.amount(), amount(fill_amount));
    assert_eq!(update.payout_amount.amount(), amount(30)); // entire remaining_offered
    assert_eq!(update.remaining_offered.amount(), AssetAmount::zero());
    assert_eq!(update.remaining_requested.amount(), AssetAmount::zero());
    assert_eq!(update.tip_note_id, None);
    assert!(update.remainder.is_none());
    assert_eq!(update.payback.unwrap().0.id(), cand.note_id);
}

/// A consumption without notes is a reclaim by the creator, and leaves nothing.
#[test]
fn build_round_update_zero_outputs_marks_reclaimed_with_remaining_zero() {
    let order = build_test_pswap(80, 40);
    let record = initial_record(&order, 80, 40);

    let update = build_round_update(&record, 1, 5, &[])
        .expect("zero-output consumption must produce a round update");

    assert_eq!(update.state, PswapLineageState::Reclaimed);
    assert_eq!(update.consumer_account_id, creator());
    assert_eq!(update.fill_amount.amount(), AssetAmount::zero());
    assert_eq!(update.payout_amount.amount(), amount(80));
    assert_eq!(update.remaining_offered.amount(), AssetAmount::zero());
    assert_eq!(update.remaining_requested.amount(), AssetAmount::zero());
    assert!(update.payback.is_none());
}

/// The second round of a sync builds on what the first left, not on the stored record.
#[test]
fn apply_round_in_memory_chains_correctly_for_multi_fill() {
    let order = build_test_pswap(100, 50);
    let record0 = initial_record(&order, 100, 50);

    // Round 1: partial fill, 20 requested for 40 offered.
    let fill1 = 20;
    let payout1 = 40;
    let new_off1 = 100 - payout1;
    let new_req1 = 50 - fill1;
    let (payback_cand, remainder_cand) =
        partial_fill(&order, 1, fill1, payout1, new_off1, new_req1, 11);

    let update1 =
        build_round_update(&record0, 1, 11, &[&payback_cand, &remainder_cand]).unwrap();

    let record1 = record0.apply_round_in_memory(&update1);
    assert_eq!(record1.current_depth, 1);
    assert_eq!(record1.remaining_offered.amount(), amount(new_off1));
    assert_eq!(record1.remaining_requested.amount(), amount(new_req1));
    assert_eq!(record1.current_tip_note_id, remainder_cand.note_id);
    assert_eq!(record1.state, PswapLineageState::Active);

    // Round 2: full fill of the remainder, exhausts requested side.
    let fill2 = new_req1; // = 30
    let cand_p2 = full_fill(&order, 2, fill2, 11);

    let update2 = build_round_update(&record1, 2, 11, &[&cand_p2]).unwrap();

    assert_eq!(update2.round_depth, 2);
    assert_eq!(update2.state, PswapLineageState::FullyFilled);
    assert_eq!(update2.fill_amount.amount(), amount(fill2));
    assert_eq!(update2.payout_amount.amount(), amount(new_off1)); // remaining_offered exhausted
    assert_eq!(update2.remaining_offered.amount(), AssetAmount::zero());
    assert_eq!(update2.remaining_requested.amount(), AssetAmount::zero());

    let record2 = record1.apply_round_in_memory(&update2);
    assert_eq!(record2.state, PswapLineageState::FullyFilled);
    // A terminal round leaves the last live tip in place.
    assert_eq!(record2.current_tip_note_id, remainder_cand.note_id);
    let emitted = [update1, update2];
    assert_eq!(emitted.len(), 2);
}

/// More than what was left counts as all of it, on each side.
#[test]
fn overfill_leaves_nothing() {
    let order = build_test_pswap(100, 50);
    let record = initial_record(&order, 30, 10);
    let (payback, remainder) = partial_fill(&order, 1, 20, 40, 0, 0, 7);
    let update = build_round_update(&record, 1, 7, &[&payback, &remainder]).unwrap();
    assert_eq!(update.fill_amount, requested_asset(20));
    assert_eq!(update.payout_amount, offered_asset(40));
    assert_eq!(update.remaining_offered, offered_asset(0));
    assert_eq!(update.remaining_requested, requested_asset(0));
    assert_eq!(update.state, PswapLineageState::Active);
}

/// The callbacks of an order's assets make no difference to the amounts of a round.
#[test]
fn callbacks_do_not_change_amounts() {
    let order = build_test_pswap_with_callbacks(100, 50);
    let plain = plain_order(&order);
    let tip = plain.note.id();
    let record = PswapLineageRecord {
        remaining_offered: plain.terms.offered_asset,
        remaining_requested: plain.terms.requested_asset,
        original_pswap: plain,
        current_tip_note_id: tip,
        current_depth: 0,
        state: PswapLineageState::Active,
        created_at_block: 0,
        updated_at_block: 0,
    };
    assert!(record.remaining_offered.callbacks && record.remaining_requested.callbacks);
    let (payback, remainder) = partial_fill(&order, 1, 20, 40, 60, 30, 7);
    let update = build_round_update(&record, 1, 7, &[&payback, &remainder]).unwrap();
    assert_eq!(update.remaining_offered.amount(), amount(60));
    assert_eq!(update.remaining_requested.amount(), amount(30));
    assert_eq!(update.remainder.unwrap().0.id(), remainder.note_id);

    let (payback, remainder) = partial_fill(&order, 1, 60, 40, 60, 0, 7);
    let update = build_round_update(&record, 1, 7, &[&payback, &remainder]).unwrap();
    assert_eq!(update.remaining_offered.amount(), amount(60));
    assert_eq!(update.remaining_requested, requested_asset(0));
}

/// A round never increases what is left, and what a partial fill takes and leaves adds up.
#[test]
fn partial_fill_conserves_both_sides() {
    let order = build_test_pswap(100, 50);
    let record = initial_record(&order, 100, 50);
    for (fill, payout) in [(1, 2), (20, 40), (49, 98)] {
        let (payback, remainder) =
            partial_fill(&order, 1, fill, payout, 100 - payout, 50 - fill, 7);
        let update = build_round_update(&record, 1, 7, &[&payback, &remainder]).unwrap();
        assert_eq!(update.remaining_offered.amount.value + update.payout_amount.amount.value, 100);
        assert_eq!(update.remaining_requested.amount.value + update.fill_amount.amount.value, 50);
    }
}

/// An amount that no asset can have is refused, by reconstruction first.
#[test]
fn amounts_out_of_range_are_refused() {
    let order = build_test_pswap(100, 50);
    let record = initial_record(&order, 100, 50);
    let mut payback = full_fill(&order, 1, 50, 9);
    payback.attachment.amount = AssetAmount { value: MAX_ASSET_AMOUNT + 1 };
    assert_eq!(
        build_round_update(&record, 1, 9, &[&payback]).unwrap_err(),
        PswapLineageError::Reconstruction,
    );
    let (payback, mut remainder) = partial_fill(&order, 1, 20, 40, 60, 30, 9);
    remainder.attachment.amount = AssetAmount { value: MAX_ASSET_AMOUNT + 1 };
    assert_eq!(
        build_round_update(&record, 1, 9, &[&payback, &remainder]).unwrap_err(),
        PswapLineageError::AssetError(AssetError { amount: MAX_ASSET_AMOUNT + 1 }),
    );
}

/// A rebuilt payback has to be the note that was seen, on a full fill and on a partial one.
#[test]
fn payback_with_another_id_is_refused() {
    let order = build_test_pswap(100, 50);
    let record = initial_record(&order, 100, 50);
    let genuine = full_fill(&order, 1, 50, 9);

    // The attachment says another amount than the note that carries it.
    let mut tampered = full_fill(&order, 1, 50, 9);
    tampered.attachment = pswap_attachment(&order, 1, 49);
    let rebuilt = plain_note(&payback_note(&order, &tampered.attachment)).id();
    assert_ne!(rebuilt, genuine.note_id);
    assert_eq!(
        build_round_update(&record, 1, 9, &[&tampered]).unwrap_err(),
        PswapLineageError::NoteIdMismatch { rebuilt, observed: genuine.note_id },
    );

    let (mut payback, remainder) = partial_fill(&order, 1, 20, 40, 60, 30, 9);
    let rebuilt = payback.note_id;
    payback.note_id = genuine.note_id;
    assert_eq!(
        build_round_update(&record, 1, 9, &[&payback, &remainder]).unwrap_err(),
        PswapLineageError::NoteIdMismatch { rebuilt, observed: genuine.note_id },
    );
}

/// A rebuilt remainder has to be the note that was seen.
#[test]
fn remainder_with_another_id_is_refused() {
    let order = build_test_pswap(100, 50);
    let record = initial_record(&order, 100, 50);
    // The note that was seen leaves one unit less than the amounts of the round.
    let (payback, remainder) = partial_fill(&order, 1, 20, 40, 59, 30, 9);
    let (_, expected) = partial_fill(&order, 1, 20, 40, 60, 30, 9);
    assert_eq!(
        build_round_update(&record, 1, 9, &[&payback, &remainder]).unwrap_err(),
        PswapLineageError::NoteIdMismatch {
            rebuilt: expected.note_id,
            observed: remainder.note_id,
        },
    );
}

/// The notes of a round are those that were seen.
#[test]
fn rebuilt_notes_are_the_observed_ones() {
    let order = build_test_pswap(100, 50);
    let record = initial_record(&order, 100, 50);
    let (payback, remainder) = partial_fill(&order, 1, 20, 40, 60, 30, 9);
    let update = build_round_update(&record, 1, 9, &[&remainder, &payback]).unwrap();
    assert_eq!(update.payback.unwrap().0.id(), payback.note_id);
    assert_eq!(update.remainder.unwrap().0.id(), remainder.note_id);
    assert_eq!(update.tip_note_id, Some(remainder.note_id));
}

/// A full fill takes all that was left, whatever its payback says.
#[test]
fn full_fill_takes_what_was_left() {
    let order = build_test_pswap(100, 50);
    let record = initial_record(&order, 60, 30);
    let cand = full_fill(&order, 1, 45, 9);
    let update = build_round_update(&record, 1, 9, &[&cand]).unwrap();
    assert_eq!(update.state, PswapLineageState::FullyFilled);
    assert_eq!(update.fill_amount, requested_asset(30));
    assert_eq!(update.payout_amount, offered_asset(60));
}

/// The notes that the order rebuilds are those of the standards library.
#[test]
fn rebuilt_notes_are_those_of_the_standards_library() {
    let order = build_test_pswap(100, 50);
    let plain = plain_order(&order);
    let payback_att = pswap_attachment(&order, 3, 20);
    let remainder_att = pswap_attachment(&order, 3, 40);
    assert_eq!(
        plain.payback_note(consumer(), &payback_att).unwrap(),
        plain_note(&payback_note(&order, &payback_att)),
    );
    assert_eq!(
        plain.remainder_note(consumer(), &remainder_att, amount(60), amount(30)).unwrap(),
        plain_note(&remainder_note(&order, &remainder_att, 60, 30)),
    );
    let depth_zero = pswap_attachment(&order, 0, 20);
    assert!(plain.payback_note(consumer(), &depth_zero).is_none());
    assert!(plain.remainder_note(consumer(), &depth_zero, amount(60), amount(30)).is_none());
}

#[test]
fn lineages_are_loaded_by_consumed_tips() {
    let tip = NoteId { word: Word { a: 1, b: 2, c: 3, d: 4 } };
    assert_eq!(lineages_to_load(&vec![], &vec![]), None);
    assert_eq!(
        lineages_to_load(&vec![tip], &vec![]),
        Some(PswapLineageFilter::ActiveByTipNoteIds(vec![tip])),
    );
    let order = build_test_pswap(100, 50);
    let note = full_fill(&order, 1, 50, 9);
    assert_eq!(
        lineages_to_load(&vec![], &vec![note]),
        Some(PswapLineageFilter::ActiveByTipNoteIds(vec![])),
    );
}

/// Two rounds of one sync: the first leaves no remainder behind, and both carry the sync's block.
#[test]
fn rounds_of_one_sync_are_walked_in_order() {
    let order = build_test_pswap(100, 50);
    let record = initial_record(&order, 100, 50);
    let tip = record.current_tip_note_id;
    let (payback, remainder) = partial_fill(&order, 1, 20, 40, 60, 30, 11);
    let last = full_fill(&order, 2, 30, 12);
    // The remainder in between was never tracked, so its consumption was not observed.
    let rounds =
        discover_pswap_rounds(&vec![record], &vec![tip], 15, &vec![payback, remainder, last]);
    assert_eq!(rounds.len(), 2);
    assert_eq!(rounds[0].round_depth, 1);
    assert_eq!(rounds[0].state, PswapLineageState::Active);
    assert!(rounds[0].payback.is_some());
    assert!(rounds[0].remainder.is_none());
    assert!(rounds[0].tip_note_id.is_some());
    assert_eq!(rounds[1].round_depth, 2);
    assert_eq!(rounds[1].state, PswapLineageState::FullyFilled);
    assert_eq!(rounds[1].payout_amount, offered_asset(60));
    assert!(rounds.iter().all(|round| round.at_block == 15 && round.order_id == 2));
}

/// The last round keeps its remainder.
#[test]
fn last_round_keeps_its_remainder() {
    let order = build_test_pswap(100, 50);
    let record = initial_record(&order, 100, 50);
    let tip = record.current_tip_note_id;
    let (payback1, remainder1) = partial_fill(&order, 1, 20, 40, 60, 30, 11);
    let (payback2, remainder2) = partial_fill(&order, 2, 10, 20, 40, 20, 11);
    let rounds = discover_pswap_rounds(
        &vec![record],
        &vec![tip],
        11,
        &vec![payback1, remainder1, payback2, remainder2],
    );
    assert_eq!(rounds.len(), 2);
    assert!(rounds[0].remainder.is_none());
    assert!(rounds[1].remainder.is_some());
    assert_eq!(rounds[1].remaining_offered, offered_asset(40));
    assert_eq!(rounds[1].remaining_requested, requested_asset(20));
}

/// Terminal lineages, quiet ones, foreign notes and notes of rounds that are over change nothing.
#[test]
fn nothing_happens_without_a_round() {
    let order = build_test_pswap(100, 50);
    let tip = initial_record(&order, 100, 50).current_tip_note_id;
    let mut ended = initial_record(&order, 100, 50);
    ended.state = PswapLineageState::FullyFilled;
    let note = full_fill(&order, 1, 50, 9);
    assert!(discover_pswap_rounds(&vec![ended], &vec![tip], 9, &vec![note]).is_empty());

    let quiet = initial_record(&order, 100, 50);
    assert!(discover_pswap_rounds(&vec![quiet], &vec![], 9, &vec![]).is_empty());

    let mut advanced = initial_record(&order, 60, 30);
    advanced.current_depth = 1;
    let stale = full_fill(&order, 1, 50, 9);
    let mut foreign = full_fill(&order, 2, 30, 9);
    foreign.attachment.order_id = 77;
    assert!(discover_pswap_rounds(&vec![advanced], &vec![], 9, &vec![stale, foreign]).is_empty());
}

/// A round that cannot be built stops its lineage, and no other.
#[test]
fn unbuildable_round_stops_only_its_lineage() {
    let order = build_test_pswap(100, 50);
    let broken = initial_record(&order, 100, 50);
    let tip = broken.current_tip_note_id;
    let mut reclaimed = initial_record(&order, 100, 50);
    reclaimed.current_depth = 5;
    let mut note = full_fill(&order, 1, 50, 9);
    note.attachment.amount = AssetAmount { value: u64::MAX };
    let rounds = discover_pswap_rounds(&vec![broken, reclaimed], &vec![tip], 9, &vec![note]);
    assert_eq!(rounds.len(), 1);
    assert_eq!(rounds[0].round_depth, 6);
    assert_eq!(rounds[0].state, PswapLineageState::Reclaimed);
}

/// A lineage whose second round fails keeps its first, and the lineages around it have the rounds
/// that they have without it.
#[test]
fn failed_round_leaves_other_lineages_as_they_are() {
    let order = build_test_pswap(100, 50);
    let tip = initial_record(&order, 100, 50).current_tip_note_id;
    let notes = || {
        let (payback, remainder) = partial_fill(&order, 1, 20, 40, 60, 30, 9);
        let mut broken = full_fill(&order, 2, 30, 9);
        broken.note_id = tip;
        vec![payback, remainder, broken]
    };
    let other = |depth: u32| {
        let mut record = initial_record(&order, 100, 50);
        record.current_depth = depth;
        record
    };
    let with = discover_pswap_rounds(
        &vec![other(5), initial_record(&order, 100, 50), other(7)],
        &vec![tip],
        9,
        &notes(),
    );
    let depths: Vec<u32> = with.iter().map(|round| round.round_depth).collect();
    assert_eq!(depths, vec![6, 1, 8]);
    assert!(with[1].remainder.is_some());
    let without = discover_pswap_rounds(&vec![other(5), other(7)], &vec![tip], 9, &notes());
    let depths: Vec<u32> = without.iter().map(|round| round.round_depth).collect();
    assert_eq!(depths, vec![6, 8]);
    assert_eq!(without[0].state, with[0].state);
    assert_eq!(without[1].payout_amount, with[2].payout_amount);
}

/// Three notes of one round are more than the script emits; where the walk does not reach them,
/// they do not matter.
#[test]
fn more_notes_than_the_script_emits_are_reported() {
    let order = build_test_pswap(100, 50);
    let tip = initial_record(&order, 100, 50).current_tip_note_id;
    let three =
        || vec![full_fill(&order, 1, 50, 9), full_fill(&order, 1, 50, 9), full_fill(&order, 1, 50, 9)];
    let record = initial_record(&order, 100, 50);
    assert!(try_discover_pswap_rounds(&vec![record], &vec![tip], 9, &three()).is_none());

    let mut ended = initial_record(&order, 100, 50);
    ended.state = PswapLineageState::Reclaimed;
    assert!(try_discover_pswap_rounds(&vec![ended], &vec![tip], 9, &three()).unwrap().is_empty());

    let mut advanced = initial_record(&order, 100, 50);
    advanced.current_depth = 1;
    let found = try_discover_pswap_rounds(&vec![advanced], &vec![tip], 9, &three()).unwrap();
    assert_eq!(found.len(), 1);
    assert_eq!(found[0].state, PswapLineageState::Reclaimed);

    let mut last = initial_record(&order, 100, 50);
    last.current_depth = u32::MAX;
    assert!(try_discover_pswap_rounds(&vec![last], &vec![], 9, &vec![]).is_none());
}
