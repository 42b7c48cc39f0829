use std::cmp::Ordering;

use miden_protocol::account::AccountId as ProtocolAccountId;
use miden_protocol::asset::FungibleAsset as ProtocolAsset;
use miden_protocol::note::{Note as ProtocolNote, NoteType as ProtocolNoteType};
use miden_protocol::testing::account_id::{
    ACCOUNT_ID_PUBLIC_FUNGIBLE_FAUCET, ACCOUNT_ID_PUBLIC_FUNGIBLE_FAUCET_1,
    ACCOUNT_ID_REGULAR_PUBLIC_ACCOUNT_IMMUTABLE_CODE,
    ACCOUNT_ID_REGULAR_PUBLIC_ACCOUNT_IMMUTABLE_CODE_2,
};
use miden_protocol::utils::serde::Serializable;
use miden_protocol::{Felt, Word as ProtocolWord};
use miden_standards::note::{PswapNote as StandardOrder, PswapNoteStorage};
use pswap_sync::asset::{AssetAmount, AssetError, FungibleAsset, MAX_ASSET_AMOUNT};
use pswap_sync::note::Note;
use pswap_sync::primitives::{AccountId, NoteId, NoteType, Word};
use pswap_sync::pswap::errors::{AmountColumn, PswapLineageError};
use pswap_sync::pswap::lineage::{
    build_record_from_columns, contains_note_id, PswapLineageFilter, PswapLineageRecord,
    PswapLineageState,
};
use pswap_sync::pswap::note::PswapNote;
use pswap_sync::pswap::types::OrderIdKey;

fn protocol_id(raw: u128) -> ProtocolAccountId {
    ProtocolAccountId::try_from(raw).unwrap()
}

fn account(raw: u128) -> AccountId {
    AccountId::try_from_u128(raw).unwrap()
}

fn plain_word(word: ProtocolWord) -> Word {
    let [a, b, c, d]: [u64; 4] = word.into();
    Word { a, b, c, d }
}

fn note_id(value: u64) -> NoteId {
    NoteId { word: Word { a: value, b: value, c: value, d: value } }
}

/// An order of the standards library: public, with the serial number 1, 2, 3, 4.
fn standard_order(offered_amount: u64, requested_amount: u64) -> StandardOrder {
    let offered =
        ProtocolAsset::new(protocol_id(ACCOUNT_ID_PUBLIC_FUNGIBLE_FAUCET), offered_amount).unwrap();
    let requested =
        ProtocolAsset::new(protocol_id(ACCOUNT_ID_PUBLIC_FUNGIBLE_FAUCET_1), requested_amount)
            .unwrap();
    let storage = PswapNoteStorage::builder()
        .requested_asset(requested)
        .creator_account_id(protocol_id(ACCOUNT_ID_REGULAR_PUBLIC_ACCOUNT_IMMUTABLE_CODE_2))
        .build();
    StandardOrder::builder()
        .sender(protocol_id(ACCOUNT_ID_REGULAR_PUBLIC_ACCOUNT_IMMUTABLE_CODE))
        .storage(storage)
        .serial_number(ProtocolWord::from([
            Felt::new(1).unwrap(),
            Felt::new(2).unwrap(),
            Felt::new(3).unwrap(),
            Felt::new(4).unwrap(),
        ]))
        .note_type(ProtocolNoteType::Public)
        .offered_asset(offered)
        .build()
        .unwrap()
}

fn carrying_note(order: &StandardOrder) -> Note {
    Note::from_bytes(ProtocolNote::from(order.clone()).to_bytes()).unwrap()
}

fn build_test_pswap(offered_amount: u64, requested_amount: u64) -> PswapNote {
    PswapNote::from_note(&carrying_note(&standard_order(offered_amount, requested_amount))).unwrap()
}

fn record(offered: u64, requested: u64) -> PswapLineageRecord {
    let pswap = build_test_pswap(offered, requested);
    let tip = pswap.note.id();
    build_record_from_columns(pswap, tip, 0, offered, requested, 0, 0, 0).unwrap()
}

/// Stable byte encoding of `PswapLineageState`.
#[test]
fn state_byte_encoding_is_stable() {
    assert_eq!(PswapLineageState::Active.as_u8(), 0);
    assert_eq!(PswapLineageState::FullyFilled.as_u8(), 1);
    assert_eq!(PswapLineageState::Reclaimed.as_u8(), 2);
}

/// Every state survives a round trip through its byte.
#[test]
fn state_try_from_u8_round_trips_known_variants() {
    for state in
        [PswapLineageState::Active, PswapLineageState::FullyFilled, PswapLineageState::Reclaimed]
    {
        assert_eq!(PswapLineageState::try_from_u8(state.as_u8()).unwrap(), state);
    }
}

/// Unknown discriminants must error.
#[test]
fn state_try_from_u8_rejects_unknown() {
    match PswapLineageState::try_from_u8(99) {
        Err(PswapLineageError::UnknownState(99)) => {},
        other => panic!("expected UnknownState(99), got {other:?}"),
    }
}

/// Only the three known bytes are read, each as its own state.
#[test]
fn state_bytes_are_read_by_no_other_state() {
    for value in 0..=u8::MAX {
        match PswapLineageState::try_from_u8(value) {
            Ok(state) => assert_eq!(state.as_u8(), value),
            Err(err) => {
                assert!(value > 2);
                assert_eq!(err, PswapLineageError::UnknownState(value));
            },
        }
    }
}

/// Happy path for `build_record_from_columns` at depth 0.
#[test]
fn build_record_from_columns_accepts_valid_depth_zero_row() {
    let pswap = build_test_pswap(100, 50);
    let initial_note_id = pswap.note.id();

    let record = build_record_from_columns(
        pswap,
        initial_note_id,
        0,
        100,
        50,
        PswapLineageState::Active.as_u8(),
        7,
        7,
    )
    .unwrap();

    assert_eq!(record.current_depth, 0);
    assert_eq!(record.remaining_offered.amount(), AssetAmount::new(100).unwrap());
    assert_eq!(record.remaining_requested.amount(), AssetAmount::new(50).unwrap());
    assert_eq!(record.state, PswapLineageState::Active);
    assert_eq!(record.initial_note_id(), initial_note_id);
    assert_eq!(record.current_tip_note_id, initial_note_id);
}

/// Happy path at `current_depth > 0`.
#[test]
fn build_record_from_columns_accepts_valid_advanced_row() {
    let pswap = build_test_pswap(100, 50);
    let tip = pswap.note.id();
    let record = build_record_from_columns(
        pswap,
        tip,
        3,
        70,
        35,
        PswapLineageState::Active.as_u8(),
        7,
        12,
    )
    .unwrap();

    assert_eq!(record.current_depth, 3);
    assert_eq!(record.remaining_offered.amount(), AssetAmount::new(70).unwrap());
    assert_eq!(record.remaining_requested.amount(), AssetAmount::new(35).unwrap());
    assert_eq!(record.created_at_block, 7);
    assert_eq!(record.updated_at_block, 12);
}

/// Unknown state discriminant in the row bubbles up as `UnknownState`.
#[test]
fn build_record_from_columns_rejects_unknown_state() {
    let pswap = build_test_pswap(100, 50);
    let tip = pswap.note.id();
    match build_record_from_columns(pswap, tip, 0, 100, 50, 42, 0, 0) {
        Err(PswapLineageError::UnknownState(42)) => {},
        other => panic!("expected UnknownState(42), got {other:?}"),
    }
}

/// A stored amount that no asset can have is corruption; the offered side is looked at first.
#[test]
fn build_record_from_columns_rejects_amounts_out_of_range() {
    let pswap = build_test_pswap(100, 50);
    let tip = pswap.note.id();
    let too_much = MAX_ASSET_AMOUNT + 1;
    assert_eq!(
        build_record_from_columns(pswap.clone(), tip, 0, too_much, too_much, 42, 0, 0).unwrap_err(),
        PswapLineageError::InconsistentRow(AmountColumn::RemainingOffered, too_much),
    );
    assert_eq!(
        build_record_from_columns(pswap.clone(), tip, 0, 1, too_much, 42, 0, 0).unwrap_err(),
        PswapLineageError::InconsistentRow(AmountColumn::RemainingRequested, too_much),
    );
    let full = build_record_from_columns(pswap, tip, 0, MAX_ASSET_AMOUNT, MAX_ASSET_AMOUNT, 0, 0, 0)
        .unwrap();
    assert_eq!(full.remaining_offered.amount().value, MAX_ASSET_AMOUNT);
}

/// The accessors delegate to the stored order rather than keeping values of their own.
#[test]
fn accessors_delegate_to_stored_pswap_note() {
    let order = standard_order(100, 50);
    let expected_order_id = order.order_id().as_canonical_u64();
    let expected_tag = StandardOrder::create_tag(
        order.note_type(),
        order.offered_asset(),
        order.storage().requested_asset(),
    );
    let record = record(100, 50);

    assert_eq!(record.order_id(), expected_order_id);
    assert_eq!(record.asset_pair_tag(), expected_tag.as_u32());
    assert_eq!(
        record.creator_account_id(),
        account(ACCOUNT_ID_REGULAR_PUBLIC_ACCOUNT_IMMUTABLE_CODE_2)
    );
}

#[test]
fn accessors_read_every_term_of_the_order() {
    let order = standard_order(100, 50);
    let note = ProtocolNote::from(order.clone());
    let record = record(100, 50);

    assert_eq!(record.order_id(), 2);
    assert!(record.order_id_key() == OrderIdKey { value: 2 });
    assert_eq!(record.initial_note_id(), NoteId { word: plain_word(note.id().as_word()) });
    assert_eq!(record.sender_account_id(), account(ACCOUNT_ID_REGULAR_PUBLIC_ACCOUNT_IMMUTABLE_CODE));
    assert_eq!(
        record.offered_asset(),
        FungibleAsset::new(account(ACCOUNT_ID_PUBLIC_FUNGIBLE_FAUCET), 100).unwrap()
    );
    assert_eq!(
        record.requested_asset(),
        FungibleAsset::new(account(ACCOUNT_ID_PUBLIC_FUNGIBLE_FAUCET_1), 50).unwrap()
    );
    assert_eq!(record.note_type(), NoteType::Public);
    assert_eq!(record.payback_note_type(), NoteType::Private);
    assert_eq!(record.initial_serial_number(), Word { a: 1, b: 2, c: 3, d: 4 });
    // The note type on top, the two faucets at the bottom.
    let offered_byte: u128 = ACCOUNT_ID_PUBLIC_FUNGIBLE_FAUCET >> 120;
    let requested_byte: u128 = ACCOUNT_ID_PUBLIC_FUNGIBLE_FAUCET_1 >> 120;
    assert_eq!(u128::from(record.asset_pair_tag() & 0xffff), offered_byte * 256 + requested_byte);
    assert_eq!(record.asset_pair_tag() >> 30, 1);
}

/// A note that is no order is not read as one, and bytes that are no note are not read at all.
#[test]
fn only_orders_are_read_as_orders() {
    let order = standard_order(100, 50);
    let attachment = miden_standards::note::PswapNoteAttachment::new(
        miden_protocol::asset::AssetAmount::new(20).unwrap(),
        order.order_id(),
        1,
    );
    let payback = order
        .payback_note(protocol_id(ACCOUNT_ID_REGULAR_PUBLIC_ACCOUNT_IMMUTABLE_CODE), &attachment)
        .unwrap();
    let payback = Note::from_bytes(payback.to_bytes()).unwrap();
    assert!(PswapNote::from_note(&payback).is_none());
    assert!(Note::from_bytes(vec![1, 2, 3]).is_none());
}

/// A note's metadata is that of the protocol's note.
#[test]
fn note_metadata_is_read_from_the_bytes() {
    let order = standard_order(100, 50);
    let note = carrying_note(&order);
    let metadata = note.metadata().unwrap();
    assert_eq!(metadata.sender, account(ACCOUNT_ID_REGULAR_PUBLIC_ACCOUNT_IMMUTABLE_CODE));
    assert_eq!(metadata.note_type, NoteType::Public);
    assert_eq!(metadata.tag, ProtocolNote::from(order).metadata().tag().as_u32());
    assert_eq!(metadata.attachment_headers.first, None);

    let broken = Note { id: note.id(), bytes: vec![0] };
    assert!(broken.metadata().is_none());
}

#[test]
fn filters_select_what_they_name() {
    let mut ended = record(100, 50);
    ended.state = PswapLineageState::Reclaimed;
    let active = record(100, 50);
    let creator = account(ACCOUNT_ID_REGULAR_PUBLIC_ACCOUNT_IMMUTABLE_CODE_2);
    let other = account(ACCOUNT_ID_REGULAR_PUBLIC_ACCOUNT_IMMUTABLE_CODE);
    let tip = active.current_tip_note_id;

    assert!(PswapLineageFilter::All.matches(&ended));
    assert!(PswapLineageFilter::Active.matches(&active));
    assert!(!PswapLineageFilter::Active.matches(&ended));
    assert!(PswapLineageFilter::ByCreator(creator).matches(&ended));
    assert!(!PswapLineageFilter::ByCreator(other).matches(&active));
    assert!(PswapLineageFilter::ByOrderId(2).matches(&ended));
    assert!(!PswapLineageFilter::ByOrderId(3).matches(&active));
    assert!(PswapLineageFilter::ActiveByTipNoteIds(vec![note_id(1), tip]).matches(&active));
    assert!(!PswapLineageFilter::ActiveByTipNoteIds(vec![tip]).matches(&ended));
    assert!(!PswapLineageFilter::ActiveByTipNoteIds(vec![]).matches(&active));
    assert!(contains_note_id(&vec![note_id(1), note_id(2)], &note_id(2)));
    assert!(!contains_note_id(&vec![note_id(1), note_id(2)], &note_id(3)));
}

/// Equality compares canonical values.
#[test]
fn order_id_key_equality_tracks_canonical_value() {
    let a = OrderIdKey::from(Felt::new(42).unwrap().as_canonical_u64());
    let b = OrderIdKey::from(Felt::new(42).unwrap().as_canonical_u64());
    let c = OrderIdKey::from(Felt::new(43).unwrap().as_canonical_u64());
    assert!(a == b);
    assert!(a != c);
}

/// `cmp` and `partial_cmp` order by canonical value and agree with each other.
#[test]
fn order_id_key_ordering_tracks_canonical_value() {
    let small = OrderIdKey::from(Felt::new(1).unwrap().as_canonical_u64());
    let large = OrderIdKey::from(Felt::new(2).unwrap().as_canonical_u64());
    assert_eq!(small.cmp(&large), Ordering::Less);
    assert_eq!(large.cmp(&small), Ordering::Greater);
    assert_eq!(small.partial_cmp(&small), Some(Ordering::Equal));
    assert!(small < large);
}

/// The integers that are read are exactly those that the protocol writes for an identifier.
#[test]
fn account_ids_are_those_of_the_protocol() {
    let samples = [
        ACCOUNT_ID_PUBLIC_FUNGIBLE_FAUCET,
        ACCOUNT_ID_REGULAR_PUBLIC_ACCOUNT_IMMUTABLE_CODE,
        miden_protocol::testing::account_id::ACCOUNT_ID_PRIVATE_SENDER,
        0,
        u128::MAX,
        ACCOUNT_ID_PUBLIC_FUNGIBLE_FAUCET + 1,
        ACCOUNT_ID_PUBLIC_FUNGIBLE_FAUCET + (1 << 63),
        ACCOUNT_ID_PUBLIC_FUNGIBLE_FAUCET + (1 << 64),
    ];
    for raw in samples {
        let theirs = ProtocolAccountId::try_from(raw).ok().filter(|id| u128::from(*id) == raw);
        let ours = AccountId::try_from_u128(raw);
        assert_eq!(theirs.is_some(), ours.is_some(), "{raw:x}");
        if let (Some(theirs), Some(ours)) = (theirs, ours) {
            assert_eq!(ours.to_u128(), raw);
            assert_eq!(ours.is_private(), theirs.is_private());
            let tag = miden_protocol::note::NoteTag::with_account_target(theirs);
            assert_eq!(ours.target_tag(), tag.as_u32());
        }
    }
}

#[test]
fn amounts_are_bounded() {
    assert_eq!(MAX_ASSET_AMOUNT, miden_protocol::asset::AssetAmount::MAX.as_u64());
    assert_eq!(AssetAmount::new(MAX_ASSET_AMOUNT).unwrap().value, MAX_ASSET_AMOUNT);
    let too_much = MAX_ASSET_AMOUNT + 1;
    assert_eq!(AssetAmount::new(too_much), Err(AssetError { amount: too_much }));
    let faucet = account(ACCOUNT_ID_PUBLIC_FUNGIBLE_FAUCET);
    assert_eq!(FungibleAsset::new(faucet, too_much), Err(AssetError { amount: too_much }));
}

#[test]
fn units_are_taken_from_an_asset() {
    let faucet = account(ACCOUNT_ID_PUBLIC_FUNGIBLE_FAUCET);
    let ten = FungibleAsset::new(faucet, 10).unwrap();
    let units = |value: u64| AssetAmount::new(value).unwrap();
    assert_eq!(ten.sub_amount(units(4)), Some(FungibleAsset::new(faucet, 6).unwrap()));
    assert_eq!(ten.sub_amount(units(10)), Some(FungibleAsset::zero(faucet)));
    assert_eq!(ten.sub_amount(units(11)), None);
    let calling = FungibleAsset { callbacks: true, ..ten };
    let rest = FungibleAsset { callbacks: true, ..FungibleAsset::new(faucet, 6).unwrap() };
    assert_eq!(calling.sub_amount(units(4)), Some(rest));
    assert_eq!(FungibleAsset::zero(faucet).amount(), AssetAmount::zero());
    assert_eq!(ten.faucet_id(), faucet);
}
