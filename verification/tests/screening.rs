use miden_protocol::asset::FungibleAsset as ProtocolAsset;
use miden_protocol::block::BlockHeader as ProtocolHeader;
use miden_protocol::note::{Note as ProtocolNote, NoteType as ProtocolNoteType};
use miden_protocol::testing::account_id::{
    ACCOUNT_ID_PUBLIC_FUNGIBLE_FAUCET, ACCOUNT_ID_PUBLIC_FUNGIBLE_FAUCET_1,
    ACCOUNT_ID_REGULAR_PUBLIC_ACCOUNT_IMMUTABLE_CODE,
};
use miden_protocol::utils::serde::Serializable;
use miden_protocol::{Felt, Word as ProtocolWord};
use miden_standards::note::{PswapNote as StandardOrder, PswapNoteStorage};
use pswap_sync::block::BlockHeader;
use pswap_sync::note::{
    AttachmentHeaders, Note, NoteAttachment, NoteInclusionProof, NoteMetadata,
};
use pswap_sync::primitives::{AccountId, NoteId, NoteType, Word};
use pswap_sync::rpc::note::{CommittedNote, NoteSyncBlock};
use pswap_sync::sorted_map::SortedMap;
use pswap_sync::sync::screening::{
    build_public_note_records, collect_private_attachments, fold_votes, makes_block_relevant,
    resolve_content, InputNoteRecord, NoteUpdateAction, ScreenedNote, SyncedNoteDetails,
};

fn word(n: u64) -> Word {
    Word { a: n, b: 0, c: 0, d: 0 }
}

fn note_id(n: u64) -> NoteId {
    NoteId { word: word(n) }
}

fn metadata(note_type: NoteType) -> NoteMetadata {
    NoteMetadata {
        sender: AccountId::try_from_u128(ACCOUNT_ID_REGULAR_PUBLIC_ACCOUNT_IMMUTABLE_CODE).unwrap(),
        note_type,
        tag: 5,
        attachment_headers: AttachmentHeaders {
            first: None,
            second: None,
            third: None,
            fourth: None,
        },
        attachments_commitment: word(0),
    }
}

fn inclusion(block_num: u32, note_index: u16) -> NoteInclusionProof {
    NoteInclusionProof { block_num, note_index, empty_nodes_mask: 0, path: vec![word(1)] }
}

fn committed(id: NoteId, note_type: NoteType, block_num: u32) -> CommittedNote {
    CommittedNote::new(id, metadata(note_type), inclusion(block_num, 1))
}

fn block(block_num: u32, notes: Vec<CommittedNote>) -> NoteSyncBlock {
    let header = ProtocolHeader::mock(block_num, None, None, &[], ProtocolWord::empty());
    let mut held = SortedMap::new();
    for note in notes {
        held.insert(note.note_id, note);
    }
    NoteSyncBlock {
        block_header: BlockHeader::from_bytes(header.to_bytes()).unwrap(),
        mmr_path: vec![],
        notes: held,
    }
}

/// A public note, told apart by its serial number.
fn public_note(serial: u64) -> Note {
    let storage = PswapNoteStorage::builder()
        .requested_asset(
            ProtocolAsset::new(ACCOUNT_ID_PUBLIC_FUNGIBLE_FAUCET.try_into().unwrap(), 10).unwrap(),
        )
        .creator_account_id(
            ACCOUNT_ID_REGULAR_PUBLIC_ACCOUNT_IMMUTABLE_CODE.try_into().unwrap(),
        )
        .build();
    let order = StandardOrder::builder()
        .sender(ACCOUNT_ID_REGULAR_PUBLIC_ACCOUNT_IMMUTABLE_CODE.try_into().unwrap())
        .storage(storage)
        .serial_number(ProtocolWord::from([Felt::new(serial).unwrap(); 4]))
        .note_type(ProtocolNoteType::Public)
        .offered_asset(
            ProtocolAsset::new(ACCOUNT_ID_PUBLIC_FUNGIBLE_FAUCET_1.try_into().unwrap(), 20)
                .unwrap(),
        )
        .build()
        .unwrap();
    Note::from_bytes(ProtocolNote::from(order).to_bytes()).unwrap()
}

fn attachment(scheme: u16) -> NoteAttachment {
    NoteAttachment { scheme, words: vec![word(3)] }
}

fn public_details(serial: u64, scheme: u16) -> SyncedNoteDetails {
    SyncedNoteDetails::Public(
        public_note(serial),
        metadata(NoteType::Public),
        vec![attachment(scheme)],
    )
}

fn record(serial: u64, scheme: u16) -> InputNoteRecord {
    InputNoteRecord {
        note: public_note(serial),
        metadata: metadata(NoteType::Public),
        attachments: vec![attachment(scheme)],
        inclusion_proof: inclusion(3, 0),
    }
}

fn commit(n: u64) -> NoteUpdateAction {
    NoteUpdateAction::Commit(committed(note_id(n), NoteType::Private, 1))
}

#[test]
fn votes_are_folded_by_precedence() {
    assert!(matches!(fold_votes(vec![]), NoteUpdateAction::Discard));
    assert!(matches!(
        fold_votes(vec![NoteUpdateAction::Discard, NoteUpdateAction::Observe]),
        NoteUpdateAction::Observe
    ));
    assert!(matches!(
        fold_votes(vec![
            NoteUpdateAction::Observe,
            NoteUpdateAction::Insert(record(1, 1)),
            NoteUpdateAction::Discard,
        ]),
        NoteUpdateAction::Insert(_)
    ));
    match fold_votes(vec![NoteUpdateAction::Insert(record(1, 1)), commit(1), commit(2)]) {
        // The first of those with the highest precedence supplies the payload.
        NoteUpdateAction::Commit(note) => assert_eq!(note.note_id(), &note_id(1)),
        other => panic!("expected a commit, got {other:?}"),
    }
}

#[test]
fn relevance_of_a_block_follows_the_action() {
    let screened = |action: NoteUpdateAction, is_input_note: bool| ScreenedNote {
        action,
        is_input_note,
    };
    assert!(screened(commit(1), true).is_relevant());
    assert!(!screened(commit(1), false).is_relevant());
    assert!(screened(NoteUpdateAction::Insert(record(1, 1)), false).is_relevant());
    assert!(screened(NoteUpdateAction::Observe, false).is_relevant());
    assert!(!screened(NoteUpdateAction::Discard, true).is_relevant());

    assert!(!makes_block_relevant(&vec![]));
    let output_only = vec![
        screened(NoteUpdateAction::Discard, false),
        screened(commit(1), false),
        screened(NoteUpdateAction::Discard, false),
    ];
    assert!(!makes_block_relevant(&output_only));
    let one_input = vec![
        screened(commit(1), false),
        screened(commit(2), true),
        screened(NoteUpdateAction::Discard, false),
    ];
    assert!(makes_block_relevant(&one_input));
}

#[test]
fn public_notes_are_paired_with_their_proofs() {
    let (included, missing) = (public_note(1).id(), public_note(2).id());
    let mut synced = SortedMap::new();
    synced.insert(included, public_details(1, 7));
    synced.insert(missing, public_details(2, 8));
    synced.insert(note_id(50), SyncedNoteDetails::Private(Some(vec![attachment(9)])));
    let blocks = vec![
        block(2, vec![committed(note_id(50), NoteType::Private, 2)]),
        block(4, vec![committed(included, NoteType::Public, 4)]),
        block(5, vec![committed(included, NoteType::Public, 5)]),
    ];

    let records = build_public_note_records(&synced, &blocks);
    assert_eq!(records.entries.len(), 1);
    let record = records.get(&included).unwrap();
    assert_eq!(record.note, public_note(1));
    assert_eq!(record.attachments, vec![attachment(7)]);
    // The first block that has the note supplies the proof.
    assert_eq!(record.inclusion_proof, inclusion(4, 1));
}

#[test]
fn attachments_of_private_notes_are_collected() {
    let mut synced = SortedMap::new();
    synced.insert(note_id(1), SyncedNoteDetails::Private(Some(vec![attachment(1)])));
    synced.insert(note_id(2), SyncedNoteDetails::Private(None));
    synced.insert(public_note(3).id(), public_details(3, 3));
    let collected = collect_private_attachments(&synced);
    assert_eq!(collected.entries.len(), 1);
    assert_eq!(collected.get(&note_id(1)), Some(&vec![attachment(1)]));
}

#[test]
fn content_of_a_note_comes_from_where_its_kind_is_kept() {
    let public_id = public_note(1).id();
    let mut public_notes = SortedMap::new();
    public_notes.insert(public_id, record(1, 7));
    let mut private_attachments = SortedMap::new();
    private_attachments.insert(public_id, vec![attachment(1)]);
    private_attachments.insert(note_id(2), vec![attachment(2)]);

    let note = committed(public_id, NoteType::Public, 1);
    let (found, attachments) = resolve_content(&note, &public_notes, &private_attachments);
    assert_eq!(found.unwrap().note.id(), public_id);
    assert_eq!(attachments, Some(&vec![attachment(7)]));

    let note = committed(note_id(2), NoteType::Private, 1);
    let (found, attachments) = resolve_content(&note, &public_notes, &private_attachments);
    assert!(found.is_none());
    assert_eq!(attachments, Some(&vec![attachment(2)]));

    // A private note is never looked up among the public ones, nor the other way round.
    let note = committed(public_id, NoteType::Private, 1);
    let (found, attachments) = resolve_content(&note, &public_notes, &private_attachments);
    assert!(found.is_none());
    assert_eq!(attachments, Some(&vec![attachment(1)]));
    let note = committed(note_id(2), NoteType::Public, 1);
    let (found, attachments) = resolve_content(&note, &public_notes, &private_attachments);
    assert!(found.is_none() && attachments.is_none());
}
