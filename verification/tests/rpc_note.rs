use miden_protocol::account::AccountId as ProtocolAccountId;
use miden_protocol::asset::FungibleAsset as ProtocolAsset;
use miden_protocol::block::BlockHeader as ProtocolHeader;
use miden_protocol::note::{
    Note as ProtocolNote, NoteAttachment as ProtocolAttachment, NoteAttachmentScheme,
    NoteAttachments, NoteDetails, NoteScript, NoteType as ProtocolNoteType,
};
use miden_protocol::testing::account_id::{
    ACCOUNT_ID_PUBLIC_FUNGIBLE_FAUCET, ACCOUNT_ID_PUBLIC_FUNGIBLE_FAUCET_1,
    ACCOUNT_ID_REGULAR_PUBLIC_ACCOUNT_IMMUTABLE_CODE,
    ACCOUNT_ID_REGULAR_PUBLIC_ACCOUNT_IMMUTABLE_CODE_2,
};
use miden_protocol::utils::serde::Serializable;
use miden_protocol::{Felt, Word as ProtocolWord};
use miden_standards::note::{PswapNote as StandardOrder, PswapNoteStorage};
use pswap_sync::note::{AttachmentHeaders, NoteAttachment, NoteInclusionProof, NoteMetadata};
use pswap_sync::primitives::{
    AccountId, NoteDetailsCommitment, NoteId, NoteType, Word, FIELD_ORDER,
};
use pswap_sync::rpc::note::{
    attachment_headers_from_wire, attachment_schemes_to_wire, committed_note_from_wire,
    fetched_note_from_wire, inclusion_proof_from_wire, metadata_from_wire, metadata_to_wire,
    note_header_from_wire, note_id_from_wire, note_id_to_wire, note_script_from_wire,
    note_sync_block_from_wire, note_type_from_wire, note_type_to_wire,
    partial_metadata_from_wire, words_from_wire, CommittedNote, FetchedNote, Field,
    RpcConversionError, WireCommittedNote, WireDigest, WireInclusionProof, WireNote,
    WireNoteHeader, WireNoteMetadata, WireNoteType, WireSparsePath, WireSyncBlock, WireSyncRecord,
    MAX_ATTACHMENT_SCHEME,
};

const SENDER: u128 = ACCOUNT_ID_REGULAR_PUBLIC_ACCOUNT_IMMUTABLE_CODE;

fn protocol_id(raw: u128) -> ProtocolAccountId {
    ProtocolAccountId::try_from(raw).unwrap()
}

fn plain_word(word: ProtocolWord) -> Word {
    let [a, b, c, d]: [u64; 4] = word.into();
    Word { a, b, c, d }
}

fn digest(value: u64) -> WireDigest {
    WireDigest { d0: value, d1: 2, d2: 3, d3: 4 }
}

fn word(value: u64) -> Word {
    Word { a: value, b: 2, c: 3, d: 4 }
}

fn no_headers() -> AttachmentHeaders {
    AttachmentHeaders { first: None, second: None, third: None, fourth: None }
}

fn wire_metadata() -> WireNoteMetadata {
    WireNoteMetadata {
        sender: Some(protocol_id(SENDER).to_bytes()),
        note_type: WireNoteType::Private,
        tag: 77,
        attachment_schemes: vec![3],
        attachments_commitment: Some(digest(9)),
    }
}

fn metadata() -> NoteMetadata {
    NoteMetadata {
        sender: AccountId::try_from_u128(SENDER).unwrap(),
        note_type: NoteType::Private,
        tag: 77,
        attachment_headers: AttachmentHeaders { first: Some(3), ..no_headers() },
        attachments_commitment: word(9),
    }
}

fn wire_proof(id: u64) -> WireInclusionProof {
    WireInclusionProof {
        note_id: Some(Some(digest(id))),
        block_num: 12,
        note_index_in_block: 5,
        inclusion_path: Some(WireSparsePath { empty_nodes_mask: 1, siblings: vec![digest(8)] }),
    }
}

fn place() -> NoteInclusionProof {
    NoteInclusionProof { block_num: 12, note_index: 5, empty_nodes_mask: 1, path: vec![word(8)] }
}

fn wire_record(id: u64) -> WireSyncRecord {
    WireSyncRecord { metadata: Some(wire_metadata()), inclusion_proof: Some(wire_proof(id)) }
}

/// A public order with one attachment.
fn public_note() -> ProtocolNote {
    let storage = PswapNoteStorage::builder()
        .requested_asset(
            ProtocolAsset::new(protocol_id(ACCOUNT_ID_PUBLIC_FUNGIBLE_FAUCET_1), 50).unwrap(),
        )
        .creator_account_id(protocol_id(ACCOUNT_ID_REGULAR_PUBLIC_ACCOUNT_IMMUTABLE_CODE_2))
        .build();
    let order = StandardOrder::builder()
        .sender(protocol_id(SENDER))
        .storage(storage)
        .serial_number(ProtocolWord::from([
            Felt::new(1).unwrap(),
            Felt::new(2).unwrap(),
            Felt::new(3).unwrap(),
            Felt::new(4).unwrap(),
        ]))
        .note_type(ProtocolNoteType::Public)
        .offered_asset(
            ProtocolAsset::new(protocol_id(ACCOUNT_ID_PUBLIC_FUNGIBLE_FAUCET), 100).unwrap(),
        )
        .attachment(ProtocolAttachment::with_word(
            NoteAttachmentScheme::new(9).unwrap(),
            ProtocolWord::from([
                Felt::new(5).unwrap(),
                Felt::new(6).unwrap(),
                Felt::new(7).unwrap(),
                Felt::new(8).unwrap(),
            ]),
        ))
        .build()
        .unwrap();
    ProtocolNote::from(order)
}

fn wire_public_note(note: &ProtocolNote) -> WireCommittedNote {
    let metadata = note.metadata();
    let commitment = plain_word(metadata.attachments_commitment());
    WireCommittedNote {
        inclusion_proof: Some(wire_proof(1)),
        note: Some(WireNote {
            metadata: Some(WireNoteMetadata {
                sender: Some(metadata.sender().to_bytes()),
                note_type: WireNoteType::Public,
                tag: metadata.tag().as_u32(),
                attachment_schemes: vec![9],
                attachments_commitment: Some(WireDigest::from_word(commitment)),
            }),
            details: Some(NoteDetails::from(note.clone()).to_bytes()),
            attachments: note.attachments().to_bytes(),
        }),
    }
}

#[test]
fn digests_hold_canonical_elements() {
    assert_eq!(digest(7).to_word(), Ok(word(7)));
    assert_eq!(WireDigest::from_word(word(7)), digest(7));
    assert_eq!(digest(FIELD_ORDER).to_word(), Err(RpcConversionError::NotAValidFelt));
    assert!(digest(FIELD_ORDER - 1).to_word().is_ok());

    let id = NoteId { word: word(7) };
    assert_eq!(note_id_from_wire(note_id_to_wire(id)), Ok(id));
    assert_eq!(note_id_from_wire(None), Err(RpcConversionError::MissingField(Field::NoteId)));
    assert_eq!(
        note_id_from_wire(Some(digest(u64::MAX))),
        Err(RpcConversionError::NotAValidFelt)
    );
    assert_eq!(words_from_wire(&vec![digest(1), digest(2)]), Ok(vec![word(1), word(2)]));
    assert_eq!(
        words_from_wire(&vec![digest(1), digest(u64::MAX)]),
        Err(RpcConversionError::NotAValidFelt)
    );
}

#[test]
fn note_types_on_the_wire() {
    for note_type in [NoteType::Public, NoteType::Private] {
        assert_eq!(note_type_from_wire(note_type_to_wire(note_type)), Ok(note_type));
    }
    assert_eq!(
        note_type_from_wire(WireNoteType::Unspecified),
        Err(RpcConversionError::UnspecifiedNoteType)
    );
    assert_eq!(
        note_type_from_wire(WireNoteType::Unknown(17)),
        Err(RpcConversionError::UnknownNoteType(17))
    );
}

#[test]
fn attachment_headers_are_padded_and_stripped() {
    let headers =
        AttachmentHeaders { first: None, second: Some(7), third: None, fourth: None };
    assert_eq!(attachment_schemes_to_wire(&headers), vec![0, 7]);
    assert_eq!(attachment_headers_from_wire(&vec![0, 7]), Ok(headers));
    assert_eq!(attachment_headers_from_wire(&vec![0, 7, 0, 0]), Ok(headers));
    assert_eq!(attachment_headers_from_wire(&vec![]), Ok(no_headers()));
    assert!(attachment_schemes_to_wire(&no_headers()).is_empty());
    let full =
        AttachmentHeaders { first: Some(1), second: Some(2), third: Some(3), fourth: Some(4) };
    assert_eq!(attachment_headers_from_wire(&attachment_schemes_to_wire(&full)), Ok(full));
}

#[test]
fn attachment_headers_are_checked() {
    assert_eq!(
        attachment_headers_from_wire(&vec![0, 0, 0, 0, 0]),
        Err(RpcConversionError::TooManySchemes(5))
    );
    assert_eq!(
        attachment_headers_from_wire(&vec![1, 65536, 70000]),
        Err(RpcConversionError::SchemeTooLarge { slot: 1, raw: 65536 })
    );
    let largest = u32::from(MAX_ATTACHMENT_SCHEME);
    assert_eq!(
        attachment_headers_from_wire(&vec![largest + 1]),
        Err(RpcConversionError::InvalidScheme { slot: 0, raw: largest + 1 })
    );
    assert!(attachment_headers_from_wire(&vec![largest]).is_ok());
    // The bounds are those of the protocol.
    assert!(NoteAttachmentScheme::new(0).is_err());
    assert!(NoteAttachmentScheme::new(MAX_ATTACHMENT_SCHEME).is_ok());
    assert!(NoteAttachmentScheme::new(MAX_ATTACHMENT_SCHEME + 1).is_err());
}

#[test]
fn metadata_survives_being_sent() {
    assert_eq!(metadata_from_wire(&wire_metadata()), Ok(metadata()));
    let sent = metadata_to_wire(&metadata());
    assert_eq!(sent.sender, Some(protocol_id(SENDER).to_bytes()));
    assert_eq!(metadata_from_wire(&sent), Ok(metadata()));
    let partial = partial_metadata_from_wire(&wire_metadata()).unwrap();
    assert_eq!(partial.sender, metadata().sender);
    assert_eq!(partial.note_type, NoteType::Private);
    assert_eq!(partial.tag, 77);
}

#[test]
fn metadata_is_checked_part_by_part() {
    let mut wire = wire_metadata();
    wire.attachments_commitment = Some(digest(u64::MAX));
    assert_eq!(metadata_from_wire(&wire), Err(RpcConversionError::NotAValidFelt));
    wire.attachments_commitment = None;
    assert_eq!(
        metadata_from_wire(&wire),
        Err(RpcConversionError::MissingField(Field::AttachmentsCommitment))
    );
    wire.attachment_schemes = vec![0; 5];
    assert_eq!(metadata_from_wire(&wire), Err(RpcConversionError::TooManySchemes(5)));
    wire.note_type = WireNoteType::Unspecified;
    assert_eq!(metadata_from_wire(&wire), Err(RpcConversionError::UnspecifiedNoteType));
    wire.sender = Some(vec![1, 2]);
    assert_eq!(metadata_from_wire(&wire), Err(RpcConversionError::InvalidAccountId));
    wire.sender = None;
    assert_eq!(metadata_from_wire(&wire), Err(RpcConversionError::MissingField(Field::Sender)));
}

#[test]
fn note_headers_are_read() {
    let mut wire =
        WireNoteHeader { details_commitment: Some(digest(6)), metadata: Some(wire_metadata()) };
    let header = note_header_from_wire(&wire).unwrap();
    assert_eq!(header.details_commitment, NoteDetailsCommitment { word: word(6) });
    assert_eq!(header.metadata, metadata());
    wire.metadata = None;
    assert_eq!(
        note_header_from_wire(&wire),
        Err(RpcConversionError::MissingField(Field::Metadata))
    );
    wire.details_commitment = None;
    assert_eq!(
        note_header_from_wire(&wire),
        Err(RpcConversionError::MissingField(Field::DetailsCommitment))
    );
}

#[test]
fn inclusion_proofs_are_checked() {
    assert_eq!(inclusion_proof_from_wire(&wire_proof(1)), Ok(place()));
    let mut wire = wire_proof(1);
    wire.note_index_in_block = 65536;
    assert_eq!(inclusion_proof_from_wire(&wire), Err(RpcConversionError::NoteIndexInBlock));
    wire.note_index_in_block = 65535;
    assert_eq!(inclusion_proof_from_wire(&wire).unwrap().note_index, 65535);
    // The mask 0b10 leaves a node for depth 1.
    wire.inclusion_path = Some(WireSparsePath { empty_nodes_mask: 2, siblings: vec![] });
    assert_eq!(inclusion_proof_from_wire(&wire), Err(RpcConversionError::InvalidPath));
    wire.inclusion_path = Some(WireSparsePath { empty_nodes_mask: 2, siblings: vec![digest(1)] });
    assert!(inclusion_proof_from_wire(&wire).is_ok());
    wire.inclusion_path =
        Some(WireSparsePath { empty_nodes_mask: u64::MAX, siblings: vec![digest(1)] });
    assert_eq!(inclusion_proof_from_wire(&wire), Err(RpcConversionError::InvalidPath));
    wire.inclusion_path =
        Some(WireSparsePath { empty_nodes_mask: 0, siblings: vec![digest(u64::MAX)] });
    assert_eq!(inclusion_proof_from_wire(&wire), Err(RpcConversionError::NotAValidFelt));
    wire.inclusion_path = None;
    assert_eq!(
        inclusion_proof_from_wire(&wire),
        Err(RpcConversionError::MissingField(Field::InclusionPath))
    );
}

#[test]
fn committed_notes_are_read() {
    let note = committed_note_from_wire(&wire_record(1)).unwrap();
    assert_eq!(*note.note_id(), NoteId { word: word(1) });
    assert_eq!(*note.metadata(), metadata());
    assert_eq!(*note.inclusion_proof(), place());
    assert_eq!(note.note_type(), NoteType::Private);
    assert_eq!(note.tag(), 77);
    assert_eq!(note.sender(), metadata().sender);
    let built = CommittedNote::new(NoteId { word: word(1) }, metadata(), place());
    assert_eq!(built.note_id(), note.note_id());

    let mut wire = wire_record(1);
    wire.inclusion_proof.as_mut().unwrap().note_id = None;
    assert_eq!(
        committed_note_from_wire(&wire).unwrap_err(),
        RpcConversionError::MissingField(Field::InclusionProofNoteId)
    );
    wire.inclusion_proof = None;
    assert_eq!(
        committed_note_from_wire(&wire).unwrap_err(),
        RpcConversionError::MissingField(Field::InclusionProof)
    );
    wire.metadata = None;
    assert_eq!(
        committed_note_from_wire(&wire).unwrap_err(),
        RpcConversionError::MissingField(Field::NoteMetadata)
    );
}

#[test]
fn sync_blocks_are_read() {
    let header =
        ProtocolHeader::mock(12u32, None, None, &[], ProtocolWord::empty());
    let block = note_sync_block_from_wire(WireSyncBlock {
        block_header: Some(header.to_bytes()),
        mmr_path: Some(vec![digest(1)]),
        notes: vec![wire_record(5), wire_record(3), wire_record(5)],
    })
    .unwrap_or_else(|err| panic!("{err:?}"));
    assert_eq!(block.block_header.block_num(), 12);
    assert_eq!(block.block_header.fields.commitment, plain_word(header.commitment()));
    assert_eq!(block.block_header.fields.account_root, plain_word(header.account_root()));
    assert_eq!(block.block_header.fields.chain_commitment, plain_word(header.chain_commitment()));
    assert_eq!(block.block_header.fields.timestamp, header.timestamp());
    assert_eq!(block.mmr_path, vec![word(1)]);
    // In the order of their identifiers, each once.
    assert_eq!(block.notes.entries.len(), 2);
    assert_eq!(block.notes.entries[0].0, NoteId { word: word(3) });

    let read = |header: Option<Vec<u8>>, path: Option<Vec<WireDigest>>, notes| {
        note_sync_block_from_wire(WireSyncBlock { block_header: header, mmr_path: path, notes })
            .err()
    };
    assert_eq!(
        read(None, None, vec![]),
        Some(RpcConversionError::MissingField(Field::BlockHeader))
    );
    assert_eq!(read(Some(vec![1]), None, vec![]), Some(RpcConversionError::InvalidBlockHeader));
    assert_eq!(
        read(Some(header.to_bytes()), None, vec![]),
        Some(RpcConversionError::MissingField(Field::MmrPath))
    );
    let broken = WireSyncRecord { metadata: None, inclusion_proof: None };
    assert_eq!(
        read(Some(header.to_bytes()), Some(vec![]), vec![wire_record(1), broken]),
        Some(RpcConversionError::MissingField(Field::NoteMetadata))
    );
}

/// A note with details is put together again, identifier and all.
#[test]
fn fetched_public_note_is_rebuilt() {
    let note = public_note();
    let fetched = fetched_note_from_wire(&wire_public_note(&note)).unwrap();
    assert_eq!(fetched.id(), NoteId { word: plain_word(note.id().as_word()) });
    assert_eq!(fetched.metadata().tag, note.metadata().tag().as_u32());
    assert_eq!(fetched.metadata().attachment_headers.first, Some(9));
    assert_eq!(
        fetched.metadata().attachments_commitment,
        plain_word(note.metadata().attachments_commitment())
    );
    assert_eq!(
        *fetched.attachments(),
        vec![NoteAttachment { scheme: 9, words: vec![Word { a: 5, b: 6, c: 7, d: 8 }] }]
    );
    assert_eq!(*fetched.inclusion_proof(), place());
    match fetched {
        FetchedNote::Public(plain, _, _, _) => assert_eq!(plain.bytes, note.to_bytes()),
        FetchedNote::Private(..) => panic!("the note has details"),
    }
}

/// A note without details is private; its identifier is the one that was sent.
#[test]
fn fetched_private_note_keeps_its_identifier() {
    let note = public_note();
    let mut wire = wire_public_note(&note);
    wire.note.as_mut().unwrap().details = None;
    let fetched = fetched_note_from_wire(&wire).unwrap();
    assert!(matches!(fetched, FetchedNote::Private(..)));
    assert_eq!(fetched.id(), NoteId { word: word(1) });
    assert_eq!(fetched.attachments().len(), 1);
    // No bytes stand for no attachments.
    wire.note.as_mut().unwrap().attachments = vec![];
    assert!(fetched_note_from_wire(&wire).unwrap().attachments().is_empty());
}

/// No bytes stand for no attachments in a public note too.
#[test]
fn fetched_public_note_without_attachments() {
    let note = public_note();
    let mut wire = wire_public_note(&note);
    wire.note.as_mut().unwrap().attachments = vec![];
    let fetched = fetched_note_from_wire(&wire).unwrap();
    assert!(fetched.attachments().is_empty());
    assert_eq!(fetched.metadata().attachment_headers, no_headers());
    assert_ne!(fetched.id(), NoteId { word: plain_word(note.id().as_word()) });
    let mut explicit = wire_public_note(&note);
    explicit.note.as_mut().unwrap().attachments = NoteAttachments::empty().to_bytes();
    assert_eq!(fetched_note_from_wire(&explicit).unwrap().id(), fetched.id());
}

#[test]
fn fetched_notes_are_checked() {
    let note = public_note();
    let mut wire = wire_public_note(&note);
    wire.note.as_mut().unwrap().details = Some(vec![1, 2, 3]);
    assert_eq!(
        fetched_note_from_wire(&wire).unwrap_err(),
        RpcConversionError::Deserialization
    );
    wire.note.as_mut().unwrap().attachments = vec![200];
    assert_eq!(
        fetched_note_from_wire(&wire).unwrap_err(),
        RpcConversionError::Deserialization
    );
    wire.note.as_mut().unwrap().metadata = None;
    assert_eq!(
        fetched_note_from_wire(&wire).unwrap_err(),
        RpcConversionError::MissingField(Field::NoteMetadata)
    );
    wire.note = None;
    assert_eq!(
        fetched_note_from_wire(&wire).unwrap_err(),
        RpcConversionError::MissingField(Field::Note)
    );
    wire.inclusion_proof.as_mut().unwrap().note_id = None;
    assert_eq!(
        fetched_note_from_wire(&wire).unwrap_err(),
        RpcConversionError::MissingField(Field::InclusionProofNoteId)
    );
    wire.inclusion_proof = None;
    assert_eq!(
        fetched_note_from_wire(&wire).unwrap_err(),
        RpcConversionError::MissingField(Field::InclusionProof)
    );
}

#[test]
fn note_scripts_are_read() {
    let script = NoteScript::mock();
    let mast = script.mast().to_bytes();
    let entrypoint = u32::from(script.entrypoint());
    assert_eq!(note_script_from_wire(&mast, entrypoint).unwrap(), script.to_bytes());
    assert_eq!(
        note_script_from_wire(&mast, 1_000_000),
        Err(RpcConversionError::Deserialization)
    );
    assert_eq!(note_script_from_wire(&vec![7], 0), Err(RpcConversionError::Deserialization));
}
