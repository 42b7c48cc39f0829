//! Notes as a node sends them.
use miden_protocol::utils::serde::{Deserializable, Serializable};
use vstd::prelude::*;

use crate::block::{header_fields_of, BlockHeader, HeaderView};
use crate::encoding::{account_id_bytes, account_id_bytes_of, account_id_read_of, read_account_id};
use crate::note::{
    attachments_of, decode_attachments, metadata_of, note_id_of, view_attachments,
    AttachmentHeaders, AttachmentView, Note, NoteAttachment, NoteInclusionProof, NoteMetadata,
    NoteView, ProofView, MAX_ATTACHMENTS,
};
use crate::primitives::{
    AccountId, BlockNumber, NoteDetailsCommitment, NoteId, NoteTag, NoteType, Word, FIELD_ORDER,
};
use crate::sorted_map::SortedMap;

verus! {

// MESSAGES
// ================================================================================================

/// A word on the wire. Its elements need not be canonical.
#[derive(Clone, Copy, Debug, PartialEq, Eq, Structural)]
pub struct WireDigest {
    pub d0: u64,
    pub d1: u64,
    pub d2: u64,
    pub d3: u64,
}

/// A note type on the wire.
#[derive(Clone, Copy, Debug, PartialEq, Eq, Structural)]
pub enum WireNoteType {
    Unspecified,
    Public,
    Private,
    /// A number that stands for no note type.
    Unknown(i32),
}

/// Note metadata on the wire. Trailing empty attachment slots may be left out.
#[derive(Debug)]
pub struct WireNoteMetadata {
    pub sender: Option<Vec<u8>>,
    pub note_type: WireNoteType,
    pub tag: u32,
    pub attachment_schemes: Vec<u32>,
    pub attachments_commitment: Option<WireDigest>,
}

/// A note header on the wire.
#[derive(Debug)]
pub struct WireNoteHeader {
    pub details_commitment: Option<WireDigest>,
    pub metadata: Option<WireNoteMetadata>,
}

/// A path through a sparse tree on the wire.
#[derive(Debug)]
pub struct WireSparsePath {
    pub empty_nodes_mask: u64,
    pub siblings: Vec<WireDigest>,
}

/// A note's place in a block, on the wire.
#[derive(Debug)]
pub struct WireInclusionProof {
    pub note_id: Option<Option<WireDigest>>,
    pub block_num: BlockNumber,
    pub note_index_in_block: u32,
    pub inclusion_path: Option<WireSparsePath>,
}

/// A note of a sync response, on the wire.
#[derive(Debug)]
pub struct WireSyncRecord {
    pub metadata: Option<WireNoteMetadata>,
    pub inclusion_proof: Option<WireInclusionProof>,
}

/// A note's content on the wire; a private note has no details.
#[derive(Debug)]
pub struct WireNote {
    pub metadata: Option<WireNoteMetadata>,
    pub details: Option<Vec<u8>>,
    pub attachments: Vec<u8>,
}

/// A fetched note on the wire.
#[derive(Debug)]
pub struct WireCommittedNote {
    pub inclusion_proof: Option<WireInclusionProof>,
    pub note: Option<WireNote>,
}

/// A part of a message that has to be there.
#[derive(Clone, Copy, Debug, PartialEq, Eq, Structural)]
pub enum Field {
    NoteId,
    Sender,
    AttachmentsCommitment,
    DetailsCommitment,
    Metadata,
    InclusionPath,
    InclusionProof,
    InclusionProofNoteId,
    Note,
    NoteMetadata,
    BlockHeader,
    MmrPath,
}

/// Why a message could not be read.
#[derive(Clone, Copy, Debug, PartialEq, Eq, Structural)]
pub enum RpcConversionError {
    MissingField(Field),
    UnknownNoteType(i32),
    UnspecifiedNoteType,
    /// More attachment schemes than a note has slots.
    TooManySchemes(usize),
    /// A scheme that does not fit in 16 bits.
    SchemeTooLarge { slot: usize, raw: u32 },
    /// A scheme that is not allowed.
    InvalidScheme { slot: usize, raw: u32 },
    /// A note position that does not fit in 16 bits.
    NoteIndexInBlock,
    /// An element that is not canonical.
    NotAValidFelt,
    InvalidAccountId,
    InvalidPath,
    /// Bytes that encode nothing.
    Deserialization,
    InvalidBlockHeader,
}

// WORDS
// ================================================================================================

impl WireDigest {
    /// The word that a digest stands for.
    pub open spec fn word(self) -> Result<Word, RpcConversionError> {
        let word = Word { a: self.d0, b: self.d1, c: self.d2, d: self.d3 };
        if word.is_canonical() {
            Ok(word)
        } else {
            Err(RpcConversionError::NotAValidFelt)
        }
    }

    pub fn to_word(&self) -> (word: Result<Word, RpcConversionError>)
        ensures
            word == self.word(),
    {
        if self.d0 < FIELD_ORDER && self.d1 < FIELD_ORDER && self.d2 < FIELD_ORDER && self.d3
            < FIELD_ORDER {
            Ok(Word { a: self.d0, b: self.d1, c: self.d2, d: self.d3 })
        } else {
            Err(RpcConversionError::NotAValidFelt)
        }
    }

    /// The digest that stands for a word.
    pub open spec fn spec_of(word: Word) -> WireDigest {
        WireDigest { d0: word.a, d1: word.b, d2: word.c, d3: word.d }
    }

    pub fn from_word(word: Word) -> (digest: WireDigest)
        ensures
            digest == WireDigest::spec_of(word),
    {
        WireDigest { d0: word.a, d1: word.b, d2: word.c, d3: word.d }
    }
}

/// The note identifier that a message's digest stands for.
pub open spec fn note_id_from_wire_of(id: Option<WireDigest>) -> Result<
    NoteId,
    RpcConversionError,
> {
    match id {
        None => Err(RpcConversionError::MissingField(Field::NoteId)),
        Some(digest) => match digest.word() {
            Ok(word) => Ok(NoteId { word }),
            Err(err) => Err(err),
        },
    }
}

pub fn note_id_from_wire(id: Option<WireDigest>) -> (note_id: Result<NoteId, RpcConversionError>)
    ensures
        note_id == note_id_from_wire_of(id),
{
    match id {
        None => Err(RpcConversionError::MissingField(Field::NoteId)),
        Some(digest) => match digest.to_word() {
            Ok(word) => Ok(NoteId { word }),
            Err(err) => Err(err),
        },
    }
}

/// Writes a note identifier as a digest. Reading the digest gives a canonical identifier back.
pub fn note_id_to_wire(id: NoteId) -> (digest: Option<WireDigest>)
    ensures
        digest == Some(WireDigest::spec_of(id.word)),
        id.word.is_canonical() ==> note_id_from_wire_of(digest) == Ok::<NoteId, RpcConversionError>(
            id,
        ),
{
    Some(WireDigest::from_word(id.word))
}

// METADATA
// ================================================================================================

/// The note type that a wire type stands for.
pub open spec fn note_type_from_wire_of(raw: WireNoteType) -> Result<NoteType, RpcConversionError> {
    match raw {
        WireNoteType::Public => Ok(NoteType::Public),
        WireNoteType::Private => Ok(NoteType::Private),
        WireNoteType::Unspecified => Err(RpcConversionError::UnspecifiedNoteType),
        WireNoteType::Unknown(raw) => Err(RpcConversionError::UnknownNoteType(raw)),
    }
}

pub fn note_type_from_wire(raw: WireNoteType) -> (note_type: Result<NoteType, RpcConversionError>)
    ensures
        note_type == note_type_from_wire_of(raw),
{
    match raw {
        WireNoteType::Public => Ok(NoteType::Public),
        WireNoteType::Private => Ok(NoteType::Private),
        WireNoteType::Unspecified => Err(RpcConversionError::UnspecifiedNoteType),
        WireNoteType::Unknown(raw) => Err(RpcConversionError::UnknownNoteType(raw)),
    }
}

/// The wire type that stands for a note type.
pub open spec fn note_type_to_wire_of(note_type: NoteType) -> WireNoteType {
    match note_type {
        NoteType::Public => WireNoteType::Public,
        NoteType::Private => WireNoteType::Private,
    }
}

/// Writes a note type. Reading it gives the note type back.
pub fn note_type_to_wire(note_type: NoteType) -> (raw: WireNoteType)
    ensures
        raw == note_type_to_wire_of(note_type),
        note_type_from_wire_of(raw) == Ok::<NoteType, RpcConversionError>(note_type),
{
    match note_type {
        NoteType::Public => WireNoteType::Public,
        NoteType::Private => WireNoteType::Private,
    }
}

/// The largest attachment scheme.
pub const MAX_ATTACHMENT_SCHEME: u16 = 65534;

/// Asks `NoteAttachmentScheme::new` whether it accepts a scheme; it accepts those from 1 to
/// [`MAX_ATTACHMENT_SCHEME`] and no others.
#[verifier::external_body]
fn is_scheme_accepted(scheme: u16) -> (accepted: bool)
    ensures
        accepted == (1 <= scheme <= MAX_ATTACHMENT_SCHEME),
{
    miden_protocol::note::NoteAttachmentScheme::new(scheme).is_ok()
}

/// The header that one scheme on the wire stands for; 0 marks an empty slot.
pub open spec fn header_from_wire_of(slot: usize, raw: u32) -> Result<
    Option<u16>,
    RpcConversionError,
> {
    if raw == 0 {
        Ok(None)
    } else if raw > u16::MAX {
        Err(RpcConversionError::SchemeTooLarge { slot, raw })
    } else if raw > MAX_ATTACHMENT_SCHEME {
        Err(RpcConversionError::InvalidScheme { slot, raw })
    } else {
        Ok(Some(raw as u16))
    }
}

/// The first error among the schemes from a slot on.
pub open spec fn first_scheme_error(schemes: Seq<u32>, slot: int) -> Option<RpcConversionError>
    decreases schemes.len() - slot,
{
    if slot >= schemes.len() || slot < 0 {
        None
    } else {
        match header_from_wire_of(slot as usize, schemes[slot]) {
            Err(err) => Some(err),
            Ok(_) => first_scheme_error(schemes, slot + 1),
        }
    }
}

/// The header of a slot; slots beyond the end are empty.
pub open spec fn slot_from_wire(schemes: Seq<u32>, slot: int) -> Option<u16> {
    if slot < schemes.len() && schemes[slot] != 0 {
        Some(schemes[slot] as u16)
    } else {
        None
    }
}

/// The headers that a list of schemes stands for.
pub open spec fn headers_from_wire_of(schemes: Seq<u32>) -> Result<
    AttachmentHeaders,
    RpcConversionError,
> {
    if schemes.len() > MAX_ATTACHMENTS {
        Err(RpcConversionError::TooManySchemes(schemes.len() as usize))
    } else {
        match first_scheme_error(schemes, 0) {
            Some(err) => Err(err),
            None => Ok(
                AttachmentHeaders {
                    first: slot_from_wire(schemes, 0),
                    second: slot_from_wire(schemes, 1),
                    third: slot_from_wire(schemes, 2),
                    fourth: slot_from_wire(schemes, 3),
                },
            ),
        }
    }
}

fn header_from_wire(slot: usize, raw: u32) -> (header: Result<Option<u16>, RpcConversionError>)
    ensures
        header == header_from_wire_of(slot, raw),
{
    if raw == 0 {
        return Ok(None);
    }
    if raw > u16::MAX as u32 {
        return Err(RpcConversionError::SchemeTooLarge { slot, raw });
    }
    let scheme: u16 = raw as u16;
    if is_scheme_accepted(scheme) {
        Ok(Some(scheme))
    } else {
        Err(RpcConversionError::InvalidScheme { slot, raw })
    }
}

/// Reads the attachment headers out of a list of schemes. Slots that the list leaves out are
/// empty.
pub fn attachment_headers_from_wire(schemes: &Vec<u32>) -> (headers: Result<
    AttachmentHeaders,
    RpcConversionError,
>)
    ensures
        headers == headers_from_wire_of(schemes@),
{
    if schemes.len() > MAX_ATTACHMENTS {
        return Err(RpcConversionError::TooManySchemes(schemes.len()));
    }
    let mut slots: Vec<Option<u16>> = Vec::new();
    let mut slot: usize = 0;
    while slot < schemes.len()
        invariant
            slot <= schemes.len() <= MAX_ATTACHMENTS,
            slots@.len() == slot,
            first_scheme_error(schemes@, 0) == first_scheme_error(schemes@, slot as int),
            forall|i: int| 0 <= i < slot ==> #[trigger] slots@[i] == slot_from_wire(schemes@, i),
        decreases schemes.len() - slot,
    {
        match header_from_wire(slot, schemes[slot]) {
            Ok(header) => {
                slots.push(header);
            },
            Err(err) => {
                return Err(err);
            },
        }
        slot += 1;
    }
    while slot < MAX_ATTACHMENTS
        invariant
            schemes.len() <= slot <= MAX_ATTACHMENTS,
            slots@.len() == slot,
            forall|i: int| 0 <= i < slot ==> #[trigger] slots@[i] == slot_from_wire(schemes@, i),
        decreases MAX_ATTACHMENTS - slot,
    {
        slots.push(None);
        slot += 1;
    }
    Ok(
        AttachmentHeaders {
            first: slots[0],
            second: slots[1],
            third: slots[2],
            fourth: slots[3],
        },
    )
}

/// The number that stands for a slot on the wire.
pub open spec fn slot_to_wire(header: Option<u16>) -> u32 {
    match header {
        Some(scheme) => scheme as u32,
        None => 0,
    }
}

/// A sequence without the zeros at its end.
pub open spec fn strip_zeros(numbers: Seq<u32>) -> Seq<u32>
    decreases numbers.len(),
{
    if numbers.len() > 0 && numbers.last() == 0 {
        strip_zeros(numbers.drop_last())
    } else {
        numbers
    }
}

/// The list of schemes that stands for some headers: trailing empty slots are left out.
pub open spec fn schemes_to_wire_of(headers: AttachmentHeaders) -> Seq<u32> {
    strip_zeros(headers.slots().map_values(|header: Option<u16>| slot_to_wire(header)))
}

fn slot_number(header: Option<u16>) -> (number: u32)
    ensures
        number == slot_to_wire(header),
{
    match header {
        Some(scheme) => scheme as u32,
        None => 0,
    }
}

/// Lists the schemes of some headers.
pub fn attachment_schemes_to_wire(headers: &AttachmentHeaders) -> (schemes: Vec<u32>)
    ensures
        schemes@ == schemes_to_wire_of(*headers),
{
    let mut schemes: Vec<u32> = Vec::new();
    schemes.push(slot_number(headers.first));
    schemes.push(slot_number(headers.second));
    schemes.push(slot_number(headers.third));
    schemes.push(slot_number(headers.fourth));
    let ghost all = schemes@;
    assert(all =~= headers.slots().map_values(|header: Option<u16>| slot_to_wire(header)));
    while schemes.len() > 0 && schemes[schemes.len() - 1] == 0
        invariant
            strip_zeros(schemes@) == strip_zeros(all),
        decreases schemes.len(),
    {
        schemes.pop();
    }
    schemes
}

/// Whether every header names an allowed scheme.
pub open spec fn headers_wf(headers: AttachmentHeaders) -> bool {
    forall|i: int|
        0 <= i < 4 ==> ((#[trigger] headers.slots()[i]) matches Some(scheme) ==> 1 <= scheme
            <= MAX_ATTACHMENT_SCHEME)
}

/// Attachment headers survive being sent.
pub proof fn law_headers_round_trip(headers: AttachmentHeaders)
    requires
        headers_wf(headers),
    ensures
        headers_from_wire_of(schemes_to_wire_of(headers)) == Ok::<
            AttachmentHeaders,
            RpcConversionError,
        >(headers),
{
    let all = headers.slots().map_values(|header: Option<u16>| slot_to_wire(header));
    let schemes = strip_zeros(all);
    lemma_strip_zeros(all);
    assert(all.len() == 4);
    assert forall|i: int| 0 <= i < schemes.len() implies header_from_wire_of(
        i as usize,
        #[trigger] schemes[i],
    ) is Ok by {
        assert(schemes[i] == all[i]);
        assert(all[i] == slot_to_wire(headers.slots()[i]));
    }
    lemma_no_scheme_error(schemes, 0);
    assert forall|i: int| 0 <= i < 4 implies slot_from_wire(schemes, i)
        == #[trigger] headers.slots()[i] by {
        assert(all[i] == slot_to_wire(headers.slots()[i]));
        if i < schemes.len() {
            assert(schemes[i] == all[i]);
        }
    }
    assert(headers.slots()[0] == headers.first);
    assert(headers.slots()[1] == headers.second);
    assert(headers.slots()[2] == headers.third);
    assert(headers.slots()[3] == headers.fourth);
}

proof fn lemma_strip_zeros(numbers: Seq<u32>)
    ensures
        strip_zeros(numbers).len() <= numbers.len(),
        strip_zeros(numbers) == numbers.take(strip_zeros(numbers).len() as int),
        forall|i: int|
            strip_zeros(numbers).len() <= i < numbers.len() ==> #[trigger] numbers[i] == 0,
    decreases numbers.len(),
{
    if numbers.len() > 0 && numbers.last() == 0 {
        let shorter = numbers.drop_last();
        lemma_strip_zeros(shorter);
        let n = strip_zeros(numbers).len() as int;
        assert(shorter.take(n) =~= numbers.take(n));
        assert forall|i: int| n <= i < numbers.len() implies #[trigger] numbers[i] == 0 by {
            if i < shorter.len() {
                assert(shorter[i] == numbers[i]);
            }
        }
    } else {
        assert(numbers.take(numbers.len() as int) =~= numbers);
    }
}

proof fn lemma_no_scheme_error(schemes: Seq<u32>, slot: int)
    requires
        0 <= slot,
        forall|i: int|
            0 <= i < schemes.len() ==> header_from_wire_of(i as usize, #[trigger] schemes[i]) is Ok,
    ensures
        first_scheme_error(schemes, slot) is None,
    decreases schemes.len() - slot,
{
    if slot < schemes.len() {
        lemma_no_scheme_error(schemes, slot + 1);
    }
}

/// What [`WireNoteMetadata`] stands for.
#[verifier::ext_equal]
pub ghost struct WireMetadataView {
    pub sender: Option<Seq<u8>>,
    pub note_type: WireNoteType,
    pub tag: u32,
    pub attachment_schemes: Seq<u32>,
    pub attachments_commitment: Option<WireDigest>,
}

impl View for WireNoteMetadata {
    type V = WireMetadataView;

    open spec fn view(&self) -> WireMetadataView {
        WireMetadataView {
            sender: match self.sender {
                Some(bytes) => Some(bytes@),
                None => None,
            },
            note_type: self.note_type,
            tag: self.tag,
            attachment_schemes: self.attachment_schemes@,
            attachments_commitment: self.attachments_commitment,
        }
    }
}

/// Sender, type and tag of a note.
#[derive(Clone, Copy, Debug, PartialEq, Eq, Structural)]
pub struct PartialNoteMetadata {
    pub sender: AccountId,
    pub note_type: NoteType,
    pub tag: NoteTag,
}

/// The partial metadata that a message stands for.
pub open spec fn partial_metadata_from_wire_of(value: WireMetadataView) -> Result<
    PartialNoteMetadata,
    RpcConversionError,
> {
    match value.sender {
        None => Err(RpcConversionError::MissingField(Field::Sender)),
        Some(bytes) => match account_id_read_of(bytes) {
            None => Err(RpcConversionError::InvalidAccountId),
            Some(raw) => match note_type_from_wire_of(value.note_type) {
                Err(err) => Err(err),
                Ok(note_type) => Ok(
                    PartialNoteMetadata {
                        sender: AccountId::of(raw),
                        note_type,
                        tag: value.tag,
                    },
                ),
            },
        },
    }
}

/// Reads the partial metadata out of a message.
pub fn partial_metadata_from_wire(value: &WireNoteMetadata) -> (metadata: Result<
    PartialNoteMetadata,
    RpcConversionError,
>)
    ensures
        metadata == partial_metadata_from_wire_of(value@),
{
    broadcast use AccountId::lemma_of_view;

    let sender = match &value.sender {
        None => {
            return Err(RpcConversionError::MissingField(Field::Sender));
        },
        Some(bytes) => match read_account_id(bytes.as_slice()) {
            Some(sender) => sender,
            None => {
                return Err(RpcConversionError::InvalidAccountId);
            },
        },
    };
    match note_type_from_wire(value.note_type) {
        Ok(note_type) => Ok(PartialNoteMetadata { sender, note_type, tag: value.tag }),
        Err(err) => Err(err),
    }
}

/// The metadata that a message stands for.
pub open spec fn metadata_from_wire_of(value: WireMetadataView) -> Result<
    NoteMetadata,
    RpcConversionError,
> {
    match partial_metadata_from_wire_of(value) {
        Err(err) => Err(err),
        Ok(partial) => match headers_from_wire_of(value.attachment_schemes) {
            Err(err) => Err(err),
            Ok(attachment_headers) => match value.attachments_commitment {
                None => Err(RpcConversionError::MissingField(Field::AttachmentsCommitment)),
                Some(digest) => match digest.word() {
                    Err(err) => Err(err),
                    Ok(attachments_commitment) => Ok(
                        NoteMetadata {
                            sender: partial.sender,
                            note_type: partial.note_type,
                            tag: partial.tag,
                            attachment_headers,
                            attachments_commitment,
                        },
                    ),
                },
            },
        },
    }
}

/// Reads the metadata out of a message.
pub fn metadata_from_wire(value: &WireNoteMetadata) -> (metadata: Result<
    NoteMetadata,
    RpcConversionError,
>)
    ensures
        metadata == metadata_from_wire_of(value@),
{
    let partial = match partial_metadata_from_wire(value) {
        Ok(partial) => partial,
        Err(err) => {
            return Err(err);
        },
    };
    let attachment_headers = match attachment_headers_from_wire(&value.attachment_schemes) {
        Ok(headers) => headers,
        Err(err) => {
            return Err(err);
        },
    };
    let digest = match value.attachments_commitment {
        Some(digest) => digest,
        None => {
            return Err(RpcConversionError::MissingField(Field::AttachmentsCommitment));
        },
    };
    match digest.to_word() {
        Ok(attachments_commitment) => Ok(
            NoteMetadata {
                sender: partial.sender,
                note_type: partial.note_type,
                tag: partial.tag,
                attachment_headers,
                attachments_commitment,
            },
        ),
        Err(err) => Err(err),
    }
}

/// The message that stands for some metadata.
pub open spec fn metadata_to_wire_of(metadata: NoteMetadata) -> WireMetadataView {
    WireMetadataView {
        sender: Some(account_id_bytes_of(metadata.sender@)),
        note_type: note_type_to_wire_of(metadata.note_type),
        tag: metadata.tag,
        attachment_schemes: schemes_to_wire_of(metadata.attachment_headers),
        attachments_commitment: Some(WireDigest::spec_of(metadata.attachments_commitment)),
    }
}

/// Writes metadata as a message. Reading the message gives valid metadata back.
pub fn metadata_to_wire(metadata: &NoteMetadata) -> (value: WireNoteMetadata)
    ensures
        value@ == metadata_to_wire_of(*metadata),
        headers_wf(metadata.attachment_headers) && metadata.attachments_commitment.is_canonical()
            ==> metadata_from_wire_of(value@) == Ok::<NoteMetadata, RpcConversionError>(*metadata),
{
    broadcast use AccountId::lemma_of_view;

    let sender = account_id_bytes(metadata.sender);
    proof {
        assert(sender@ + Seq::<u8>::empty() =~= sender@);
        assert(account_id_read_of(sender@ + Seq::<u8>::empty()) == Some(metadata.sender@));
        if headers_wf(metadata.attachment_headers) {
            law_headers_round_trip(metadata.attachment_headers);
        }
    }
    WireNoteMetadata {
        sender: Some(sender),
        note_type: note_type_to_wire(metadata.note_type),
        tag: metadata.tag,
        attachment_schemes: attachment_schemes_to_wire(&metadata.attachment_headers),
        attachments_commitment: Some(WireDigest::from_word(metadata.attachments_commitment)),
    }
}

// HEADERS AND PROOFS
// ================================================================================================

/// A note's details commitment and metadata.
#[derive(Clone, Copy, Debug, PartialEq, Eq, Structural)]
pub struct NoteHeader {
    pub details_commitment: NoteDetailsCommitment,
    pub metadata: NoteMetadata,
}

pub open spec fn view_wire_metadata(metadata: Option<WireNoteMetadata>) -> Option<
    WireMetadataView,
> {
    match metadata {
        Some(metadata) => Some(metadata@),
        None => None,
    }
}

/// The header that a message stands for.
pub open spec fn header_of_wire(
    details_commitment: Option<WireDigest>,
    metadata: Option<WireMetadataView>,
) -> Result<NoteHeader, RpcConversionError> {
    match details_commitment {
        None => Err(RpcConversionError::MissingField(Field::DetailsCommitment)),
        Some(digest) => match digest.word() {
            Err(err) => Err(err),
            Ok(word) => match metadata {
                None => Err(RpcConversionError::MissingField(Field::Metadata)),
                Some(metadata) => match metadata_from_wire_of(metadata) {
                    Err(err) => Err(err),
                    Ok(metadata) => Ok(
                        NoteHeader {
                            details_commitment: NoteDetailsCommitment { word },
                            metadata,
                        },
                    ),
                },
            },
        },
    }
}

/// Reads a note header out of a message.
pub fn note_header_from_wire(value: &WireNoteHeader) -> (header: Result<
    NoteHeader,
    RpcConversionError,
>)
    ensures
        header == header_of_wire(value.details_commitment, view_wire_metadata(value.metadata)),
{
    let word = match value.details_commitment {
        None => {
            return Err(RpcConversionError::MissingField(Field::DetailsCommitment));
        },
        Some(digest) => match digest.to_word() {
            Ok(word) => word,
            Err(err) => {
                return Err(err);
            },
        },
    };
    match &value.metadata {
        None => Err(RpcConversionError::MissingField(Field::Metadata)),
        Some(metadata) => match metadata_from_wire(metadata) {
            Ok(metadata) => Ok(
                NoteHeader { details_commitment: NoteDetailsCommitment { word }, metadata },
            ),
            Err(err) => Err(err),
        },
    }
}

/// The words that some digests stand for; the first digest that stands for none decides.
pub open spec fn words_of(digests: Seq<WireDigest>) -> Result<Seq<Word>, RpcConversionError>
    decreases digests.len(),
{
    if digests.len() == 0 {
        Ok(Seq::empty())
    } else {
        match words_of(digests.drop_last()) {
            Err(err) => Err(err),
            Ok(words) => match digests.last().word() {
                Err(err) => Err(err),
                Ok(word) => Ok(words.push(word)),
            },
        }
    }
}

proof fn lemma_words_prefix_error(digests: Seq<WireDigest>, i: int)
    requires
        0 <= i <= digests.len(),
        words_of(digests.take(i)) is Err,
    ensures
        words_of(digests) == words_of(digests.take(i)),
    decreases digests.len() - i,
{
    if i == digests.len() {
        assert(digests.take(i) =~= digests);
    } else {
        assert(digests.take(i + 1).drop_last() =~= digests.take(i));
        lemma_words_prefix_error(digests, i + 1);
    }
}

pub open spec fn view_words(words: Result<Vec<Word>, RpcConversionError>) -> Result<
    Seq<Word>,
    RpcConversionError,
> {
    match words {
        Ok(words) => Ok(words@),
        Err(err) => Err(err),
    }
}

/// Reads words out of digests.
pub fn words_from_wire(digests: &Vec<WireDigest>) -> (words: Result<Vec<Word>, RpcConversionError>)
    ensures
        view_words(words) == words_of(digests@),
{
    let mut words: Vec<Word> = Vec::new();
    let mut i: usize = 0;
    while i < digests.len()
        invariant
            i <= digests.len(),
            words_of(digests@.take(i as int)) == Ok::<Seq<Word>, RpcConversionError>(words@),
        decreases digests.len() - i,
    {
        proof {
            assert(digests@.take(i + 1).drop_last() =~= digests@.take(i as int));
            assert(digests@.take(i + 1).last() == digests@[i as int]);
        }
        match digests[i].to_word() {
            Ok(word) => {
                words.push(word);
            },
            Err(err) => {
                proof {
                    lemma_words_prefix_error(digests@, i + 1);
                }
                return Err(err);
            },
        }
        i += 1;
    }
    assert(digests@.take(digests@.len() as int) =~= digests@);
    Ok(words)
}

/// The number of binary digits of a mask.
pub open spec fn bit_length(mask: u64) -> nat
    decreases mask,
{
    if mask == 0 {
        0
    } else {
        1 + bit_length(mask / 2)
    }
}

/// The number of ones among the binary digits of a mask.
pub open spec fn count_ones(mask: u64) -> nat
    decreases mask,
{
    if mask == 0 {
        0
    } else {
        (mask % 2) as nat + count_ones(mask / 2)
    }
}

/// Whether a mask of empty nodes and the other nodes make a path: below the mask's highest one
/// there is a node for each zero, and the path is no longer than 64 nodes. The length is looked
/// at modulo 256.
pub open spec fn is_sparse_path(empty_nodes_mask: u64, nodes: Seq<Word>) -> bool {
    &&& nodes.len() + count_ones(empty_nodes_mask) >= bit_length(empty_nodes_mask)
    &&& (nodes.len() + count_ones(empty_nodes_mask)) % 256 <= 64
}

/// Puts a note's place together with `SparseMerklePath::from_parts` and
/// `NoteInclusionProof::new`. The claim is that this succeeds exactly when the mask and the nodes
/// make a path: every 16-bit index is one that a block has.
#[verifier::external_body]
fn is_proof_accepted(block_num: BlockNumber, index: u16, mask: u64, nodes: &Vec<Word>) -> (accepted:
    bool)
    ensures
        accepted == is_sparse_path(mask, nodes@),
{
    let felt = miden_protocol::Felt::new_unchecked;
    let nodes = nodes.iter().map(|w| miden_protocol::Word::new([felt(w.a), felt(w.b), felt(w.c), felt(w.d)]));
    let path = miden_protocol::crypto::merkle::SparseMerklePath::from_parts(mask, nodes.collect());
    path.is_ok_and(|path| miden_protocol::note::NoteInclusionProof::new(block_num.into(), index, path).is_ok())
}

/// What a [`WireSparsePath`] stands for.
#[verifier::ext_equal]
pub ghost struct SparsePathView {
    pub empty_nodes_mask: u64,
    pub siblings: Seq<WireDigest>,
}

/// What a [`WireInclusionProof`] stands for.
#[verifier::ext_equal]
pub ghost struct WireProofView {
    pub note_id: Option<Option<WireDigest>>,
    pub block_num: BlockNumber,
    pub note_index_in_block: u32,
    pub inclusion_path: Option<SparsePathView>,
}

impl View for WireInclusionProof {
    type V = WireProofView;

    open spec fn view(&self) -> WireProofView {
        WireProofView {
            note_id: self.note_id,
            block_num: self.block_num,
            note_index_in_block: self.note_index_in_block,
            inclusion_path: match self.inclusion_path {
                Some(path) => Some(
                    SparsePathView {
                        empty_nodes_mask: path.empty_nodes_mask,
                        siblings: path.siblings@,
                    },
                ),
                None => None,
            },
        }
    }
}

/// The inclusion proof that a message stands for.
pub open spec fn proof_from_wire_of(value: WireProofView) -> Result<ProofView, RpcConversionError> {
    if value.note_index_in_block > u16::MAX {
        Err(RpcConversionError::NoteIndexInBlock)
    } else {
        match value.inclusion_path {
            None => Err(RpcConversionError::MissingField(Field::InclusionPath)),
            Some(path) => match words_of(path.siblings) {
                Err(err) => Err(err),
                Ok(nodes) => if is_sparse_path(path.empty_nodes_mask, nodes) {
                    Ok(
                        ProofView {
                            block_num: value.block_num,
                            note_index: value.note_index_in_block as u16,
                            empty_nodes_mask: path.empty_nodes_mask,
                            path: nodes,
                        },
                    )
                } else {
                    Err(RpcConversionError::InvalidPath)
                },
            },
        }
    }
}

pub open spec fn view_inclusion(
    inclusion: Result<NoteInclusionProof, RpcConversionError>,
) -> Result<ProofView, RpcConversionError> {
    match inclusion {
        Ok(inclusion) => Ok(inclusion@),
        Err(err) => Err(err),
    }
}

/// Reads an inclusion proof out of a message.
pub fn inclusion_proof_from_wire(value: &WireInclusionProof) -> (inclusion: Result<
    NoteInclusionProof,
    RpcConversionError,
>)
    ensures
        view_inclusion(inclusion) == proof_from_wire_of(value@),
{
    if value.note_index_in_block > u16::MAX as u32 {
        return Err(RpcConversionError::NoteIndexInBlock);
    }
    let note_index: u16 = value.note_index_in_block as u16;
    let wire_path = match &value.inclusion_path {
        Some(path) => path,
        None => {
            return Err(RpcConversionError::MissingField(Field::InclusionPath));
        },
    };
    let path = match words_from_wire(&wire_path.siblings) {
        Ok(path) => path,
        Err(err) => {
            return Err(err);
        },
    };
    if !is_proof_accepted(value.block_num, note_index, wire_path.empty_nodes_mask, &path) {
        return Err(RpcConversionError::InvalidPath);
    }
    Ok(
        NoteInclusionProof {
            block_num: value.block_num,
            note_index,
            empty_nodes_mask: wire_path.empty_nodes_mask,
            path,
        },
    )
}

// COMMITTED NOTES
// ================================================================================================

/// A committed note of a sync response.
#[derive(Debug)]
pub struct CommittedNote {
    pub note_id: NoteId,
    pub metadata: NoteMetadata,
    pub inclusion_proof: NoteInclusionProof,
}

/// What a [`CommittedNote`] stands for.
#[verifier::ext_equal]
pub ghost struct CommittedView {
    pub note_id: NoteId,
    pub metadata: NoteMetadata,
    pub inclusion_proof: ProofView,
}

impl View for CommittedNote {
    type V = CommittedView;

    open spec fn view(&self) -> CommittedView {
        CommittedView {
            note_id: self.note_id,
            metadata: self.metadata,
            inclusion_proof: self.inclusion_proof@,
        }
    }
}

impl Clone for CommittedNote {
    fn clone(&self) -> (copy: Self)
        ensures
            copy@ == self@,
    {
        CommittedNote {
            note_id: self.note_id,
            metadata: self.metadata,
            inclusion_proof: self.inclusion_proof.clone(),
        }
    }
}

impl CommittedNote {
    pub fn new(
        note_id: NoteId,
        metadata: NoteMetadata,
        inclusion_proof: NoteInclusionProof,
    ) -> (note: CommittedNote)
        ensures
            note@ == (CommittedView { note_id, metadata, inclusion_proof: inclusion_proof@ }),
    {
        CommittedNote { note_id, metadata, inclusion_proof }
    }

    pub fn note_id(&self) -> (note_id: &NoteId)
        ensures
            *note_id == self.note_id,
    {
        &self.note_id
    }

    pub fn note_type(&self) -> (note_type: NoteType)
        ensures
            note_type == self.metadata.note_type,
    {
        self.metadata.note_type
    }

    pub fn tag(&self) -> (tag: NoteTag)
        ensures
            tag == self.metadata.tag,
    {
        self.metadata.tag
    }

    pub fn sender(&self) -> (sender: AccountId)
        ensures
            sender == self.metadata.sender,
    {
        self.metadata.sender
    }

    pub fn metadata(&self) -> (metadata: &NoteMetadata)
        ensures
            *metadata == self.metadata,
    {
        &self.metadata
    }

    pub fn inclusion_proof(&self) -> (inclusion: &NoteInclusionProof)
        ensures
            *inclusion == self.inclusion_proof,
    {
        &self.inclusion_proof
    }
}

pub open spec fn view_wire_proof(inclusion: Option<WireInclusionProof>) -> Option<WireProofView> {
    match inclusion {
        Some(inclusion) => Some(inclusion@),
        None => None,
    }
}

/// The committed note that a message stands for.
pub open spec fn committed_of_wire(
    metadata: Option<WireMetadataView>,
    inclusion: Option<WireProofView>,
) -> Result<CommittedView, RpcConversionError> {
    match metadata {
        None => Err(RpcConversionError::MissingField(Field::NoteMetadata)),
        Some(metadata) => match metadata_from_wire_of(metadata) {
            Err(err) => Err(err),
            Ok(metadata) => match inclusion {
                None => Err(RpcConversionError::MissingField(Field::InclusionProof)),
                Some(inclusion) => match inclusion.note_id {
                    None => Err(RpcConversionError::MissingField(Field::InclusionProofNoteId)),
                    Some(id) => match note_id_from_wire_of(id) {
                        Err(err) => Err(err),
                        Ok(note_id) => match proof_from_wire_of(inclusion) {
                            Err(err) => Err(err),
                            Ok(inclusion_proof) => Ok(
                                CommittedView { note_id, metadata, inclusion_proof },
                            ),
                        },
                    },
                },
            },
        },
    }
}

pub open spec fn view_committed(note: Result<CommittedNote, RpcConversionError>) -> Result<
    CommittedView,
    RpcConversionError,
> {
    match note {
        Ok(note) => Ok(note@),
        Err(err) => Err(err),
    }
}

/// Reads a committed note out of a message.
pub fn committed_note_from_wire(value: &WireSyncRecord) -> (note: Result<
    CommittedNote,
    RpcConversionError,
>)
    ensures
        view_committed(note) == committed_of_wire(
            view_wire_metadata(value.metadata),
            view_wire_proof(value.inclusion_proof),
        ),
{
    let metadata = match &value.metadata {
        None => {
            return Err(RpcConversionError::MissingField(Field::NoteMetadata));
        },
        Some(metadata) => match metadata_from_wire(metadata) {
            Ok(metadata) => metadata,
            Err(err) => {
                return Err(err);
            },
        },
    };
    let wire_proof = match &value.inclusion_proof {
        None => {
            return Err(RpcConversionError::MissingField(Field::InclusionProof));
        },
        Some(wire_proof) => wire_proof,
    };
    let note_id = match wire_proof.note_id {
        None => {
            return Err(RpcConversionError::MissingField(Field::InclusionProofNoteId));
        },
        Some(id) => match note_id_from_wire(id) {
            Ok(note_id) => note_id,
            Err(err) => {
                return Err(err);
            },
        },
    };
    match inclusion_proof_from_wire(wire_proof) {
        Ok(inclusion_proof) => Ok(CommittedNote::new(note_id, metadata, inclusion_proof)),
        Err(err) => Err(err),
    }
}

// SYNC BLOCKS
// ================================================================================================

/// One block's matching notes in a sync response.
pub struct NoteSyncBlock {
    pub block_header: BlockHeader,
    /// The path from the block to the peaks at the end of the synced range.
    pub mmr_path: Vec<Word>,
    /// The matching notes.
    pub notes: SortedMap<NoteId, CommittedNote>,
}

/// What a node answers when asked for notes with some tags, with their content.
pub struct SyncNotesResult {
    /// The blocks with matching notes.
    pub blocks: Vec<NoteSyncBlock>,
    /// The public notes among them.
    pub public_notes: SortedMap<NoteId, Note>,
    /// The attachments of the private notes that carry some.
    pub private_attachments: SortedMap<NoteId, Vec<NoteAttachment>>,
}

/// One block's matching notes on the wire. The header is read apart, since it may be missing or
/// unreadable.
pub struct WireSyncBlock {
    pub block_header: Option<Vec<u8>>,
    pub mmr_path: Option<Vec<WireDigest>>,
    pub notes: Vec<WireSyncRecord>,
}

/// The committed note that one record of a block stands for.
pub open spec fn record_note(record: WireSyncRecord) -> Result<CommittedView, RpcConversionError> {
    committed_of_wire(
        view_wire_metadata(record.metadata),
        view_wire_proof(record.inclusion_proof),
    )
}

/// The notes that the records of a block stand for; of two with one identifier the later counts,
/// and the first that cannot be read decides.
pub open spec fn notes_of_records(records: Seq<WireSyncRecord>) -> Result<
    Map<NoteId, CommittedView>,
    RpcConversionError,
>
    decreases records.len(),
{
    if records.len() == 0 {
        Ok(Map::empty())
    } else {
        match notes_of_records(records.drop_last()) {
            Err(err) => Err(err),
            Ok(notes) => match record_note(records.last()) {
                Err(err) => Err(err),
                Ok(note) => Ok(notes.insert(note.note_id, note)),
            },
        }
    }
}

/// The views of the notes in a map.
pub open spec fn view_note_map(notes: Map<NoteId, CommittedNote>) -> Map<NoteId, CommittedView> {
    notes.map_values(|note: CommittedNote| note@)
}

proof fn lemma_notes_prefix_error(records: Seq<WireSyncRecord>, i: int)
    requires
        0 <= i <= records.len(),
        notes_of_records(records.take(i)) is Err,
    ensures
        notes_of_records(records) == notes_of_records(records.take(i)),
    decreases records.len() - i,
{
    if i == records.len() {
        assert(records.take(i) =~= records);
    } else {
        assert(records.take(i + 1).drop_last() =~= records.take(i));
        lemma_notes_prefix_error(records, i + 1);
    }
}

fn notes_from_records(records: &Vec<WireSyncRecord>) -> (notes: Result<
    SortedMap<NoteId, CommittedNote>,
    RpcConversionError,
>)
    ensures
        match notes {
            Ok(notes) => Ok(view_note_map(notes@)),
            Err(err) => Err(err),
        } == notes_of_records(records@),
        notes matches Ok(notes) ==> notes.wf(),
{
    let mut notes: SortedMap<NoteId, CommittedNote> = SortedMap::new();
    assert(view_note_map(notes@) =~= Map::empty());
    let mut i: usize = 0;
    while i < records.len()
        invariant
            i <= records.len(),
            notes.wf(),
            notes_of_records(records@.take(i as int)) == Ok::<
                Map<NoteId, CommittedView>,
                RpcConversionError,
            >(view_note_map(notes@)),
        decreases records.len() - i,
    {
        proof {
            assert(records@.take(i + 1).drop_last() =~= records@.take(i as int));
            assert(records@.take(i + 1).last() == records@[i as int]);
        }
        match committed_note_from_wire(&records[i]) {
            Ok(note) => {
                let ghost before = notes@;
                let ghost view = note@;
                notes.insert(note.note_id, note);
                assert(view_note_map(notes@) =~= view_note_map(before).insert(view.note_id, view));
            },
            Err(err) => {
                proof {
                    lemma_notes_prefix_error(records@, i + 1);
                }
                return Err(err);
            },
        }
        i += 1;
    }
    assert(records@.take(records@.len() as int) =~= records@);
    Ok(notes)
}

/// What reading a block's message gives: the header's parts, the path and the notes.
pub open spec fn sync_block_of_wire(
    block_header: Option<Seq<u8>>,
    mmr_path: Option<Seq<WireDigest>>,
    records: Seq<WireSyncRecord>,
) -> Result<(HeaderView, Seq<Word>, Map<NoteId, CommittedView>), RpcConversionError> {
    match block_header {
        None => Err(RpcConversionError::MissingField(Field::BlockHeader)),
        Some(bytes) => match header_fields_of(bytes) {
            None => Err(RpcConversionError::InvalidBlockHeader),
            Some(fields) => match mmr_path {
                None => Err(RpcConversionError::MissingField(Field::MmrPath)),
                Some(digests) => match words_of(digests) {
                    Err(err) => Err(err),
                    Ok(path) => match notes_of_records(records) {
                        Err(err) => Err(err),
                        Ok(notes) => Ok((HeaderView { fields, bytes }, path, notes)),
                    },
                },
            },
        },
    }
}

/// Reads one block's matching notes out of a message.
pub fn note_sync_block_from_wire(block: WireSyncBlock) -> (result: Result<
    NoteSyncBlock,
    RpcConversionError,
>)
    ensures
        match result {
            Ok(read) => Ok((read.block_header@, read.mmr_path@, view_note_map(read.notes@))),
            Err(err) => Err(err),
        } == sync_block_of_wire(
            match block.block_header {
                Some(bytes) => Some(bytes@),
                None => None,
            },
            match block.mmr_path {
                Some(digests) => Some(digests@),
                None => None,
            },
            block.notes@,
        ),
        result matches Ok(read) ==> read.notes.wf() && read.block_header.wf(),
{
    let block_header = match block.block_header {
        None => {
            return Err(RpcConversionError::MissingField(Field::BlockHeader));
        },
        Some(bytes) => match BlockHeader::from_bytes(bytes) {
            Some(header) => header,
            None => {
                return Err(RpcConversionError::InvalidBlockHeader);
            },
        },
    };
    let mmr_path = match &block.mmr_path {
        None => {
            return Err(RpcConversionError::MissingField(Field::MmrPath));
        },
        Some(digests) => match words_from_wire(digests) {
            Ok(path) => path,
            Err(err) => {
                return Err(err);
            },
        },
    };
    match notes_from_records(&block.notes) {
        Ok(notes) => Ok(NoteSyncBlock { block_header, mmr_path, notes }),
        Err(err) => Err(err),
    }
}

// FETCHED NOTES
// ================================================================================================

/// A note fetched by its identifier.
#[derive(Debug)]
pub enum FetchedNote {
    /// A private note: its details are kept off chain, its attachments are not.
    Private(NoteId, NoteMetadata, Vec<NoteAttachment>, NoteInclusionProof),
    /// A public note with its metadata and attachments.
    Public(Note, NoteMetadata, Vec<NoteAttachment>, NoteInclusionProof),
}

/// What a [`FetchedNote`] stands for.
#[verifier::ext_equal]
pub ghost enum FetchedView {
    Private(NoteId, NoteMetadata, Seq<AttachmentView>, ProofView),
    Public(NoteView, NoteMetadata, Seq<AttachmentView>, ProofView),
}

impl View for FetchedNote {
    type V = FetchedView;

    open spec fn view(&self) -> FetchedView {
        match *self {
            FetchedNote::Private(id, metadata, attachments, inclusion) => FetchedView::Private(
                id,
                metadata,
                view_attachments(attachments@),
                inclusion@,
            ),
            FetchedNote::Public(note, metadata, attachments, inclusion) => FetchedView::Public(
                note@,
                metadata,
                view_attachments(attachments@),
                inclusion@,
            ),
        }
    }
}

impl FetchedView {
    pub open spec fn id(self) -> NoteId {
        match self {
            FetchedView::Private(id, _, _, _) => id,
            FetchedView::Public(note, _, _, _) => note.id,
        }
    }

    pub open spec fn metadata(self) -> NoteMetadata {
        match self {
            FetchedView::Private(_, metadata, _, _) => metadata,
            FetchedView::Public(_, metadata, _, _) => metadata,
        }
    }

    pub open spec fn attachments(self) -> Seq<AttachmentView> {
        match self {
            FetchedView::Private(_, _, attachments, _) => attachments,
            FetchedView::Public(_, _, attachments, _) => attachments,
        }
    }

    pub open spec fn inclusion_proof(self) -> ProofView {
        match self {
            FetchedView::Private(_, _, _, inclusion) => inclusion,
            FetchedView::Public(_, _, _, inclusion) => inclusion,
        }
    }
}

impl FetchedNote {
    /// The note's identifier.
    pub fn id(&self) -> (id: NoteId)
        ensures
            id == self@.id(),
    {
        match self {
            FetchedNote::Private(id, _, _, _) => *id,
            FetchedNote::Public(note, _, _, _) => note.id(),
        }
    }

    /// The note's metadata.
    pub fn metadata(&self) -> (metadata: &NoteMetadata)
        ensures
            *metadata == self@.metadata(),
    {
        match self {
            FetchedNote::Private(_, metadata, _, _) => metadata,
            FetchedNote::Public(_, metadata, _, _) => metadata,
        }
    }

    /// The note's attachments.
    pub fn attachments(&self) -> (attachments: &Vec<NoteAttachment>)
        ensures
            view_attachments(attachments@) == self@.attachments(),
    {
        match self {
            FetchedNote::Private(_, _, attachments, _) => attachments,
            FetchedNote::Public(_, _, attachments, _) => attachments,
        }
    }

    /// The note's place in its block.
    pub fn inclusion_proof(&self) -> (inclusion: &NoteInclusionProof)
        ensures
            inclusion@ == self@.inclusion_proof(),
    {
        match self {
            FetchedNote::Private(_, _, _, inclusion) => inclusion,
            FetchedNote::Public(_, _, _, inclusion) => inclusion,
        }
    }
}

/// The bytes of the note that `Note::with_attachments` builds from encoded details, a sender, a
/// note type, a tag and encoded attachments, if both encodings can be read.
pub uninterp spec fn public_note_of(
    details: Seq<u8>,
    sender: u128,
    note_type: NoteType,
    tag: u32,
    attachments: Seq<u8>,
) -> Option<Seq<u8>>;

/// Decodes details and attachments, puts a note together with `Note::with_attachments` and
/// serialises it. The claims are that the bytes depend on the arguments alone and encode a note.
#[verifier::external_body]
fn assemble_note(
    details: &Vec<u8>,
    partial: &PartialNoteMetadata,
    public: bool,
    attachments: &Vec<u8>,
) -> (bytes: Option<Vec<u8>>)
    requires
        public == (partial.note_type == NoteType::Public),
    ensures
        match bytes {
            Some(bytes) => Some(bytes@),
            None => None,
        } == public_note_of(
            details@,
            partial.sender@,
            partial.note_type,
            partial.tag,
            attachments@,
        ),
        bytes matches Some(bytes) ==> note_id_of(bytes@) is Some,
{
    let details = miden_protocol::note::NoteDetails::read_from_bytes(details).ok()?;
    let attachments = miden_protocol::note::NoteAttachments::read_from_bytes(attachments).ok()?;
    let (assets, recipient) = details.into_parts();
    let sender = partial.sender.raw.try_into().ok()?;
    let note_type = u8::from(public).try_into().ok()?;
    let metadata = miden_protocol::note::PartialNoteMetadata::new(sender, note_type).with_tag(partial.tag.into());
    let note = miden_protocol::note::Note::with_attachments(assets, metadata, recipient, attachments);
    Some(note.to_bytes())
}

/// What the content of a fetched note stands for.
#[verifier::ext_equal]
pub ghost struct WireNoteView {
    pub metadata: Option<WireMetadataView>,
    pub details: Option<Seq<u8>>,
    pub attachments: Seq<u8>,
}

impl View for WireNote {
    type V = WireNoteView;

    open spec fn view(&self) -> WireNoteView {
        WireNoteView {
            metadata: view_wire_metadata(self.metadata),
            details: match self.details {
                Some(details) => Some(details@),
                None => None,
            },
            attachments: self.attachments@,
        }
    }
}

pub open spec fn view_wire_note(note: Option<WireNote>) -> Option<WireNoteView> {
    match note {
        Some(note) => Some(note@),
        None => None,
    }
}

/// The encoding of a message's attachments: no bytes stand for no attachments, which encode as a
/// count of zero.
pub open spec fn attachment_bytes(attachments: Seq<u8>) -> Seq<u8> {
    if attachments.len() == 0 {
        seq![0u8]
    } else {
        attachments
    }
}

/// The attachments that a message's bytes stand for.
pub open spec fn attachments_from_wire_of(attachments: Seq<u8>) -> Option<Seq<AttachmentView>> {
    if attachments.len() == 0 {
        Some(Seq::empty())
    } else {
        attachments_of(attachments)
    }
}

/// The fetched note that content with readable metadata and a place in a block stands for.
pub open spec fn content_of_wire(
    note_id: NoteId,
    inclusion: ProofView,
    content: WireNoteView,
    metadata: NoteMetadata,
    partial: PartialNoteMetadata,
) -> Result<FetchedView, RpcConversionError> {
    match attachments_from_wire_of(content.attachments) {
        None => Err(RpcConversionError::Deserialization),
        Some(attachments) => match content.details {
            None => Ok(FetchedView::Private(note_id, metadata, attachments, inclusion)),
            Some(details) => match public_note_of(
                details,
                partial.sender@,
                partial.note_type,
                partial.tag,
                attachment_bytes(content.attachments),
            ) {
                None => Err(RpcConversionError::Deserialization),
                Some(bytes) => match (note_id_of(bytes), metadata_of(bytes)) {
                    (Some(id), Some(note_metadata)) => Ok(
                        FetchedView::Public(
                            NoteView { id, bytes },
                            note_metadata,
                            attachments,
                            inclusion,
                        ),
                    ),
                    _ => Err(RpcConversionError::Deserialization),
                },
            },
        },
    }
}

/// The fetched note that a message stands for.
pub open spec fn fetched_of_wire(
    inclusion: Option<WireProofView>,
    content: Option<WireNoteView>,
) -> Result<FetchedView, RpcConversionError> {
    match inclusion {
        None => Err(RpcConversionError::MissingField(Field::InclusionProof)),
        Some(inclusion) => match inclusion.note_id {
            None => Err(RpcConversionError::MissingField(Field::InclusionProofNoteId)),
            Some(id) => match note_id_from_wire_of(id) {
                Err(err) => Err(err),
                Ok(note_id) => match proof_from_wire_of(inclusion) {
                    Err(err) => Err(err),
                    Ok(place) => match content {
                        None => Err(RpcConversionError::MissingField(Field::Note)),
                        Some(content) => match content.metadata {
                            None => Err(RpcConversionError::MissingField(Field::NoteMetadata)),
                            Some(wire) => match (
                                metadata_from_wire_of(wire),
                                partial_metadata_from_wire_of(wire),
                            ) {
                                (Err(err), _) => Err(err),
                                (_, Err(err)) => Err(err),
                                (Ok(metadata), Ok(partial)) => content_of_wire(
                                    note_id,
                                    place,
                                    content,
                                    metadata,
                                    partial,
                                ),
                            },
                        },
                    },
                },
            },
        },
    }
}

pub open spec fn view_fetched(note: Result<FetchedNote, RpcConversionError>) -> Result<
    FetchedView,
    RpcConversionError,
> {
    match note {
        Ok(note) => Ok(note@),
        Err(err) => Err(err),
    }
}

fn content_from_wire(
    note_id: NoteId,
    inclusion: NoteInclusionProof,
    content: &WireNote,
    metadata: NoteMetadata,
    partial: PartialNoteMetadata,
) -> (note: Result<FetchedNote, RpcConversionError>)
    ensures
        view_fetched(note) == content_of_wire(note_id, inclusion@, content@, metadata, partial),
{
    let attachments: Vec<NoteAttachment> = if content.attachments.is_empty() {
        Vec::new()
    } else {
        match decode_attachments(&content.attachments) {
            Some(attachments) => attachments,
            None => {
                return Err(RpcConversionError::Deserialization);
            },
        }
    };
    assert(content.attachments@.len() == 0 ==> view_attachments(attachments@) =~= Seq::empty());
    let details = match &content.details {
        None => {
            return Ok(FetchedNote::Private(note_id, metadata, attachments, inclusion));
        },
        Some(details) => details,
    };
    let mut encoded = content.attachments.clone();
    assert(encoded@ =~= content.attachments@);
    if encoded.is_empty() {
        encoded.push(0);
    }
    assert(encoded@ =~= attachment_bytes(content.attachments@));
    let public = matches!(partial.note_type, NoteType::Public);
    let bytes = match assemble_note(details, &partial, public, &encoded) {
        Some(bytes) => bytes,
        None => {
            return Err(RpcConversionError::Deserialization);
        },
    };
    match Note::from_bytes(bytes) {
        Some(note) => match note.metadata() {
            Some(note_metadata) => Ok(
                FetchedNote::Public(note, note_metadata, attachments, inclusion),
            ),
            None => Err(RpcConversionError::Deserialization),
        },
        None => Err(RpcConversionError::Deserialization),
    }
}

/// Reads a fetched note out of a message. A note with details is public, one without is private.
pub fn fetched_note_from_wire(value: &WireCommittedNote) -> (note: Result<
    FetchedNote,
    RpcConversionError,
>)
    ensures
        view_fetched(note) == fetched_of_wire(
            view_wire_proof(value.inclusion_proof),
            view_wire_note(value.note),
        ),
{
    let wire_proof = match &value.inclusion_proof {
        None => {
            return Err(RpcConversionError::MissingField(Field::InclusionProof));
        },
        Some(wire_proof) => wire_proof,
    };
    let note_id = match wire_proof.note_id {
        None => {
            return Err(RpcConversionError::MissingField(Field::InclusionProofNoteId));
        },
        Some(id) => match note_id_from_wire(id) {
            Ok(note_id) => note_id,
            Err(err) => {
                return Err(err);
            },
        },
    };
    let inclusion = match inclusion_proof_from_wire(wire_proof) {
        Ok(inclusion) => inclusion,
        Err(err) => {
            return Err(err);
        },
    };
    let content = match &value.note {
        None => {
            return Err(RpcConversionError::MissingField(Field::Note));
        },
        Some(content) => content,
    };
    let wire_metadata = match &content.metadata {
        None => {
            return Err(RpcConversionError::MissingField(Field::NoteMetadata));
        },
        Some(wire_metadata) => wire_metadata,
    };
    let metadata = match metadata_from_wire(wire_metadata) {
        Ok(metadata) => metadata,
        Err(err) => {
            return Err(err);
        },
    };
    let partial = match partial_metadata_from_wire(wire_metadata) {
        Ok(partial) => partial,
        Err(err) => {
            return Err(err);
        },
    };
    content_from_wire(note_id, inclusion, content, metadata, partial)
}

// NOTE SCRIPTS
// ================================================================================================

/// The bytes of the note script with the given code and entry point, if there is one.
pub uninterp spec fn note_script_of(mast: Seq<u8>, entrypoint: u32) -> Option<Seq<u8>>;

/// Decodes a script's code with `MastForest::read_from_bytes`, finds its entry point with
/// `MastNodeId::from_u32_safe`, puts the two together with `NoteScript::from_parts` and
/// serialises the script. The claim is that the bytes depend on the arguments alone.
#[verifier::external_body]
fn assemble_script(mast: &Vec<u8>, entrypoint: u32) -> (script: Option<Vec<u8>>)
    ensures
        match script {
            Some(script) => Some(script@),
            None => None,
        } == note_script_of(mast@, entrypoint),
{
    let forest = miden_protocol::MastForest::read_from_bytes(mast).ok()?;
    let entrypoint = miden_protocol::MastNodeId::from_u32_safe(entrypoint, &forest).ok()?;
    let script = miden_protocol::note::NoteScript::from_parts(std::sync::Arc::new(forest), entrypoint);
    Some(script.to_bytes())
}

/// Reads a note script, in its serialised form, out of a message.
pub fn note_script_from_wire(mast: &Vec<u8>, entrypoint: u32) -> (script: Result<
    Vec<u8>,
    RpcConversionError,
>)
    ensures
        match script {
            Ok(script) => Ok::<Seq<u8>, RpcConversionError>(script@),
            Err(err) => Err(err),
        } == (match note_script_of(mast@, entrypoint) {
            Some(script) => Ok::<Seq<u8>, RpcConversionError>(script),
            None => Err(RpcConversionError::Deserialization),
        }),
{
    match assemble_script(mast, entrypoint) {
        Some(script) => Ok(script),
        None => Err(RpcConversionError::Deserialization),
    }
}

// LAWS
// ================================================================================================

/// A digest is read as the word with its four elements, in their order, exactly where all four are
/// canonical; writing a word and reading the digest gives a canonical word back.
pub proof fn law_digest_is_read_in_order(digest: WireDigest, word: Word)
    ensures
        digest.word() matches Ok(read) ==> {
            &&& read.a == digest.d0
            &&& read.b == digest.d1
            &&& read.c == digest.d2
            &&& read.d == digest.d3
        },
        digest.word() is Ok <==> digest.d0 < FIELD_ORDER && digest.d1 < FIELD_ORDER && digest.d2
            < FIELD_ORDER && digest.d3 < FIELD_ORDER,
        digest.word() is Err ==> digest.word() == Err::<Word, RpcConversionError>(
            RpcConversionError::NotAValidFelt,
        ),
        word.is_canonical() ==> WireDigest::spec_of(word).word() == Ok::<Word, RpcConversionError>(
            word,
        ),
{
}

/// A note type is read exactly where it is one: public as public, private as private.
pub proof fn law_note_type_is_read(raw: WireNoteType, number: i32)
    ensures
        note_type_from_wire_of(raw) matches Ok(note_type) ==> note_type_to_wire_of(note_type) == raw,
        note_type_from_wire_of(WireNoteType::Public) == Ok::<NoteType, RpcConversionError>(
            NoteType::Public,
        ),
        note_type_from_wire_of(WireNoteType::Private) == Ok::<NoteType, RpcConversionError>(
            NoteType::Private,
        ),
        note_type_from_wire_of(WireNoteType::Unspecified) == Err::<NoteType, RpcConversionError>(
            RpcConversionError::UnspecifiedNoteType,
        ),
        note_type_from_wire_of(WireNoteType::Unknown(number)) == Err::<
            NoteType,
            RpcConversionError,
        >(RpcConversionError::UnknownNoteType(number)),
{
}

proof fn lemma_first_scheme_error(schemes: Seq<u32>, from: int)
    requires
        0 <= from <= schemes.len(),
    ensures
        match first_scheme_error(schemes, from) {
            Some(err) => exists|i: int|
                from <= i < schemes.len() && header_from_wire_of(i as usize, #[trigger] schemes[i])
                    == Err::<Option<u16>, RpcConversionError>(err) && forall|j: int|
                    from <= j < i ==> #[trigger] schemes[j] <= MAX_ATTACHMENT_SCHEME,
            None => forall|j: int|
                from <= j < schemes.len() ==> #[trigger] schemes[j] <= MAX_ATTACHMENT_SCHEME,
        },
    decreases schemes.len() - from,
{
    if from < schemes.len() {
        lemma_first_scheme_error(schemes, from + 1);
        if schemes[from] > MAX_ATTACHMENT_SCHEME {
            assert(header_from_wire_of(from as usize, schemes[from]) is Err);
        } else if let Some(err) = first_scheme_error(schemes, from + 1) {
            let i = choose|i: int|
                from + 1 <= i < schemes.len() && header_from_wire_of(
                    i as usize,
                    #[trigger] schemes[i],
                ) == Err::<Option<u16>, RpcConversionError>(err) && forall|j: int|
                    from + 1 <= j < i ==> #[trigger] schemes[j] <= MAX_ATTACHMENT_SCHEME;
            assert forall|j: int| from <= j < i implies #[trigger] schemes[j]
                <= MAX_ATTACHMENT_SCHEME by {}
            assert(header_from_wire_of(i as usize, schemes[i]) is Err);
        }
    }
}

/// Schemes are read exactly where there are no more of them than slots and none is too large. Each
/// slot then holds its scheme; a zero, and a slot that is left out, is empty. Too many schemes are
/// reported with their number, and otherwise the first that is too large with its slot.
pub proof fn law_schemes_are_read_by_slot(schemes: Seq<u32>)
    requires
        schemes.len() <= usize::MAX,
    ensures
        match headers_from_wire_of(schemes) {
            Ok(headers) => {
                &&& schemes.len() <= MAX_ATTACHMENTS
                &&& forall|i: int|
                    0 <= i < schemes.len() ==> #[trigger] schemes[i] <= MAX_ATTACHMENT_SCHEME
                &&& forall|i: int|
                    0 <= i < 4 ==> match #[trigger] headers.slots()[i] {
                        Some(scheme) => i < schemes.len() && schemes[i] == scheme && scheme > 0,
                        None => i < schemes.len() ==> schemes[i] == 0,
                    }
            },
            Err(RpcConversionError::TooManySchemes(count)) => count == schemes.len() && count
                > MAX_ATTACHMENTS,
            Err(RpcConversionError::SchemeTooLarge { slot, raw }) => {
                &&& slot < schemes.len() && schemes[slot as int] == raw && raw > u16::MAX
                &&& forall|j: int|
                    0 <= j < slot ==> #[trigger] schemes[j] <= MAX_ATTACHMENT_SCHEME
            },
            Err(RpcConversionError::InvalidScheme { slot, raw }) => {
                &&& slot < schemes.len() && schemes[slot as int] == raw && MAX_ATTACHMENT_SCHEME
                    < raw <= u16::MAX
                &&& forall|j: int|
                    0 <= j < slot ==> #[trigger] schemes[j] <= MAX_ATTACHMENT_SCHEME
            },
            Err(_) => false,
        },
{
    lemma_first_scheme_error(schemes, 0);
    if schemes.len() <= MAX_ATTACHMENTS {
        if let Some(err) = first_scheme_error(schemes, 0) {
            let i = choose|i: int|
                0 <= i < schemes.len() && header_from_wire_of(i as usize, #[trigger] schemes[i])
                    == Err::<Option<u16>, RpcConversionError>(err) && forall|j: int|
                    0 <= j < i ==> #[trigger] schemes[j] <= MAX_ATTACHMENT_SCHEME;
            assert(schemes[i as usize as int] == schemes[i]);
        } else {
            let headers = headers_from_wire_of(schemes).unwrap();
            assert(headers.slots()[0] == slot_from_wire(schemes, 0));
            assert(headers.slots()[1] == slot_from_wire(schemes, 1));
            assert(headers.slots()[2] == slot_from_wire(schemes, 2));
            assert(headers.slots()[3] == slot_from_wire(schemes, 3));
        }
    }
}

/// The schemes that are written are those of the slots, with a zero for an empty one, up to the last
/// slot that is not empty.
pub proof fn law_schemes_are_written_by_slot(headers: AttachmentHeaders)
    requires
        headers_wf(headers),
    ensures
        ({
            let schemes = schemes_to_wire_of(headers);
            &&& schemes.len() <= 4
            &&& schemes.len() > 0 ==> schemes.last() != 0
            &&& forall|i: int|
                0 <= i < 4 ==> match #[trigger] headers.slots()[i] {
                    Some(scheme) => i < schemes.len() && schemes[i] == scheme,
                    None => i < schemes.len() ==> schemes[i] == 0,
                }
        }),
{
    let all = headers.slots().map_values(|header: Option<u16>| slot_to_wire(header));
    let schemes = strip_zeros(all);
    lemma_strip_zeros(all);
    lemma_stripped_end(all);
    assert forall|i: int| 0 <= i < 4 implies match #[trigger] headers.slots()[i] {
        Some(scheme) => i < schemes.len() && schemes[i] == scheme,
        None => i < schemes.len() ==> schemes[i] == 0,
    } by {
        assert(all[i] == slot_to_wire(headers.slots()[i]));
        if i < schemes.len() {
            assert(schemes[i] == all[i]);
        }
    }
}

proof fn lemma_stripped_end(numbers: Seq<u32>)
    ensures
        strip_zeros(numbers).len() > 0 ==> strip_zeros(numbers).last() != 0,
    decreases numbers.len(),
{
    if numbers.len() > 0 && numbers.last() == 0 {
        lemma_stripped_end(numbers.drop_last());
    }
}

/// Metadata is read exactly where the message names a valid sender, has a note type, readable schemes
/// and a canonical commitment; it then holds what the message says.
pub proof fn law_metadata_is_what_the_message_says(value: WireMetadataView)
    ensures
        metadata_from_wire_of(value) matches Ok(metadata) ==> {
            &&& value.sender matches Some(bytes) && account_id_read_of(bytes) == Some(
                metadata.sender@,
            )
            &&& note_type_to_wire_of(metadata.note_type) == value.note_type
            &&& metadata.tag == value.tag
            &&& headers_from_wire_of(value.attachment_schemes) == Ok::<
                AttachmentHeaders,
                RpcConversionError,
            >(metadata.attachment_headers)
            &&& value.attachments_commitment matches Some(digest) && digest.word() == Ok::<
                Word,
                RpcConversionError,
            >(metadata.attachments_commitment)
        },
        metadata_from_wire_of(value) is Ok <==> {
            &&& value.sender matches Some(bytes) && account_id_read_of(bytes) is Some
            &&& value.note_type is Public || value.note_type is Private
            &&& headers_from_wire_of(value.attachment_schemes) is Ok
            &&& value.attachments_commitment matches Some(digest) && digest.word() is Ok
        },
        partial_metadata_from_wire_of(value) matches Ok(partial) ==> {
            &&& value.sender matches Some(bytes) && account_id_read_of(bytes) == Some(
                partial.sender@,
            )
            &&& note_type_to_wire_of(partial.note_type) == value.note_type
            &&& partial.tag == value.tag
        },
        value.sender is None ==> metadata_from_wire_of(value) == Err::<
            NoteMetadata,
            RpcConversionError,
        >(RpcConversionError::MissingField(Field::Sender)),
{
    broadcast use AccountId::lemma_view_of;

}

/// A header is read exactly where both its parts are there and can be read, and holds both.
pub proof fn law_header_is_what_the_message_says(
    details_commitment: Option<WireDigest>,
    metadata: Option<WireMetadataView>,
)
    ensures
        header_of_wire(details_commitment, metadata) matches Ok(header) ==> {
            &&& details_commitment matches Some(digest) && digest.word() == Ok::<
                Word,
                RpcConversionError,
            >(header.details_commitment.word)
            &&& metadata matches Some(given) && metadata_from_wire_of(given) == Ok::<
                NoteMetadata,
                RpcConversionError,
            >(header.metadata)
        },
        header_of_wire(details_commitment, metadata) is Ok <==> {
            &&& details_commitment matches Some(digest) && digest.word() is Ok
            &&& metadata matches Some(given) && metadata_from_wire_of(given) is Ok
        },
        details_commitment is None ==> header_of_wire(details_commitment, metadata) == Err::<
            NoteHeader,
            RpcConversionError,
        >(RpcConversionError::MissingField(Field::DetailsCommitment)),
{
}

/// Digests are read as words one by one, and exactly where each of them can be.
pub proof fn law_digests_are_read_one_by_one(digests: Seq<WireDigest>)
    ensures
        match words_of(digests) {
            Ok(words) => words.len() == digests.len() && forall|i: int|
                0 <= i < digests.len() ==> (#[trigger] digests[i]).word() == Ok::<
                    Word,
                    RpcConversionError,
                >(words[i]),
            Err(err) => err == RpcConversionError::NotAValidFelt && exists|i: int|
                0 <= i < digests.len() && (#[trigger] digests[i]).word() is Err,
        },
    decreases digests.len(),
{
    if digests.len() > 0 {
        let before = digests.drop_last();
        law_digests_are_read_one_by_one(before);
        assert(digests[digests.len() - 1] == digests.last());
        assert forall|i: int| 0 <= i < before.len() implies #[trigger] digests[i] == before[i] by {}
        if words_of(before) is Err {
            let i = choose|i: int| 0 <= i < before.len() && (#[trigger] before[i]).word() is Err;
            assert(digests[i].word() is Err);
        } else if let Ok(words) = words_of(digests) {
            let earlier = words_of(before).unwrap();
            assert forall|i: int| 0 <= i < digests.len() implies (#[trigger] digests[i]).word()
                == Ok::<Word, RpcConversionError>(words[i]) by {
                if i < before.len() {
                    assert(before[i].word() == Ok::<Word, RpcConversionError>(earlier[i]));
                }
            }
        }
    }
}

/// A note's place is read exactly where its position fits into 16 bits and its path is there, can be
/// read and is one. It then names the block and the position of the message, with its path.
pub proof fn law_place_is_what_the_message_says(value: WireProofView)
    ensures
        proof_from_wire_of(value) matches Ok(place) ==> {
            &&& place.block_num == value.block_num
            &&& place.note_index == value.note_index_in_block
            &&& value.inclusion_path matches Some(path) && place.empty_nodes_mask
                == path.empty_nodes_mask && words_of(path.siblings) == Ok::<
                Seq<Word>,
                RpcConversionError,
            >(place.path) && is_sparse_path(path.empty_nodes_mask, place.path)
        },
        proof_from_wire_of(value) is Ok <==> {
            &&& value.note_index_in_block <= u16::MAX
            &&& value.inclusion_path matches Some(path) && words_of(path.siblings) matches Ok(nodes)
                && is_sparse_path(path.empty_nodes_mask, nodes)
        },
        value.note_index_in_block > u16::MAX ==> proof_from_wire_of(value) == Err::<
            ProofView,
            RpcConversionError,
        >(RpcConversionError::NoteIndexInBlock),
        value.note_index_in_block <= u16::MAX && value.inclusion_path is None
            ==> proof_from_wire_of(value) == Err::<ProofView, RpcConversionError>(
            RpcConversionError::MissingField(Field::InclusionPath),
        ),
{
}

/// A committed note is read exactly where its metadata, its identifier and its place are there and
/// can be read, and holds these three.
pub proof fn law_committed_note_is_what_the_message_says(
    metadata: Option<WireMetadataView>,
    inclusion: Option<WireProofView>,
)
    ensures
        committed_of_wire(metadata, inclusion) matches Ok(note) ==> {
            &&& metadata matches Some(given) && metadata_from_wire_of(given) == Ok::<
                NoteMetadata,
                RpcConversionError,
            >(note.metadata)
            &&& inclusion matches Some(given) && given.note_id == Some(
                Some(WireDigest::spec_of(note.note_id.word)),
            ) && proof_from_wire_of(given) == Ok::<ProofView, RpcConversionError>(
                note.inclusion_proof,
            )
            &&& note.note_id.word.is_canonical()
        },
        committed_of_wire(metadata, inclusion) is Ok <==> {
            &&& metadata matches Some(given) && metadata_from_wire_of(given) is Ok
            &&& inclusion matches Some(given) && given.note_id matches Some(Some(digest))
                && digest.word() is Ok && proof_from_wire_of(given) is Ok
        },
{
    if let Ok(note) = committed_of_wire(metadata, inclusion) {
        let digest = inclusion.unwrap().note_id.unwrap().unwrap();
        assert(digest == WireDigest::spec_of(note.note_id.word));
    }
}

/// The notes of a block are those of its records, each under its own identifier, of two with one
/// identifier the later one; they are read exactly where every record can be.
pub proof fn law_block_notes_are_those_of_its_records(records: Seq<WireSyncRecord>, i: int)
    requires
        0 <= i < records.len(),
    ensures
        notes_of_records(records) matches Ok(notes) ==> {
            &&& record_note(records[i]) matches Ok(note) && notes.contains_key(note.note_id)
            &&& (forall|j: int|
                i < j < records.len() ==> record_note(#[trigger] records[j])->Ok_0.note_id
                    != record_note(records[i])->Ok_0.note_id) ==> notes[record_note(
                records[i],
            )->Ok_0.note_id] == record_note(records[i])->Ok_0
        },
        record_note(records[i]) is Err ==> notes_of_records(records) is Err,
    decreases records.len(),
{
    let before = records.drop_last();
    assert(records[records.len() - 1] == records.last());
    if i < before.len() {
        assert(before[i] == records[i]);
        law_block_notes_are_those_of_its_records(before, i);
        if notes_of_records(records) is Ok && forall|j: int|
            i < j < records.len() ==> record_note(#[trigger] records[j])->Ok_0.note_id
                != record_note(records[i])->Ok_0.note_id {
            assert forall|j: int| i < j < before.len() implies record_note(
                #[trigger] before[j],
            )->Ok_0.note_id != record_note(before[i])->Ok_0.note_id by {
                assert(before[j] == records[j]);
            }
            assert(record_note(records[records.len() - 1])->Ok_0.note_id != record_note(
                records[i],
            )->Ok_0.note_id);
        }
    }
}

/// Every note of a block is that of one of its records, under its own identifier; where the notes
/// cannot be read, neither can one of the records.
pub proof fn law_block_notes_come_from_records(records: Seq<WireSyncRecord>, id: NoteId)
    ensures
        match notes_of_records(records) {
            Ok(notes) => notes.contains_key(id) ==> notes[id].note_id == id && exists|i: int|
                0 <= i < records.len() && record_note(#[trigger] records[i]) == Ok::<
                    CommittedView,
                    RpcConversionError,
                >(notes[id]),
            Err(err) => exists|i: int|
                0 <= i < records.len() && record_note(#[trigger] records[i]) == Err::<
                    CommittedView,
                    RpcConversionError,
                >(err),
        },
    decreases records.len(),
{
    if records.len() > 0 {
        let before = records.drop_last();
        law_block_notes_come_from_records(before, id);
        assert(records[records.len() - 1] == records.last());
        match notes_of_records(before) {
            Err(err) => {
                let i = choose|i: int|
                    0 <= i < before.len() && record_note(#[trigger] before[i]) == Err::<
                        CommittedView,
                        RpcConversionError,
                    >(err);
                assert(records[i] == before[i]);
            },
            Ok(earlier) => {
                if let Ok(notes) = notes_of_records(records) {
                    if notes.contains_key(id) {
                        let note = record_note(records.last())->Ok_0;
                        if note.note_id != id {
                            let i = choose|i: int|
                                0 <= i < before.len() && record_note(#[trigger] before[i]) == Ok::<
                                    CommittedView,
                                    RpcConversionError,
                                >(earlier[id]);
                            assert(records[i] == before[i]);
                        }
                    }
                }
            },
        }
    }
}

/// A block is read exactly where its header, its path and its notes can be, and holds all three.
pub proof fn law_block_is_what_the_message_says(
    block_header: Option<Seq<u8>>,
    mmr_path: Option<Seq<WireDigest>>,
    records: Seq<WireSyncRecord>,
)
    ensures
        sync_block_of_wire(block_header, mmr_path, records) matches Ok((header, path, notes)) ==> {
            &&& block_header == Some(header.bytes)
            &&& header_fields_of(header.bytes) == Some(header.fields)
            &&& mmr_path matches Some(digests) && words_of(digests) == Ok::<
                Seq<Word>,
                RpcConversionError,
            >(path)
            &&& notes_of_records(records) == Ok::<Map<NoteId, CommittedView>, RpcConversionError>(
                notes,
            )
        },
        sync_block_of_wire(block_header, mmr_path, records) is Ok <==> {
            &&& block_header matches Some(bytes) && header_fields_of(bytes) is Some
            &&& mmr_path matches Some(digests) && words_of(digests) is Ok
            &&& notes_of_records(records) is Ok
        },
{
}

/// A fetched note has the place that the message says, and the attachments that its bytes encode,
/// none where there are none. Without details it is private, with the identifier and the metadata of
/// the message; with details it is public, the note that they make with the metadata and the
/// attachments, with that note's own identifier and metadata.
pub proof fn law_fetched_note_is_what_the_message_says(
    inclusion: Option<WireProofView>,
    content: Option<WireNoteView>,
)
    ensures
        fetched_of_wire(inclusion, content) matches Ok(note) ==> {
            &&& inclusion matches Some(given) && proof_from_wire_of(given) == Ok::<
                ProofView,
                RpcConversionError,
            >(note.inclusion_proof())
            &&& content matches Some(given) && {
                &&& given.attachments.len() == 0 ==> note.attachments().len() == 0
                &&& given.attachments.len() > 0 ==> attachments_of(given.attachments) == Some(
                    note.attachments(),
                )
                &&& match given.details {
                    None => {
                        &&& note is Private
                        &&& inclusion.unwrap().note_id == Some(
                            Some(WireDigest::spec_of(note.id().word)),
                        )
                        &&& metadata_from_wire_of(given.metadata.unwrap()) == Ok::<
                            NoteMetadata,
                            RpcConversionError,
                        >(note.metadata())
                    },
                    Some(details) => note matches FetchedView::Public(built, metadata, _, _) && {
                        let sent = metadata_from_wire_of(given.metadata.unwrap())->Ok_0;
                        let encoded = if given.attachments.len() == 0 {
                            seq![0u8]
                        } else {
                            given.attachments
                        };
                        &&& public_note_of(
                            details,
                            sent.sender@,
                            sent.note_type,
                            sent.tag,
                            encoded,
                        ) == Some(built.bytes)
                        &&& note_id_of(built.bytes) == Some(built.id)
                        &&& metadata_of(built.bytes) == Some(metadata)
                    },
                }
            }
        },
{
    if let Ok(note) = fetched_of_wire(inclusion, content) {
        let digest = inclusion.unwrap().note_id.unwrap().unwrap();
        let id = note_id_from_wire_of(Some(digest))->Ok_0;
        assert(digest == WireDigest::spec_of(id.word));
    }
}

/// A fetched note gives out the parts that it holds.
pub proof fn law_fetched_note_gives_its_parts(
    id: NoteId,
    note: NoteView,
    metadata: NoteMetadata,
    attachments: Seq<AttachmentView>,
    place: ProofView,
)
    ensures
        ({
            let private = FetchedView::Private(id, metadata, attachments, place);
            let public = FetchedView::Public(note, metadata, attachments, place);
            &&& private.id() == id && public.id() == note.id
            &&& private.metadata() == metadata && public.metadata() == metadata
            &&& private.attachments() == attachments && public.attachments() == attachments
            &&& private.inclusion_proof() == place && public.inclusion_proof() == place
        }),
{
}

/// What a message lacks is named: the first of the parts, in the order in which they are read, that
/// is not there.
pub proof fn law_missing_parts_are_named(
    metadata: Option<WireMetadataView>,
    inclusion: Option<WireProofView>,
    content: Option<WireNoteView>,
    mmr_path: Option<Seq<WireDigest>>,
    records: Seq<WireSyncRecord>,
    header: Seq<u8>,
)
    ensures
        committed_of_wire(None, inclusion) == Err::<CommittedView, RpcConversionError>(
            RpcConversionError::MissingField(Field::NoteMetadata),
        ),
        (metadata matches Some(given) && metadata_from_wire_of(given) is Ok) ==> {
            &&& committed_of_wire(metadata, None) == Err::<CommittedView, RpcConversionError>(
                RpcConversionError::MissingField(Field::InclusionProof),
            )
            &&& (inclusion matches Some(place) && place.note_id is None) ==> committed_of_wire(
                metadata,
                inclusion,
            ) == Err::<CommittedView, RpcConversionError>(
                RpcConversionError::MissingField(Field::InclusionProofNoteId),
            )
            &&& (inclusion matches Some(place) && place.note_id == Some(None::<WireDigest>))
                ==> committed_of_wire(metadata, inclusion) == Err::<
                CommittedView,
                RpcConversionError,
            >(RpcConversionError::MissingField(Field::NoteId))
        },
        fetched_of_wire(None, content) == Err::<FetchedView, RpcConversionError>(
            RpcConversionError::MissingField(Field::InclusionProof),
        ),
        (inclusion matches Some(place) && place.note_id is None) ==> fetched_of_wire(
            inclusion,
            content,
        ) == Err::<FetchedView, RpcConversionError>(
            RpcConversionError::MissingField(Field::InclusionProofNoteId),
        ),
        (inclusion matches Some(place) && place.note_id == Some(None::<WireDigest>))
            ==> fetched_of_wire(inclusion, content) == Err::<FetchedView, RpcConversionError>(
            RpcConversionError::MissingField(Field::NoteId),
        ),
        (inclusion matches Some(place) && place.note_id matches Some(Some(digest))
            && digest.word() is Ok && proof_from_wire_of(place) is Ok) ==> {
            &&& fetched_of_wire(inclusion, None) == Err::<FetchedView, RpcConversionError>(
                RpcConversionError::MissingField(Field::Note),
            )
            &&& (content matches Some(given) && given.metadata is None) ==> fetched_of_wire(
                inclusion,
                content,
            ) == Err::<FetchedView, RpcConversionError>(
                RpcConversionError::MissingField(Field::NoteMetadata),
            )
        },
        sync_block_of_wire(None, mmr_path, records) == Err::<
            (HeaderView, Seq<Word>, Map<NoteId, CommittedView>),
            RpcConversionError,
        >(RpcConversionError::MissingField(Field::BlockHeader)),
        header_fields_of(header) is None ==> sync_block_of_wire(Some(header), mmr_path, records)
            == Err::<(HeaderView, Seq<Word>, Map<NoteId, CommittedView>), RpcConversionError>(
            RpcConversionError::InvalidBlockHeader,
        ),
        header_fields_of(header) is Some ==> sync_block_of_wire(Some(header), None, records)
            == Err::<(HeaderView, Seq<Word>, Map<NoteId, CommittedView>), RpcConversionError>(
            RpcConversionError::MissingField(Field::MmrPath),
        ),
{
}

/// A fetched note is read exactly where its identifier, its place and its metadata are there and can
/// be read, its attachments can be decoded, and its details, where there are some, make a note.
pub proof fn law_readable_notes_are_fetched(
    inclusion: Option<WireProofView>,
    content: Option<WireNoteView>,
)
    ensures
        fetched_of_wire(inclusion, content) is Ok <==> {
            &&& inclusion matches Some(place) && place.note_id matches Some(Some(digest))
                && digest.word() is Ok && proof_from_wire_of(place) is Ok
            &&& content matches Some(given) && given.metadata matches Some(sent)
                && metadata_from_wire_of(sent) matches Ok(metadata) && {
                &&& given.attachments.len() > 0 ==> attachments_of(given.attachments) is Some
                &&& given.details matches Some(details) ==> (public_note_of(
                    details,
                    metadata.sender@,
                    metadata.note_type,
                    metadata.tag,
                    attachment_bytes(given.attachments),
                ) matches Some(bytes) && note_id_of(bytes) is Some && metadata_of(bytes) is Some)
            }
        },
{
}

} // verus!
