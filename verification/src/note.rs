//! Notes as the library holds them.
use miden_protocol::utils::serde::Deserializable;
use vstd::prelude::*;

use crate::primitives::{is_account_id, AccountId, BlockNumber, NoteId, NoteTag, NoteType, Word};

verus! {

/// A note in its serialised form, with its identifier.
#[derive(Debug, PartialEq, Eq)]
pub struct Note {
    pub id: NoteId,
    pub bytes: Vec<u8>,
}

/// What a [`Note`] stands for.
#[verifier::ext_equal]
pub ghost struct NoteView {
    pub id: NoteId,
    pub bytes: Seq<u8>,
}

impl View for Note {
    type V = NoteView;

    open spec fn view(&self) -> NoteView {
        NoteView { id: self.id, bytes: self.bytes@ }
    }
}

impl Clone for Note {
    fn clone(&self) -> (copy: Self)
        ensures
            copy@ == self@,
    {
        let bytes = self.bytes.clone();
        assert(bytes@ =~= self.bytes@);
        Note { id: self.id, bytes }
    }
}

/// The identifier of the note that a byte string encodes, if it encodes one.
pub uninterp spec fn note_id_of(bytes: Seq<u8>) -> Option<NoteId>;

/// Decodes a note with `Note::read_from_bytes` and asks it for its identifier, `Note::id`. The
/// claim is that the outcome depends on the bytes alone.
#[verifier::external_body]
fn decode_note_id(bytes: &Vec<u8>) -> (id: Option<NoteId>)
    ensures
        id == note_id_of(bytes@),
{
    let note = miden_protocol::note::Note::read_from_bytes(bytes).ok()?;
    let [a, b, c, d]: [u64; 4] = note.id().as_word().into();
    Some(NoteId { word: Word { a, b, c, d } })
}

impl Note {
    /// Whether the identifier is that of the note that the bytes encode.
    pub open spec fn wf(self) -> bool {
        note_id_of(self.bytes@) == Some(self.id)
    }

    /// Reads a note from its serialised form.
    pub fn from_bytes(bytes: Vec<u8>) -> (note: Option<Note>)
        ensures
            note is Some <==> note_id_of(bytes@) is Some,
            note matches Some(note) ==> note.wf() && note.bytes@ == bytes@,
    {
        match decode_note_id(&bytes) {
            Some(id) => Some(Note { id, bytes }),
            None => None,
        }
    }

    pub fn id(&self) -> (id: NoteId)
        ensures
            id == self.id,
    {
        self.id
    }
}

/// Proves that a note is part of a block: its position there and the path from it to the
/// block's note root, with a mask of the empty nodes on the path.
#[derive(Debug, PartialEq, Eq)]
pub struct NoteInclusionProof {
    pub block_num: BlockNumber,
    pub note_index: u16,
    pub empty_nodes_mask: u64,
    pub path: Vec<Word>,
}

/// What a [`NoteInclusionProof`] stands for.
#[verifier::ext_equal]
pub ghost struct ProofView {
    pub block_num: BlockNumber,
    pub note_index: u16,
    pub empty_nodes_mask: u64,
    pub path: Seq<Word>,
}

impl View for NoteInclusionProof {
    type V = ProofView;

    open spec fn view(&self) -> ProofView {
        ProofView {
            block_num: self.block_num,
            note_index: self.note_index,
            empty_nodes_mask: self.empty_nodes_mask,
            path: self.path@,
        }
    }
}

impl Clone for NoteInclusionProof {
    fn clone(&self) -> (copy: Self)
        ensures
            copy@ == self@,
    {
        let path = self.path.clone();
        assert(path@ =~= self.path@);
        NoteInclusionProof {
            block_num: self.block_num,
            note_index: self.note_index,
            empty_nodes_mask: self.empty_nodes_mask,
            path,
        }
    }
}

/// The number of attachments that a note can carry.
pub const MAX_ATTACHMENTS: usize = 4;

/// The schemes of a note's attachments, slot by slot; `None` where there is no attachment.
#[derive(Clone, Copy, Debug, PartialEq, Eq, Structural)]
pub struct AttachmentHeaders {
    pub first: Option<u16>,
    pub second: Option<u16>,
    pub third: Option<u16>,
    pub fourth: Option<u16>,
}

impl AttachmentHeaders {
    /// The slots in order.
    pub open spec fn slots(self) -> Seq<Option<u16>> {
        seq![self.first, self.second, self.third, self.fourth]
    }
}

/// What a note says of itself outside its details.
#[derive(Clone, Copy, Debug, PartialEq, Eq, Structural)]
pub struct NoteMetadata {
    pub sender: AccountId,
    pub note_type: NoteType,
    pub tag: NoteTag,
    pub attachment_headers: AttachmentHeaders,
    pub attachments_commitment: Word,
}

/// One attachment: its scheme and its content.
#[derive(Debug, PartialEq, Eq)]
pub struct NoteAttachment {
    pub scheme: u16,
    pub words: Vec<Word>,
}

/// What a [`NoteAttachment`] stands for.
#[verifier::ext_equal]
pub ghost struct AttachmentView {
    pub scheme: u16,
    pub words: Seq<Word>,
}

impl View for NoteAttachment {
    type V = AttachmentView;

    open spec fn view(&self) -> AttachmentView {
        AttachmentView { scheme: self.scheme, words: self.words@ }
    }
}

impl Clone for NoteAttachment {
    fn clone(&self) -> (copy: Self)
        ensures
            copy@ == self@,
    {
        let words = self.words.clone();
        assert(words@ =~= self.words@);
        NoteAttachment { scheme: self.scheme, words }
    }
}

/// The views of some attachments.
pub open spec fn view_attachments(attachments: Seq<NoteAttachment>) -> Seq<AttachmentView> {
    attachments.map_values(|attachment: NoteAttachment| attachment@)
}

/// The attachments that a byte string encodes, if it encodes some.
pub uninterp spec fn attachments_of(bytes: Seq<u8>) -> Option<Seq<AttachmentView>>;

/// Decodes attachments with `NoteAttachments::read_from_bytes`. The claim is that the outcome
/// depends on the bytes alone.
#[verifier::external_body]
pub(crate) fn decode_attachments(bytes: &Vec<u8>) -> (attachments: Option<Vec<NoteAttachment>>)
    ensures
        match attachments {
            Some(attachments) => Some(view_attachments(attachments@)),
            None => None,
        } == attachments_of(bytes@),
{
    let decoded = miden_protocol::note::NoteAttachments::read_from_bytes(bytes).ok()?;
    let plain = |word: &miden_protocol::Word| {
        let [a, b, c, d]: [u64; 4] = word.into();
        Word { a, b, c, d }
    };
    Some(decoded.iter().map(|entry| NoteAttachment {
        scheme: entry.attachment_scheme().as_u16(),
        words: entry.content().as_words().iter().map(plain).collect(),
    }).collect())
}

/// The integers that a note's metadata is read out as.
#[derive(Clone, Copy)]
pub struct RawMetadata {
    pub sender: u128,
    /// 0 for private, 1 for public.
    pub note_type: u8,
    pub tag: u32,
    pub headers: AttachmentHeaders,
    pub commitment: Word,
}

/// The metadata of the note that a byte string encodes, if it encodes one.
pub uninterp spec fn raw_metadata_of(bytes: Seq<u8>) -> Option<RawMetadata>;

/// Decodes a note and reads out `Note::metadata`. The claims are that the outcome depends on the
/// bytes alone, that every encoded note has metadata, and that the sender is a valid identifier.
#[verifier::external_body]
fn decode_metadata(bytes: &Vec<u8>) -> (metadata: Option<RawMetadata>)
    ensures
        metadata == raw_metadata_of(bytes@),
        metadata is Some <==> note_id_of(bytes@) is Some,
        metadata matches Some(metadata) ==> is_account_id(metadata.sender),
{
    let note = miden_protocol::note::Note::read_from_bytes(bytes).ok()?;
    let metadata = note.metadata();
    let [first, second, third, fourth] = metadata.attachment_headers().map(|header| header.scheme().map(|scheme| scheme.as_u16()));
    let [a, b, c, d]: [u64; 4] = metadata.attachments_commitment().into();
    Some(RawMetadata {
        sender: metadata.sender().into(),
        note_type: metadata.note_type().as_u8(),
        tag: metadata.tag().as_u32(),
        headers: AttachmentHeaders { first, second, third, fourth },
        commitment: Word { a, b, c, d },
    })
}

impl NoteMetadata {
    /// The metadata that some integers describe.
    pub open spec fn of(raw: RawMetadata) -> NoteMetadata {
        NoteMetadata {
            sender: AccountId::of(raw.sender),
            note_type: if raw.note_type != 0 {
                NoteType::Public
            } else {
                NoteType::Private
            },
            tag: raw.tag,
            attachment_headers: raw.headers,
            attachments_commitment: raw.commitment,
        }
    }
}

/// The metadata of the note that a byte string encodes.
pub open spec fn metadata_of(bytes: Seq<u8>) -> Option<NoteMetadata> {
    match raw_metadata_of(bytes) {
        Some(raw) => Some(NoteMetadata::of(raw)),
        None => None,
    }
}

impl Note {
    /// The metadata of the note; there is some exactly when its bytes encode a note.
    pub fn metadata(&self) -> (metadata: Option<NoteMetadata>)
        ensures
            metadata == metadata_of(self.bytes@),
            metadata is Some <==> note_id_of(self.bytes@) is Some,
    {
        let raw = match decode_metadata(&self.bytes) {
            Some(raw) => raw,
            None => {
                return None;
            },
        };
        match AccountId::try_from_u128(raw.sender) {
            Some(sender) => Some(
                NoteMetadata {
                    sender,
                    note_type: if raw.note_type != 0 {
                        NoteType::Public
                    } else {
                        NoteType::Private
                    },
                    tag: raw.tag,
                    attachment_headers: raw.headers,
                    attachments_commitment: raw.commitment,
                },
            ),
            None => None,
        }
    }
}

/// The metadata of a note is what its integers say, each in its place.
pub proof fn law_metadata_is_what_the_note_says(raw: RawMetadata)
    ensures
        NoteMetadata::of(raw).sender@ == raw.sender,
        NoteMetadata::of(raw).note_type == NoteType::Public <==> raw.note_type != 0,
        NoteMetadata::of(raw).tag == raw.tag,
        NoteMetadata::of(raw).attachment_headers == raw.headers,
        NoteMetadata::of(raw).attachments_commitment == raw.commitment,
{
    broadcast use AccountId::lemma_view_of;

}

} // verus!
