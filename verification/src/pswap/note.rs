//! PSWAP notes: the terms of an order, and the notes that filling it produces.
use miden_protocol::asset::{AssetAmount as ProtocolAmount, FungibleAsset as ProtocolAsset};
use miden_protocol::note::Note as ProtocolNote;
use miden_protocol::utils::serde::{Deserializable, Serializable};
use miden_protocol::Felt;
use miden_standards::note::{
    PswapNote as StandardOrder, PswapNoteAttachment as StandardAttachment,
};
use vstd::prelude::*;

use crate::asset::{AssetAmount, FungibleAsset, MAX_ASSET_AMOUNT};
use crate::note::{note_id_of, Note, NoteView};
use crate::primitives::{is_account_id, AccountId, NoteTag, NoteType, Word, FIELD_ORDER};

verus! {

/// The integers that a decoded PSWAP note is read out as.
#[derive(Clone, Copy)]
pub struct RawTerms {
    pub sender: u128,
    pub creator: u128,
    /// Faucet, amount and callback flag of the offered asset.
    pub offered: (u128, u64, u8),
    /// Faucet, amount and callback flag of the requested asset.
    pub requested: (u128, u64, u8),
    /// 0 for private, 1 for public.
    pub note_type: u8,
    pub payback_note_type: u8,
    pub serial_number: [u64; 4],
    pub parent_depth: u64,
}

/// The word of four elements.
pub open spec fn word_of(elements: [u64; 4]) -> Word {
    Word { a: elements@[0], b: elements@[1], c: elements@[2], d: elements@[3] }
}

impl RawTerms {
    /// What holds of every PSWAP note's integers.
    pub open spec fn valid(self) -> bool {
        &&& is_account_id(self.sender)
        &&& is_account_id(self.creator)
        &&& is_account_id(self.offered.0)
        &&& is_account_id(self.requested.0)
        &&& self.offered.1 <= MAX_ASSET_AMOUNT
        &&& self.requested.1 <= MAX_ASSET_AMOUNT
        &&& word_of(self.serial_number).is_canonical()
    }
}

/// The terms that `PswapNote::try_from` reads out of an encoded note, if the bytes encode a note
/// and it is a PSWAP note.
pub uninterp spec fn raw_terms_of(note: Seq<u8>) -> Option<RawTerms>;

/// Decodes a note and reads it as a PSWAP note with `PswapNote::try_from`. The claims are that
/// the outcome depends on the bytes alone, that the four accounts are valid identifiers, that
/// both amounts are asset amounts and that the serial number is canonical.
#[verifier::external_body]
fn decode_terms(bytes: &Vec<u8>) -> (terms: Option<RawTerms>)
    ensures
        terms == raw_terms_of(bytes@),
        terms matches Some(terms) ==> terms.valid(),
{
    let note = ProtocolNote::read_from_bytes(bytes).ok()?;
    let order = StandardOrder::try_from(&note).ok()?;
    let plain = |asset: &ProtocolAsset| (asset.faucet_id().into(), asset.amount().as_u64(), asset.callbacks().as_u8());
    Some(RawTerms {
        sender: order.sender().into(),
        creator: order.storage().creator_account_id().into(),
        offered: plain(order.offered_asset()),
        requested: plain(order.storage().requested_asset()),
        note_type: order.note_type().as_u8(),
        payback_note_type: order.storage().payback_note_type().as_u8(),
        serial_number: order.serial_number().into(),
        parent_depth: order.parent_depth(),
    })
}

/// The immutable details of an order.
#[derive(Clone, Copy, Debug, PartialEq, Eq, Structural)]
pub struct PswapTerms {
    pub sender: AccountId,
    pub creator_account_id: AccountId,
    pub offered_asset: FungibleAsset,
    pub requested_asset: FungibleAsset,
    pub note_type: NoteType,
    pub payback_note_type: NoteType,
    pub serial_number: Word,
    /// The round that produced this note; 0 for an original order.
    pub parent_depth: u64,
}

/// The asset that a faucet, an amount and a callback flag describe.
pub open spec fn asset_of(raw: (u128, u64, u8)) -> FungibleAsset {
    FungibleAsset {
        faucet_id: AccountId::of(raw.0),
        amount: AssetAmount { value: raw.1 },
        callbacks: raw.2 != 0,
    }
}

/// The note type that an integer describes.
pub open spec fn note_type_of(raw: u8) -> NoteType {
    if raw != 0 {
        NoteType::Public
    } else {
        NoteType::Private
    }
}

impl PswapTerms {
    /// The terms that some integers describe.
    pub open spec fn of(raw: RawTerms) -> PswapTerms {
        PswapTerms {
            sender: AccountId::of(raw.sender),
            creator_account_id: AccountId::of(raw.creator),
            offered_asset: asset_of(raw.offered),
            requested_asset: asset_of(raw.requested),
            note_type: note_type_of(raw.note_type),
            payback_note_type: note_type_of(raw.payback_note_type),
            serial_number: word_of(raw.serial_number),
            parent_depth: raw.parent_depth,
        }
    }

    /// The identifier that every note of the order's chain shares.
    pub open spec fn spec_order_id(self) -> u64 {
        self.serial_number.b
    }
}

fn read_asset(raw: (u128, u64, u8)) -> (asset: Option<FungibleAsset>)
    ensures
        asset == (if is_account_id(raw.0) {
            Some(asset_of(raw))
        } else {
            None
        }),
{
    match AccountId::try_from_u128(raw.0) {
        Some(faucet_id) => Some(
            FungibleAsset {
                faucet_id,
                amount: AssetAmount { value: raw.1 },
                callbacks: raw.2 != 0,
            },
        ),
        None => None,
    }
}

fn read_note_type(raw: u8) -> (note_type: NoteType)
    ensures
        note_type == note_type_of(raw),
{
    if raw != 0 {
        NoteType::Public
    } else {
        NoteType::Private
    }
}

/// A PSWAP note: its terms, and the note that carries them.
#[derive(Debug, PartialEq, Eq)]
pub struct PswapNote {
    pub terms: PswapTerms,
    pub note: Note,
}

/// What a [`PswapNote`] stands for.
#[verifier::ext_equal]
pub ghost struct PswapView {
    pub terms: PswapTerms,
    pub note: NoteView,
}

impl View for PswapNote {
    type V = PswapView;

    open spec fn view(&self) -> PswapView {
        PswapView { terms: self.terms, note: self.note@ }
    }
}

impl Clone for PswapNote {
    fn clone(&self) -> (copy: Self)
        ensures
            copy@ == self@,
    {
        PswapNote { terms: self.terms, note: self.note.clone() }
    }
}

impl PswapView {
    /// Whether the terms are those that the carrying note encodes.
    pub open spec fn wf(self) -> bool {
        raw_terms_of(self.note.bytes) matches Some(raw) && raw.valid() && self.terms
            == PswapTerms::of(raw)
    }
}

impl PswapNote {
    /// Reads a note as a PSWAP note; `None` when it is not one.
    pub fn from_note(note: &Note) -> (order: Option<PswapNote>)
        ensures
            order is Some <==> raw_terms_of(note.bytes@) is Some,
            order matches Some(order) ==> order@.wf() && order@.note == note@,
    {
        let raw = match decode_terms(&note.bytes) {
            Some(raw) => raw,
            None => {
                return None;
            },
        };
        match (
            AccountId::try_from_u128(raw.sender),
            AccountId::try_from_u128(raw.creator),
            read_asset(raw.offered),
            read_asset(raw.requested),
        ) {
            (
                Some(sender),
                Some(creator_account_id),
                Some(offered_asset),
                Some(requested_asset),
            ) => {
                let terms = PswapTerms {
                    sender,
                    creator_account_id,
                    offered_asset,
                    requested_asset,
                    note_type: read_note_type(raw.note_type),
                    payback_note_type: read_note_type(raw.payback_note_type),
                    serial_number: Word {
                        a: raw.serial_number[0],
                        b: raw.serial_number[1],
                        c: raw.serial_number[2],
                        d: raw.serial_number[3],
                    },
                    parent_depth: raw.parent_depth,
                };
                Some(PswapNote { terms, note: note.clone() })
            },
            _ => None,
        }
    }

    /// The identifier that every note of the order's chain shares.
    pub fn order_id(&self) -> (order_id: u64)
        ensures
            order_id == self.terms.spec_order_id(),
    {
        self.terms.serial_number.b
    }
}

/// What the PSWAP script attaches to each note that a fill emits.
#[derive(Clone, Copy, Debug, PartialEq, Eq, Structural)]
pub struct PswapNoteAttachment {
    /// Requested units filled, on a payback; offered units paid out, on a remainder.
    pub amount: AssetAmount,
    pub order_id: u64,
    /// The round that emitted the note, counted from 1.
    pub depth: u32,
}

impl PswapNoteAttachment {
    pub open spec fn wf(self) -> bool {
        self.amount.wf() && self.order_id < FIELD_ORDER
    }
}

/// The bytes of the payback note that `PswapNote::payback_note` rebuilds for an encoded order,
/// its consumer and an attachment's amount, order and depth.
pub uninterp spec fn payback_note_of(
    order: Seq<u8>,
    consumer: u128,
    amount: u64,
    order_id: u64,
    depth: u32,
) -> Option<Seq<u8>>;

/// The bytes of the remainder note that `PswapNote::remainder_note` rebuilds for an encoded
/// order, its consumer, an attachment's amount, order and depth, and the offered and requested
/// units that are left.
pub uninterp spec fn remainder_note_of(
    order: Seq<u8>,
    consumer: u128,
    amount: u64,
    order_id: u64,
    depth: u32,
    remaining_offered: u64,
    remaining_requested: u64,
) -> Option<Seq<u8>>;

/// The view of optional bytes.
pub open spec fn view_bytes(bytes: Option<Vec<u8>>) -> Option<Seq<u8>> {
    match bytes {
        Some(bytes) => Some(bytes@),
        None => None,
    }
}

/// Calls `PswapNote::payback_note` on the order that some bytes encode, and serialises the note.
/// The claims are that the bytes depend on the arguments alone and encode a note, and that of a
/// PSWAP note and a well-formed attachment one is rebuilt exactly when the attachment's depth is
/// not zero.
#[verifier::external_body]
fn rebuild_payback(
    order: &Vec<u8>,
    consumer: AccountId,
    attachment: &PswapNoteAttachment,
) -> (bytes: Option<Vec<u8>>)
    ensures
        view_bytes(bytes) == payback_note_of(
            order@,
            consumer@,
            attachment.amount.value,
            attachment.order_id,
            attachment.depth,
        ),
        bytes matches Some(bytes) ==> note_id_of(bytes@) is Some,
        raw_terms_of(order@) is Some && attachment.wf() ==> (bytes is Some <==> attachment.depth
            != 0),
{
    let note = ProtocolNote::read_from_bytes(order).ok()?;
    let order = StandardOrder::try_from(&note).ok()?;
    let amount = ProtocolAmount::new(attachment.amount.value).ok()?;
    let order_id = Felt::new(attachment.order_id).ok()?;
    let attachment = StandardAttachment::new(amount, order_id, attachment.depth);
    let payback = order.payback_note(consumer.raw.try_into().ok()?, &attachment).ok()?;
    Some(payback.to_bytes())
}

/// Calls `PswapNote::remainder_note` on the order that some bytes encode, and serialises the
/// note. The claims are that the bytes depend on the arguments alone and encode a note, and that
/// of a PSWAP note, a well-formed attachment and two asset amounts one is rebuilt exactly when
/// the attachment's depth is not zero.
#[verifier::external_body]
fn rebuild_remainder(
    order: &Vec<u8>,
    consumer: AccountId,
    attachment: &PswapNoteAttachment,
    offered: AssetAmount,
    requested: AssetAmount,
) -> (bytes: Option<Vec<u8>>)
    ensures
        view_bytes(bytes) == remainder_note_of(
            order@,
            consumer@,
            attachment.amount.value,
            attachment.order_id,
            attachment.depth,
            offered.value,
            requested.value,
        ),
        bytes matches Some(bytes) ==> note_id_of(bytes@) is Some,
        raw_terms_of(order@) is Some && attachment.wf() && offered.wf() && requested.wf() ==> (
        bytes is Some <==> attachment.depth != 0),
{
    let note = ProtocolNote::read_from_bytes(order).ok()?;
    let order = StandardOrder::try_from(&note).ok()?;
    let amount = ProtocolAmount::new(attachment.amount.value).ok()?;
    let order_id = Felt::new(attachment.order_id).ok()?;
    let attachment = StandardAttachment::new(amount, order_id, attachment.depth);
    let offered = ProtocolAmount::new(offered.value).ok()?;
    let requested = ProtocolAmount::new(requested.value).ok()?;
    let consumer = consumer.raw.try_into().ok()?;
    let rest = order.remainder_note(consumer, &attachment, offered, requested).ok()?;
    Some(rest.to_bytes())
}

/// The note that some bytes encode.
pub open spec fn encoded_note(bytes: Option<Seq<u8>>) -> Option<NoteView> {
    match bytes {
        Some(bytes) => match note_id_of(bytes) {
            Some(id) => Some(NoteView { id, bytes }),
            None => None,
        },
        None => None,
    }
}

fn read_note(bytes: Option<Vec<u8>>) -> (note: Option<Note>)
    ensures
        view_note(note) == encoded_note(view_bytes(bytes)),
{
    match bytes {
        Some(bytes) => Note::from_bytes(bytes),
        None => None,
    }
}

impl PswapView {
    /// The payback of a round, as the order's own script would emit it.
    pub open spec fn payback(
        self,
        consumer: AccountId,
        attachment: PswapNoteAttachment,
    ) -> Option<NoteView> {
        encoded_note(
            payback_note_of(
                self.note.bytes,
                consumer@,
                attachment.amount.value,
                attachment.order_id,
                attachment.depth,
            ),
        )
    }

    /// The remainder of a round, as the order's own script would emit it.
    pub open spec fn remainder(
        self,
        consumer: AccountId,
        attachment: PswapNoteAttachment,
        offered: AssetAmount,
        requested: AssetAmount,
    ) -> Option<NoteView> {
        encoded_note(
            remainder_note_of(
                self.note.bytes,
                consumer@,
                attachment.amount.value,
                attachment.order_id,
                attachment.depth,
                offered.value,
                requested.value,
            ),
        )
    }
}

/// The view of an optional note.
pub open spec fn view_note(note: Option<Note>) -> Option<NoteView> {
    match note {
        Some(note) => Some(note@),
        None => None,
    }
}

impl PswapNote {
    /// Rebuilds the payback note of a round.
    pub fn payback_note(&self, consumer: AccountId, attachment: &PswapNoteAttachment) -> (note:
        Option<Note>)
        ensures
            view_note(note) == self@.payback(consumer, *attachment),
            self@.wf() && attachment.wf() ==> (note is Some <==> attachment.depth != 0),
    {
        read_note(rebuild_payback(&self.note.bytes, consumer, attachment))
    }

    /// Rebuilds the remainder note of a round.
    pub fn remainder_note(
        &self,
        consumer: AccountId,
        attachment: &PswapNoteAttachment,
        offered: AssetAmount,
        requested: AssetAmount,
    ) -> (note: Option<Note>)
        ensures
            view_note(note) == self@.remainder(consumer, *attachment, offered, requested),
            self@.wf() && attachment.wf() && offered.wf() && requested.wf() ==> (note is Some
                <==> attachment.depth != 0),
    {
        read_note(rebuild_remainder(&self.note.bytes, consumer, attachment, offered, requested))
    }
}

/// The tag that `PswapNote::create_tag` gives to the orders of a pair: a function of the note
/// type and of the two faucets.
pub uninterp spec fn pair_tag_of(note_type: NoteType, offered: u128, requested: u128) -> NoteTag;

/// Calls `PswapNote::create_tag`. The claims are that the tag depends on the note type and the two
/// faucets alone, that its two highest bits are the note type, and that its two lowest bytes are
/// the highest bytes of the offered and of the requested faucet. The 14 bits between them come
/// from the root of the PSWAP script.
#[verifier::external_body]
fn create_tag(public: bool, offered: AccountId, requested: AccountId) -> (tag: NoteTag)
    ensures
        tag == pair_tag_of(
            if public {
                NoteType::Public
            } else {
                NoteType::Private
            },
            offered@,
            requested@,
        ),
        tag as int / 0x4000_0000 == (if public {
            1int
        } else {
            0int
        }),
        tag as int % 0x1_0000 == (offered@ as int / 0x100_0000_0000_0000_0000_0000_0000_0000) * 256
            + requested@ as int / 0x100_0000_0000_0000_0000_0000_0000_0000,
{
    let asset = |faucet: AccountId| ProtocolAsset::new(faucet.raw.try_into().unwrap(), 0).unwrap();
    let note_type = u8::from(public).try_into().unwrap();
    StandardOrder::create_tag(note_type, &asset(offered), &asset(requested)).as_u32()
}

impl PswapTerms {
    /// The tag that every order of this kind and pair carries.
    pub open spec fn spec_asset_pair_tag(self) -> NoteTag {
        pair_tag_of(self.note_type, self.offered_asset.faucet_id@, self.requested_asset.faucet_id@)
    }

    pub fn asset_pair_tag(&self) -> (tag: NoteTag)
        ensures
            tag == self.spec_asset_pair_tag(),
            tag as int / 0x4000_0000 == (match self.note_type {
                NoteType::Public => 1int,
                NoteType::Private => 0int,
            }),
            tag as int % 0x1_0000 == (self.offered_asset.faucet_id@ as int
                / 0x100_0000_0000_0000_0000_0000_0000_0000) * 256
                + self.requested_asset.faucet_id@ as int
                / 0x100_0000_0000_0000_0000_0000_0000_0000,
    {
        create_tag(
            matches!(self.note_type, NoteType::Public),
            self.offered_asset.faucet_id,
            self.requested_asset.faucet_id,
        )
    }
}

/// The terms of an order are what its note's integers say, each in its place: who sent it and who
/// created it, what it offers and what it requests, its note types, its serial number and its depth.
/// The second element of the serial number identifies the order.
pub proof fn law_terms_are_what_the_note_says(raw: RawTerms)
    ensures
        ({
            let terms = PswapTerms::of(raw);
            &&& terms.sender@ == raw.sender
            &&& terms.creator_account_id@ == raw.creator
            &&& terms.offered_asset.faucet_id@ == raw.offered.0
            &&& terms.offered_asset.amount.value == raw.offered.1
            &&& terms.offered_asset.callbacks <==> raw.offered.2 != 0
            &&& terms.requested_asset.faucet_id@ == raw.requested.0
            &&& terms.requested_asset.amount.value == raw.requested.1
            &&& terms.requested_asset.callbacks <==> raw.requested.2 != 0
            &&& terms.note_type == NoteType::Public <==> raw.note_type != 0
            &&& terms.payback_note_type == NoteType::Public <==> raw.payback_note_type != 0
            &&& terms.serial_number.a == raw.serial_number@[0]
            &&& terms.serial_number.b == raw.serial_number@[1]
            &&& terms.serial_number.c == raw.serial_number@[2]
            &&& terms.serial_number.d == raw.serial_number@[3]
            &&& terms.parent_depth == raw.parent_depth
            &&& terms.spec_order_id() == raw.serial_number@[1]
        }),
{
    broadcast use AccountId::lemma_view_of;

}

/// A rebuilt note is the encoded note that the order, its consumer, the attachment and, for a
/// remainder, the two amounts that are left give, under that note's own identifier.
pub proof fn law_rebuilt_notes_are_encoded_notes(
    order: PswapView,
    consumer: AccountId,
    attachment: PswapNoteAttachment,
    offered: AssetAmount,
    requested: AssetAmount,
)
    ensures
        order.payback(consumer, attachment) matches Some(note) ==> payback_note_of(
            order.note.bytes,
            consumer@,
            attachment.amount.value,
            attachment.order_id,
            attachment.depth,
        ) == Some(note.bytes) && note_id_of(note.bytes) == Some(note.id),
        order.remainder(consumer, attachment, offered, requested) matches Some(note)
            ==> remainder_note_of(
            order.note.bytes,
            consumer@,
            attachment.amount.value,
            attachment.order_id,
            attachment.depth,
            offered.value,
            requested.value,
        ) == Some(note.bytes) && note_id_of(note.bytes) == Some(note.id),
{
}

} // verus!
