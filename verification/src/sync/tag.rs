//! The note tags that a client follows, and why it follows each.
use vstd::prelude::*;

use crate::encoding::{
    account_id_bytes, account_id_bytes_of, account_id_read_of, read_account_id, read_word,
    word_bytes, word_bytes_of, word_read_of,
};
use crate::primitives::{AccountId, NoteDetailsCommitment, NoteId, NoteTag};

verus! {

/// Where a tag comes from. It tells the tags that a user added from those that the client added
/// on its own.
#[derive(Clone, Copy, Debug, PartialEq, Eq, Structural)]
pub enum NoteTagSource {
    /// Follows the notes aimed at a tracked account.
    Account(AccountId),
    /// Follows an expected note.
    Note(NoteDetailsCommitment),
    /// Added by the user.
    User,
    /// A subscription anchored to a note.
    Subscription(NoteId),
}

/// A tag that a client follows.
#[derive(Clone, Copy, Debug, PartialEq, Eq, Structural)]
pub struct NoteTagRecord {
    pub tag: NoteTag,
    pub source: NoteTagSource,
}

/// A record compares equal to a bare tag when it is the record's tag.
impl PartialEq<NoteTag> for NoteTagRecord {
    fn eq(&self, other: &NoteTag) -> (equal: bool) {
        self.tag == *other
    }
}

impl vstd::std_specs::cmp::PartialEqSpecImpl<NoteTag> for NoteTagRecord {
    open spec fn obeys_eq_spec() -> bool {
        true
    }

    open spec fn eq_spec(&self, other: &NoteTag) -> bool {
        self.tag == *other
    }
}

/// Bytes that encode no tag record.
#[derive(Clone, Copy, Debug, PartialEq, Eq, Structural)]
pub enum TagDecodeError {
    /// There are too few bytes, or what they hold is not a valid value.
    InvalidValue,
    /// The source's first byte stands for no source.
    InvalidSource(u8),
}

/// An input note without metadata has no tag to follow.
#[derive(Clone, Copy, Debug, PartialEq, Eq, Structural)]
pub struct MissingTag;

impl NoteTagRecord {
    pub fn with_note_source(tag: NoteTag, details_commitment: NoteDetailsCommitment) -> (record:
        NoteTagRecord)
        ensures
            record == (NoteTagRecord { tag, source: NoteTagSource::Note(details_commitment) }),
    {
        NoteTagRecord { tag, source: NoteTagSource::Note(details_commitment) }
    }

    pub fn with_account_source(tag: NoteTag, account_id: AccountId) -> (record: NoteTagRecord)
        ensures
            record == (NoteTagRecord { tag, source: NoteTagSource::Account(account_id) }),
    {
        NoteTagRecord { tag, source: NoteTagSource::Account(account_id) }
    }

    pub fn with_user_source(tag: NoteTag) -> (record: NoteTagRecord)
        ensures
            record == (NoteTagRecord { tag, source: NoteTagSource::User }),
    {
        NoteTagRecord { tag, source: NoteTagSource::User }
    }

    /// The record that follows the notes aimed at an account.
    pub fn for_account(account_id: AccountId) -> (record: NoteTagRecord)
        ensures
            record == (NoteTagRecord {
                tag: account_id.spec_target_tag(),
                source: NoteTagSource::Account(account_id),
            }),
    {
        NoteTagRecord::with_account_source(account_id.target_tag(), account_id)
    }

    /// The record that follows an input note, given the tag in its metadata.
    pub fn for_input_note(
        metadata_tag: Option<NoteTag>,
        details_commitment: NoteDetailsCommitment,
    ) -> (record: Result<NoteTagRecord, MissingTag>)
        ensures
            record == (match metadata_tag {
                Some(tag) => Ok::<NoteTagRecord, MissingTag>(
                    NoteTagRecord { tag, source: NoteTagSource::Note(details_commitment) },
                ),
                None => Err(MissingTag),
            }),
    {
        match metadata_tag {
            Some(tag) => Ok(NoteTagRecord::with_note_source(tag, details_commitment)),
            None => Err(MissingTag),
        }
    }
}

// ENCODING
// ================================================================================================

impl NoteTagSource {
    /// The byte that tells the sources apart in storage. The values are part of the on-disk
    /// encoding.
    pub open spec fn discriminant(self) -> u8 {
        match self {
            NoteTagSource::Account(_) => 0,
            NoteTagSource::Note(_) => 1,
            NoteTagSource::User => 2,
            NoteTagSource::Subscription(_) => 3,
        }
    }

    /// The bytes that stand for a source: its discriminant and what it carries.
    pub open spec fn encoded(self) -> Seq<u8> {
        seq![self.discriminant()] + match self {
            NoteTagSource::Account(id) => account_id_bytes_of(id@),
            NoteTagSource::Note(commitment) => word_bytes_of(commitment.word),
            NoteTagSource::User => Seq::empty(),
            NoteTagSource::Subscription(id) => word_bytes_of(id.word),
        }
    }

    /// Whether the identifiers in the source are canonical.
    pub open spec fn wf(self) -> bool {
        match self {
            NoteTagSource::Account(_) | NoteTagSource::User => true,
            NoteTagSource::Note(commitment) => commitment.word.is_canonical(),
            NoteTagSource::Subscription(id) => id.word.is_canonical(),
        }
    }

    /// The source that stands at the start of some bytes. Bytes behind it are left alone.
    pub open spec fn decoded(bytes: Seq<u8>) -> Result<NoteTagSource, TagDecodeError> {
        if bytes.len() == 0 {
            Err(TagDecodeError::InvalidValue)
        } else if bytes[0] == 0 {
            match account_id_read_of(bytes.skip(1)) {
                Some(raw) => Ok(NoteTagSource::Account(AccountId::of(raw))),
                None => Err(TagDecodeError::InvalidValue),
            }
        } else if bytes[0] == 1 {
            match word_read_of(bytes.skip(1)) {
                Some(word) => Ok(NoteTagSource::Note(NoteDetailsCommitment { word })),
                None => Err(TagDecodeError::InvalidValue),
            }
        } else if bytes[0] == 2 {
            Ok(NoteTagSource::User)
        } else if bytes[0] == 3 {
            match word_read_of(bytes.skip(1)) {
                Some(word) => Ok(NoteTagSource::Subscription(NoteId { word })),
                None => Err(TagDecodeError::InvalidValue),
            }
        } else {
            Err(TagDecodeError::InvalidSource(bytes[0]))
        }
    }

    /// Encodes the source. Reading the bytes, with anything behind them, gives it back.
    pub fn to_bytes(&self) -> (bytes: Vec<u8>)
        ensures
            bytes@ == self.encoded(),
            bytes@[0] == self.discriminant(),
            self.wf() ==> forall|rest: Seq<u8>| #[trigger]
                NoteTagSource::decoded(bytes@ + rest) == Ok::<NoteTagSource, TagDecodeError>(
                    *self,
                ),
    {
        let mut bytes: Vec<u8> = Vec::new();
        let mut payload: Vec<u8>;
        match self {
            NoteTagSource::Account(id) => {
                bytes.push(0);
                payload = account_id_bytes(*id);
            },
            NoteTagSource::Note(commitment) => {
                bytes.push(1);
                payload = word_bytes(commitment.word);
            },
            NoteTagSource::User => {
                bytes.push(2);
                payload = Vec::new();
            },
            NoteTagSource::Subscription(id) => {
                bytes.push(3);
                payload = word_bytes(id.word);
            },
        }
        let ghost carried = payload@;
        bytes.append(&mut payload);
        proof {
            assert(bytes@ =~= self.encoded());
            if self.wf() {
                assert forall|rest: Seq<u8>| #[trigger]
                    NoteTagSource::decoded(bytes@ + rest) == Ok::<NoteTagSource, TagDecodeError>(
                        *self,
                    ) by {
                    broadcast use AccountId::lemma_of_view;

                    assert((bytes@ + rest).skip(1) =~= carried + rest);
                    assert((bytes@ + rest)[0] == self.discriminant());
                }
            }
        }
        bytes
    }

    /// Reads a source from the start of some bytes.
    pub fn read_from_bytes(bytes: &[u8]) -> (source: Result<NoteTagSource, TagDecodeError>)
        ensures
            source == NoteTagSource::decoded(bytes@),
    {
        broadcast use AccountId::lemma_of_view;

        if bytes.len() == 0 {
            return Err(TagDecodeError::InvalidValue);
        }
        let rest = vstd::slice::slice_subrange(bytes, 1, bytes.len());
        assert(rest@ =~= bytes@.skip(1));
        match bytes[0] {
            0 => match read_account_id(rest) {
                Some(id) => Ok(NoteTagSource::Account(id)),
                None => Err(TagDecodeError::InvalidValue),
            },
            1 => match read_word(rest) {
                Some(word) => Ok(NoteTagSource::Note(NoteDetailsCommitment { word })),
                None => Err(TagDecodeError::InvalidValue),
            },
            2 => Ok(NoteTagSource::User),
            3 => match read_word(rest) {
                Some(word) => Ok(NoteTagSource::Subscription(NoteId { word })),
                None => Err(TagDecodeError::InvalidValue),
            },
            other => Err(TagDecodeError::InvalidSource(other)),
        }
    }
}

/// The bytes of a tag, least significant first.
pub open spec fn tag_bytes(tag: NoteTag) -> Seq<u8> {
    seq![
        (tag % 256) as u8,
        (tag / 256 % 256) as u8,
        (tag / 65536 % 256) as u8,
        (tag / 16777216) as u8,
    ]
}

/// The tag whose bytes stand at the start of some bytes.
pub open spec fn tag_from_bytes(bytes: Seq<u8>) -> NoteTag {
    (bytes[0] + bytes[1] * 256 + bytes[2] * 65536 + bytes[3] * 16777216) as u32
}

impl NoteTagRecord {
    /// The bytes that stand for a record: the tag, then the source.
    pub open spec fn encoded(self) -> Seq<u8> {
        tag_bytes(self.tag) + self.source.encoded()
    }

    /// The record that stands at the start of some bytes.
    pub open spec fn decoded(bytes: Seq<u8>) -> Result<NoteTagRecord, TagDecodeError> {
        if bytes.len() < 4 {
            Err(TagDecodeError::InvalidValue)
        } else {
            match NoteTagSource::decoded(bytes.skip(4)) {
                Ok(source) => Ok(NoteTagRecord { tag: tag_from_bytes(bytes), source }),
                Err(err) => Err(err),
            }
        }
    }

    /// Encodes the record. Reading the bytes, with anything behind them, gives it back.
    pub fn to_bytes(&self) -> (bytes: Vec<u8>)
        ensures
            bytes@ == self.encoded(),
            self.source.wf() ==> forall|rest: Seq<u8>| #[trigger]
                NoteTagRecord::decoded(bytes@ + rest) == Ok::<NoteTagRecord, TagDecodeError>(
                    *self,
                ),
    {
        let mut bytes: Vec<u8> = Vec::new();
        bytes.push((self.tag % 256) as u8);
        bytes.push((self.tag / 256 % 256) as u8);
        bytes.push((self.tag / 65536 % 256) as u8);
        bytes.push((self.tag / 16777216) as u8);
        let mut source = self.source.to_bytes();
        let ghost source_bytes = source@;
        bytes.append(&mut source);
        proof {
            assert(bytes@ =~= self.encoded());
            if self.source.wf() {
                assert forall|rest: Seq<u8>| #[trigger]
                    NoteTagRecord::decoded(bytes@ + rest) == Ok::<NoteTagRecord, TagDecodeError>(
                        *self,
                    ) by {
                    assert((bytes@ + rest).skip(4) =~= source_bytes + rest);
                    assert(tag_from_bytes(bytes@ + rest) == self.tag);
                }
            }
        }
        bytes
    }

    /// Reads a record from the start of some bytes.
    pub fn read_from_bytes(bytes: &[u8]) -> (record: Result<NoteTagRecord, TagDecodeError>)
        ensures
            record == NoteTagRecord::decoded(bytes@),
    {
        if bytes.len() < 4 {
            return Err(TagDecodeError::InvalidValue);
        }
        let tag: NoteTag = bytes[0] as u32 + bytes[1] as u32 * 256 + bytes[2] as u32 * 65536
            + bytes[3] as u32 * 16777216;
        let rest = vstd::slice::slice_subrange(bytes, 4, bytes.len());
        assert(rest@ =~= bytes@.skip(4));
        match NoteTagSource::read_from_bytes(rest) {
            Ok(source) => Ok(NoteTagRecord { tag, source }),
            Err(err) => Err(err),
        }
    }
}

/// A first byte that stands for no source is an error, never one of the known sources.
pub proof fn law_unknown_source_is_rejected(bytes: Seq<u8>)
    requires
        bytes.len() > 0,
        bytes[0] > 3,
    ensures
        NoteTagSource::decoded(bytes) == Err::<NoteTagSource, TagDecodeError>(
            TagDecodeError::InvalidSource(bytes[0]),
        ),
{
}

/// The bytes of a tag stand for it, the lowest first; a record starts with them, and its source
/// follows.
pub proof fn law_record_starts_with_its_tag(record: NoteTagRecord)
    ensures
        ({
            let bytes = record.encoded();
            &&& bytes.len() == 4 + record.source.encoded().len()
            &&& bytes[0] + 0x100 * bytes[1] + 0x1_0000 * bytes[2] + 0x100_0000 * bytes[3]
                == record.tag
            &&& bytes.skip(4) == record.source.encoded()
            &&& tag_from_bytes(bytes) == record.tag
        }),
{
    assert(record.encoded().skip(4) =~= record.source.encoded());
}

/// The sources are told apart by their first byte: the account's bytes follow a 0, those of an
/// expected note a 1, those of a subscription's note a 3, and nothing follows the 2 of a user's.
pub proof fn law_source_is_told_by_its_first_byte(
    account: AccountId,
    expected: NoteDetailsCommitment,
    anchor: NoteId,
)
    ensures
        NoteTagSource::Account(account).encoded() == seq![0u8] + account_id_bytes_of(account@),
        NoteTagSource::Note(expected).encoded() == seq![1u8] + word_bytes_of(expected.word),
        NoteTagSource::User.encoded() == seq![2u8],
        NoteTagSource::Subscription(anchor).encoded() == seq![3u8] + word_bytes_of(anchor.word),
{
    assert(NoteTagSource::User.encoded() =~= seq![2u8]);
}

} // verus!
