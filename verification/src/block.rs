//! Block headers as the library holds them.
use miden_protocol::utils::serde::Deserializable;
use vstd::prelude::*;

use crate::primitives::{BlockNumber, Word};

verus! {

/// The parts of a block header that the library reads.
#[derive(Clone, Copy, Debug, PartialEq, Eq, Structural)]
pub struct HeaderFields {
    pub block_num: BlockNumber,
    /// Commits to the whole header.
    pub commitment: Word,
    /// Commits to the blocks before this one.
    pub chain_commitment: Word,
    /// The root of the account tree.
    pub account_root: Word,
    pub timestamp: u32,
}

impl HeaderFields {
    /// Whether all words are canonical.
    pub open spec fn is_canonical(self) -> bool {
        &&& self.commitment.is_canonical()
        &&& self.chain_commitment.is_canonical()
        &&& self.account_root.is_canonical()
    }
}

/// A block header in its serialised form, with the parts that are read.
#[derive(Debug, PartialEq, Eq)]
pub struct BlockHeader {
    pub fields: HeaderFields,
    pub bytes: Vec<u8>,
}

/// What a [`BlockHeader`] stands for.
#[verifier::ext_equal]
pub ghost struct HeaderView {
    pub fields: HeaderFields,
    pub bytes: Seq<u8>,
}

impl View for BlockHeader {
    type V = HeaderView;

    open spec fn view(&self) -> HeaderView {
        HeaderView { fields: self.fields, bytes: self.bytes@ }
    }
}

impl Clone for BlockHeader {
    fn clone(&self) -> (copy: Self)
        ensures
            copy@ == self@,
    {
        let bytes = self.bytes.clone();
        assert(bytes@ =~= self.bytes@);
        BlockHeader { fields: self.fields, bytes }
    }
}

/// The parts of the block header that a byte string encodes, if it encodes one.
pub uninterp spec fn header_fields_of(bytes: Seq<u8>) -> Option<HeaderFields>;

/// Decodes a header with `BlockHeader::read_from_bytes` and reads out its parts. The claims are
/// that the outcome depends on the bytes alone and that the words are canonical.
#[verifier::external_body]
fn decode_header(bytes: &Vec<u8>) -> (fields: Option<HeaderFields>)
    ensures
        fields == header_fields_of(bytes@),
        fields matches Some(fields) ==> fields.is_canonical(),
{
    let header = miden_protocol::block::BlockHeader::read_from_bytes(bytes).ok()?;
    let plain = |word: miden_protocol::Word| {
        let [a, b, c, d]: [u64; 4] = word.into();
        Word { a, b, c, d }
    };
    Some(HeaderFields {
        block_num: header.block_num().as_u32(),
        commitment: plain(header.commitment()),
        chain_commitment: plain(header.chain_commitment()),
        account_root: plain(header.account_root()),
        timestamp: header.timestamp(),
    })
}

impl BlockHeader {
    /// Whether the parts are those that the bytes encode.
    pub open spec fn wf(self) -> bool {
        header_fields_of(self.bytes@) == Some(self.fields)
    }

    /// Reads a header from its serialised form.
    pub fn from_bytes(bytes: Vec<u8>) -> (header: Option<BlockHeader>)
        ensures
            header is Some <==> header_fields_of(bytes@) is Some,
            header matches Some(header) ==> header.wf() && header.bytes@ == bytes@
                && header.fields.is_canonical(),
    {
        match decode_header(&bytes) {
            Some(fields) => Some(BlockHeader { fields, bytes }),
            None => None,
        }
    }

    pub fn block_num(&self) -> (block_num: BlockNumber)
        ensures
            block_num == self.fields.block_num,
    {
        self.fields.block_num
    }
}

} // verus!
