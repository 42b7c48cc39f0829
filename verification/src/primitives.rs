//! Plain values the rest of the library is written over: words, identifiers and amounts.
use vstd::prelude::*;

verus! {

/// The order of the base field; every canonical field element is below it.
pub const FIELD_ORDER: u64 = 0xffff_ffff_0000_0001;

/// A block's position in the chain.
pub type BlockNumber = u32;

/// A note tag, in its integer form.
pub type NoteTag = u32;

/// Four field elements, in the order in which the protocol lists them.
#[derive(Clone, Copy, Debug, PartialEq, Eq, Structural)]
pub struct Word {
    pub a: u64,
    pub b: u64,
    pub c: u64,
    pub d: u64,
}

impl Word {
    /// The word of four zeros.
    pub open spec fn spec_empty() -> Word {
        Word { a: 0, b: 0, c: 0, d: 0 }
    }

    pub fn empty() -> (word: Word)
        ensures
            word == Word::spec_empty(),
    {
        Word { a: 0, b: 0, c: 0, d: 0 }
    }

    /// Whether all four elements are canonical.
    pub open spec fn is_canonical(self) -> bool {
        self.a < FIELD_ORDER && self.b < FIELD_ORDER && self.c < FIELD_ORDER && self.d < FIELD_ORDER
    }

    /// The protocol's order on words: the last element decides first.
    pub open spec fn precedes(self, other: Word) -> bool {
        if self.d != other.d {
            self.d < other.d
        } else if self.c != other.c {
            self.c < other.c
        } else if self.b != other.b {
            self.b < other.b
        } else {
            self.a < other.a
        }
    }

    pub fn is_before(&self, other: &Word) -> (before: bool)
        ensures
            before == self.precedes(*other),
    {
        if self.d != other.d {
            self.d < other.d
        } else if self.c != other.c {
            self.c < other.c
        } else if self.b != other.b {
            self.b < other.b
        } else {
            self.a < other.a
        }
    }
}

/// Words are compared from the last element to the first: the last of the elements in which two words
/// differ decides.
pub proof fn law_last_difference_decides(left: Word, right: Word)
    ensures
        left.d < right.d ==> left.precedes(right) && !right.precedes(left),
        left.d == right.d && left.c < right.c ==> left.precedes(right) && !right.precedes(left),
        left.d == right.d && left.c == right.c && left.b < right.b ==> left.precedes(right)
            && !right.precedes(left),
        left.d == right.d && left.c == right.c && left.b == right.b && left.a < right.a
            ==> left.precedes(right) && !right.precedes(left),
        !left.precedes(left),
{
}

/// Identifies a note.
#[derive(Clone, Copy, Debug, PartialEq, Eq, Structural)]
pub struct NoteId {
    pub word: Word,
}

/// Marks a note as consumed.
#[derive(Clone, Copy, Debug, PartialEq, Eq, Structural)]
pub struct Nullifier {
    pub word: Word,
}

/// Commits to a note's assets and recipient, without its metadata.
#[derive(Clone, Copy, Debug, PartialEq, Eq, Structural)]
pub struct NoteDetailsCommitment {
    pub word: Word,
}

/// Identifies a transaction.
#[derive(Clone, Copy, Debug, PartialEq, Eq, Structural)]
pub struct TransactionId {
    pub word: Word,
}

/// Whether a note's details are stored on chain.
#[derive(Clone, Copy, Debug, PartialEq, Eq, Structural)]
pub enum NoteType {
    Private,
    Public,
}

/// An account identifier in its 128-bit integer form: the prefix in the high half, the suffix
/// in the low half.
#[derive(Clone, Copy, Debug, PartialEq, Eq, Structural)]
pub struct AccountId {
    pub(crate) raw: u128,
}

/// Whether an integer is the form of some account identifier: the prefix is a field element
/// with version nibble 1, and the suffix has its top bit and its low byte clear.
pub open spec fn is_account_id(raw: u128) -> bool {
    let prefix = raw as int / 0x1_0000_0000_0000_0000;
    let suffix = raw as int % 0x1_0000_0000_0000_0000;
    &&& prefix < FIELD_ORDER
    &&& prefix % 16 == 1
    &&& suffix < 0x8000_0000_0000_0000
    &&& suffix % 256 == 0
}

impl View for AccountId {
    type V = u128;

    closed spec fn view(&self) -> u128 {
        self.raw
    }
}

impl AccountId {
    #[verifier::type_invariant]
    pub closed spec fn well_formed(self) -> bool {
        is_account_id(self.raw)
    }

    /// The identifier with the given integer form.
    pub closed spec fn of(raw: u128) -> AccountId {
        AccountId { raw }
    }

    /// An identifier and its integer form determine each other.
    pub broadcast proof fn lemma_of_view(self)
        ensures
            AccountId::of(#[trigger] self@) == self,
    {
    }

    /// An identifier and its integer form determine each other.
    pub broadcast proof fn lemma_view_of(raw: u128)
        ensures
            #[trigger] AccountId::of(raw)@ == raw,
    {
    }

    /// Reads an identifier from its integer form.
    pub fn try_from_u128(raw: u128) -> (id: Option<AccountId>)
        ensures
            id == (if is_account_id(raw) {
                Some(AccountId::of(raw))
            } else {
                None
            }),
    {
        let prefix: u128 = raw / 0x1_0000_0000_0000_0000;
        let suffix: u128 = raw % 0x1_0000_0000_0000_0000;
        if prefix < FIELD_ORDER as u128 && prefix % 16 == 1 && suffix < 0x8000_0000_0000_0000
            && suffix % 256 == 0 {
            Some(AccountId { raw })
        } else {
            None
        }
    }

    pub fn to_u128(&self) -> (raw: u128)
        ensures
            raw == self@,
            is_account_id(raw),
    {
        proof {
            use_type_invariant(self);
        }
        self.raw
    }

    /// Whether the account keeps its state off chain: the account-type bit of the prefix is
    /// clear.
    pub open spec fn spec_is_private(self) -> bool {
        (self@ as int / 0x10_0000_0000_0000_0000) % 2 == 0
    }

    pub fn is_private(&self) -> (private: bool)
        ensures
            private == self.spec_is_private(),
    {
        (self.raw / 0x10_0000_0000_0000_0000) % 2 == 0
    }

    /// The tag of notes aimed at this account: the 14 most significant bits of the prefix,
    /// followed by zeros.
    pub open spec fn spec_target_tag(self) -> NoteTag {
        ((self@ as int / 0x4_0000_0000_0000_0000_0000_0000_0000) * 0x4_0000) as u32
    }

    pub fn target_tag(&self) -> (tag: NoteTag)
        ensures
            tag == self.spec_target_tag(),
    {
        let top: u32 = (self.raw / 0x4_0000_0000_0000_0000_0000_0000_0000) as u32;
        top * 0x4_0000
    }
}

/// The tag of notes aimed at an account holds the 14 most significant bits of the account's prefix,
/// and no more: its 18 lowest bits are clear.
pub proof fn law_target_tag_starts_the_prefix(id: AccountId)
    ensures
        id.spec_target_tag() as int % 0x4_0000 == 0,
        id.spec_target_tag() as int / 0x4_0000 == (id@ as int / 0x1_0000_0000_0000_0000)
            / 0x4_0000_0000_0000,
{
    let tag = (id@ as int / 0x4_0000_0000_0000_0000_0000_0000_0000) * 0x4_0000;
    assert(0 <= tag < 0x1_0000_0000);
}

/// An account is private exactly where the bit above the version nibble of its prefix is clear.
pub proof fn law_prefix_tells_private_accounts(id: AccountId)
    ensures
        id.spec_is_private() <==> (id@ as int / 0x1_0000_0000_0000_0000) / 16 % 2 == 0,
{
}

} // verus!
