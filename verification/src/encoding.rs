//! The byte forms in which identifiers are stored.
use miden_protocol::utils::serde::{Deserializable, Serializable};
use vstd::arithmetic::power::{lemma_pow0, lemma_pow1, lemma_pow_adds, pow};
use vstd::prelude::*;

use crate::primitives::{is_account_id, AccountId, NoteId, Word, FIELD_ORDER};

verus! {

// NUMBERS
// ================================================================================================

/// The `count` lowest bytes of a number, the lowest first.
pub open spec fn le_bytes(value: nat, count: nat) -> Seq<u8>
    decreases count,
{
    if count == 0 {
        Seq::empty()
    } else {
        seq![(value % 256) as u8] + le_bytes(value / 256, (count - 1) as nat)
    }
}

/// The number that some bytes stand for, the lowest first.
pub open spec fn le_value(bytes: Seq<u8>) -> nat
    decreases bytes.len(),
{
    if bytes.len() == 0 {
        0
    } else {
        bytes[0] as nat + 256 * le_value(bytes.skip(1))
    }
}

proof fn lemma_le_round_trip(value: nat, count: nat)
    requires
        value < pow(256, count),
    ensures
        le_bytes(value, count).len() == count,
        le_value(le_bytes(value, count)) == value,
    decreases count,
{
    if count == 0 {
        lemma_pow0(256);
    } else {
        let rest = (count - 1) as nat;
        lemma_pow_adds(256, 1, rest);
        lemma_pow1(256);
        assert(value < 256 * pow(256, rest));
        assert(value / 256 < pow(256, rest)) by (nonlinear_arith)
            requires
                value < 256 * pow(256, rest),
        ;
        lemma_le_round_trip(value / 256, rest);
        let bytes = le_bytes(value, count);
        assert(bytes.skip(1) =~= le_bytes(value / 256, rest));
    }
}

proof fn lemma_pow256()
    ensures
        pow(256, 8) == 0x1_0000_0000_0000_0000,
        pow(256, 15) == 0x1_00_0000_0000_0000_0000_0000_0000_0000,
{
    reveal_with_fuel(pow, 16);
}

// ACCOUNT IDENTIFIERS
// ================================================================================================

/// The bytes that an account identifier serialises to, given its integer form: all but the lowest
/// byte, which is zero, from the highest down.
pub open spec fn account_id_bytes_of(id: u128) -> Seq<u8> {
    le_bytes((id / 256) as nat, 15).reverse()
}

/// The account identifier that reading one from the start of some bytes gives, in its integer
/// form.
pub open spec fn account_id_read_of(bytes: Seq<u8>) -> Option<u128> {
    if bytes.len() < 15 {
        None
    } else {
        let raw = (256 * le_value(bytes.take(15).reverse())) as u128;
        if is_account_id(raw) {
            Some(raw)
        } else {
            None
        }
    }
}

proof fn lemma_account_id_round_trip(id: u128, rest: Seq<u8>)
    requires
        is_account_id(id),
    ensures
        account_id_bytes_of(id).len() == 15,
        account_id_read_of(account_id_bytes_of(id) + rest) == Some(id),
{
    let low = (id / 256) as nat;
    let bytes = account_id_bytes_of(id);
    lemma_pow256();
    lemma_le_round_trip(low, 15);
    assert((bytes + rest).take(15) =~= bytes);
    assert(bytes.reverse() =~= le_bytes(low, 15));
    assert(id % 256 == 0) by {
        assert(id as int % 0x1_0000_0000_0000_0000 % 256 == 0);
    }
    assert(256 * low == id);
}

/// Serialises an account identifier with `AccountId::to_bytes`. The claim is that this gives the
/// 15 highest bytes of its integer form, from the highest down.
#[verifier::external_body]
fn serialize_account_id(id: u128) -> (bytes: Vec<u8>)
    requires
        is_account_id(id),
    ensures
        bytes@ == account_id_bytes_of(id),
{
    let id: miden_protocol::account::AccountId = id.try_into().unwrap();
    id.to_bytes()
}

/// Serialises an account identifier. Reading the bytes, with anything behind them, gives it back.
pub(crate) fn account_id_bytes(id: AccountId) -> (bytes: Vec<u8>)
    ensures
        bytes@ == account_id_bytes_of(id@),
        bytes@.len() == 15,
        forall|rest: Seq<u8>| #[trigger] account_id_read_of(bytes@ + rest) == Some(id@),
{
    let raw: u128 = id.to_u128();
    let bytes = serialize_account_id(raw);
    proof {
        lemma_account_id_round_trip(raw, Seq::empty());
        assert forall|rest: Seq<u8>| #[trigger] account_id_read_of(bytes@ + rest) == Some(id@) by {
            lemma_account_id_round_trip(raw, rest);
        }
    }
    bytes
}

/// Reads an account identifier with `AccountId::read_from_bytes`. The claim is that it reads the
/// 15 bytes at the start, which are followed by a zero byte, and accepts exactly the integers that
/// are the form of an identifier.
#[verifier::external_body]
pub(crate) fn read_account_id(bytes: &[u8]) -> (id: Option<AccountId>)
    ensures
        match id {
            Some(id) => Some(id@),
            None => None,
        } == account_id_read_of(bytes@),
{
    let id = miden_protocol::account::AccountId::read_from_bytes(bytes).ok()?;
    Some(AccountId { raw: id.into() })
}

// WORDS
// ================================================================================================

/// The 8 bytes of an element's canonical form.
pub open spec fn element_bytes(element: u64) -> Seq<u8> {
    le_bytes((element % FIELD_ORDER) as nat, 8)
}

/// The bytes that a word serialises to: its elements one after the other.
pub open spec fn word_bytes_of(word: Word) -> Seq<u8> {
    element_bytes(word.a) + element_bytes(word.b) + element_bytes(word.c) + element_bytes(word.d)
}

/// The word that stands at the start of some bytes; `None` when there are too few of them or an
/// element is not canonical.
pub open spec fn word_read_of(bytes: Seq<u8>) -> Option<Word> {
    if bytes.len() < 32 {
        None
    } else {
        let word = Word {
            a: le_value(bytes.subrange(0, 8)) as u64,
            b: le_value(bytes.subrange(8, 16)) as u64,
            c: le_value(bytes.subrange(16, 24)) as u64,
            d: le_value(bytes.subrange(24, 32)) as u64,
        };
        if word.is_canonical() {
            Some(word)
        } else {
            None
        }
    }
}

proof fn lemma_element_round_trip(element: u64)
    ensures
        element_bytes(element).len() == 8,
        element < FIELD_ORDER ==> le_value(element_bytes(element)) == element,
{
    lemma_pow256();
    lemma_le_round_trip((element % FIELD_ORDER) as nat, 8);
}

proof fn lemma_word_round_trip(word: Word, rest: Seq<u8>)
    ensures
        word_bytes_of(word).len() == 32,
        word.is_canonical() ==> word_read_of(word_bytes_of(word) + rest) == Some(word),
{
    lemma_element_round_trip(word.a);
    lemma_element_round_trip(word.b);
    lemma_element_round_trip(word.c);
    lemma_element_round_trip(word.d);
    let bytes = word_bytes_of(word) + rest;
    assert(bytes.subrange(0, 8) =~= element_bytes(word.a));
    assert(bytes.subrange(8, 16) =~= element_bytes(word.b));
    assert(bytes.subrange(16, 24) =~= element_bytes(word.c));
    assert(bytes.subrange(24, 32) =~= element_bytes(word.d));
}

/// Serialises a word with `Word::to_bytes`. The claim is that this gives the canonical form of
/// each element as 8 bytes, the lowest first.
#[verifier::external_body]
fn serialize_word(word: Word) -> (bytes: Vec<u8>)
    ensures
        bytes@ == word_bytes_of(word),
{
    let felts = [word.a, word.b, word.c, word.d].map(miden_protocol::Felt::new_unchecked);
    miden_protocol::Word::new(felts).to_bytes()
}

/// Serialises a word. Reading the bytes, with anything behind them, gives a canonical word back.
pub(crate) fn word_bytes(word: Word) -> (bytes: Vec<u8>)
    ensures
        bytes@ == word_bytes_of(word),
        bytes@.len() == 32,
        word.is_canonical() ==> forall|rest: Seq<u8>| #[trigger]
            word_read_of(bytes@ + rest) == Some(word),
{
    let bytes = serialize_word(word);
    proof {
        lemma_word_round_trip(word, Seq::empty());
        assert forall|rest: Seq<u8>| word.is_canonical() implies #[trigger] word_read_of(
            bytes@ + rest,
        ) == Some(word) by {
            lemma_word_round_trip(word, rest);
        }
    }
    bytes
}

/// Reads a word with `Word::read_from_bytes`. The claim is that it reads four elements of 8 bytes
/// each from the start, and accepts exactly canonical ones.
#[verifier::external_body]
pub(crate) fn read_word(bytes: &[u8]) -> (word: Option<Word>)
    ensures
        word == word_read_of(bytes@),
{
    let [a, b, c, d]: [u64; 4] = miden_protocol::Word::read_from_bytes(bytes).ok()?.into();
    Some(Word { a, b, c, d })
}

// HEXADECIMAL TEXT
// ================================================================================================

/// The hexadecimal digit that stands for a number below 16.
pub open spec fn hex_digit(value: int) -> char {
    if value < 10 {
        ('0' as int + value) as char
    } else {
        ('a' as int + value - 10) as char
    }
}

/// The number that a hexadecimal digit stands for.
pub open spec fn hex_value(digit: char) -> Option<int> {
    if '0' <= digit <= '9' {
        Some(digit as int - '0' as int)
    } else if 'a' <= digit <= 'f' {
        Some(digit as int - 'a' as int + 10)
    } else if 'A' <= digit <= 'F' {
        Some(digit as int - 'A' as int + 10)
    } else {
        None
    }
}

/// The hexadecimal text of some bytes: `0x`, then two digits for each byte.
pub open spec fn hex_of(bytes: Seq<u8>) -> Seq<char> {
    seq!['0', 'x'] + Seq::new(
        2 * bytes.len(),
        |i: int|
            if i % 2 == 0 {
                hex_digit(bytes[i / 2] as int / 16)
            } else {
                hex_digit(bytes[i / 2] as int % 16)
            },
    )
}

/// The `count` bytes that hexadecimal text denotes. The digits may be of either case.
pub open spec fn bytes_from_hex(text: Seq<char>, count: nat) -> Option<Seq<u8>> {
    if text.len() == 2 + 2 * count && text[0] == '0' && text[1] == 'x' && (forall|i: int|
        2 <= i < text.len() ==> hex_value(#[trigger] text[i]) is Some) {
        Some(
            Seq::new(
                count,
                |i: int|
                    (16 * hex_value(text[2 + 2 * i]).unwrap() + hex_value(
                        text[3 + 2 * i],
                    ).unwrap()) as u8,
            ),
        )
    } else {
        None
    }
}

/// The hexadecimal text of a note identifier.
pub open spec fn note_id_hex_of(id: NoteId) -> Seq<char> {
    hex_of(word_bytes_of(id.word))
}

/// The note identifier that some hexadecimal text denotes.
pub open spec fn note_id_from_hex_of(text: Seq<char>) -> Option<NoteId> {
    match bytes_from_hex(text, 32) {
        Some(bytes) => match word_read_of(bytes) {
            Some(word) => Some(NoteId { word }),
            None => None,
        },
        None => None,
    }
}

proof fn lemma_hex_round_trip(bytes: Seq<u8>)
    ensures
        bytes_from_hex(hex_of(bytes), bytes.len()) == Some(bytes),
{
    let text = hex_of(bytes);
    let digits = text.skip(2);
    assert forall|i: int| 0 <= i < digits.len() implies #[trigger] digits[i] == hex_digit(
        if i % 2 == 0 {
            bytes[i / 2] as int / 16
        } else {
            bytes[i / 2] as int % 16
        },
    ) by {}
    assert forall|i: int| 2 <= i < text.len() implies hex_value(#[trigger] text[i]) is Some by {
        assert(digits[i - 2] == text[i]);
    }
    assert forall|i: int| 0 <= i < bytes.len() implies {
        &&& hex_value(#[trigger] text[2 + 2 * i]) == Some(bytes[i] as int / 16)
        &&& hex_value(text[3 + 2 * i]) == Some(bytes[i] as int % 16)
    } by {
        assert((2 * i) / 2 == i && (2 * i) % 2 == 0);
        assert((2 * i + 1) / 2 == i && (2 * i + 1) % 2 == 1);
        assert(digits[2 * i] == hex_digit(bytes[i] as int / 16));
        assert(digits[2 * i + 1] == hex_digit(bytes[i] as int % 16));
    }
    let read = bytes_from_hex(text, bytes.len()).unwrap();
    assert forall|i: int| 0 <= i < bytes.len() implies #[trigger] read[i] == bytes[i] by {
        assert(hex_value(text[2 + 2 * i]) == Some(bytes[i] as int / 16));
        assert(16 * (bytes[i] as int / 16) + bytes[i] as int % 16 == bytes[i]);
    }
    assert(read =~= bytes);
}

/// Writes a word as hexadecimal text, with `Word::to_hex`. The claim is that this gives `0x` and
/// two lower-case digits for each byte that the word serialises to.
#[verifier::external_body]
fn word_hex(word: Word) -> (text: String)
    ensures
        text@ == hex_of(word_bytes_of(word)),
{
    let felts = [word.a, word.b, word.c, word.d].map(miden_protocol::Felt::new_unchecked);
    miden_protocol::Word::new(felts).to_hex()
}

/// Writes a note identifier as hexadecimal text. Reading it gives a canonical identifier back.
pub(crate) fn note_id_hex(id: NoteId) -> (text: String)
    ensures
        text@ == note_id_hex_of(id),
        id.word.is_canonical() ==> note_id_from_hex_of(text@) == Some(id),
{
    proof {
        let bytes = word_bytes_of(id.word);
        lemma_word_round_trip(id.word, Seq::empty());
        assert(bytes + Seq::<u8>::empty() =~= bytes);
        lemma_hex_round_trip(bytes);
    }
    word_hex(id.word)
}

/// Reads a note identifier with `NoteId::try_from_hex`. The claim is that it accepts `0x` and 64
/// hexadecimal digits that denote the bytes of a canonical word, and nothing else.
#[verifier::external_body]
pub(crate) fn note_id_from_hex(text: &str) -> (id: Option<NoteId>)
    ensures
        id == note_id_from_hex_of(text@),
{
    let [a, b, c, d]: [u64; 4] = miden_protocol::note::NoteId::try_from_hex(text).ok()?.as_word().into();
    Some(NoteId { word: Word { a, b, c, d } })
}

} // verus!
