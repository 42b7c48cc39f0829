use miden_protocol::account::AccountId as ProtocolAccountId;
use miden_protocol::note::{
    NoteDetailsCommitment as ProtocolDetailsCommitment, NoteId as ProtocolNoteId,
    NoteTag as ProtocolTag,
};
use miden_protocol::testing::account_id::ACCOUNT_ID_PUBLIC_FUNGIBLE_FAUCET;
use miden_protocol::utils::serde::Serializable;
use miden_protocol::{Felt, Word as ProtocolWord};
use pswap_sync::primitives::{AccountId, NoteDetailsCommitment, NoteId, Word, FIELD_ORDER};
use pswap_sync::sync::tag::{MissingTag, NoteTagRecord, NoteTagSource, TagDecodeError};

fn plain_word(word: ProtocolWord) -> Word {
    let [a, b, c, d]: [u64; 4] = word.into();
    Word { a, b, c, d }
}

/// The field element that a number stands for, in canonical form.
fn canonical(value: u64) -> u64 {
    value % FIELD_ORDER
}

fn note_id_from_u64(value: u64) -> NoteId {
    let f = canonical(value);
    NoteId { word: Word { a: f, b: f, c: f, d: f } }
}

fn account() -> AccountId {
    AccountId::try_from_u128(ACCOUNT_ID_PUBLIC_FUNGIBLE_FAUCET).unwrap()
}

fn details_commitment() -> NoteDetailsCommitment {
    let commitment = ProtocolDetailsCommitment::from_raw_commitments(
        ProtocolWord::empty(),
        ProtocolWord::empty(),
    );
    NoteDetailsCommitment { word: plain_word(commitment.as_word()) }
}

/// The first byte of the encoding is part of the stored format.
#[test]
fn note_tag_source_discriminants_are_stable() {
    let cases =
        [(NoteTagSource::User, 2u8), (NoteTagSource::Subscription(note_id_from_u64(42)), 3u8)];
    for (variant, expected_disc) in cases {
        let bytes = variant.to_bytes();
        assert_eq!(
            bytes[0], expected_disc,
            "variant {variant:?} expected discriminant {expected_disc}, got {}",
            bytes[0],
        );
    }
    assert_eq!(NoteTagSource::Account(account()).to_bytes()[0], 0);
    assert_eq!(NoteTagSource::Note(details_commitment()).to_bytes()[0], 1);
}

/// Every source survives being stored.
#[test]
fn note_tag_source_round_trip_every_variant() {
    let subscription_key = note_id_from_u64(0xdead_beef_dead_beef);

    let variants = [
        NoteTagSource::Account(account()),
        NoteTagSource::Note(details_commitment()),
        NoteTagSource::User,
        NoteTagSource::Subscription(subscription_key),
    ];

    for v in variants {
        let bytes = v.to_bytes();
        let decoded = NoteTagSource::read_from_bytes(&bytes).unwrap();
        assert_eq!(decoded, v, "round-trip failed for {v:?}");
    }
}

/// An unknown first byte is an error.
#[test]
fn note_tag_source_unknown_discriminant_errors() {
    let bogus = [99u8];
    assert!(NoteTagSource::read_from_bytes(&bogus).is_err());
    assert_eq!(NoteTagSource::read_from_bytes(&bogus), Err(TagDecodeError::InvalidSource(99)));
}

/// What a source carries is encoded as the protocol encodes it.
#[test]
fn note_tag_source_bytes_are_those_of_the_protocol() {
    let id = ProtocolAccountId::try_from(ACCOUNT_ID_PUBLIC_FUNGIBLE_FAUCET).unwrap();
    assert_eq!(NoteTagSource::Account(account()).to_bytes()[1..], id.to_bytes());

    let word = ProtocolWord::from([
        Felt::new(1).unwrap(),
        Felt::new(0x0203).unwrap(),
        Felt::new(FIELD_ORDER - 1).unwrap(),
        Felt::new(u64::from(u32::MAX)).unwrap(),
    ]);
    let note_id = ProtocolNoteId::from_raw(word);
    let source = NoteTagSource::Subscription(NoteId { word: plain_word(word) });
    assert_eq!(source.to_bytes()[1..], note_id.to_bytes());
    assert_eq!(source.to_bytes()[1..17], [1, 0, 0, 0, 0, 0, 0, 0, 3, 2, 0, 0, 0, 0, 0, 0]);
}

/// Too few bytes, or ones that hold no valid value, are errors; bytes behind are left alone.
#[test]
fn note_tag_source_reads_from_the_start() {
    assert_eq!(NoteTagSource::read_from_bytes(&[]), Err(TagDecodeError::InvalidValue));
    for source in [
        NoteTagSource::Account(account()),
        NoteTagSource::Note(details_commitment()),
        NoteTagSource::Subscription(note_id_from_u64(7)),
    ] {
        let mut bytes = source.to_bytes();
        let short = &bytes[..bytes.len() - 1];
        assert_eq!(NoteTagSource::read_from_bytes(short), Err(TagDecodeError::InvalidValue));
        bytes.push(77);
        assert_eq!(NoteTagSource::read_from_bytes(&bytes), Ok(source));
    }
    let mut beyond = vec![1u8];
    beyond.extend([0xff; 32]);
    assert_eq!(NoteTagSource::read_from_bytes(&beyond), Err(TagDecodeError::InvalidValue));
    let mut no_account = vec![0u8];
    no_account.extend([0xff; 15]);
    assert_eq!(NoteTagSource::read_from_bytes(&no_account), Err(TagDecodeError::InvalidValue));
}

#[test]
fn note_tag_record_is_tag_and_source() {
    let record = NoteTagRecord { tag: 0x0403_0201, source: NoteTagSource::User };
    assert_eq!(record.to_bytes(), vec![1, 2, 3, 4, 2]);
    assert_eq!(record.to_bytes()[..4], ProtocolTag::new(0x0403_0201).to_bytes());
    assert_eq!(NoteTagRecord::read_from_bytes(&record.to_bytes()), Ok(record));

    let subscription = NoteTagRecord {
        tag: u32::MAX,
        source: NoteTagSource::Subscription(note_id_from_u64(u64::MAX)),
    };
    assert_eq!(NoteTagRecord::read_from_bytes(&subscription.to_bytes()), Ok(subscription));
    assert_eq!(NoteTagRecord::read_from_bytes(&[1, 2, 3]), Err(TagDecodeError::InvalidValue));
    assert_eq!(
        NoteTagRecord::read_from_bytes(&[1, 2, 3, 4, 9]),
        Err(TagDecodeError::InvalidSource(9))
    );
}

#[test]
fn note_tag_records_name_their_source() {
    let commitment = details_commitment();
    assert_eq!(
        NoteTagRecord::with_note_source(5, commitment),
        NoteTagRecord { tag: 5, source: NoteTagSource::Note(commitment) },
    );
    assert_eq!(
        NoteTagRecord::with_account_source(5, account()),
        NoteTagRecord { tag: 5, source: NoteTagSource::Account(account()) },
    );
    assert_eq!(
        NoteTagRecord::with_user_source(5),
        NoteTagRecord { tag: 5, source: NoteTagSource::User },
    );
    let id = ProtocolAccountId::try_from(ACCOUNT_ID_PUBLIC_FUNGIBLE_FAUCET).unwrap();
    let followed = NoteTagRecord::for_account(account());
    assert_eq!(followed.tag, ProtocolTag::with_account_target(id).as_u32());
    assert_eq!(followed.source, NoteTagSource::Account(account()));
    assert_eq!(
        NoteTagRecord::for_input_note(Some(5), commitment),
        Ok(NoteTagRecord::with_note_source(5, commitment)),
    );
    assert_eq!(NoteTagRecord::for_input_note(None, commitment), Err(MissingTag));
    // A record compares equal to its bare tag.
    assert!(NoteTagRecord::with_user_source(5) == 5u32);
    assert!(NoteTagRecord::with_user_source(5) != 6u32);
}
