use bytes::Bytes;
use std::time::SystemTime;

use decoded_shredstream::{MessageDecodeError, Signature, TransactionUpdate};

fn legacy_transaction(sig_count: u8, sig_bytes: &[u8], message: &[u8]) -> Vec<u8> {
    let mut tx = vec![sig_count];
    tx.extend_from_slice(sig_bytes);
    tx.extend_from_slice(message);
    tx
}

fn message() -> Vec<u8> {
    let mut m = vec![1, 0, 0, 1];
    m.extend_from_slice(&[7u8; 32]);
    m.extend_from_slice(&[8u8; 32]);
    m.push(0);
    m
}

fn update(tx: Vec<u8>, provided: Vec<Bytes>) -> TransactionUpdate {
    let now = SystemTime::now();
    TransactionUpdate::new(9, Bytes::from(tx), provided, vec!["f".to_string()], None, now)
}

#[test]
fn accessors_give_back_what_was_delivered() {
    let now = SystemTime::now();
    let u = TransactionUpdate::new(
        31,
        Bytes::from(vec![1u8, 2, 3]),
        Vec::new(),
        vec!["a".to_string(), "b".to_string()],
        Some(now),
        now,
    );
    assert_eq!(u.slot(), 31);
    assert_eq!(u.bytes(), &[1, 2, 3]);
    assert_eq!(u.filters(), &["a".to_string(), "b".to_string()]);
    assert_eq!(u.created_at(), Some(now));
    assert_eq!(u.received_at(), now);
}

#[test]
fn signature_is_bytes_1_to_64() {
    let mut sigs = vec![0u8; 128];
    for (i, b) in sigs.iter_mut().enumerate() {
        *b = i as u8;
    }
    let u = update(legacy_transaction(2, &sigs, &message()), Vec::new());
    let s = u.signature();
    assert_eq!(&s.as_bytes()[..], &sigs[..64]);
    assert_eq!(s, Signature(sigs[..64].try_into().unwrap()));
}

#[test]
fn short_transaction_has_a_zero_signature() {
    let u = update(vec![1, 2, 3], Vec::new());
    assert_eq!(u.signature(), Signature([0u8; 64]));
}

#[test]
fn signatures_are_read_in_wire_order() {
    let mut sigs = vec![0u8; 128];
    sigs[..64].fill(0x11);
    sigs[64..].fill(0x22);
    let u = update(legacy_transaction(2, &sigs, &message()), Vec::new());
    let all = u.signatures();
    assert_eq!(all.len(), 2);
    assert_eq!(all[0], Signature([0x11; 64]));
    assert_eq!(all[1], Signature([0x22; 64]));
    assert_eq!(all[0], u.signature());
}

#[test]
fn signatures_stop_where_the_bytes_end() {
    let sigs = vec![0x33u8; 100];
    let u = update(legacy_transaction(3, &sigs, &[]), Vec::new());
    assert_eq!(u.signatures(), &[Signature([0x33; 64])]);
}

#[test]
fn bad_signature_count_gives_no_signatures() {
    // a third count byte above 3 does not fit in 16 bits
    let u = update(vec![0x80, 0x80, 0x04, 0, 0], Vec::new());
    assert!(u.signatures().is_empty());
    // a count whose third byte continues is refused too
    let u = update(vec![0x80, 0x80, 0x80, 0, 0], Vec::new());
    assert!(u.signatures().is_empty());
    let u = update(Vec::new(), Vec::new());
    assert!(u.signatures().is_empty());
}

#[test]
fn two_byte_signature_count() {
    // 0x80 0x01 announces 128 signatures on two bytes; one fits
    let mut tx = vec![0x80, 0x01];
    tx.extend_from_slice(&[0x44u8; 64]);
    let u = update(tx, Vec::new());
    assert_eq!(u.signatures(), &[Signature([0x44; 64])]);
    assert_eq!(u.signature(), Signature([0x44; 64]));
}

fn v1_message(sig_count: u8) -> Vec<u8> {
    let mut m = vec![0x81, sig_count];
    m.extend_from_slice(&[1u8; 40]);
    m
}

#[test]
fn v1_signatures_follow_the_message() {
    let mut tx = v1_message(1);
    tx.extend_from_slice(&[0x66u8; 64]);
    assert_eq!(tx.len(), 106);
    let u = update(tx, Vec::new());
    assert_eq!(u.signature(), Signature([0x66; 64]));
    assert_eq!(u.signatures(), &[Signature([0x66; 64])]);
}

#[test]
fn v1_signatures_in_wire_order() {
    let mut tx = v1_message(2);
    tx.extend_from_slice(&[0x11u8; 64]);
    tx.extend_from_slice(&[0x22u8; 64]);
    let u = update(tx, Vec::new());
    assert_eq!(u.signature(), Signature([0x11; 64]));
    assert_eq!(u.signatures(), &[Signature([0x11; 64]), Signature([0x22; 64])]);
}

#[test]
fn v1_signatures_that_do_not_fit_give_none() {
    let mut tx = v1_message(3);
    tx.extend_from_slice(&[0x11u8; 64]);
    let u = update(tx.clone(), Vec::new());
    assert!(u.signatures().is_empty());
    // no signature can be read: bytes 1 to 64
    assert_eq!(&u.signature().as_bytes()[..], &tx[1..65]);
}

#[test]
fn transaction_without_readable_signatures_gives_bytes_1_to_64() {
    let u = update(legacy_transaction(0, &[7u8; 64], &[]), Vec::new());
    assert!(u.signatures().is_empty());
    assert_eq!(u.signature(), Signature([7u8; 64]));
    // a count that cannot be read
    let mut tx = vec![0x80, 0x80, 0x80];
    tx.extend_from_slice(&[9u8; 70]);
    let u = update(tx.clone(), Vec::new());
    assert!(u.signatures().is_empty());
    assert_eq!(&u.signature().as_bytes()[..], &tx[1..65]);
    // shorter than 65 bytes: all zeros
    let u = update(legacy_transaction(0, &[], &[5u8; 40]), Vec::new());
    assert_eq!(u.signature(), Signature([0u8; 64]));
}

#[test]
fn provided_signatures_win_when_all_are_64_bytes() {
    let sigs = vec![0x11u8; 64];
    let provided = vec![Bytes::from(vec![0x55u8; 64]), Bytes::from(vec![0x66u8; 64])];
    let u = update(legacy_transaction(1, &sigs, &message()), provided);
    assert_eq!(u.signatures(), &[Signature([0x55; 64]), Signature([0x66; 64])]);
}

#[test]
fn provided_signatures_of_another_length_are_ignored() {
    let sigs = vec![0x11u8; 64];
    let provided = vec![Bytes::from(vec![0x55u8; 64]), Bytes::from(vec![0x66u8; 63])];
    let u = update(legacy_transaction(1, &sigs, &message()), provided);
    assert_eq!(u.signatures(), &[Signature([0x11; 64])]);
}

#[test]
fn parse_decodes_the_message_after_the_signatures() {
    let sigs = vec![0x11u8; 64];
    let u = update(legacy_transaction(1, &sigs, &message()), Vec::new());
    let m = u.parse().unwrap();
    assert_eq!(m.version, None);
    assert_eq!(m.static_accounts, vec![&[7u8; 32][..]]);
    assert_eq!(m.lifetime_token, &[8u8; 32][..]);
    assert!(m.instructions.is_empty());
}

#[test]
fn parse_reports_signatures_that_do_not_fit() {
    let u = update(vec![2, 0, 0, 0], Vec::new());
    assert_eq!(u.parse().err(), Some(MessageDecodeError("signatures do not fit")));
    let u = update(vec![1; 65], Vec::new());
    assert_eq!(u.parse().err(), Some(MessageDecodeError("empty message")));
}

#[test]
fn base58_of_a_signature() {
    assert_eq!(Signature([0u8; 64]).to_base58(), "1".repeat(64));
    let mut b = [0u8; 64];
    b[63] = 57;
    assert_eq!(Signature(b).to_base58(), format!("{}z", "1".repeat(63)));
}
