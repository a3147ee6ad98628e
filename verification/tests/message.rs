use decoded_shredstream::{decode_message, message_bytes, MessageDecodeError, MessageHeader};

fn legacy_message(version_byte: Option<u8>) -> Vec<u8> {
    let mut m = Vec::new();
    if let Some(v) = version_byte {
        m.push(v);
    }
    m.extend_from_slice(&[1, 0, 1]);
    m.push(2);
    m.extend_from_slice(&[1u8; 32]);
    m.extend_from_slice(&[2u8; 32]);
    m.extend_from_slice(&[3u8; 32]);
    m.push(1);
    m.push(1);
    m.push(2);
    m.extend_from_slice(&[0, 1]);
    m.push(3);
    m.extend_from_slice(&[9, 8, 7]);
    m
}

fn v1_message() -> Vec<u8> {
    let mut m = vec![0x81, 1, 0, 1];
    m.extend_from_slice(&[0x1F, 0, 0, 0]);
    m.extend_from_slice(&[3u8; 32]);
    m.push(1); // instruction count
    m.push(1); // account count
    m.extend_from_slice(&[1u8; 32]);
    m.extend_from_slice(&[0xEEu8; 20]); // configuration values
    m.extend_from_slice(&[0, 2, 3, 0]); // instruction header
    m.extend_from_slice(&[0, 1]);
    m.extend_from_slice(&[9, 8, 7]);
    m
}

#[test]
fn decodes_a_legacy_message() {
    let buf = legacy_message(None);
    let m = decode_message(&buf).unwrap();
    assert_eq!(m.version, None);
    assert_eq!(
        m.header,
        MessageHeader { num_required_signatures: 1, num_readonly_signed: 0, num_readonly_unsigned: 1 }
    );
    assert_eq!(m.static_accounts.len(), 2);
    assert_eq!(m.static_accounts[0], &[1u8; 32][..]);
    assert_eq!(m.static_accounts[1], &[2u8; 32][..]);
    assert_eq!(m.lifetime_token, &[3u8; 32][..]);
    assert_eq!(m.instructions.len(), 1);
    assert_eq!(m.instructions[0].program_index, 1);
    assert_eq!(m.instructions[0].account_indices, &[0, 1][..]);
    assert_eq!(m.instructions[0].data, &[9, 8, 7][..]);
    assert!(m.address_table_lookups.is_empty());
}

#[test]
fn decodes_a_version_0_message_with_lookups() {
    let mut buf = legacy_message(Some(0x80));
    buf.push(1);
    buf.extend_from_slice(&[4u8; 32]);
    buf.push(1);
    buf.push(5);
    buf.push(2);
    buf.extend_from_slice(&[6, 7]);
    let m = decode_message(&buf).unwrap();
    assert_eq!(m.version, Some(0));
    assert_eq!(m.static_accounts.len(), 2);
    assert_eq!(m.address_table_lookups.len(), 1);
    let l = m.address_table_lookups[0];
    assert_eq!(l.table_address, &[4u8; 32][..]);
    assert_eq!(l.writable_indexes, &[5][..]);
    assert_eq!(l.readonly_indexes, &[6, 7][..]);
}

#[test]
fn versioned_message_without_lookup_count_fails() {
    let buf = legacy_message(Some(0x80));
    assert_eq!(decode_message(&buf), Err(MessageDecodeError("lookup count")));
}

#[test]
fn decodes_a_version_1_message() {
    let buf = v1_message();
    let m = decode_message(&buf).unwrap();
    assert_eq!(m.version, Some(1));
    assert_eq!(m.header.num_required_signatures, 1);
    assert_eq!(m.lifetime_token, &[3u8; 32][..]);
    assert_eq!(m.static_accounts, vec![&[1u8; 32][..]]);
    assert_eq!(m.instructions.len(), 1);
    assert_eq!(m.instructions[0].program_index, 0);
    assert_eq!(m.instructions[0].account_indices, &[0, 1][..]);
    assert_eq!(m.instructions[0].data, &[9, 8, 7][..]);
    assert!(m.address_table_lookups.is_empty());
}

#[test]
fn version_1_errors_name_the_missing_field() {
    let buf = v1_message();
    assert_eq!(decode_message(&buf[..3]), Err(MessageDecodeError("header")));
    assert_eq!(decode_message(&buf[..7]), Err(MessageDecodeError("config mask")));
    assert_eq!(decode_message(&buf[..39]), Err(MessageDecodeError("lifetime token")));
    assert_eq!(decode_message(&buf[..40]), Err(MessageDecodeError("instruction count")));
    assert_eq!(decode_message(&buf[..41]), Err(MessageDecodeError("account count")));
    assert_eq!(decode_message(&buf[..50]), Err(MessageDecodeError("static accounts")));
    assert_eq!(decode_message(&buf[..80]), Err(MessageDecodeError("config values")));
    assert_eq!(decode_message(&buf[..96]), Err(MessageDecodeError("instruction headers")));
    assert_eq!(decode_message(&buf[..99]), Err(MessageDecodeError("instruction accounts")));
    assert_eq!(decode_message(&buf[..100]), Err(MessageDecodeError("instruction data")));
}

#[test]
fn legacy_errors_name_the_missing_field() {
    let buf = legacy_message(None);
    assert_eq!(decode_message(&[]), Err(MessageDecodeError("empty message")));
    assert_eq!(decode_message(&buf[..2]), Err(MessageDecodeError("header")));
    assert_eq!(decode_message(&buf[..3]), Err(MessageDecodeError("account count")));
    assert_eq!(decode_message(&buf[..40]), Err(MessageDecodeError("static accounts")));
    assert_eq!(decode_message(&buf[..70]), Err(MessageDecodeError("lifetime token")));
    assert_eq!(decode_message(&buf[..100]), Err(MessageDecodeError("instruction count")));
    assert_eq!(decode_message(&buf[..101]), Err(MessageDecodeError("program index")));
    assert_eq!(decode_message(&buf[..102]), Err(MessageDecodeError("instruction account count")));
    assert_eq!(decode_message(&buf[..104]), Err(MessageDecodeError("instruction accounts")));
    assert_eq!(decode_message(&buf[..105]), Err(MessageDecodeError("instruction data length")));
    assert_eq!(decode_message(&buf[..107]), Err(MessageDecodeError("instruction data")));
    assert_eq!(decode_message(&buf[..108]), Err(MessageDecodeError("instruction data")));
    assert_eq!(buf.len(), 109);
    assert!(decode_message(&buf).is_ok());
}

#[test]
fn compact_counts_span_several_bytes() {
    // 0x80 0x01 is 128 accounts: far more than the bytes hold
    let mut buf = vec![1, 0, 1, 0x80, 0x01];
    buf.extend_from_slice(&[0u8; 64]);
    assert_eq!(decode_message(&buf), Err(MessageDecodeError("static accounts")));
    // a fourth byte with the continuation bit set is refused
    let buf = vec![1, 0, 1, 0x80, 0x80, 0x80, 0x80, 0x01];
    assert_eq!(decode_message(&buf), Err(MessageDecodeError("account count")));
    // four bytes are accepted: 0x80 0x80 0x80 0x01 is 2^21
    let buf = vec![1, 0, 1, 0x80, 0x80, 0x80, 0x01, 0];
    assert_eq!(decode_message(&buf), Err(MessageDecodeError("static accounts")));
}

#[test]
fn lookup_errors_name_the_missing_field() {
    let mut buf = legacy_message(Some(0x80));
    buf.push(1);
    let base = buf.len();
    buf.extend_from_slice(&[4u8; 32]);
    buf.push(1);
    buf.push(5);
    buf.push(2);
    buf.extend_from_slice(&[6, 7]);
    assert_eq!(decode_message(&buf[..base + 10]), Err(MessageDecodeError("lookup table address")));
    assert_eq!(decode_message(&buf[..base + 32]), Err(MessageDecodeError("writable index count")));
    assert_eq!(decode_message(&buf[..base + 33]), Err(MessageDecodeError("writable indexes")));
    assert_eq!(decode_message(&buf[..base + 34]), Err(MessageDecodeError("readonly index count")));
    assert_eq!(decode_message(&buf[..base + 36]), Err(MessageDecodeError("readonly indexes")));
}

#[test]
fn message_bytes_skips_legacy_signatures() {
    let msg = legacy_message(None);
    let mut tx = vec![2u8];
    tx.extend_from_slice(&[0xAAu8; 128]);
    tx.extend_from_slice(&msg);
    assert_eq!(message_bytes(&tx), Ok(&msg[..]));
    assert_eq!(message_bytes(&tx[..100]), Err(MessageDecodeError("signatures do not fit")));
    assert_eq!(message_bytes(&[]), Err(MessageDecodeError("signature count")));
}

#[test]
fn message_bytes_cuts_version_1_signatures() {
    let msg = v1_message();
    let mut tx = msg.clone();
    tx.extend_from_slice(&[0xAAu8; 64]);
    assert_eq!(message_bytes(&tx), Ok(&msg[..]));
    assert_eq!(message_bytes(&[0x81]), Err(MessageDecodeError("header")));
    let short = vec![0x81, 1, 0, 0];
    assert_eq!(message_bytes(&short), Err(MessageDecodeError("signatures do not fit")));
    // exactly 42 message bytes left is enough
    let mut edge = vec![0x81, 1];
    edge.extend_from_slice(&[0u8; 40 + 64]);
    assert_eq!(message_bytes(&edge).map(|m| m.len()), Ok(42));
}

#[test]
fn decode_error_carries_its_reason() {
    let e = MessageDecodeError("header");
    assert_eq!(e.0, "header");
    assert_eq!(e.clone(), e);
}

#[test]
fn bytes_after_a_message_are_ignored() {
    let mut v0 = legacy_message(Some(0x80));
    v0.push(0); // no lookups
    for buf in [legacy_message(None), v0, v1_message()] {
        let m = decode_message(&buf);
        assert!(m.is_ok());
        let mut longer = buf.clone();
        longer.extend_from_slice(&[0xAB; 17]);
        assert_eq!(decode_message(&longer), m);
    }
}
