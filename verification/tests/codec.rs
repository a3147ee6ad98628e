use decoded_shredstream::codec::{
    parse_header, FrameError, FrameHeader, Push, StreamDecoder, FRAME_HEADER_LEN, FRAME_MAGIC,
    FRAME_VERSION, MAX_DATAGRAM, MSG_EVENT, MSG_TRANSACTION,
};

fn frame(msg_type: u8, frag_index: u8, frag_count: u8, seq: u64, payload: &[u8]) -> Vec<u8> {
    let mut f = Vec::new();
    f.extend_from_slice(&FRAME_MAGIC.to_le_bytes());
    f.push(FRAME_VERSION);
    f.push(msg_type);
    f.push(0);
    f.push(frag_index);
    f.push(frag_count);
    f.push(0);
    f.extend_from_slice(&seq.to_le_bytes());
    f.extend_from_slice(payload);
    f
}

fn tx_payload(slot: u64, tx: &[u8]) -> Vec<u8> {
    let mut p = slot.to_le_bytes().to_vec();
    p.extend_from_slice(tx);
    p
}

#[test]
fn constants_match_the_documented_layout() {
    assert_eq!(FRAME_MAGIC, 0x5AE7);
    assert_eq!(FRAME_VERSION, 2);
    assert_eq!(FRAME_HEADER_LEN, 16);
    assert_eq!(MAX_DATAGRAM, 1408);
    assert_eq!(MSG_EVENT, 1);
    assert_eq!(MSG_TRANSACTION, 2);
}

#[test]
fn parse_header_reads_every_field() {
    let f = frame(MSG_TRANSACTION, 3, 7, 0x0102_0304_0506_0708, &[]);
    let mut f = f;
    f[4] = 9;
    assert_eq!(
        parse_header(&f),
        Ok(FrameHeader {
            version: 2,
            msg_type: 2,
            flags: 9,
            frag_index: 3,
            frag_count: 7,
            seq: 0x0102_0304_0506_0708,
        })
    );
}

#[test]
fn parse_header_errors() {
    assert_eq!(parse_header(&[0u8; 15]), Err(FrameError::TooShort));
    let mut f = frame(MSG_TRANSACTION, 0, 1, 1, &[]);
    f[0] = 0x5A;
    f[1] = 0xE7;
    assert_eq!(parse_header(&f), Err(FrameError::BadMagic));
    let mut f = frame(MSG_TRANSACTION, 0, 1, 1, &[]);
    f[2] = 3;
    assert_eq!(parse_header(&f), Err(FrameError::UnsupportedVersion));
}

#[test]
fn error_codes_are_stable() {
    assert_eq!(FrameError::TooShort.code(), "too_short");
    assert_eq!(FrameError::BadMagic.code(), "bad_magic");
    assert_eq!(FrameError::UnsupportedVersion.code(), "unsupported_version");
    assert_eq!(FrameError::Truncated.code(), "truncated");
    assert_eq!(FrameError::BadFragment.code(), "bad_fragment");
}

#[test]
fn new_decoder_counts_nothing() {
    let d = StreamDecoder::new();
    let s = d.stats();
    assert_eq!(s.messages, 0);
    assert_eq!(s.datagrams, 0);
    assert_eq!(s.bytes, 0);
    assert_eq!(s.decode_errors, 0);
    assert_eq!(s.last_slot, 0);
    let s2 = StreamDecoder::default().stats();
    assert_eq!(s, s2);
}

#[test]
fn transaction_frame_roundtrip() {
    let tx = vec![1u8, 2, 3, 4, 5];
    let f = frame(MSG_TRANSACTION, 0, 1, 42, &tx_payload(123_456_789, &tx));
    let mut d = StreamDecoder::new();
    match d.push(&f) {
        Push::Update(u) => {
            assert_eq!(u.slot(), 123_456_789);
            assert_eq!(u.bytes(), &tx[..]);
            assert!(u.filters().is_empty());
            assert!(u.created_at().is_none());
        }
        _ => panic!("expected an update"),
    }
    let s = d.stats();
    assert_eq!(s.datagrams, 1);
    assert_eq!(s.bytes, f.len() as u64);
    assert_eq!(s.messages, 1);
    assert_eq!(s.last_slot, 123_456_789);
    assert_eq!(s.decode_errors, 0);
}

#[test]
fn event_frames_are_skipped() {
    let mut d = StreamDecoder::new();
    let f = frame(MSG_EVENT, 0, 1, 1, &[0u8; 20]);
    assert!(matches!(d.push(&f), Push::Skipped));
    assert_eq!(d.stats().skipped_msg_type, 1);
    assert_eq!(d.stats().messages, 0);
}

#[test]
fn short_payload_is_truncated() {
    let mut d = StreamDecoder::new();
    let f = frame(MSG_TRANSACTION, 0, 1, 1, &[1, 2, 3, 4, 5, 6, 7]);
    assert!(matches!(d.push(&f), Push::Error(FrameError::Truncated)));
    assert_eq!(d.stats().decode_errors, 1);
}

#[test]
fn bad_header_counts_a_decode_error() {
    let mut d = StreamDecoder::new();
    assert!(matches!(d.push(&[1, 2, 3]), Push::Error(FrameError::TooShort)));
    assert_eq!(d.stats().decode_errors, 1);
    assert_eq!(d.stats().datagrams, 1);
    assert_eq!(d.stats().bytes, 3);
}

#[test]
fn impossible_fragment_numbers_are_refused() {
    let mut d = StreamDecoder::new();
    let f = frame(MSG_TRANSACTION, 0, 0, 1, &tx_payload(1, &[]));
    assert!(matches!(d.push(&f), Push::Error(FrameError::BadFragment)));
    let f = frame(MSG_TRANSACTION, 3, 3, 1, &tx_payload(1, &[]));
    assert!(matches!(d.push(&f), Push::Error(FrameError::BadFragment)));
    assert_eq!(d.stats().decode_errors, 2);
}

#[test]
fn fragments_in_order_reassemble() {
    let payload = tx_payload(77, &[10, 11, 12, 13, 14, 15, 16]);
    let (a, rest) = payload.split_at(5);
    let (b, c) = rest.split_at(6);
    let mut d = StreamDecoder::new();
    assert!(matches!(d.push(&frame(MSG_TRANSACTION, 0, 3, 100, a)), Push::Skipped));
    assert!(matches!(d.push(&frame(MSG_TRANSACTION, 1, 3, 101, b)), Push::Skipped));
    match d.push(&frame(MSG_TRANSACTION, 2, 3, 102, c)) {
        Push::Update(u) => {
            assert_eq!(u.slot(), 77);
            assert_eq!(u.bytes(), &[10, 11, 12, 13, 14, 15, 16]);
        }
        _ => panic!("expected an update"),
    }
    assert_eq!(d.stats().messages, 1);
}

#[test]
fn fragment_sequence_wraps_around() {
    let payload = tx_payload(5, &[1, 2]);
    let (a, b) = payload.split_at(4);
    let mut d = StreamDecoder::new();
    assert!(matches!(d.push(&frame(MSG_TRANSACTION, 0, 2, u64::MAX, a)), Push::Skipped));
    assert!(matches!(d.push(&frame(MSG_TRANSACTION, 1, 2, 0, b)), Push::Update(_)));
}

#[test]
fn fragment_out_of_order_is_refused_and_drops_reassembly() {
    let payload = tx_payload(5, &[1, 2, 3]);
    let mut d = StreamDecoder::new();
    assert!(matches!(d.push(&frame(MSG_TRANSACTION, 0, 3, 10, &payload[..4])), Push::Skipped));
    assert!(matches!(
        d.push(&frame(MSG_TRANSACTION, 2, 3, 11, &payload[4..])),
        Push::Error(FrameError::BadFragment)
    ));
    // the reassembly was dropped: the expected next fragment is refused too
    assert!(matches!(
        d.push(&frame(MSG_TRANSACTION, 1, 3, 11, &payload[4..])),
        Push::Error(FrameError::BadFragment)
    ));
    assert_eq!(d.stats().decode_errors, 2);
}

#[test]
fn fragment_with_a_sequence_gap_is_refused() {
    let payload = tx_payload(5, &[1, 2, 3]);
    let mut d = StreamDecoder::new();
    assert!(matches!(d.push(&frame(MSG_TRANSACTION, 0, 2, 10, &payload[..4])), Push::Skipped));
    assert!(matches!(
        d.push(&frame(MSG_TRANSACTION, 1, 2, 12, &payload[4..])),
        Push::Error(FrameError::BadFragment)
    ));
}

#[test]
fn fragment_without_a_start_is_refused() {
    let mut d = StreamDecoder::new();
    assert!(matches!(
        d.push(&frame(MSG_TRANSACTION, 1, 2, 10, &[0u8; 9])),
        Push::Error(FrameError::BadFragment)
    ));
}

#[test]
fn reassembled_short_payload_is_truncated() {
    let mut d = StreamDecoder::new();
    assert!(matches!(d.push(&frame(MSG_TRANSACTION, 0, 2, 1, &[1, 2, 3])), Push::Skipped));
    assert!(matches!(
        d.push(&frame(MSG_TRANSACTION, 1, 2, 2, &[4, 5])),
        Push::Error(FrameError::Truncated)
    ));
}

#[test]
fn whole_frame_interrupts_reassembly() {
    let mut d = StreamDecoder::new();
    assert!(matches!(d.push(&frame(MSG_TRANSACTION, 0, 2, 1, &[1, 2, 3])), Push::Skipped));
    assert!(matches!(
        d.push(&frame(MSG_TRANSACTION, 0, 1, 2, &tx_payload(9, &[7]))),
        Push::Update(_)
    ));
    assert!(matches!(
        d.push(&frame(MSG_TRANSACTION, 1, 2, 3, &[4, 5, 6, 7, 8])),
        Push::Error(FrameError::BadFragment)
    ));
}

#[test]
fn byte_counter_counts_whole_datagrams() {
    let mut d = StreamDecoder::new();
    let f1 = frame(MSG_EVENT, 0, 1, 1, &[0u8; 100]);
    let f2 = frame(MSG_TRANSACTION, 0, 1, 2, &tx_payload(3, &[1; 50]));
    d.push(&f1);
    d.push(&f2);
    assert_eq!(d.stats().bytes, (f1.len() + f2.len()) as u64);
    assert_eq!(d.stats().datagrams, 2);
}

#[test]
fn counters_over_a_stream_of_datagrams() {
    let mut d = StreamDecoder::new();
    let datagrams = vec![
        frame(MSG_TRANSACTION, 0, 1, 1, &tx_payload(10, &[1, 2, 3])),
        frame(MSG_EVENT, 0, 1, 2, &[9, 9]),
        vec![0u8; 5],
        frame(MSG_TRANSACTION, 0, 2, 3, &tx_payload(11, &[4])),
        frame(MSG_TRANSACTION, 1, 2, 4, &[5, 6]),
        frame(MSG_TRANSACTION, 0, 1, 5, &[1, 2]),
    ];
    let mut updates = 0;
    let mut errors = 0;
    for dg in &datagrams {
        match d.push(dg) {
            Push::Update(_) => updates += 1,
            Push::Error(_) => errors += 1,
            Push::Skipped => {}
        }
    }
    let s = d.stats();
    assert_eq!(s.datagrams, 6);
    assert_eq!(s.bytes, datagrams.iter().map(|d| d.len() as u64).sum::<u64>());
    assert_eq!((updates, s.messages), (2, 2));
    assert_eq!((errors, s.decode_errors), (2, 2));
    assert_eq!(s.skipped_msg_type, 1);
    assert_eq!(s.last_slot, 11);
    assert_eq!((s.queue_dropped, s.reconnects, s.recv_buffer_bytes), (0, 0, 0));
}
