use vstd::bytes::{
    lemma_auto_spec_u16_to_from_le_bytes, lemma_auto_spec_u64_to_from_le_bytes,
    spec_u16_from_le_bytes, spec_u16_to_le_bytes, spec_u64_from_le_bytes, spec_u64_to_le_bytes,
    u16_from_le_bytes, u64_from_le_bytes,
};
use vstd::prelude::*;

use crate::external::{bytes_copy_from_slice, now};
use crate::stats::{zero_stats, Stats, StatsSnapshot};
use crate::update::TransactionUpdate;

verus! {

pub const FRAME_MAGIC: u16 = 0x5AE7;

pub const FRAME_VERSION: u8 = 2;

pub const FRAME_HEADER_LEN: usize = 16;

pub const MAX_DATAGRAM: usize = 1408;

pub const MSG_EVENT: u8 = 1;

pub const MSG_TRANSACTION: u8 = 2;

/// The fields of a frame header.
#[derive(Clone, Copy, Debug, PartialEq, Eq, Structural)]
pub struct FrameHeader {
    pub version: u8,
    pub msg_type: u8,
    pub flags: u8,
    pub frag_index: u8,
    pub frag_count: u8,
    pub seq: u64,
}

/// Why a datagram was rejected.
#[derive(Clone, Copy, Debug, PartialEq, Eq, Structural)]
#[non_exhaustive]
pub enum FrameError {
    TooShort,
    BadMagic,
    UnsupportedVersion,
    Truncated,
    BadFragment,
}

impl FrameError {
    /// The stable text of each error, for logging.
    pub open spec fn spec_code(self) -> &'static str {
        match self {
            FrameError::TooShort => "too_short",
            FrameError::BadMagic => "bad_magic",
            FrameError::UnsupportedVersion => "unsupported_version",
            FrameError::Truncated => "truncated",
            FrameError::BadFragment => "bad_fragment",
        }
    }

    /// A stable string for logging.
    pub fn code(&self) -> (r: &'static str)
        ensures
            r == self.spec_code(),
    {
        match self {
            FrameError::TooShort => "too_short",
            FrameError::BadMagic => "bad_magic",
            FrameError::UnsupportedVersion => "unsupported_version",
            FrameError::Truncated => "truncated",
            FrameError::BadFragment => "bad_fragment",
        }
    }
}

/// The header of a frame: at least 16 bytes, the magic number in bytes 0
/// and 1, version 2 in byte 2, then message type, flags, fragment index and
/// fragment count, a padding byte and the sequence number in bytes 8 to 15.
pub open spec fn spec_parse_header(buf: Seq<u8>) -> Result<FrameHeader, FrameError> {
    if buf.len() < FRAME_HEADER_LEN {
        Err(FrameError::TooShort)
    } else if spec_u16_from_le_bytes(buf.subrange(0, 2)) != FRAME_MAGIC {
        Err(FrameError::BadMagic)
    } else if buf[2] != FRAME_VERSION {
        Err(FrameError::UnsupportedVersion)
    } else {
        Ok(
            FrameHeader {
                version: buf[2],
                msg_type: buf[3],
                flags: buf[4],
                frag_index: buf[5],
                frag_count: buf[6],
                seq: spec_u64_from_le_bytes(buf.subrange(8, 16)),
            },
        )
    }
}

/// Reads the header of a frame.
pub fn parse_header(buf: &[u8]) -> (r: Result<FrameHeader, FrameError>)
    ensures
        r == spec_parse_header(buf@),
{
    if buf.len() < FRAME_HEADER_LEN {
        return Err(FrameError::TooShort);
    }
    if u16_from_le_bytes(&buf[0..2]) != FRAME_MAGIC {
        return Err(FrameError::BadMagic);
    }
    if buf[2] != FRAME_VERSION {
        return Err(FrameError::UnsupportedVersion);
    }
    Ok(
        FrameHeader {
            version: buf[2],
            msg_type: buf[3],
            flags: buf[4],
            frag_index: buf[5],
            frag_count: buf[6],
            seq: u64_from_le_bytes(&buf[8..16]),
        },
    )
}

/// What one datagram gave.
pub enum Push {
    Update(TransactionUpdate),
    Skipped,
    Error(FrameError),
}

/// What one datagram gave, as a value: for an update, its slot and
/// transaction bytes.
#[verifier::ext_equal]
pub enum PushView {
    Update { slot: u64, transaction: Seq<u8> },
    Skipped,
    Error(FrameError),
}

impl View for Push {
    type V = PushView;

    open spec fn view(&self) -> PushView {
        match self {
            Push::Update(u) => PushView::Update { slot: u@.slot, transaction: u@.bytes },
            Push::Skipped => PushView::Skipped,
            Push::Error(e) => PushView::Error(*e),
        }
    }
}

/// The fragments gathered so far of a fragmented transaction.
struct Reassembler {
    buf: Vec<u8>,
    frag_count: u8,
    expect_index: u8,
    last_seq: u64,
    active: bool,
}

/// The reassembly state as a value.
#[verifier::ext_equal]
pub struct ReassemblyView {
    pub buf: Seq<u8>,
    pub frag_count: u8,
    pub expect_index: u8,
    pub last_seq: u64,
    pub active: bool,
}

/// No transaction being reassembled.
pub open spec fn idle_reassembly() -> ReassemblyView {
    ReassemblyView { buf: Seq::empty(), frag_count: 0, expect_index: 0, last_seq: 0, active: false }
}

impl View for Reassembler {
    type V = ReassemblyView;

    closed spec fn view(&self) -> ReassemblyView {
        ReassemblyView {
            buf: self.buf@,
            frag_count: self.frag_count,
            expect_index: self.expect_index,
            last_seq: self.last_seq,
            active: self.active,
        }
    }
}

impl Reassembler {
    fn new() -> (r: Reassembler)
        ensures
            r@ == idle_reassembly(),
    {
        Reassembler { buf: Vec::new(), frag_count: 0, expect_index: 0, last_seq: 0, active: false }
    }

    fn reset(&mut self)
        ensures
            final(self)@ == idle_reassembly(),
    {
        self.buf.clear();
        self.frag_count = 0;
        self.expect_index = 0;
        self.last_seq = 0;
        self.active = false;
    }
}

/// Decodes datagrams fed in arrival order into transaction updates,
/// reassembling fragmented transactions and counting what it sees.
pub struct StreamDecoder {
    stats: Stats,
    reasm: Reassembler,
}

/// A decoder's state as a value.
#[verifier::ext_equal]
pub struct DecoderView {
    pub reasm: ReassemblyView,
    pub stats: StatsSnapshot,
}

impl View for StreamDecoder {
    type V = DecoderView;

    closed spec fn view(&self) -> DecoderView {
        DecoderView { reasm: self.reasm@, stats: self.stats@ }
    }
}

pub open spec fn with_datagram(s: StatsSnapshot, len: nat) -> StatsSnapshot {
    StatsSnapshot {
        datagrams: s.datagrams.wrapping_add(1),
        bytes: s.bytes.wrapping_add(len as u64),
        ..s
    }
}

pub open spec fn with_decode_error(s: StatsSnapshot) -> StatsSnapshot {
    StatsSnapshot { decode_errors: s.decode_errors.wrapping_add(1), ..s }
}

pub open spec fn with_skipped(s: StatsSnapshot) -> StatsSnapshot {
    StatsSnapshot { skipped_msg_type: s.skipped_msg_type.wrapping_add(1), ..s }
}

pub open spec fn with_message(s: StatsSnapshot, slot: u64) -> StatsSnapshot {
    StatsSnapshot { messages: s.messages.wrapping_add(1), last_slot: slot, ..s }
}

/// A complete transaction payload: its slot in the first 8 bytes, then the
/// raw transaction; shorter than 8 bytes it is a truncated frame.
pub open spec fn spec_complete(stats: StatsSnapshot, payload: Seq<u8>) -> (StatsSnapshot, PushView) {
    if payload.len() < 8 {
        (with_decode_error(stats), PushView::Error(FrameError::Truncated))
    } else {
        let slot = spec_u64_from_le_bytes(payload.subrange(0, 8));
        (
            with_message(stats, slot),
            PushView::Update { slot, transaction: payload.subrange(8, payload.len() as int) },
        )
    }
}

/// One datagram fed to a decoder: the decoder's next state and what the
/// datagram gave.
pub open spec fn spec_push(d: DecoderView, datagram: Seq<u8>) -> (DecoderView, PushView) {
    let s = with_datagram(d.stats, datagram.len());
    match spec_parse_header(datagram) {
        Err(e) => (DecoderView { reasm: d.reasm, stats: with_decode_error(s) }, PushView::Error(e)),
        Ok(h) => if h.msg_type != MSG_TRANSACTION {
            (DecoderView { reasm: d.reasm, stats: with_skipped(s) }, PushView::Skipped)
        } else {
            let payload = datagram.subrange(FRAME_HEADER_LEN as int, datagram.len() as int);
            if h.frag_count == 1 {
                let (s2, out) = spec_complete(s, payload);
                (DecoderView { reasm: idle_reassembly(), stats: s2 }, out)
            } else if h.frag_count == 0 || h.frag_index >= h.frag_count {
                (
                    DecoderView { reasm: d.reasm, stats: with_decode_error(s) },
                    PushView::Error(FrameError::BadFragment),
                )
            } else if h.frag_index == 0 {
                (
                    DecoderView {
                        reasm: ReassemblyView {
                            buf: payload,
                            frag_count: h.frag_count,
                            expect_index: 1,
                            last_seq: h.seq,
                            active: true,
                        },
                        stats: s,
                    },
                    PushView::Skipped,
                )
            } else if !d.reasm.active || d.reasm.frag_count != h.frag_count || h.frag_index
                != d.reasm.expect_index || h.seq != d.reasm.last_seq.wrapping_add(1) {
                (
                    DecoderView { reasm: idle_reassembly(), stats: with_decode_error(s) },
                    PushView::Error(FrameError::BadFragment),
                )
            } else {
                let buf = d.reasm.buf + payload;
                if h.frag_index + 1 == h.frag_count {
                    let (s2, out) = spec_complete(s, buf);
                    (DecoderView { reasm: idle_reassembly(), stats: s2 }, out)
                } else {
                    (
                        DecoderView {
                            reasm: ReassemblyView {
                                buf,
                                frag_count: h.frag_count,
                                expect_index: (d.reasm.expect_index + 1) as u8,
                                last_seq: h.seq,
                                active: true,
                            },
                            stats: s,
                        },
                        PushView::Skipped,
                    )
                }
            }
        },
    }
}

impl StreamDecoder {
    /// A decoder with nothing reassembled and every counter at zero.
    pub fn new() -> (r: StreamDecoder)
        ensures
            r@ == (DecoderView { reasm: idle_reassembly(), stats: zero_stats() }),
    {
        StreamDecoder { stats: Stats::new(), reasm: Reassembler::new() }
    }

    /// The decoder's counters.
    pub fn stats(&self) -> (r: StatsSnapshot)
        ensures
            r == self@.stats,
    {
        self.stats.snapshot()
    }

    /// Decodes one datagram, given in arrival order.
    pub fn push(&mut self, datagram: &[u8]) -> (r: Push)
        ensures
            (final(self)@, r@) == spec_push(old(self)@, datagram@),
            r matches Push::Update(u) ==> u@.provided_signatures == Seq::<Seq<u8>>::empty()
                && u@.filters == Seq::<Seq<char>>::empty() && u@.created_at is None,
    {
        self.stats.datagrams = self.stats.datagrams.wrapping_add(1);
        self.stats.bytes = self.stats.bytes.wrapping_add(datagram.len() as u64);

        let header = match parse_header(datagram) {
            Ok(h) => h,
            Err(e) => {
                self.stats.decode_errors = self.stats.decode_errors.wrapping_add(1);
                return Push::Error(e);
            },
        };

        if header.msg_type != MSG_TRANSACTION {
            self.stats.skipped_msg_type = self.stats.skipped_msg_type.wrapping_add(1);
            return Push::Skipped;
        }

        let payload = &datagram[FRAME_HEADER_LEN..datagram.len()];

        if header.frag_count == 1 {
            self.reasm.reset();
            return self.complete(payload);
        }

        if header.frag_count == 0 || header.frag_index >= header.frag_count {
            self.stats.decode_errors = self.stats.decode_errors.wrapping_add(1);
            return Push::Error(FrameError::BadFragment);
        }

        if header.frag_index == 0 {
            self.reasm.reset();
            self.reasm.active = true;
            self.reasm.frag_count = header.frag_count;
            self.reasm.expect_index = 1;
            self.reasm.last_seq = header.seq;
            self.reasm.buf.extend_from_slice(payload);
            assert(self.reasm.buf@ =~= payload@);
            return Push::Skipped;
        }

        if !self.reasm.active || self.reasm.frag_count != header.frag_count
            || header.frag_index != self.reasm.expect_index || header.seq
            != self.reasm.last_seq.wrapping_add(1) {
            self.reasm.reset();
            self.stats.decode_errors = self.stats.decode_errors.wrapping_add(1);
            return Push::Error(FrameError::BadFragment);
        }
        let ghost gathered = self.reasm.buf@ + payload@;
        self.reasm.buf.extend_from_slice(payload);
        assert(self.reasm.buf@ =~= gathered);
        self.reasm.last_seq = header.seq;
        self.reasm.expect_index = self.reasm.expect_index + 1;

        if header.frag_index + 1 == header.frag_count {
            let mut buf = Vec::new();
            std::mem::swap(&mut buf, &mut self.reasm.buf);
            self.reasm.reset();
            assert(buf@ =~= gathered);
            return self.complete(buf.as_slice());
        }
        Push::Skipped
    }

    fn complete(&mut self, payload: &[u8]) -> (r: Push)
        ensures
            final(self)@.reasm == old(self)@.reasm,
            (final(self)@.stats, r@) == spec_complete(old(self)@.stats, payload@),
            r matches Push::Update(u) ==> u@.provided_signatures == Seq::<Seq<u8>>::empty()
                && u@.filters == Seq::<Seq<char>>::empty() && u@.created_at is None,
    {
        if payload.len() < 8 {
            self.stats.decode_errors = self.stats.decode_errors.wrapping_add(1);
            return Push::Error(FrameError::Truncated);
        }
        let slot = u64_from_le_bytes(&payload[0..8]);
        let tx = bytes_copy_from_slice(&payload[8..payload.len()]);

        self.stats.messages = self.stats.messages.wrapping_add(1);
        self.stats.last_slot = slot;

        let provided = Vec::new();
        let filters = Vec::new();
        let u = TransactionUpdate::new(slot, tx, provided, filters, None, now());
        proof {
            assert(crate::update::buffers_view(provided@) =~= Seq::<Seq<u8>>::empty());
            assert(crate::update::strings_view(filters@) =~= Seq::<Seq<char>>::empty());
        }
        Push::Update(u)
    }
}

impl Default for StreamDecoder {
    fn default() -> (r: StreamDecoder)
        ensures
            r@ == (DecoderView { reasm: idle_reassembly(), stats: zero_stats() }),
    {
        StreamDecoder::new()
    }
}

/// The bytes of a frame with the given header fields (flags and padding
/// zero) and payload.
pub open spec fn frame_bytes(msg_type: u8, frag_index: u8, frag_count: u8, seq: u64, payload: Seq<u8>) -> Seq<u8> {
    spec_u16_to_le_bytes(FRAME_MAGIC) + seq![FRAME_VERSION, msg_type, 0u8, frag_index, frag_count, 0u8]
        + spec_u64_to_le_bytes(seq) + payload
}

/// The payload of a transaction frame: the slot, then the raw transaction.
pub open spec fn transaction_payload(slot: u64, transaction: Seq<u8>) -> Seq<u8> {
    spec_u64_to_le_bytes(slot) + transaction
}

/// A frame's header reads back as written, and its payload follows it.
pub proof fn lemma_frame_header(
    msg_type: u8,
    frag_index: u8,
    frag_count: u8,
    seq: u64,
    payload: Seq<u8>,
)
    ensures
        ({
            let f = frame_bytes(msg_type, frag_index, frag_count, seq, payload);
            &&& spec_parse_header(f) == Ok::<FrameHeader, FrameError>(
                FrameHeader {
                    version: FRAME_VERSION,
                    msg_type,
                    flags: 0,
                    frag_index,
                    frag_count,
                    seq,
                },
            )
            &&& f.subrange(FRAME_HEADER_LEN as int, f.len() as int) == payload
            &&& f.len() == FRAME_HEADER_LEN + payload.len()
        }),
{
    lemma_auto_spec_u16_to_from_le_bytes();
    lemma_auto_spec_u64_to_from_le_bytes();
    let f = frame_bytes(msg_type, frag_index, frag_count, seq, payload);
    let m = spec_u16_to_le_bytes(FRAME_MAGIC);
    let s = spec_u64_to_le_bytes(seq);
    assert(f.subrange(0, 2) =~= m);
    assert(f.subrange(8, 16) =~= s);
    assert(f.subrange(16, f.len() as int) =~= payload);
}

/// A transaction payload gives back its slot and transaction.
pub proof fn lemma_transaction_payload(stats: StatsSnapshot, slot: u64, transaction: Seq<u8>)
    ensures
        spec_complete(stats, transaction_payload(slot, transaction)) == (
            with_message(stats, slot),
            PushView::Update { slot, transaction },
        ),
{
    lemma_auto_spec_u64_to_from_le_bytes();
    let p = transaction_payload(slot, transaction);
    assert(p.subrange(0, 8) =~= spec_u64_to_le_bytes(slot));
    assert(p.subrange(8, p.len() as int) =~= transaction);
}

/// A whole transaction frame (one fragment of one) gives back its slot and
/// transaction, whatever the decoder held before: the reassembly is
/// dropped, one datagram, its bytes and one message are counted and the
/// last slot is the frame's.
pub proof fn law_transaction_frame_roundtrip(d: DecoderView, seq: u64, slot: u64, transaction: Seq<u8>)
    ensures
        ({
            let f = frame_bytes(MSG_TRANSACTION, 0, 1, seq, transaction_payload(slot, transaction));
            spec_push(d, f) == (
                DecoderView {
                    reasm: idle_reassembly(),
                    stats: with_message(with_datagram(d.stats, f.len()), slot),
                },
                PushView::Update { slot, transaction },
            )
        }),
{
    let p = transaction_payload(slot, transaction);
    lemma_frame_header(MSG_TRANSACTION, 0, 1, seq, p);
    lemma_transaction_payload(with_datagram(d.stats, frame_bytes(MSG_TRANSACTION, 0, 1, seq, p).len()), slot, transaction);
}

/// A frame of another message type, such as an event, is skipped: the
/// reassembly in progress is kept and the skipped frame is counted.
pub proof fn law_other_message_skipped(
    d: DecoderView,
    msg_type: u8,
    frag_index: u8,
    frag_count: u8,
    seq: u64,
    payload: Seq<u8>,
)
    requires
        msg_type != MSG_TRANSACTION,
    ensures
        ({
            let f = frame_bytes(msg_type, frag_index, frag_count, seq, payload);
            spec_push(d, f) == (
                DecoderView { reasm: d.reasm, stats: with_skipped(with_datagram(d.stats, f.len())) },
                PushView::Skipped,
            )
        }),
{
    lemma_frame_header(msg_type, frag_index, frag_count, seq, payload);
}

/// Every datagram is counted with its bytes; a decode error is counted
/// exactly when the datagram gives an error, a message exactly when it
/// gives an update, a skipped frame exactly when it is skipped for its
/// message type; the last slot is the slot of the last update.
pub proof fn law_push_counters(d: DecoderView, datagram: Seq<u8>)
    ensures
        ({
            let (d2, out) = spec_push(d, datagram);
            let s = with_datagram(d.stats, datagram.len());
            &&& d2.stats.datagrams == d.stats.datagrams.wrapping_add(1)
            &&& d2.stats.bytes == d.stats.bytes.wrapping_add(datagram.len() as u64)
            &&& (out is Error ==> d2.stats == with_decode_error(s))
            &&& (out matches PushView::Update { slot, .. } ==> d2.stats == with_message(s, slot))
            &&& (out is Skipped ==> d2.stats == s || d2.stats == with_skipped(s))
        }),
{
}

/// The state a sequence of datagrams fed in order leaves the decoder in,
/// and what each of them gave.
pub open spec fn push_all(d: DecoderView, datagrams: Seq<Seq<u8>>) -> (DecoderView, Seq<PushView>)
    decreases datagrams.len(),
{
    if datagrams.len() == 0 {
        (d, Seq::empty())
    } else {
        let (d1, outs) = push_all(d, datagrams.drop_last());
        let (d2, out) = spec_push(d1, datagrams.last());
        (d2, outs.push(out))
    }
}

/// The parts joined in order.
pub open spec fn joined(parts: Seq<Seq<u8>>) -> Seq<u8>
    decreases parts.len(),
{
    if parts.len() == 0 {
        Seq::empty()
    } else {
        joined(parts.drop_last()) + parts.last()
    }
}

/// The fragments of a transaction payload cut into `parts`, numbered from
/// `seq` on.
pub open spec fn fragments(seq: u64, parts: Seq<Seq<u8>>) -> Seq<Seq<u8>> {
    Seq::new(
        parts.len(),
        |i: int| frame_bytes(MSG_TRANSACTION, i as u8, parts.len() as u8, seq.wrapping_add(i as u64), parts[i]),
    )
}

proof fn lemma_fragments_prefix(d: DecoderView, seq: u64, parts: Seq<Seq<u8>>, j: int)
    requires
        2 <= parts.len() <= 255,
        1 <= j < parts.len(),
    ensures
        ({
            let (d1, outs) = push_all(d, fragments(seq, parts).take(j));
            &&& d1.reasm == ReassemblyView {
                buf: joined(parts.take(j)),
                frag_count: parts.len() as u8,
                expect_index: j as u8,
                last_seq: seq.wrapping_add((j - 1) as u64),
                active: true,
            }
            &&& outs.len() == j
            &&& forall|k: int| 0 <= k < j ==> #[trigger] outs[k] == PushView::Skipped
        }),
    decreases j,
{
    let fr = fragments(seq, parts);
    let n = parts.len();
    assert(fr.take(j).drop_last() =~= fr.take(j - 1));
    assert(fr.take(j).last() == fr[j - 1]);
    assert(fr[j - 1] == frame_bytes(
        MSG_TRANSACTION,
        (j - 1) as u8,
        n as u8,
        seq.wrapping_add((j - 1) as u64),
        parts[j - 1],
    ));
    lemma_frame_header(MSG_TRANSACTION, (j - 1) as u8, n as u8, seq.wrapping_add((j - 1) as u64), parts[j - 1]);
    assert(parts.take(j).drop_last() =~= parts.take(j - 1));
    assert(parts.take(j).last() == parts[j - 1]);
    assert(joined(parts.take(j)) == joined(parts.take(j - 1)) + parts[j - 1]);
    if j == 1 {
        assert(push_all(d, fr.take(0)) == (d, Seq::<PushView>::empty()));
        assert(fr.take(0) =~= Seq::<Seq<u8>>::empty());
        assert(parts.take(0) =~= Seq::<Seq<u8>>::empty());
        assert(joined(parts.take(1)) =~= parts[0]);
        assert(seq.wrapping_add(0u64) == seq);
    } else {
        lemma_fragments_prefix(d, seq, parts, j - 1);
        let (d1, outs) = push_all(d, fr.take(j - 1));
        assert(d1.reasm.last_seq.wrapping_add(1) == seq.wrapping_add((j - 1) as u64));
        let (d2, outs2) = push_all(d, fr.take(j));
        assert(outs2 == outs.push(PushView::Skipped));
        assert forall|k: int| 0 <= k < j implies #[trigger] outs2[k] == PushView::Skipped by {
            if k < j - 1 {
                assert(outs2[k] == outs[k]);
            }
        }
    }
}

/// A transaction cut into two to 255 fragments, fed in order with
/// consecutive sequence numbers, is reassembled whatever the decoder held
/// before: every fragment but the last is skipped and the last gives what
/// the joined payload gives.
pub proof fn law_fragments_reassemble(d: DecoderView, seq: u64, parts: Seq<Seq<u8>>)
    requires
        2 <= parts.len() <= 255,
    ensures
        ({
            let (d2, outs) = push_all(d, fragments(seq, parts));
            &&& outs.len() == parts.len()
            &&& forall|k: int| 0 <= k < parts.len() - 1 ==> #[trigger] outs[k] == PushView::Skipped
            &&& outs.last() == spec_complete(d2.stats, joined(parts)).1
            &&& d2.reasm == idle_reassembly()
        }),
{
    let fr = fragments(seq, parts);
    let n = parts.len() as int;
    lemma_fragments_prefix(d, seq, parts, n - 1);
    assert(fr.take(n) =~= fr);
    assert(fr.take(n).drop_last() =~= fr.take(n - 1));
    assert(fr[n - 1] == frame_bytes(
        MSG_TRANSACTION,
        (n - 1) as u8,
        n as u8,
        seq.wrapping_add((n - 1) as u64),
        parts[n - 1],
    ));
    assert(parts.take(n) =~= parts);
    assert(parts.take(n).drop_last() =~= parts.take(n - 1));
    lemma_frame_header(MSG_TRANSACTION, (n - 1) as u8, n as u8, seq.wrapping_add((n - 1) as u64), parts[n - 1]);
    let (d1, outs1) = push_all(d, fr.take(n - 1));
    assert(d1.reasm.last_seq.wrapping_add(1) == seq.wrapping_add((n - 1) as u64));
    let (d2, outs) = push_all(d, fr);
    assert forall|k: int| 0 <= k < n - 1 implies #[trigger] outs[k] == PushView::Skipped by {
        assert(outs[k] == outs1[k]);
    }
    let f = frame_bytes(MSG_TRANSACTION, (n - 1) as u8, n as u8, seq.wrapping_add((n - 1) as u64), parts[n - 1]);
    let s = with_datagram(d1.stats, f.len());
    assert(d2.stats == spec_complete(s, joined(parts)).0);
}

/// How many bytes the datagrams hold in all.
pub open spec fn total_len(datagrams: Seq<Seq<u8>>) -> nat
    decreases datagrams.len(),
{
    if datagrams.len() == 0 {
        0
    } else {
        total_len(datagrams.drop_last()) + datagrams.last().len()
    }
}

/// How many of the results are updates.
pub open spec fn count_updates(outs: Seq<PushView>) -> nat
    decreases outs.len(),
{
    if outs.len() == 0 {
        0
    } else {
        count_updates(outs.drop_last()) + if outs.last() is Update {
            1nat
        } else {
            0nat
        }
    }
}

/// How many of the results are errors.
pub open spec fn count_errors(outs: Seq<PushView>) -> nat
    decreases outs.len(),
{
    if outs.len() == 0 {
        0
    } else {
        count_errors(outs.drop_last()) + if outs.last() is Error {
            1nat
        } else {
            0nat
        }
    }
}

/// A datagram whose frame header reads but names another message type than
/// a transaction.
pub open spec fn other_type(datagram: Seq<u8>) -> bool {
    spec_parse_header(datagram) matches Ok(h) && h.msg_type != MSG_TRANSACTION
}

/// How many of the datagrams carry another message type than a transaction.
pub open spec fn count_other_type(datagrams: Seq<Seq<u8>>) -> nat
    decreases datagrams.len(),
{
    if datagrams.len() == 0 {
        0
    } else {
        count_other_type(datagrams.drop_last()) + if other_type(datagrams.last()) {
            1nat
        } else {
            0nat
        }
    }
}

/// The slot of the last update among the results; 0 when there is none.
pub open spec fn last_update_slot(outs: Seq<PushView>) -> u64
    decreases outs.len(),
{
    if outs.len() == 0 {
        0
    } else {
        match outs.last() {
            PushView::Update { slot, .. } => slot,
            _ => last_update_slot(outs.drop_last()),
        }
    }
}

/// The counters of a new decoder fed a stream of datagrams: one datagram
/// each, their bytes, one message per update, one decode error per error,
/// one skipped frame per datagram of another message type, the slot of the
/// last update, and nothing else. Stated while no counter wraps around.
pub proof fn law_counters_over_a_stream(datagrams: Seq<Seq<u8>>)
    requires
        datagrams.len() <= u64::MAX,
        total_len(datagrams) <= u64::MAX,
    ensures
        ({
            let (d, outs) = push_all(
                DecoderView { reasm: idle_reassembly(), stats: zero_stats() },
                datagrams,
            );
            &&& outs.len() == datagrams.len()
            &&& d.stats == StatsSnapshot {
                messages: count_updates(outs) as u64,
                bytes: total_len(datagrams) as u64,
                datagrams: datagrams.len() as u64,
                decode_errors: count_errors(outs) as u64,
                skipped_msg_type: count_other_type(datagrams) as u64,
                queue_dropped: 0,
                reconnects: 0,
                last_slot: last_update_slot(outs),
                recv_buffer_bytes: 0,
            }
        }),
    decreases datagrams.len(),
{
    let d0 = DecoderView { reasm: idle_reassembly(), stats: zero_stats() };
    if datagrams.len() > 0 {
        let rest = datagrams.drop_last();
        law_counters_over_a_stream(rest);
        lemma_counts_bounded(rest);
        let (d1, outs1) = push_all(d0, rest);
        let (d2, out) = spec_push(d1, datagrams.last());
        let outs = outs1.push(out);
        assert(outs.drop_last() =~= outs1);
        assert(outs.last() == out);
        assert(count_updates(outs1) <= outs1.len());
    }
}

proof fn lemma_counts_bounded(datagrams: Seq<Seq<u8>>)
    ensures
        count_other_type(datagrams) <= datagrams.len(),
        ({
            let outs = push_all(
                DecoderView { reasm: idle_reassembly(), stats: zero_stats() },
                datagrams,
            ).1;
            count_updates(outs) <= outs.len() && count_errors(outs) <= outs.len()
        }),
    decreases datagrams.len(),
{
    if datagrams.len() > 0 {
        let rest = datagrams.drop_last();
        lemma_counts_bounded(rest);
        let d0 = DecoderView { reasm: idle_reassembly(), stats: zero_stats() };
        let (d1, outs1) = push_all(d0, rest);
        let (d2, out) = spec_push(d1, datagrams.last());
        let outs = outs1.push(out);
        assert(outs.drop_last() =~= outs1);
    }
}

/// The text of each error is distinct.
pub proof fn law_error_codes_distinct(a: FrameError, b: FrameError)
    requires
        a != b,
    ensures
        a.spec_code() != b.spec_code(),
{
    reveal_strlit("too_short");
    reveal_strlit("bad_magic");
    reveal_strlit("unsupported_version");
    reveal_strlit("truncated");
    reveal_strlit("bad_fragment");
    if a.spec_code() == b.spec_code() {
        assert(a.spec_code()@ == b.spec_code()@);
        assert(a.spec_code()@.len() == b.spec_code()@.len());
        assert(a.spec_code()@[0] == b.spec_code()@[0]);
    }
}

} // verus!
