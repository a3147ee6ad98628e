use bytes::Bytes;
use std::time::SystemTime;
use vstd::prelude::*;

use crate::external::{
    base58_encode, base58_text, bytes_as_slice, bytes_contents,
};
use crate::message::{
    decode_message, message_bytes, spec_decode_message, spec_message_bytes, CompiledMessage,
    MessageDecodeError, MessageView,
};

verus! {

/// A 64-byte Ed25519 signature, stored as received.
#[derive(Clone, Copy, Debug, PartialEq, Eq)]
pub struct Signature(pub [u8; 64]);

impl View for Signature {
    type V = Seq<u8>;

    open spec fn view(&self) -> Seq<u8> {
        self.0@
    }
}

impl Signature {
    /// The signature's bytes.
    pub fn as_bytes(&self) -> (r: &[u8; 64])
        ensures
            *r == self.0,
    {
        &self.0
    }

    /// The signature in base58 text, as it is displayed.
    pub fn to_base58(&self) -> (r: String)
        ensures
            r@ == base58_text(self@),
    {
        base58_encode(self.0.as_slice())
    }
}

/// The signature made of exactly the 64 bytes of `chunk`.
fn signature_from_slice(chunk: &[u8]) -> (r: Signature)
    requires
        chunk@.len() == 64,
    ensures
        r@ == chunk@,
{
    let mut s = [0u8; 64];
    let mut j: usize = 0;
    while j < 64
        invariant
            j <= 64,
            chunk@.len() == 64,
            forall|k: int| 0 <= k < j ==> s@[k] == chunk@[k],
        decreases 64 - j,
    {
        s[j] = chunk[j];
        j = j + 1;
    }
    assert(s@ =~= chunk@);
    Signature(s)
}

/// The compact count that opens a serialized transaction, read from byte
/// `i` on: seven bits per byte, least significant first, high bit for
/// "more follows", three bytes at most, and a third byte of at most 3 (so
/// that the value fits in 16 bits). Gives the value of the bytes from `i`
/// on and the length of the whole encoding.
pub open spec fn compact_u16_from(buf: Seq<u8>, i: int) -> Option<(int, int)>
    decreases 3 - i,
{
    if i < 0 || i > 2 || i >= buf.len() {
        None
    } else if buf[i] < 128 {
        if i == 2 && buf[i] > 3 {
            None
        } else {
            Some((buf[i] as int, i + 1))
        }
    } else if i == 2 {
        None
    } else {
        match compact_u16_from(buf, i + 1) {
            Some((v, n)) => Some(((buf[i] - 128) + 128 * v, n)),
            None => None,
        }
    }
}

/// The signature count at the start of a serialized transaction and the
/// number of bytes it takes.
pub open spec fn spec_signature_count(buf: Seq<u8>) -> Option<(int, int)> {
    compact_u16_from(buf, 0)
}

/// Where the signatures of a version 1 transaction (first byte 0x81)
/// begin: such a transaction is its message followed by the signatures, as
/// many as its second byte counts, 64 bytes each; the message is at least 42
/// bytes long. `None` when the signatures do not fit after such a message.
pub open spec fn v1_signature_start(bytes: Seq<u8>) -> Option<int> {
    if bytes.len() >= 2 && bytes.len() - 64 * bytes[1] >= 42 {
        Some(bytes.len() - 64 * bytes[1])
    } else {
        None
    }
}

/// The signatures read from a serialized transaction, in wire order. A
/// version 1 transaction (first byte 0x81) carries them after its message,
/// as many as its second byte counts; none when they do not fit. Any other
/// transaction opens with their compact count and carries them before its
/// message: as many of the announced signatures as the bytes hold; none
/// when the count cannot be read.
pub open spec fn spec_derived_signatures(bytes: Seq<u8>) -> Seq<Seq<u8>> {
    if bytes.len() > 0 && bytes[0] == 0x81 {
        match v1_signature_start(bytes) {
            None => Seq::empty(),
            Some(start) => Seq::new(
                bytes[1] as nat,
                |i: int| bytes.subrange(start + 64 * i, start + 64 * i + 64),
            ),
        }
    } else {
        match spec_signature_count(bytes) {
            None => Seq::empty(),
            Some((count, prefix)) => {
                let fit = (bytes.len() - prefix) / 64;
                let n = if count < fit {
                    count
                } else {
                    fit
                };
                Seq::new(n as nat, |i: int| bytes.subrange(prefix + 64 * i, prefix + 64 * i + 64))
            },
        }
    }
}

/// The signatures of an update: the ones the server provided when there are
/// some and each is 64 bytes long, else the ones read from the transaction.
pub open spec fn spec_signatures(provided: Seq<Seq<u8>>, bytes: Seq<u8>) -> Seq<Seq<u8>> {
    if provided.len() > 0 && forall|i: int| 0 <= i < provided.len() ==> #[trigger] provided[i].len()
        == 64 {
        provided
    } else {
        spec_derived_signatures(bytes)
    }
}

/// The first signature of a serialized transaction, the fee payer's: the
/// first of the signatures read from it; when none can be read, bytes 1 to
/// 64, or all zeros when the transaction is shorter.
pub open spec fn spec_first_signature(bytes: Seq<u8>) -> Seq<u8> {
    let sigs = spec_derived_signatures(bytes);
    if sigs.len() > 0 {
        sigs[0]
    } else if bytes.len() >= 65 {
        bytes.subrange(1, 65)
    } else {
        Seq::new(64, |i: int| 0u8)
    }
}

pub open spec fn signatures_view(s: Seq<Signature>) -> Seq<Seq<u8>> {
    s.map_values(|x: Signature| x@)
}

pub open spec fn buffers_view(s: Seq<Bytes>) -> Seq<Seq<u8>> {
    s.map_values(|b: Bytes| bytes_contents(b))
}

pub open spec fn strings_view(s: Seq<String>) -> Seq<Seq<char>> {
    s.map_values(|x: String| x@)
}

fn compact_u16_at(buf: &[u8], i: usize) -> (r: Option<(usize, usize)>)
    requires
        i <= 2,
    ensures
        match compact_u16_from(buf@, i as int) {
            Some((v, n)) => r matches Some((x, m)) && x == v && m == n,
            None => r is None,
        },
        r matches Some((v, n)) ==> v < 0x1_0000 && i < n <= 3 && n <= buf@.len(),
    decreases 2 - i,
{
    if i >= buf.len() {
        return None;
    }
    let b = buf[i];
    let low = (b & 0x7f) as usize;
    assert(b < 128 ==> b & 0x7f == b) by (bit_vector);
    assert(b >= 128 ==> b & 0x7f == b - 128) by (bit_vector);
    assert((b & 0x80 == 0) == (b < 128)) by (bit_vector);
    if b & 0x80 == 0 {
        if i == 2 && b > 0x03 {
            return None;
        }
        return Some((low, i + 1));
    }
    if i == 2 {
        return None;
    }
    match compact_u16_at(buf, i + 1) {
        Some((v, n)) => {
            assert(i == 0 ==> v < 0x200);
            assert(i == 1 ==> v < 4);
            Some((low + 128 * v, n))
        },
        None => None,
    }
}

/// Reads the signature count of a serialized transaction.
fn decode_shortvec(buf: &[u8]) -> (r: Option<(usize, usize)>)
    ensures
        match spec_signature_count(buf@) {
            Some((v, n)) => r matches Some((x, m)) && x == v && m == n,
            None => r is None,
        },
        r matches Some((v, n)) ==> v < 0x1_0000 && 1 <= n <= 3 && n <= buf@.len(),
{
    compact_u16_at(buf, 0)
}

/// Reads the signatures that follow the message of a version 1 transaction.
fn derive_v1_signatures(bytes: &[u8]) -> (r: Vec<Signature>)
    requires
        bytes@.len() > 0,
        bytes@[0] == 0x81,
    ensures
        signatures_view(r@) == spec_derived_signatures(bytes@),
{
    let len = bytes.len();
    let mut out: Vec<Signature> = Vec::new();
    if len < 2 {
        assert(signatures_view(out@) =~= spec_derived_signatures(bytes@));
        return out;
    }
    let count = bytes[1] as usize;
    if 64 * count > len || len - 64 * count < 42 {
        assert(signatures_view(out@) =~= spec_derived_signatures(bytes@));
        return out;
    }
    let start = len - 64 * count;
    let mut i: usize = 0;
    while i < count
        invariant
            i <= count,
            count == bytes@[1],
            len == bytes@.len(),
            start == len - 64 * count,
            signatures_view(out@) == Seq::new(
                i as nat,
                |k: int| bytes@.subrange(start + 64 * k, start + 64 * k + 64),
            ),
        decreases count - i,
    {
        let from = start + 64 * i;
        let sig = signature_from_slice(&bytes[from..from + 64]);
        let ghost before = out@;
        out.push(sig);
        proof {
            assert(signatures_view(out@) =~= signatures_view(before).push(sig@));
        }
        i = i + 1;
        assert(signatures_view(out@) =~= Seq::new(
            i as nat,
            |k: int| bytes@.subrange(start + 64 * k, start + 64 * k + 64),
        ));
    }
    assert(signatures_view(out@) =~= spec_derived_signatures(bytes@));
    out
}

/// Reads the signatures of a serialized transaction.
fn derive_signatures(bytes: &[u8]) -> (r: Vec<Signature>)
    ensures
        signatures_view(r@) == spec_derived_signatures(bytes@),
{
    let len = bytes.len();
    if len > 0 && bytes[0] == 0x81 {
        return derive_v1_signatures(bytes);
    }
    let (count, prefix) = match decode_shortvec(bytes) {
        Some(p) => p,
        None => {
            let empty: Vec<Signature> = Vec::new();
            assert(signatures_view(empty@) =~= Seq::empty());
            return empty;
        },
    };
    let ghost fit = (len - prefix) / 64;
    let mut out: Vec<Signature> = Vec::with_capacity(if count < 64 {
        count
    } else {
        64
    });
    let mut i: usize = 0;
    while i < count
        invariant_except_break
            i <= count,
        invariant
            count < 0x1_0000,
            prefix <= len == bytes@.len(),
            fit == (len - prefix) / 64,
            prefix + 64 * i <= len,
            signatures_view(out@) == Seq::new(
                i as nat,
                |k: int| bytes@.subrange(prefix + 64 * k, prefix + 64 * k + 64),
            ),
        ensures
            i <= count,
            i == count || i == fit,
        decreases count - i,
    {
        let start = prefix + i * 64;
        if len - start < 64 {
            assert(i == fit) by (nonlinear_arith)
                requires
                    fit == (len - prefix) / 64,
                    prefix + 64 * i <= len,
                    prefix + 64 * i + 64 > len,
                    prefix <= len,
            ;
            break;
        }
        let chunk = &bytes[start..start + 64];
        let sig = signature_from_slice(chunk);
        let ghost before = out@;
        out.push(sig);
        proof {
            assert(signatures_view(out@) =~= signatures_view(before).push(sig@));
            assert(sig@ == bytes@.subrange(prefix + 64 * i, prefix + 64 * i + 64));
        }
        i = i + 1;
        assert(signatures_view(out@) =~= Seq::new(
            i as nat,
            |k: int| bytes@.subrange(prefix + 64 * k, prefix + 64 * k + 64),
        ));
    }
    assert(i as int == (if count < fit {
        count as int
    } else {
        fit
    })) by (nonlinear_arith)
        requires
            i <= count,
            fit == (len - prefix) / 64,
            prefix + 64 * i <= len,
            i == count || i == fit,
            prefix <= len,
    ;
    out
}

/// The provided signatures as signatures, when there are some and each is
/// 64 bytes long.
fn provided_signatures_checked(provided: &Vec<Bytes>) -> (r: Option<Vec<Signature>>)
    ensures
        match r {
            Some(v) => provided@.len() > 0 && (forall|i: int|
                0 <= i < provided@.len() ==> #[trigger] bytes_contents(provided@[i]).len() == 64)
                && signatures_view(v@) == buffers_view(provided@),
            None => provided@.len() == 0 || exists|i: int|
                0 <= i < provided@.len() && #[trigger] bytes_contents(provided@[i]).len() != 64,
        },
{
    if provided.len() == 0 {
        return None;
    }
    let mut out: Vec<Signature> = Vec::new();
    let mut i: usize = 0;
    while i < provided.len()
        invariant
            i <= provided@.len(),
            forall|k: int| 0 <= k < i ==> #[trigger] bytes_contents(provided@[k]).len() == 64,
            signatures_view(out@) == buffers_view(provided@).subrange(0, i as int),
        decreases provided@.len() - i,
    {
        let b = bytes_as_slice(&provided[i]);
        if b.len() != 64 {
            return None;
        }
        let sig = signature_from_slice(b);
        let ghost before = out@;
        out.push(sig);
        proof {
            assert(signatures_view(out@) =~= signatures_view(before).push(sig@));
            assert(buffers_view(provided@).subrange(0, i + 1) =~= buffers_view(provided@).subrange(
                0,
                i as int,
            ).push(bytes_contents(provided@[i as int])));
        }
        i = i + 1;
    }
    assert(buffers_view(provided@).subrange(0, i as int) =~= buffers_view(provided@));
    Some(out)
}

/// One transaction of the stream.
pub struct TransactionUpdate {
    slot: u64,
    bytes: Bytes,
    provided_signatures: Vec<Bytes>,
    filters: Vec<String>,
    created_at: Option<SystemTime>,
    received_at: SystemTime,
    signatures: Vec<Signature>,
}

/// A transaction update as a value.
pub struct TransactionUpdateView {
    pub slot: u64,
    pub bytes: Seq<u8>,
    pub provided_signatures: Seq<Seq<u8>>,
    pub filters: Seq<Seq<char>>,
    pub created_at: Option<SystemTime>,
    pub received_at: SystemTime,
}

impl View for TransactionUpdate {
    type V = TransactionUpdateView;

    closed spec fn view(&self) -> TransactionUpdateView {
        TransactionUpdateView {
            slot: self.slot,
            bytes: bytes_contents(self.bytes),
            provided_signatures: buffers_view(self.provided_signatures@),
            filters: strings_view(self.filters@),
            created_at: self.created_at,
            received_at: self.received_at,
        }
    }
}

impl TransactionUpdate {
    /// The cached signatures are those of the provided signatures and bytes.
    #[verifier::type_invariant]
    closed spec fn signatures_cached(&self) -> bool {
        signatures_view(self.signatures@) == spec_signatures(
            buffers_view(self.provided_signatures@),
            bytes_contents(self.bytes),
        )
    }

    /// Builds an update from what the transport delivered.
    pub fn new(
        slot: u64,
        bytes: Bytes,
        provided_signatures: Vec<Bytes>,
        filters: Vec<String>,
        created_at: Option<SystemTime>,
        received_at: SystemTime,
    ) -> (r: TransactionUpdate)
        ensures
            r@.slot == slot,
            r@.bytes == bytes_contents(bytes),
            r@.provided_signatures == buffers_view(provided_signatures@),
            r@.filters == strings_view(filters@),
            r@.created_at == created_at,
            r@.received_at == received_at,
    {
        let signatures = match provided_signatures_checked(&provided_signatures) {
            Some(v) => {
                assert(buffers_view(provided_signatures@).len() > 0);
                assert(forall|i: int|
                    0 <= i < buffers_view(provided_signatures@).len() ==> #[trigger] buffers_view(
                        provided_signatures@,
                    )[i].len() == bytes_contents(provided_signatures@[i]).len());
                assert(forall|i: int|
                    0 <= i < buffers_view(provided_signatures@).len() ==> #[trigger] buffers_view(
                        provided_signatures@,
                    )[i].len() == 64);
                assert(signatures_view(v@) == spec_signatures(
                    buffers_view(provided_signatures@),
                    bytes_contents(bytes),
                ));
                v
            },
            None => {
                assert(forall|i: int|
                    0 <= i < buffers_view(provided_signatures@).len() ==> #[trigger] buffers_view(
                        provided_signatures@,
                    )[i] == bytes_contents(provided_signatures@[i]));
                let v = derive_signatures(bytes_as_slice(&bytes));
                proof {
                    if provided_signatures@.len() > 0 {
                        let i = choose|i: int|
                            0 <= i < provided_signatures@.len() && #[trigger] bytes_contents(
                                provided_signatures@[i],
                            ).len() != 64;
                        assert(buffers_view(provided_signatures@)[i].len() != 64);
                    }
                }
                assert(signatures_view(v@) == spec_signatures(
                    buffers_view(provided_signatures@),
                    bytes_contents(bytes),
                ));
                v
            },
        };
        TransactionUpdate {
            slot,
            bytes,
            provided_signatures,
            filters,
            created_at,
            received_at,
            signatures,
        }
    }

    /// The slot of the transaction.
    pub fn slot(&self) -> (r: u64)
        ensures
            r == self@.slot,
    {
        self.slot
    }

    /// The raw wire transaction.
    pub fn bytes(&self) -> (r: &[u8])
        ensures
            r@ == self@.bytes,
    {
        bytes_as_slice(&self.bytes)
    }

    /// The first signature, the fee payer's; when no signature can be read
    /// from the transaction, bytes 1 to 64, or all zeros when it is shorter.
    pub fn signature(&self) -> (r: Signature)
        ensures
            r@ == spec_first_signature(self@.bytes),
    {
        let b = bytes_as_slice(&self.bytes);
        let len = b.len();
        if len > 0 && b[0] == 0x81 {
            if len >= 2 {
                let count = b[1] as usize;
                if count >= 1 && 64 * count <= len && len - 64 * count >= 42 {
                    let start = len - 64 * count;
                    return signature_from_slice(&b[start..start + 64]);
                }
            }
        } else {
            match decode_shortvec(b) {
                Some((count, prefix)) => {
                    proof {
                        let fit = (len - prefix) / 64;
                        assert((fit >= 1) == (len - prefix >= 64)) by (nonlinear_arith)
                            requires
                                fit == (len - prefix) / 64,
                                prefix <= len,
                        ;
                    }
                    if count >= 1 && len - prefix >= 64 {
                        return signature_from_slice(&b[prefix..prefix + 64]);
                    }
                },
                None => {},
            }
        }
        if len >= 65 {
            signature_from_slice(&b[1..65])
        } else {
            let zero = Signature([0u8; 64]);
            assert(zero@ =~= Seq::new(64, |i: int| 0u8));
            zero
        }
    }

    /// Every signature, in wire order.
    pub fn signatures(&self) -> (r: &[Signature])
        ensures
            signatures_view(r@) == spec_signatures(self@.provided_signatures, self@.bytes),
    {
        proof {
            use_type_invariant(self);
        }
        self.signatures.as_slice()
    }

    /// The names of the filters that matched; empty over UDP.
    pub fn filters(&self) -> (r: &[String])
        ensures
            strings_view(r@) == self@.filters,
    {
        self.filters.as_slice()
    }

    /// When the server emitted the transaction; `None` over UDP.
    pub fn created_at(&self) -> (r: Option<SystemTime>)
        ensures
            r == self@.created_at,
    {
        self.created_at
    }

    /// When the transaction was received here.
    pub fn received_at(&self) -> (r: SystemTime)
        ensures
            r == self@.received_at,
    {
        self.received_at
    }

    /// Decodes the transaction's message.
    pub fn parse(&self) -> (r: Result<CompiledMessage<'_>, MessageDecodeError>)
        ensures
            match spec_message_bytes(self@.bytes) {
                Err(e) => r matches Err(x) && x == MessageDecodeError(e),
                Ok(m) => match spec_decode_message(m) {
                    Ok(v) => r matches Ok(x) && x@ == v,
                    Err(e) => r matches Err(x) && x == MessageDecodeError(e),
                },
            },
    {
        decode_message(message_bytes(bytes_as_slice(&self.bytes))?)
    }
}

/// When a transaction's first byte counts one to 127 signatures and the
/// transaction holds the first of them, its fee payer's signature is bytes 1
/// to 64, the first of the signatures read from it.
pub proof fn law_first_signature_leads(bytes: Seq<u8>)
    requires
        bytes.len() >= 65,
        1 <= bytes[0] < 128,
    ensures
        spec_derived_signatures(bytes).len() >= 1,
        spec_first_signature(bytes) == bytes.subrange(1, 65),
{
    assert((bytes.len() - 1) / 64 >= 1) by (nonlinear_arith)
        requires
            bytes.len() >= 65,
    ;
}

/// Signatures of 64 bytes each, laid end to end, are found again at every
/// multiple of 64.
proof fn lemma_flatten_64(sigs: Seq<Seq<u8>>)
    requires
        forall|i: int| 0 <= i < sigs.len() ==> (#[trigger] sigs[i]).len() == 64,
    ensures
        sigs.flatten().len() == 64 * sigs.len(),
        forall|i: int|
            0 <= i < sigs.len() ==> sigs.flatten().subrange(64 * i, 64 * i + 64) == #[trigger] sigs[i],
    decreases sigs.len(),
{
    if sigs.len() > 0 {
        let rest = sigs.drop_first();
        assert(forall|i: int| 0 <= i < rest.len() ==> (#[trigger] rest[i]) == sigs[i + 1]);
        lemma_flatten_64(rest);
        let f = sigs.flatten();
        assert(f == sigs[0] + rest.flatten());
        assert forall|i: int| 0 <= i < sigs.len() implies f.subrange(64 * i, 64 * i + 64)
            == #[trigger] sigs[i] by {
            if i == 0 {
                assert(f.subrange(0, 64) =~= sigs[0]);
            } else {
                assert(rest.flatten().subrange(64 * (i - 1), 64 * (i - 1) + 64) == rest[i - 1]);
                assert(f.subrange(64 * i, 64 * i + 64) =~= rest.flatten().subrange(
                    64 * (i - 1),
                    64 * (i - 1) + 64,
                ));
            }
        }
    }
}

/// A transaction that is not of version 1 is the count of its signatures,
/// the signatures, then the message: for one to 127 signatures of 64 bytes
/// each and any message, `message_bytes` gives back exactly that message,
/// and the signatures read from the transaction are exactly those
/// signatures, in order, the first of them the fee payer's.
pub proof fn law_signatures_then_message(sigs: Seq<Seq<u8>>, message: Seq<u8>)
    requires
        1 <= sigs.len() < 128,
        forall|i: int| 0 <= i < sigs.len() ==> (#[trigger] sigs[i]).len() == 64,
    ensures
        spec_message_bytes(seq![sigs.len() as u8] + sigs.flatten() + message) == Ok::<
            Seq<u8>,
            &'static str,
        >(message),
        spec_derived_signatures(seq![sigs.len() as u8] + sigs.flatten() + message) == sigs,
        spec_first_signature(seq![sigs.len() as u8] + sigs.flatten() + message) == sigs[0],
{
    lemma_flatten_64(sigs);
    let n: int = sigs.len() as int;
    let f = sigs.flatten();
    let tx = seq![n as u8] + f + message;
    assert(tx[0] == n as u8);
    assert(tx.len() == 1 + 64 * n + message.len());
    assert(tx.subrange(1 + 64 * n, tx.len() as int) =~= message);
    let d = spec_derived_signatures(tx);
    assert((tx.len() - 1) / 64 >= n) by (nonlinear_arith)
        requires
            tx.len() >= 1 + 64 * n,
    ;
    assert(d.len() == n);
    assert forall|i: int| 0 <= i < n implies d[i] == sigs[i] by {
        assert(d[i] == tx.subrange(1 + 64 * i, 1 + 64 * i + 64));
        assert(tx.subrange(1 + 64 * i, 1 + 64 * i + 64) =~= f.subrange(64 * i, 64 * i + 64));
    }
    assert(d =~= sigs);
}

/// A version 1 transaction is its message followed by its signatures: the
/// message is what `message_bytes` gives, the signatures read from it are
/// exactly those that follow, in order, and its first signature (the fee
/// payer's) is the first of them.
pub proof fn law_v1_signatures_follow_message(message: Seq<u8>, sigs: Seq<Seq<u8>>)
    requires
        message.len() >= 42,
        message[0] == 0x81,
        message[1] == sigs.len(),
        forall|i: int| 0 <= i < sigs.len() ==> (#[trigger] sigs[i]).len() == 64,
    ensures
        spec_message_bytes(message + sigs.flatten()) == Ok::<Seq<u8>, &'static str>(message),
        spec_derived_signatures(message + sigs.flatten()) == sigs,
        sigs.len() > 0 ==> spec_first_signature(message + sigs.flatten()) == sigs[0],
{
    lemma_flatten_64(sigs);
    let f = sigs.flatten();
    let tx = message + f;
    assert(tx[0] == 0x81 && tx[1] == sigs.len());
    assert(tx.len() - 64 * tx[1] == message.len());
    assert(tx.subrange(0, message.len() as int) =~= message);
    let d = spec_derived_signatures(tx);
    assert(d.len() == sigs.len());
    assert forall|i: int| 0 <= i < sigs.len() implies d[i] == sigs[i] by {
        assert(d[i] == tx.subrange(message.len() + 64 * i, message.len() + 64 * i + 64));
        assert(tx.subrange(message.len() + 64 * i, message.len() + 64 * i + 64) =~= f.subrange(
            64 * i,
            64 * i + 64,
        ));
    }
    assert(d =~= sigs);
}

} // verus!
