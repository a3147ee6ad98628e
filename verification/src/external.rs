//! What the library takes from outside: the wall clock and its arithmetic,
//! a string's `Debug` text, the shared byte
//! buffer of the `bytes` crate and base58 from the `bs58` crate. Each item
//! here is believed as stated; its doc comment says what it claims.

use bytes::Bytes;
use std::time::{Duration, SystemTime};
use vstd::prelude::*;

verus! {

/// `std::time::SystemTime`, carried through opaque.
#[verifier::external_type_specification]
#[verifier::external_body]
pub struct ExSystemTime(SystemTime);

/// `bytes::Bytes`, a shared immutable byte buffer; its contents are
/// `bytes_contents`.
#[verifier::external_type_specification]
#[verifier::external_body]
pub struct ExBytes(Bytes);

/// `bs58::decode::Error`, the reason a base58 string did not decode.
#[verifier::external_type_specification]
#[verifier::external_body]
pub struct ExBs58DecodeError(bs58::decode::Error);

/// The bytes that a `Bytes` buffer holds.
pub uninterp spec fn bytes_contents(b: Bytes) -> Seq<u8>;

/// What `bs58::decode(input).onto(&mut [u8; 32])` returns on success: the
/// number of decoded bytes.
pub uninterp spec fn base58_decoded_len_32(input: Seq<char>) -> Option<usize>;

/// The base58 text (Bitcoin alphabet) of the given bytes.
pub uninterp spec fn base58_text(input: Seq<u8>) -> Seq<char>;

/// The `Debug` text of a string: the string in double quotes, with quotes,
/// backslashes and non-printable characters escaped.
pub uninterp spec fn debug_quoted(s: Seq<char>) -> Seq<char>;

/// Calls `SystemTime::now`. Nothing is stated of the time it returns.
#[verifier::external_body]
pub(crate) fn now() -> SystemTime {
    SystemTime::now()
}

/// Gives `std::time::UNIX_EPOCH`. Nothing is stated of it.
#[verifier::external_body]
pub(crate) fn unix_epoch() -> SystemTime {
    std::time::UNIX_EPOCH
}

/// Calls `Duration::new`, which panics only when the nanoseconds' carry
/// overflows the seconds; the `requires` leaves that out. Nothing is stated
/// of the duration.
#[verifier::external_body]
pub(crate) fn duration_new(secs: u64, nanos: u32) -> Duration
    requires
        secs + nanos / 1_000_000_000 <= u64::MAX,
{
    Duration::new(secs, nanos)
}

/// Calls `SystemTime::checked_add`: `None` when the platform cannot
/// represent the time. Which times it can is the platform's, and nothing
/// is stated of the result.
#[verifier::external_body]
pub(crate) fn system_time_checked_add(t: SystemTime, d: Duration) -> Option<SystemTime> {
    t.checked_add(d)
}

/// Calls `Bytes::copy_from_slice`: the new buffer holds a copy of `data`.
#[verifier::external_body]
pub(crate) fn bytes_copy_from_slice(data: &[u8]) -> (r: Bytes)
    ensures
        bytes_contents(r) == data@,
{
    Bytes::copy_from_slice(data)
}

/// Calls `Bytes::deref`: the slice is the buffer's contents.
#[verifier::external_body]
pub(crate) fn bytes_as_slice(b: &Bytes) -> (r: &[u8])
    ensures
        r@ == bytes_contents(*b),
{
    b
}

/// Calls `bs58::decode(input).onto(output)` with the default (Bitcoin)
/// alphabet. It succeeds exactly when `base58_decoded_len_32` gives a
/// length, and returns that length, which never exceeds the 32 bytes of the
/// output (the decoder refuses with `BufferTooSmall` when a byte would not
/// fit). What it leaves in `output` is not stated.
#[verifier::external_body]
pub(crate) fn base58_decode_onto_32(input: &str, output: &mut [u8; 32]) -> (r: Result<
    usize,
    bs58::decode::Error,
>)
    ensures
        r is Ok <==> base58_decoded_len_32(input@) is Some,
        r matches Ok(n) ==> base58_decoded_len_32(input@) == Some(n) && n <= 32,
{
    bs58::decode(input).onto(output)
}

/// Formats `s` with `<str as Debug>::fmt`, through `format!("{:?}", s)`:
/// the result is the string's `Debug` text, a function of the string alone.
#[verifier::external_body]
pub(crate) fn debug_text(s: &str) -> (r: String)
    ensures
        r@ == debug_quoted(s@),
{
    format!("{:?}", s)
}

/// Calls `bs58::encode(input).into_string()`: the base58 text of `input`
/// with the default (Bitcoin) alphabet.
#[verifier::external_body]
pub(crate) fn base58_encode(input: &[u8]) -> (r: String)
    ensures
        r@ == base58_text(input@),
{
    bs58::encode(input).into_string()
}

} // verus!
