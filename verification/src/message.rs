use vstd::bytes::{spec_u16_from_le_bytes, spec_u32_from_le_bytes, u16_from_le_bytes, u32_from_le_bytes};
use vstd::prelude::*;

verus! {

/// One compiled instruction of a message: the index of its program among the
/// static accounts, the account indices it names and its data, both borrowed
/// from the message bytes.
#[derive(Debug, Clone, Copy, PartialEq, Eq)]
pub struct CompiledInstruction<'a> {
    pub program_index: u8,
    pub account_indices: &'a [u8],
    pub data: &'a [u8],
}

/// An address lookup table named by a versioned message.
#[derive(Debug, Clone, Copy, PartialEq, Eq)]
pub struct AddressTableLookup<'a> {
    pub table_address: &'a [u8],
    pub writable_indexes: &'a [u8],
    pub readonly_indexes: &'a [u8],
}

/// The three counts that open every message.
#[derive(Debug, Clone, Copy, PartialEq, Eq)]
pub struct MessageHeader {
    pub num_required_signatures: u8,
    pub num_readonly_signed: u8,
    pub num_readonly_unsigned: u8,
}

/// A decoded transaction message. Every slice borrows from the bytes it was
/// decoded from.
#[derive(Debug, Clone, PartialEq, Eq)]
pub struct CompiledMessage<'a> {
    pub version: Option<u8>,
    pub header: MessageHeader,
    pub static_accounts: Vec<&'a [u8]>,
    pub lifetime_token: &'a [u8],
    pub instructions: Vec<CompiledInstruction<'a>>,
    pub address_table_lookups: Vec<AddressTableLookup<'a>>,
}

/// Why a transaction message could not be decoded: a short reason naming
/// the field that did not fit.
#[derive(Debug, Clone, PartialEq, Eq)]
pub struct MessageDecodeError(pub &'static str);

/// An instruction as a value: what its slices hold.
pub struct InstructionView {
    pub program_index: u8,
    pub account_indices: Seq<u8>,
    pub data: Seq<u8>,
}

/// A lookup table entry as a value.
pub struct LookupView {
    pub table_address: Seq<u8>,
    pub writable_indexes: Seq<u8>,
    pub readonly_indexes: Seq<u8>,
}

/// A decoded message as a value.
pub struct MessageView {
    pub version: Option<u8>,
    pub header: MessageHeader,
    pub static_accounts: Seq<Seq<u8>>,
    pub lifetime_token: Seq<u8>,
    pub instructions: Seq<InstructionView>,
    pub address_table_lookups: Seq<LookupView>,
}

impl<'a> View for CompiledInstruction<'a> {
    type V = InstructionView;

    open spec fn view(&self) -> InstructionView {
        InstructionView {
            program_index: self.program_index,
            account_indices: self.account_indices@,
            data: self.data@,
        }
    }
}

impl<'a> View for AddressTableLookup<'a> {
    type V = LookupView;

    open spec fn view(&self) -> LookupView {
        LookupView {
            table_address: self.table_address@,
            writable_indexes: self.writable_indexes@,
            readonly_indexes: self.readonly_indexes@,
        }
    }
}

pub open spec fn slices_view<'a>(s: Seq<&'a [u8]>) -> Seq<Seq<u8>> {
    s.map_values(|x: &'a [u8]| x@)
}

pub open spec fn instructions_view<'a>(s: Seq<CompiledInstruction<'a>>) -> Seq<InstructionView> {
    s.map_values(|x: CompiledInstruction<'a>| x@)
}

pub open spec fn lookups_view<'a>(s: Seq<AddressTableLookup<'a>>) -> Seq<LookupView> {
    s.map_values(|x: AddressTableLookup<'a>| x@)
}

impl<'a> View for CompiledMessage<'a> {
    type V = MessageView;

    open spec fn view(&self) -> MessageView {
        MessageView {
            version: self.version,
            header: self.header,
            static_accounts: slices_view(self.static_accounts@),
            lifetime_token: self.lifetime_token@,
            instructions: instructions_view(self.instructions@),
            address_table_lookups: lookups_view(self.address_table_lookups@),
        }
    }
}

/// The bytes `buf[offset .. offset + len]`, or the given reason when they
/// are not all there.
pub open spec fn spec_take(buf: Seq<u8>, offset: int, len: int, what: &'static str) -> Result<
    Seq<u8>,
    &'static str,
> {
    if 0 <= offset && 0 <= len && offset + len <= buf.len() {
        Ok(buf.subrange(offset, offset + len))
    } else {
        Err(what)
    }
}

/// The compact length encoding read from byte `i` on of the encoding that
/// starts at `o`: seven bits per byte, least significant group first, the
/// high bit marking that another byte follows, four bytes at most. Gives the
/// value of the bytes from `i` on and the number of bytes of the whole
/// encoding.
pub open spec fn shortvec_from(buf: Seq<u8>, o: int, i: int) -> Option<(int, int)>
    decreases 4 - i,
{
    if i < 0 || i > 3 || o < 0 || o + i >= buf.len() {
        None
    } else if buf[o + i] < 128 {
        Some((buf[o + i] as int, i + 1))
    } else if i == 3 {
        None
    } else {
        match shortvec_from(buf, o, i + 1) {
            Some((v, n)) => Some(((buf[o + i] - 128) + 128 * v, n)),
            None => None,
        }
    }
}

/// The compact length at `o`: its value and how many bytes it takes.
pub open spec fn spec_shortvec(buf: Seq<u8>, o: int) -> Option<(int, int)> {
    shortvec_from(buf, o, 0)
}

/// Exclusive bound of the value of the encoding read from byte `i` on.
pub open spec fn shortvec_bound(i: int) -> int {
    if i == 0 {
        0x1000_0000
    } else if i == 1 {
        0x20_0000
    } else if i == 2 {
        0x4000
    } else {
        0x80
    }
}

/// `n` items in a row, the first at `o`, each read by `item` from its index
/// and its offset; gives the items and the offset after the last one, or
/// the reason of the first item that did not fit.
pub open spec fn spec_repeat<T>(
    item: spec_fn(int, int) -> Result<(T, int), &'static str>,
    o: int,
    n: nat,
) -> Result<(Seq<T>, int), &'static str>
    decreases n,
{
    if n == 0 {
        Ok((Seq::empty(), o))
    } else {
        match spec_repeat(item, o, (n - 1) as nat) {
            Ok((s, o1)) => match item(n - 1, o1) {
                Ok((x, o2)) => Ok((s.push(x), o2)),
                Err(e) => Err(e),
            },
            Err(e) => Err(e),
        }
    }
}

/// Once an item fails, every longer run fails with the same reason.
pub proof fn lemma_repeat_err<T>(
    item: spec_fn(int, int) -> Result<(T, int), &'static str>,
    o: int,
    k: nat,
    n: nat,
)
    requires
        k <= n,
        spec_repeat(item, o, k) is Err,
    ensures
        spec_repeat(item, o, n) == spec_repeat(item, o, k),
    decreases n - k,
{
    if k < n {
        lemma_repeat_err(item, o, k, (n - 1) as nat);
    }
}

/// A static account, a lookup table address: 32 bytes.
pub open spec fn account_item(buf: Seq<u8>) -> spec_fn(int, int) -> Result<
    (Seq<u8>, int),
    &'static str,
> {
    |k: int, o: int|
        match spec_take(buf, o, 32, "static accounts") {
            Ok(s) => Ok((s, o + 32)),
            Err(e) => Err(e),
        }
}

/// An instruction of a legacy or version 0 message: program index, then
/// account indices and data, each behind its compact length.
pub open spec fn legacy_instruction_item(buf: Seq<u8>) -> spec_fn(int, int) -> Result<
    (InstructionView, int),
    &'static str,
> {
    |k: int, o: int|
        if !(0 <= o < buf.len()) {
            Err("program index")
        } else {
            match spec_shortvec(buf, o + 1) {
                None => Err("instruction account count"),
                Some((na, sz)) => match spec_take(buf, o + 1 + sz, na, "instruction accounts") {
                    Err(e) => Err(e),
                    Ok(accounts) => match spec_shortvec(buf, o + 1 + sz + na) {
                        None => Err("instruction data length"),
                        Some((nd, sz2)) => match spec_take(
                            buf,
                            o + 1 + sz + na + sz2,
                            nd,
                            "instruction data",
                        ) {
                            Err(e) => Err(e),
                            Ok(data) => Ok(
                                (
                                    InstructionView {
                                        program_index: buf[o],
                                        account_indices: accounts,
                                        data,
                                    },
                                    o + 1 + sz + na + sz2 + nd,
                                ),
                            ),
                        },
                    },
                },
            }
        }
}

/// An address table lookup: the table's address, then writable and read-only
/// indexes, each behind its compact length.
pub open spec fn lookup_item(buf: Seq<u8>) -> spec_fn(int, int) -> Result<
    (LookupView, int),
    &'static str,
> {
    |k: int, o: int|
        match spec_take(buf, o, 32, "lookup table address") {
            Err(e) => Err(e),
            Ok(address) => match spec_shortvec(buf, o + 32) {
                None => Err("writable index count"),
                Some((nw, sz)) => match spec_take(buf, o + 32 + sz, nw, "writable indexes") {
                    Err(e) => Err(e),
                    Ok(writable) => match spec_shortvec(buf, o + 32 + sz + nw) {
                        None => Err("readonly index count"),
                        Some((nr, sz2)) => match spec_take(
                            buf,
                            o + 32 + sz + nw + sz2,
                            nr,
                            "readonly indexes",
                        ) {
                            Err(e) => Err(e),
                            Ok(readonly) => Ok(
                                (
                                    LookupView {
                                        table_address: address,
                                        writable_indexes: writable,
                                        readonly_indexes: readonly,
                                    },
                                    o + 32 + sz + nw + sz2 + nr,
                                ),
                            ),
                        },
                    },
                },
            }
        }
}

/// An instruction of a version 1 message: its four-byte header `k` in the
/// header block at `hs` gives the program index, the number of account
/// indices and the data length; the indices and data follow at `o`.
pub open spec fn v1_instruction_item(buf: Seq<u8>, hs: int) -> spec_fn(int, int) -> Result<
    (InstructionView, int),
    &'static str,
> {
    |k: int, o: int|
        {
            let h = hs + 4 * k;
            let na = buf[h + 1] as int;
            let nd = spec_u16_from_le_bytes(buf.subrange(h + 2, h + 4)) as int;
            match spec_take(buf, o, na, "instruction accounts") {
                Err(e) => Err(e),
                Ok(accounts) => match spec_take(buf, o + na, nd, "instruction data") {
                    Err(e) => Err(e),
                    Ok(data) => Ok(
                        (
                            InstructionView {
                                program_index: buf[h],
                                account_indices: accounts,
                                data,
                            },
                            o + na + nd,
                        ),
                    ),
                },
            }
        }
}

/// How many bytes of optional configuration values a version 1 message
/// carries, by the bits of its configuration mask.
pub open spec fn config_len(mask: u32) -> int {
    (if mask & 3 == 3 {
        8int
    } else {
        0int
    }) + 4 * ((mask >> 2u32) & 1) + 4 * ((mask >> 3u32) & 1) + 4 * ((mask >> 4u32) & 1)
}

pub open spec fn header_of(h: Seq<u8>) -> MessageHeader {
    MessageHeader { num_required_signatures: h[0], num_readonly_signed: h[1], num_readonly_unsigned: h[2] }
}

/// The address table lookups section of a version 0 message at `o`.
pub open spec fn spec_lookups(buf: Seq<u8>, o: int) -> Result<Seq<LookupView>, &'static str> {
    match spec_shortvec(buf, o) {
        None => Err("lookup count"),
        Some((n, sz)) => match spec_repeat(lookup_item(buf), o + sz, n as nat) {
            Err(e) => Err(e),
            Ok((lookups, _)) => Ok(lookups),
        },
    }
}

/// The instructions and lookups of a legacy or version 0 message, from the
/// instruction count at `o` on.
pub open spec fn spec_legacy_tail(buf: Seq<u8>, o: int, versioned: bool) -> Result<
    (Seq<InstructionView>, Seq<LookupView>),
    &'static str,
> {
    match spec_shortvec(buf, o) {
        None => Err("instruction count"),
        Some((n, sz)) => match spec_repeat(legacy_instruction_item(buf), o + sz, n as nat) {
            Err(e) => Err(e),
            Ok((instructions, o2)) => if versioned {
                match spec_lookups(buf, o2) {
                    Err(e) => Err(e),
                    Ok(lookups) => Ok((instructions, lookups)),
                }
            } else {
                Ok((instructions, Seq::empty()))
            },
        },
    }
}

/// A legacy or version 0 message: an optional version byte (high bit set),
/// the header, the static accounts behind their compact count, the lifetime
/// token, the instructions and, for a versioned message, the lookups.
pub open spec fn spec_decode_legacy(buf: Seq<u8>) -> Result<MessageView, &'static str> {
    if buf.len() == 0 {
        Err("empty message")
    } else {
        let versioned = buf[0] >= 128;
        let version: Option<u8> = if versioned {
            Some((buf[0] - 128) as u8)
        } else {
            None
        };
        let o: int = if versioned {
            1
        } else {
            0
        };
        match spec_take(buf, o, 3, "header") {
            Err(e) => Err(e),
            Ok(h) => match spec_shortvec(buf, o + 3) {
                None => Err("account count"),
                Some((n, sz)) => match spec_repeat(account_item(buf), o + 3 + sz, n as nat) {
                    Err(e) => Err(e),
                    Ok((accounts, o1)) => match spec_take(buf, o1, 32, "lifetime token") {
                        Err(e) => Err(e),
                        Ok(token) => match spec_legacy_tail(buf, o1 + 32, versioned) {
                            Err(e) => Err(e),
                            Ok((instructions, lookups)) => Ok(
                                MessageView {
                                    version,
                                    header: header_of(h),
                                    static_accounts: accounts,
                                    lifetime_token: token,
                                    instructions,
                                    address_table_lookups: lookups,
                                },
                            ),
                        },
                    },
                },
            },
        }
    }
}

/// The accounts and instructions of a version 1 message, from the static
/// accounts at 42 on, given the account and instruction counts and the
/// configuration mask.
pub open spec fn spec_v1_body(buf: Seq<u8>, n_keys: int, n_instr: int, mask: u32) -> Result<
    (Seq<Seq<u8>>, Seq<InstructionView>),
    &'static str,
> {
    match spec_repeat(account_item(buf), 42, n_keys as nat) {
        Err(e) => Err(e),
        Ok((accounts, o1)) => match spec_take(buf, o1, config_len(mask), "config values") {
            Err(e) => Err(e),
            Ok(_) => {
                let hs = o1 + config_len(mask);
                match spec_take(buf, hs, 4 * n_instr, "instruction headers") {
                    Err(e) => Err(e),
                    Ok(_) => match spec_repeat(
                        v1_instruction_item(buf, hs),
                        hs + 4 * n_instr,
                        n_instr as nat,
                    ) {
                        Err(e) => Err(e),
                        Ok((instructions, _)) => Ok((accounts, instructions)),
                    },
                }
            },
        },
    }
}

/// A version 1 message: the marker byte, the header, a four-byte
/// configuration mask, the lifetime token, the instruction and account
/// counts at 40 and 41, the static accounts, the configuration values, the
/// instruction headers and then each instruction's indices and data.
pub open spec fn spec_decode_v1(buf: Seq<u8>) -> Result<MessageView, &'static str> {
    match spec_take(buf, 1, 3, "header") {
        Err(e) => Err(e),
        Ok(h) => match spec_take(buf, 4, 4, "config mask") {
            Err(e) => Err(e),
            Ok(m) => match spec_take(buf, 8, 32, "lifetime token") {
                Err(e) => Err(e),
                Ok(token) => if buf.len() <= 40 {
                    Err("instruction count")
                } else if buf.len() <= 41 {
                    Err("account count")
                } else {
                    let n_keys = buf[41] as int;
                    let n_instr = buf[40] as int;
                    match spec_v1_body(buf, n_keys, n_instr, spec_u32_from_le_bytes(m)) {
                        Err(e) => Err(e),
                        Ok((accounts, instructions)) => Ok(
                            MessageView {
                                version: Some(1),
                                header: header_of(h),
                                static_accounts: accounts,
                                lifetime_token: token,
                                instructions,
                                address_table_lookups: Seq::empty(),
                            },
                        ),
                    }
                }
            },
        },
    }
}

/// The message encoded in `buf`, or the reason it cannot be decoded. A
/// first byte 0x81 marks a version 1 message; any other is a legacy or
/// version 0 message.
pub open spec fn spec_decode_message(buf: Seq<u8>) -> Result<MessageView, &'static str> {
    if buf.len() > 0 && buf[0] == 0x81 {
        spec_decode_v1(buf)
    } else {
        spec_decode_legacy(buf)
    }
}

/// Where the message begins in a serialized transaction: after its
/// signatures, which come first behind their compact count, 64 bytes each.
/// In a version 1 transaction the message comes first: its byte 1 counts
/// the signatures, which close the transaction, and at least 42 message
/// bytes must remain.
pub open spec fn spec_message_bytes(tx: Seq<u8>) -> Result<Seq<u8>, &'static str> {
    if tx.len() > 0 && tx[0] == 0x81 {
        if tx.len() < 2 {
            Err("header")
        } else if tx.len() - 64 * tx[1] >= 42 {
            Ok(tx.subrange(0, tx.len() - 64 * tx[1]))
        } else {
            Err("signatures do not fit")
        }
    } else {
        match spec_shortvec(tx, 0) {
            None => Err("signature count"),
            Some((n, sz)) => if sz + 64 * n <= tx.len() {
                Ok(tx.subrange(sz + 64 * n, tx.len() as int))
            } else {
                Err("signatures do not fit")
            },
        }
    }
}

fn shortvec_at(buf: &[u8], offset: usize, i: usize) -> (r: Option<(usize, usize)>)
    requires
        i <= 3,
    ensures
        match shortvec_from(buf@, offset as int, i as int) {
            Some((v, n)) => r matches Some((x, m)) && x == v && m == n,
            None => r is None,
        },
        r matches Some((v, n)) ==> v < shortvec_bound(i as int) && i < n <= 4 && offset + n
            <= buf@.len(),
    decreases 3 - i,
{
    let len = buf.len();
    let at = match offset.checked_add(i) {
        Some(at) => at,
        None => return None,
    };
    if at >= buf.len() {
        return None;
    }
    let b = buf[at];
    let low = (b & 0x7f) as usize;
    assert(b < 128 ==> b & 0x7f == b) by (bit_vector);
    assert(b >= 128 ==> b & 0x7f == b - 128) by (bit_vector);
    assert((b & 0x80 == 0) == (b < 128)) by (bit_vector);
    if b & 0x80 == 0 {
        return Some((low, i + 1));
    }
    if i == 3 {
        return None;
    }
    match shortvec_at(buf, offset, i + 1) {
        Some((v, n)) => Some((low + 128 * v, n)),
        None => None,
    }
}

/// Reads a compact length at `offset`.
fn shortvec(buf: &[u8], offset: usize, what: &'static str) -> (r: Result<
    (usize, usize),
    MessageDecodeError,
>)
    ensures
        match spec_shortvec(buf@, offset as int) {
            Some((v, n)) => r matches Ok((x, m)) && x == v && m == n,
            None => r matches Err(e) && e == MessageDecodeError(what),
        },
        r matches Ok((v, n)) ==> v < 0x1000_0000 && 1 <= n <= 4 && offset + n <= buf@.len(),
{
    match shortvec_at(buf, offset, 0) {
        Some(p) => Ok(p),
        None => Err(MessageDecodeError(what)),
    }
}

fn take<'a>(buf: &'a [u8], offset: usize, len: usize, what: &'static str) -> (r: Result<
    &'a [u8],
    MessageDecodeError,
>)
    ensures
        match spec_take(buf@, offset as int, len as int, what) {
            Ok(s) => r matches Ok(x) && x@ == s,
            Err(e) => r matches Err(x) && x == MessageDecodeError(e),
        },
        r is Ok ==> offset + len <= buf@.len() <= usize::MAX,
{
    let buf_len = buf.len();
    match offset.checked_add(len) {
        Some(end) => {
            if end <= buf_len {
                Ok(&buf[offset..end])
            } else {
                Err(MessageDecodeError(what))
            }
        },
        None => Err(MessageDecodeError(what)),
    }
}

/// Reads `count` static accounts of 32 bytes from `start` on.
fn take_accounts<'a>(buf: &'a [u8], start: usize, count: usize) -> (r: Result<
    (Vec<&'a [u8]>, usize),
    MessageDecodeError,
>)
    requires
        start <= buf@.len(),
    ensures
        match spec_repeat(account_item(buf@), start as int, count as nat) {
            Ok((s, end)) => r matches Ok((v, e)) && slices_view(v@) == s && e == end && e
                <= buf@.len(),
            Err(e) => r matches Err(x) && x == MessageDecodeError(e),
        },
{
    let mut out: Vec<&'a [u8]> = Vec::new();
    let mut pos = start;
    let mut i: usize = 0;
    while i < count
        invariant
            i <= count,
            pos <= buf@.len(),
            spec_repeat(account_item(buf@), start as int, i as nat) matches Ok((s, e)) && s
                == slices_view(out@) && e == pos,
        decreases count - i,
    {
        match take(buf, pos, 32, "static accounts") {
            Ok(s) => {
                let ghost before = out@;
                out.push(s);
                pos = pos + 32;
                assert(slices_view(out@) =~= slices_view(before).push(s@));
            },
            Err(e) => {
                proof {
                    lemma_repeat_err(account_item(buf@), start as int, (i + 1) as nat, count as nat);
                }
                return Err(e);
            },
        }
        i = i + 1;
    }
    Ok((out, pos))
}

/// Reads one instruction of a legacy or version 0 message at `o`.
fn legacy_instruction<'a>(buf: &'a [u8], o: usize) -> (r: Result<
    (CompiledInstruction<'a>, usize),
    MessageDecodeError,
>)
    requires
        o <= buf@.len(),
    ensures
        match (legacy_instruction_item(buf@))(0, o as int) {
            Ok((x, end)) => r matches Ok((ix, e)) && ix@ == x && e == end && e <= buf@.len(),
            Err(e) => r matches Err(x) && x == MessageDecodeError(e),
        },
{
    if o >= buf.len() {
        return Err(MessageDecodeError("program index"));
    }
    let program_index = buf[o];
    let o = o + 1;
    let (na, sz) = shortvec(buf, o, "instruction account count")?;
    let o = o + sz;
    let account_indices = take(buf, o, na, "instruction accounts")?;
    let o = o + na;
    let (nd, sz) = shortvec(buf, o, "instruction data length")?;
    let o = o + sz;
    let data = take(buf, o, nd, "instruction data")?;
    let o = o + nd;
    Ok((CompiledInstruction { program_index, account_indices, data }, o))
}

/// Reads one address table lookup at `o`.
fn lookup<'a>(buf: &'a [u8], o: usize) -> (r: Result<
    (AddressTableLookup<'a>, usize),
    MessageDecodeError,
>)
    requires
        o <= buf@.len(),
    ensures
        match (lookup_item(buf@))(0, o as int) {
            Ok((x, end)) => r matches Ok((l, e)) && l@ == x && e == end && e <= buf@.len(),
            Err(e) => r matches Err(x) && x == MessageDecodeError(e),
        },
{
    let table_address = take(buf, o, 32, "lookup table address")?;
    let o = o + 32;
    let (nw, sz) = shortvec(buf, o, "writable index count")?;
    let o = o + sz;
    let writable_indexes = take(buf, o, nw, "writable indexes")?;
    let o = o + nw;
    let (nr, sz) = shortvec(buf, o, "readonly index count")?;
    let o = o + sz;
    let readonly_indexes = take(buf, o, nr, "readonly indexes")?;
    let o = o + nr;
    Ok((AddressTableLookup { table_address, writable_indexes, readonly_indexes }, o))
}

/// Reads `count` instructions of a legacy or version 0 message from `start` on.
fn legacy_instructions<'a>(buf: &'a [u8], start: usize, count: usize) -> (r: Result<
    (Vec<CompiledInstruction<'a>>, usize),
    MessageDecodeError,
>)
    requires
        start <= buf@.len(),
    ensures
        match spec_repeat(legacy_instruction_item(buf@), start as int, count as nat) {
            Ok((s, end)) => r matches Ok((v, e)) && instructions_view(v@) == s && e == end && e
                <= buf@.len(),
            Err(e) => r matches Err(x) && x == MessageDecodeError(e),
        },
{
    let mut out: Vec<CompiledInstruction<'a>> = Vec::new();
    let mut pos = start;
    let mut i: usize = 0;
    while i < count
        invariant
            i <= count,
            pos <= buf@.len(),
            spec_repeat(legacy_instruction_item(buf@), start as int, i as nat) matches Ok((s, e))
                && s == instructions_view(out@) && e == pos,
        decreases count - i,
    {
        match legacy_instruction(buf, pos) {
            Ok((ix, next)) => {
                let ghost before = out@;
                out.push(ix);
                pos = next;
                assert(instructions_view(out@) =~= instructions_view(before).push(ix@));
            },
            Err(e) => {
                proof {
                    lemma_repeat_err(
                        legacy_instruction_item(buf@),
                        start as int,
                        (i + 1) as nat,
                        count as nat,
                    );
                }
                return Err(e);
            },
        }
        i = i + 1;
    }
    Ok((out, pos))
}

/// Reads `count` address table lookups from `start` on.
fn lookups<'a>(buf: &'a [u8], start: usize, count: usize) -> (r: Result<
    (Vec<AddressTableLookup<'a>>, usize),
    MessageDecodeError,
>)
    requires
        start <= buf@.len(),
    ensures
        match spec_repeat(lookup_item(buf@), start as int, count as nat) {
            Ok((s, end)) => r matches Ok((v, e)) && lookups_view(v@) == s && e == end && e
                <= buf@.len(),
            Err(e) => r matches Err(x) && x == MessageDecodeError(e),
        },
{
    let mut out: Vec<AddressTableLookup<'a>> = Vec::new();
    let mut pos = start;
    let mut i: usize = 0;
    while i < count
        invariant
            i <= count,
            pos <= buf@.len(),
            spec_repeat(lookup_item(buf@), start as int, i as nat) matches Ok((s, e)) && s
                == lookups_view(out@) && e == pos,
        decreases count - i,
    {
        match lookup(buf, pos) {
            Ok((l, next)) => {
                let ghost before = out@;
                out.push(l);
                pos = next;
                assert(lookups_view(out@) =~= lookups_view(before).push(l@));
            },
            Err(e) => {
                proof {
                    lemma_repeat_err(lookup_item(buf@), start as int, (i + 1) as nat, count as nat);
                }
                return Err(e);
            },
        }
        i = i + 1;
    }
    Ok((out, pos))
}

/// Reads the instructions of a version 1 message: `count` four-byte headers
/// at `hs`, then each instruction's indices and data from `start` on.
fn v1_instructions<'a>(buf: &'a [u8], hs: usize, start: usize, count: usize) -> (r: Result<
    (Vec<CompiledInstruction<'a>>, usize),
    MessageDecodeError,
>)
    requires
        hs + 4 * count == start,
        start <= buf@.len(),
    ensures
        match spec_repeat(v1_instruction_item(buf@, hs as int), start as int, count as nat) {
            Ok((s, end)) => r matches Ok((v, e)) && instructions_view(v@) == s && e == end && e
                <= buf@.len(),
            Err(e) => r matches Err(x) && x == MessageDecodeError(e),
        },
{
    let mut out: Vec<CompiledInstruction<'a>> = Vec::new();
    let mut pos = start;
    let mut i: usize = 0;
    while i < count
        invariant
            i <= count,
            hs + 4 * count == start,
            start <= pos <= buf@.len(),
            spec_repeat(v1_instruction_item(buf@, hs as int), start as int, i as nat) matches Ok(
                (s, e),
            ) && s == instructions_view(out@) && e == pos,
        decreases count - i,
    {
        let h = hs + 4 * i;
        let na = buf[h + 1] as usize;
        let nd = u16_from_le_bytes(&buf[h + 2..h + 4]) as usize;
        let step = match take(buf, pos, na, "instruction accounts") {
            Ok(account_indices) => match take(buf, pos + na, nd, "instruction data") {
                Ok(data) => Ok(
                    (CompiledInstruction { program_index: buf[h], account_indices, data }, pos + na
                        + nd),
                ),
                Err(e) => Err(e),
            },
            Err(e) => Err(e),
        };
        match step {
            Ok((ix, next)) => {
                let ghost before = out@;
                out.push(ix);
                pos = next;
                assert(instructions_view(out@) =~= instructions_view(before).push(ix@));
            },
            Err(e) => {
                proof {
                    lemma_repeat_err(
                        v1_instruction_item(buf@, hs as int),
                        start as int,
                        (i + 1) as nat,
                        count as nat,
                    );
                }
                return Err(e);
            },
        }
        i = i + 1;
    }
    Ok((out, pos))
}

fn decode_v1(buf: &[u8]) -> (r: Result<CompiledMessage<'_>, MessageDecodeError>)
    ensures
        match spec_decode_v1(buf@) {
            Ok(m) => r matches Ok(x) && x@ == m,
            Err(e) => r matches Err(x) && x == MessageDecodeError(e),
        },
{
    let h = take(buf, 1, 3, "header")?;
    let header = MessageHeader {
        num_required_signatures: h[0],
        num_readonly_signed: h[1],
        num_readonly_unsigned: h[2],
    };
    let mask = u32_from_le_bytes(take(buf, 4, 4, "config mask")?);
    let lifetime_token = take(buf, 8, 32, "lifetime token")?;
    if buf.len() <= 40 {
        return Err(MessageDecodeError("instruction count"));
    }
    let n_instr = buf[40] as usize;
    if buf.len() <= 41 {
        return Err(MessageDecodeError("account count"));
    }
    let n_keys = buf[41] as usize;
    let (static_accounts, o) = take_accounts(buf, 42, n_keys)?;
    assert((mask >> 2u32) & 1 <= 1 && (mask >> 3u32) & 1 <= 1 && (mask >> 4u32) & 1 <= 1)
        by (bit_vector);
    let cfg: usize = (if mask & 0b11 == 0b11 {
        8
    } else {
        0
    }) + 4 * ((mask >> 2u32) & 1) as usize + 4 * ((mask >> 3u32) & 1) as usize + 4 * ((mask
        >> 4u32) & 1) as usize;
    take(buf, o, cfg, "config values")?;
    let o = o + cfg;
    take(buf, o, 4 * n_instr, "instruction headers")?;
    let (instructions, _) = v1_instructions(buf, o, o + 4 * n_instr, n_instr)?;
    let r = CompiledMessage {
        version: Some(1),
        header,
        static_accounts,
        lifetime_token,
        instructions,
        address_table_lookups: Vec::new(),
    };
    assert(lookups_view(r.address_table_lookups@) =~= Seq::empty());
    Ok(r)
}

fn decode_legacy(buf: &[u8]) -> (r: Result<CompiledMessage<'_>, MessageDecodeError>)
    ensures
        match spec_decode_legacy(buf@) {
            Ok(m) => r matches Ok(x) && x@ == m,
            Err(e) => r matches Err(x) && x == MessageDecodeError(e),
        },
{
    if buf.len() == 0 {
        return Err(MessageDecodeError("empty message"));
    }
    let first = buf[0];
    assert((first & 0x80 != 0) == (first >= 128)) by (bit_vector);
    assert(first >= 128 ==> first & 0x7f == first - 128) by (bit_vector);
    let mut o: usize = 0;
    let version = if first & 0x80 != 0 {
        o = 1;
        Some(first & 0x7f)
    } else {
        None
    };
    let h = take(buf, o, 3, "header")?;
    let header = MessageHeader {
        num_required_signatures: h[0],
        num_readonly_signed: h[1],
        num_readonly_unsigned: h[2],
    };
    let o = o + 3;
    let (n, sz) = shortvec(buf, o, "account count")?;
    let o = o + sz;
    let (static_accounts, o) = take_accounts(buf, o, n)?;
    let lifetime_token = take(buf, o, 32, "lifetime token")?;
    let o = o + 32;
    let (n, sz) = shortvec(buf, o, "instruction count")?;
    let o = o + sz;
    let (instructions, o) = legacy_instructions(buf, o, n)?;
    let mut address_table_lookups = Vec::new();
    if version.is_some() {
        let (n, sz) = shortvec(buf, o, "lookup count")?;
        let o = o + sz;
        let (l, _) = lookups(buf, o, n)?;
        address_table_lookups = l;
    }
    let r = CompiledMessage {
        version,
        header,
        static_accounts,
        lifetime_token,
        instructions,
        address_table_lookups,
    };
    assert(version is None ==> lookups_view(r.address_table_lookups@) =~= Seq::empty());
    Ok(r)
}

/// Decodes a transaction message: a version 1 message when the first byte
/// is 0x81, a legacy or version 0 message otherwise.
pub fn decode_message(buf: &[u8]) -> (r: Result<CompiledMessage<'_>, MessageDecodeError>)
    ensures
        match spec_decode_message(buf@) {
            Ok(m) => r matches Ok(x) && x@ == m,
            Err(e) => r matches Err(x) && x == MessageDecodeError(e),
        },
{
    if buf.len() > 0 && buf[0] == 0x81 {
        return decode_v1(buf);
    }
    decode_legacy(buf)
}

/// The message part of a serialized transaction.
pub fn message_bytes(tx: &[u8]) -> (r: Result<&[u8], MessageDecodeError>)
    ensures
        match spec_message_bytes(tx@) {
            Ok(m) => r matches Ok(x) && x@ == m,
            Err(e) => r matches Err(x) && x == MessageDecodeError(e),
        },
{
    let len = tx.len();
    if len > 0 && tx[0] == 0x81 {
        if len < 2 {
            return Err(MessageDecodeError("header"));
        }
        let n = tx[1] as usize;
        return match len.checked_sub(64 * n) {
            Some(end) => if end >= 42 {
                Ok(&tx[0..end])
            } else {
                Err(MessageDecodeError("signatures do not fit"))
            },
            None => Err(MessageDecodeError("signatures do not fit")),
        };
    }
    let (n, sz) = shortvec(tx, 0, "signature count")?;
    let start = match n.checked_mul(64) {
        Some(sigs) => sz.checked_add(sigs),
        None => None,
    };
    match start {
        Some(start) => if start <= len {
            Ok(&tx[start..len])
        } else {
            Err(MessageDecodeError("signatures do not fit"))
        },
        None => Err(MessageDecodeError("signatures do not fit")),
    }
}

proof fn lemma_accounts_32(buf: Seq<u8>, o: int, n: nat)
    ensures
        spec_repeat(account_item(buf), o, n) matches Ok((s, _)) ==> forall|i: int|
            0 <= i < s.len() ==> (#[trigger] s[i]).len() == 32,
    decreases n,
{
    if n > 0 {
        lemma_accounts_32(buf, o, (n - 1) as nat);
    }
}

/// What a decoded message's version and lookups are: a legacy message
/// (first byte below 0x80) has no version and no lookups; a version 1
/// message (first byte 0x81) has version 1 and no lookups; any other
/// versioned message has the first byte without its high bit as version.
/// Every static account and the lifetime token are 32 bytes.
pub proof fn law_decoded_message_shape(buf: Seq<u8>)
    ensures
        spec_decode_message(buf) matches Ok(m) ==> {
            &&& buf[0] < 0x80 ==> m.version is None && m.address_table_lookups.len() == 0
            &&& buf[0] == 0x81 ==> m.version == Some(1u8) && m.address_table_lookups.len() == 0
            &&& buf[0] >= 0x80 && buf[0] != 0x81 ==> m.version == Some((buf[0] - 0x80) as u8)
            &&& forall|i: int|
                0 <= i < m.static_accounts.len() ==> (#[trigger] m.static_accounts[i]).len() == 32
            &&& m.lifetime_token.len() == 32
        },
{
    if let Ok(m) = spec_decode_message(buf) {
        if buf[0] == 0x81 {
            lemma_accounts_32(buf, 42, buf[41] as nat);
        } else {
            let o: int = if buf[0] >= 128 {
                1
            } else {
                0
            };
            let (n, sz) = spec_shortvec(buf, o + 3).unwrap();
            lemma_accounts_32(buf, o + 3 + sz, n as nat);
        }
    }
}

/// `b2` begins with the bytes of `buf`.
pub open spec fn extends(buf: Seq<u8>, b2: Seq<u8>) -> bool {
    buf.len() <= b2.len() && forall|i: int| 0 <= i < buf.len() ==> #[trigger] b2[i] == buf[i]
}

proof fn lemma_take_prefix(buf: Seq<u8>, b2: Seq<u8>, o: int, n: int, what: &'static str)
    requires
        extends(buf, b2),
    ensures
        spec_take(buf, o, n, what) is Ok ==> spec_take(b2, o, n, what) == spec_take(buf, o, n, what),
{
    if spec_take(buf, o, n, what) is Ok {
        assert(b2.subrange(o, o + n) =~= buf.subrange(o, o + n));
    }
}

proof fn lemma_shortvec_prefix(buf: Seq<u8>, b2: Seq<u8>, o: int, i: int)
    requires
        extends(buf, b2),
    ensures
        shortvec_from(buf, o, i) is Some ==> shortvec_from(b2, o, i) == shortvec_from(buf, o, i),
    decreases 4 - i,
{
    if 0 <= i < 3 && 0 <= o && o + i < buf.len() && buf[o + i] >= 128 {
        lemma_shortvec_prefix(buf, b2, o, i + 1);
    }
}

proof fn lemma_repeat_prefix<T>(
    item: spec_fn(int, int) -> Result<(T, int), &'static str>,
    item2: spec_fn(int, int) -> Result<(T, int), &'static str>,
    o: int,
    n: nat,
)
    requires
        forall|k: int, p: int| 0 <= k < n && #[trigger] item(k, p) is Ok ==> item2(k, p) == item(k, p),
    ensures
        spec_repeat(item, o, n) is Ok ==> spec_repeat(item2, o, n) == spec_repeat(item, o, n),
    decreases n,
{
    if n > 0 {
        lemma_repeat_prefix(item, item2, o, (n - 1) as nat);
    }
}

proof fn lemma_items_prefix(buf: Seq<u8>, b2: Seq<u8>)
    requires
        extends(buf, b2),
    ensures
        forall|k: int, p: int| #[trigger] account_item(buf)(k, p) is Ok ==> account_item(b2)(k, p)
            == account_item(buf)(k, p),
        forall|k: int, p: int| #[trigger] legacy_instruction_item(buf)(k, p) is Ok
            ==> legacy_instruction_item(b2)(k, p) == legacy_instruction_item(buf)(k, p),
        forall|k: int, p: int| #[trigger] lookup_item(buf)(k, p) is Ok ==> lookup_item(b2)(k, p)
            == lookup_item(buf)(k, p),
{
    assert forall|k: int, p: int| #[trigger] account_item(buf)(k, p) is Ok implies account_item(
        b2,
    )(k, p) == account_item(buf)(k, p) by {
        lemma_take_prefix(buf, b2, p, 32, "static accounts");
    }
    assert forall|k: int, p: int| #[trigger] legacy_instruction_item(buf)(k, p) is Ok implies legacy_instruction_item(
        b2,
    )(k, p) == legacy_instruction_item(buf)(k, p) by {
        lemma_shortvec_prefix(buf, b2, p + 1, 0);
        let (na, sz) = spec_shortvec(buf, p + 1).unwrap();
        lemma_take_prefix(buf, b2, p + 1 + sz, na, "instruction accounts");
        lemma_shortvec_prefix(buf, b2, p + 1 + sz + na, 0);
        let (nd, sz2) = spec_shortvec(buf, p + 1 + sz + na).unwrap();
        lemma_take_prefix(buf, b2, p + 1 + sz + na + sz2, nd, "instruction data");
    }
    assert forall|k: int, p: int| #[trigger] lookup_item(buf)(k, p) is Ok implies lookup_item(b2)(
        k,
        p,
    ) == lookup_item(buf)(k, p) by {
        lemma_take_prefix(buf, b2, p, 32, "lookup table address");
        lemma_shortvec_prefix(buf, b2, p + 32, 0);
        let (nw, sz) = spec_shortvec(buf, p + 32).unwrap();
        lemma_take_prefix(buf, b2, p + 32 + sz, nw, "writable indexes");
        lemma_shortvec_prefix(buf, b2, p + 32 + sz + nw, 0);
        let (nr, sz2) = spec_shortvec(buf, p + 32 + sz + nw).unwrap();
        lemma_take_prefix(buf, b2, p + 32 + sz + nw + sz2, nr, "readonly indexes");
    }
}

proof fn lemma_v1_items_prefix(buf: Seq<u8>, b2: Seq<u8>, hs: int, n: int)
    requires
        extends(buf, b2),
        0 <= hs,
        hs + 4 * n <= buf.len(),
    ensures
        forall|k: int, p: int|
            0 <= k < n && #[trigger] v1_instruction_item(buf, hs)(k, p) is Ok ==> v1_instruction_item(
                b2,
                hs,
            )(k, p) == v1_instruction_item(buf, hs)(k, p),
{
    assert forall|k: int, p: int|
        0 <= k < n && #[trigger] v1_instruction_item(buf, hs)(k, p) is Ok implies v1_instruction_item(
        b2,
        hs,
    )(k, p) == v1_instruction_item(buf, hs)(k, p) by {
        let h = hs + 4 * k;
        assert(b2.subrange(h + 2, h + 4) =~= buf.subrange(h + 2, h + 4));
        let na = buf[h + 1] as int;
        let nd = spec_u16_from_le_bytes(buf.subrange(h + 2, h + 4)) as int;
        lemma_take_prefix(buf, b2, p, na, "instruction accounts");
        lemma_take_prefix(buf, b2, p + na, nd, "instruction data");
    }
}

/// The decoder reads only a prefix of its input: a message decoded from
/// some bytes is decoded the same, field for field, from those bytes
/// followed by any others.
pub proof fn law_decode_reads_a_prefix(buf: Seq<u8>, extra: Seq<u8>)
    ensures
        spec_decode_message(buf) is Ok ==> spec_decode_message(buf + extra) == spec_decode_message(
            buf,
        ),
{
    let b2 = buf + extra;
    assert(extends(buf, b2));
    if spec_decode_message(buf) is Ok {
        lemma_items_prefix(buf, b2);
        if buf[0] == 0x81 {
            lemma_take_prefix(buf, b2, 1, 3, "header");
            lemma_take_prefix(buf, b2, 4, 4, "config mask");
            lemma_take_prefix(buf, b2, 8, 32, "lifetime token");
            let m = spec_take(buf, 4, 4, "config mask").unwrap();
            let mask = spec_u32_from_le_bytes(m);
            let n_keys = buf[41] as int;
            let n_instr = buf[40] as int;
            lemma_repeat_prefix(account_item(buf), account_item(b2), 42, n_keys as nat);
            let (accounts, o1) = spec_repeat(account_item(buf), 42, n_keys as nat).unwrap();
            lemma_take_prefix(buf, b2, o1, config_len(mask), "config values");
            let hs = o1 + config_len(mask);
            lemma_take_prefix(buf, b2, hs, 4 * n_instr, "instruction headers");
            lemma_v1_items_prefix(buf, b2, hs, n_instr);
            lemma_repeat_prefix(
                v1_instruction_item(buf, hs),
                v1_instruction_item(b2, hs),
                hs + 4 * n_instr,
                n_instr as nat,
            );
        } else {
            let o: int = if buf[0] >= 128 {
                1
            } else {
                0
            };
            lemma_take_prefix(buf, b2, o, 3, "header");
            lemma_shortvec_prefix(buf, b2, o + 3, 0);
            let (n, sz) = spec_shortvec(buf, o + 3).unwrap();
            lemma_repeat_prefix(account_item(buf), account_item(b2), o + 3 + sz, n as nat);
            let (accounts, o1) = spec_repeat(account_item(buf), o + 3 + sz, n as nat).unwrap();
            lemma_take_prefix(buf, b2, o1, 32, "lifetime token");
            lemma_shortvec_prefix(buf, b2, o1 + 32, 0);
            let (ni, szi) = spec_shortvec(buf, o1 + 32).unwrap();
            lemma_repeat_prefix(
                legacy_instruction_item(buf),
                legacy_instruction_item(b2),
                o1 + 32 + szi,
                ni as nat,
            );
            if buf[0] >= 128 {
                let (_, o2) = spec_repeat(
                    legacy_instruction_item(buf),
                    o1 + 32 + szi,
                    ni as nat,
                ).unwrap();
                lemma_shortvec_prefix(buf, b2, o2, 0);
                let (nl, szl) = spec_shortvec(buf, o2).unwrap();
                lemma_repeat_prefix(lookup_item(buf), lookup_item(b2), o2 + szl, nl as nat);
            }
        }
    }
}

} // verus!
