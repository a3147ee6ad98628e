//! The wire encoding of messages and transactions, written independently of
//! the decoders, and the laws that decoding gives back what was encoded.

use vstd::prelude::*;

use crate::message::{
    account_item, legacy_instruction_item, lookup_item, shortvec_bound, shortvec_from,
    header_of, spec_decode_message, spec_lookups, spec_repeat, spec_shortvec, spec_take, InstructionView,
    LookupView, MessageHeader, MessageView,
};

verus! {

/// `buf` holds `e` from offset `p` on.
pub open spec fn holds_at(buf: Seq<u8>, p: int, e: Seq<u8>) -> bool {
    0 <= p && p + e.len() <= buf.len() && buf.subrange(p, p + e.len()) == e
}

/// Bytes held one after the other are each held at their own offset.
pub proof fn lemma_holds_split(buf: Seq<u8>, p: int, a: Seq<u8>, b: Seq<u8>)
    requires
        holds_at(buf, p, a + b),
    ensures
        holds_at(buf, p, a),
        holds_at(buf, p + a.len(), b),
{
    assert(buf.subrange(p, p + a.len()) =~= (a + b).subrange(0, a.len() as int));
    assert((a + b).subrange(0, a.len() as int) =~= a);
    assert(buf.subrange(p + a.len(), p + a.len() + b.len()) =~= (a + b).subrange(
        a.len() as int,
        (a.len() + b.len()) as int,
    ));
    assert((a + b).subrange(a.len() as int, (a.len() + b.len()) as int) =~= b);
}

/// The compact encoding of a length: seven bits per byte, least
/// significant group first, the high bit set on every byte but the last.
pub open spec fn compact(n: nat) -> Seq<u8>
    decreases n,
{
    if n < 128 {
        seq![n as u8]
    } else {
        seq![(n % 128 + 128) as u8] + compact(n / 128)
    }
}

/// Lengths that the compact encoding carries in at most four bytes.
pub open spec fn compact_fits(n: nat) -> bool {
    n < 0x1000_0000
}

proof fn lemma_compact_from(buf: Seq<u8>, o: int, i: int, n: nat)
    requires
        0 <= i <= 3,
        0 <= o,
        n < shortvec_bound(i),
        holds_at(buf, o + i, compact(n)),
    ensures
        shortvec_from(buf, o, i) == Some((n as int, i + compact(n).len())),
    decreases 3 - i,
{
    let c = compact(n);
    assert(buf[o + i] == c[0]) by {
        assert(buf.subrange(o + i, o + i + c.len())[0] == buf[o + i]);
    }
    if n >= 128 {
        assert(i < 3);
        let rest = compact(n / 128);
        assert(c == seq![(n % 128 + 128) as u8] + rest);
        lemma_holds_split(buf, o + i, seq![(n % 128 + 128) as u8], rest);
        assert(n / 128 < shortvec_bound(i + 1)) by {
            assert(shortvec_bound(i) == 128 * shortvec_bound(i + 1));
        }
        lemma_compact_from(buf, o, i + 1, n / 128);
        assert((n % 128 + 128) as u8 - 128 + 128 * (n / 128) == n);
    }
}

/// The compact encoding of a length reads back as that length and the
/// number of bytes it takes.
pub proof fn law_compact_roundtrip(buf: Seq<u8>, o: int, n: nat)
    requires
        compact_fits(n),
        holds_at(buf, o, compact(n)),
    ensures
        spec_shortvec(buf, o) == Some((n as int, compact(n).len() as int)),
{
    lemma_compact_from(buf, o, 0, n);
}

/// The items encoded one after the other, in order.
pub open spec fn concat_with<T>(enc: spec_fn(T) -> Seq<u8>, xs: Seq<T>) -> Seq<u8>
    decreases xs.len(),
{
    if xs.len() == 0 {
        Seq::empty()
    } else {
        concat_with(enc, xs.drop_last()) + enc(xs.last())
    }
}

/// Items encoded one after the other are read back in order, when each
/// item reads back from its own encoding.
proof fn lemma_repeat_encoded<T>(
    item: spec_fn(int, int) -> Result<(T, int), &'static str>,
    enc: spec_fn(T) -> Seq<u8>,
    buf: Seq<u8>,
    o: int,
    xs: Seq<T>,
)
    requires
        holds_at(buf, o, concat_with(enc, xs)),
        forall|k: int, p: int|
            #![trigger item(k, p)]
            0 <= k < xs.len() && holds_at(buf, p, enc(xs[k])) ==> item(k, p) == Ok::<
                (T, int),
                &'static str,
            >((xs[k], p + enc(xs[k]).len())),
    ensures
        spec_repeat(item, o, xs.len()) == Ok::<(Seq<T>, int), &'static str>(
            (xs, o + concat_with(enc, xs).len()),
        ),
    decreases xs.len(),
{
    if xs.len() > 0 {
        let init = xs.drop_last();
        let n = xs.len() - 1;
        lemma_holds_split(buf, o, concat_with(enc, init), enc(xs.last()));
        assert forall|k: int, p: int|
            #![trigger item(k, p)]
            0 <= k < init.len() && holds_at(buf, p, enc(init[k])) implies item(k, p) == Ok::<
            (T, int),
            &'static str,
        >((init[k], p + enc(init[k]).len())) by {
            assert(init[k] == xs[k]);
        }
        lemma_repeat_encoded(item, enc, buf, o, init);
        let o1 = o + concat_with(enc, init).len();
        assert(item(n, o1) == Ok::<(T, int), &'static str>((xs[n], o1 + enc(xs[n]).len())));
        assert(init.push(xs[n]) =~= xs);
        assert(concat_with(enc, xs) == concat_with(enc, init) + enc(xs[n]));
        assert(spec_repeat(item, o, xs.len()) == Ok::<(Seq<T>, int), &'static str>(
            (init.push(xs[n]), o1 + enc(xs[n]).len()),
        ));
    } else {
        assert(xs =~= Seq::<T>::empty());
    }
}

/// The encoding of a static account or a table address: its 32 bytes.
pub open spec fn encode_key(key: Seq<u8>) -> Seq<u8> {
    key
}

/// The encoding of an address table lookup: the table's address, then the
/// writable and the read-only indexes, each behind its compact length.
pub open spec fn encode_lookup(l: LookupView) -> Seq<u8> {
    l.table_address + compact(l.writable_indexes.len()) + l.writable_indexes + compact(
        l.readonly_indexes.len(),
    ) + l.readonly_indexes
}

/// A lookup that can be encoded: a 32-byte address and index lists whose
/// lengths the compact encoding carries.
pub open spec fn lookup_encodable(l: LookupView) -> bool {
    &&& l.table_address.len() == 32
    &&& compact_fits(l.writable_indexes.len())
    &&& compact_fits(l.readonly_indexes.len())
}

/// The encoding of an instruction of a legacy or version 0 message: its
/// program index, then its account indices and its data, each behind its
/// compact length.
pub open spec fn encode_instruction(i: InstructionView) -> Seq<u8> {
    seq![i.program_index] + compact(i.account_indices.len()) + i.account_indices + compact(
        i.data.len(),
    ) + i.data
}

pub open spec fn instruction_encodable(i: InstructionView) -> bool {
    compact_fits(i.account_indices.len()) && compact_fits(i.data.len())
}

proof fn lemma_key_item(buf: Seq<u8>, k: int, p: int, key: Seq<u8>)
    requires
        key.len() == 32,
        holds_at(buf, p, encode_key(key)),
    ensures
        account_item(buf)(k, p) == Ok::<(Seq<u8>, int), &'static str>((key, p + 32)),
{
}

proof fn lemma_lookup_item(buf: Seq<u8>, k: int, p: int, l: LookupView)
    requires
        lookup_encodable(l),
        holds_at(buf, p, encode_lookup(l)),
    ensures
        lookup_item(buf)(k, p) == Ok::<(LookupView, int), &'static str>(
            (l, p + encode_lookup(l).len()),
        ),
{
    let a = l.table_address;
    let w = l.writable_indexes;
    let r = l.readonly_indexes;
    let cw = compact(w.len());
    let cr = compact(r.len());
    lemma_holds_split(buf, p, a + cw + w + cr, r);
    lemma_holds_split(buf, p, a + cw + w, cr);
    lemma_holds_split(buf, p, a + cw, w);
    lemma_holds_split(buf, p, a, cw);
    law_compact_roundtrip(buf, p + 32, w.len());
    law_compact_roundtrip(buf, p + 32 + cw.len() + w.len(), r.len());
    let got = LookupView { table_address: a, writable_indexes: w, readonly_indexes: r };
    assert(got == l);
}

proof fn lemma_instruction_item(buf: Seq<u8>, k: int, p: int, i: InstructionView)
    requires
        instruction_encodable(i),
        holds_at(buf, p, encode_instruction(i)),
    ensures
        legacy_instruction_item(buf)(k, p) == Ok::<(InstructionView, int), &'static str>(
            (i, p + encode_instruction(i).len()),
        ),
{
    let pr = seq![i.program_index];
    let a = i.account_indices;
    let d = i.data;
    let ca = compact(a.len());
    let cd = compact(d.len());
    lemma_holds_split(buf, p, pr + ca + a + cd, d);
    lemma_holds_split(buf, p, pr + ca + a, cd);
    lemma_holds_split(buf, p, pr + ca, a);
    lemma_holds_split(buf, p, pr, ca);
    assert(buf[p] == i.program_index) by {
        assert(buf.subrange(p, p + 1)[0] == buf[p]);
    }
    law_compact_roundtrip(buf, p + 1, a.len());
    law_compact_roundtrip(buf, p + 1 + ca.len() + a.len(), d.len());
    let got = InstructionView { program_index: buf[p], account_indices: a, data: d };
    assert(got == i);
}

/// The encoding of the lookups section of a version 0 message: their count,
/// then each lookup.
pub open spec fn encode_lookups(ls: Seq<LookupView>) -> Seq<u8> {
    compact(ls.len()) + concat_with(|l: LookupView| encode_lookup(l), ls)
}

/// Lookups round-trip: the lookups section encoded from any encodable
/// lookups, laid end to end, is read back as exactly those lookups, in
/// order, wherever it stands in the message.
pub proof fn law_lookups_roundtrip(buf: Seq<u8>, o: int, ls: Seq<LookupView>)
    requires
        compact_fits(ls.len()),
        forall|k: int| 0 <= k < ls.len() ==> lookup_encodable(#[trigger] ls[k]),
        holds_at(buf, o, encode_lookups(ls)),
    ensures
        spec_lookups(buf, o) == Ok::<Seq<LookupView>, &'static str>(ls),
{
    let enc = |l: LookupView| encode_lookup(l);
    let c = compact(ls.len());
    lemma_holds_split(buf, o, c, concat_with(enc, ls));
    law_compact_roundtrip(buf, o, ls.len());
    assert forall|k: int, p: int|
        #![trigger lookup_item(buf)(k, p)]
        0 <= k < ls.len() && holds_at(buf, p, enc(ls[k])) implies lookup_item(buf)(k, p) == Ok::<
        (LookupView, int),
        &'static str,
    >((ls[k], p + enc(ls[k]).len())) by {
        lemma_lookup_item(buf, k, p, ls[k]);
    }
    lemma_repeat_encoded(lookup_item(buf), enc, buf, o + c.len(), ls);
}

/// The three header bytes, in order.
pub open spec fn encode_header(h: MessageHeader) -> Seq<u8> {
    seq![h.num_required_signatures, h.num_readonly_signed, h.num_readonly_unsigned]
}

/// The part of a legacy or version 0 message that follows its version byte:
/// the header, the static accounts behind their count, the lifetime token
/// and the instructions behind their count.
pub open spec fn encode_legacy_body(m: MessageView) -> Seq<u8> {
    encode_header(m.header) + compact(m.static_accounts.len()) + concat_with(
        |k: Seq<u8>| encode_key(k),
        m.static_accounts,
    ) + m.lifetime_token + compact(m.instructions.len()) + concat_with(
        |i: InstructionView| encode_instruction(i),
        m.instructions,
    )
}

/// The encoding of a legacy message (no version) or of a versioned message
/// of version `v`: the version byte `0x80 + v`, the body, then the lookups.
#[verifier::opaque]
pub open spec fn encode_legacy_message(m: MessageView) -> Seq<u8> {
    match m.version {
        None => encode_legacy_body(m),
        Some(v) => seq![(v + 128) as u8] + encode_legacy_body(m) + encode_lookups(
            m.address_table_lookups,
        ),
    }
}

/// A message that this encoding can carry: a legacy message whose first
/// header byte leaves the high bit clear and that has no lookups, or a
/// versioned message of a version below 128 other than 1 (which has its own
/// layout); 32-byte accounts and token; every count and length within the
/// compact encoding.
pub open spec fn legacy_encodable(m: MessageView) -> bool {
    &&& match m.version {
        None => m.header.num_required_signatures < 128 && m.address_table_lookups.len() == 0,
        Some(v) => v < 128 && v != 1,
    }
    &&& compact_fits(m.static_accounts.len())
    &&& forall|k: int| 0 <= k < m.static_accounts.len() ==> (#[trigger] m.static_accounts[k]).len()
        == 32
    &&& m.lifetime_token.len() == 32
    &&& compact_fits(m.instructions.len())
    &&& forall|k: int| 0 <= k < m.instructions.len() ==> instruction_encodable(
        #[trigger] m.instructions[k],
    )
    &&& compact_fits(m.address_table_lookups.len())
    &&& forall|k: int| 0 <= k < m.address_table_lookups.len() ==> lookup_encodable(
        #[trigger] m.address_table_lookups[k],
    )
}

/// Reads the body of a legacy or version 0 message from `buf` at `o`:
/// header, accounts, token and instructions come back, and the
/// instructions end where the body does.
proof fn lemma_body_reads_back(buf: Seq<u8>, o: int, m: MessageView)
    requires
        legacy_encodable(m),
        holds_at(buf, o, encode_legacy_body(m)),
    ensures
        spec_take(buf, o, 3, "header") == Ok::<Seq<u8>, &'static str>(encode_header(m.header)),
        ({
            let ca = compact(m.static_accounts.len());
            let accs = concat_with(|k: Seq<u8>| encode_key(k), m.static_accounts);
            let o1 = o + 3 + ca.len() + accs.len();
            let ci = compact(m.instructions.len());
            let ins = concat_with(|i: InstructionView| encode_instruction(i), m.instructions);
            &&& spec_shortvec(buf, o + 3) == Some((m.static_accounts.len() as int, ca.len() as int))
            &&& spec_repeat(account_item(buf), o + 3 + ca.len(), m.static_accounts.len())
                == Ok::<(Seq<Seq<u8>>, int), &'static str>((m.static_accounts, o1))
            &&& spec_take(buf, o1, 32, "lifetime token") == Ok::<Seq<u8>, &'static str>(
                m.lifetime_token,
            )
            &&& spec_shortvec(buf, o1 + 32) == Some(
                (m.instructions.len() as int, ci.len() as int),
            )
            &&& spec_repeat(legacy_instruction_item(buf), o1 + 32 + ci.len(), m.instructions.len())
                == Ok::<(Seq<InstructionView>, int), &'static str>(
                (m.instructions, o1 + 32 + ci.len() + ins.len()),
            )
            &&& o1 + 32 + ci.len() + ins.len() == o + encode_legacy_body(m).len()
        }),
{
    let hb = encode_header(m.header);
    let ca = compact(m.static_accounts.len());
    let ke = |k: Seq<u8>| encode_key(k);
    let accs = concat_with(ke, m.static_accounts);
    let tok = m.lifetime_token;
    let ci = compact(m.instructions.len());
    let ie = |i: InstructionView| encode_instruction(i);
    let ins = concat_with(ie, m.instructions);
    lemma_holds_split(buf, o, hb + ca + accs + tok + ci, ins);
    lemma_holds_split(buf, o, hb + ca + accs + tok, ci);
    lemma_holds_split(buf, o, hb + ca + accs, tok);
    lemma_holds_split(buf, o, hb + ca, accs);
    lemma_holds_split(buf, o, hb, ca);
    law_compact_roundtrip(buf, o + 3, m.static_accounts.len());
    assert forall|k: int, p: int|
        #![trigger account_item(buf)(k, p)]
        0 <= k < m.static_accounts.len() && holds_at(buf, p, ke(m.static_accounts[k])) implies account_item(
        buf,
    )(k, p) == Ok::<(Seq<u8>, int), &'static str>(
        (m.static_accounts[k], p + ke(m.static_accounts[k]).len()),
    ) by {
        lemma_key_item(buf, k, p, m.static_accounts[k]);
    }
    lemma_repeat_encoded(account_item(buf), ke, buf, o + 3 + ca.len(), m.static_accounts);
    let o1 = o + 3 + ca.len() + accs.len();
    law_compact_roundtrip(buf, o1 + 32, m.instructions.len());
    assert forall|k: int, p: int|
        #![trigger legacy_instruction_item(buf)(k, p)]
        0 <= k < m.instructions.len() && holds_at(buf, p, ie(m.instructions[k])) implies legacy_instruction_item(
        buf,
    )(k, p) == Ok::<(InstructionView, int), &'static str>(
        (m.instructions[k], p + ie(m.instructions[k]).len()),
    ) by {
        lemma_instruction_item(buf, k, p, m.instructions[k]);
    }
    lemma_repeat_encoded(legacy_instruction_item(buf), ie, buf, o1 + 32 + ci.len(), m.instructions);
}

/// Puts a legacy or version 0 message together from what each of its
/// sections reads back as.
proof fn lemma_assemble(
    buf: Seq<u8>,
    m: MessageView,
    o: int,
    sa: int,
    o1: int,
    si: int,
    o2: int,
)
    requires
        buf.len() > 0,
        buf[0] != 0x81,
        (o == 1) == (buf[0] >= 128),
        o == 0 || o == 1,
        o == 1 ==> m.version == Some((buf[0] - 128) as u8),
        o == 0 ==> m.version is None && m.address_table_lookups == Seq::<LookupView>::empty(),
        spec_take(buf, o, 3, "header") == Ok::<Seq<u8>, &'static str>(encode_header(m.header)),
        spec_shortvec(buf, o + 3) == Some((m.static_accounts.len() as int, sa)),
        spec_repeat(account_item(buf), o + 3 + sa, m.static_accounts.len()) == Ok::<
            (Seq<Seq<u8>>, int),
            &'static str,
        >((m.static_accounts, o1)),
        spec_take(buf, o1, 32, "lifetime token") == Ok::<Seq<u8>, &'static str>(m.lifetime_token),
        spec_shortvec(buf, o1 + 32) == Some((m.instructions.len() as int, si)),
        spec_repeat(legacy_instruction_item(buf), o1 + 32 + si, m.instructions.len()) == Ok::<
            (Seq<InstructionView>, int),
            &'static str,
        >((m.instructions, o2)),
        o == 1 ==> spec_lookups(buf, o2) == Ok::<Seq<LookupView>, &'static str>(
            m.address_table_lookups,
        ),
    ensures
        spec_decode_message(buf) == Ok::<MessageView, &'static str>(m),
{
    let h = encode_header(m.header);
    assert(header_of(h) == m.header);
}

/// Where the parts of an encoded message stand: the body after the version
/// byte, if any, and the lookups after the body.
proof fn lemma_message_layout(m: MessageView)
    requires
        legacy_encodable(m),
    ensures
        ({
            let buf = encode_legacy_message(m);
            let o: int = if m.version is Some {
                1
            } else {
                0
            };
            &&& buf.len() > 0
            &&& holds_at(buf, o, encode_legacy_body(m))
            &&& buf[o] == m.header.num_required_signatures
            &&& m.version is None ==> buf[0] < 128 && m.address_table_lookups == Seq::<
                LookupView,
            >::empty()
            &&& m.version matches Some(v) ==> buf[0] == (v + 128) as u8 && holds_at(
                buf,
                1 + encode_legacy_body(m).len() as int,
                encode_lookups(m.address_table_lookups),
            )
        }),
{
    reveal(encode_legacy_message);
    let buf = encode_legacy_message(m);
    let body = encode_legacy_body(m);
    assert(buf.subrange(0, buf.len() as int) =~= buf);
    let o: int = if m.version is Some {
        1
    } else {
        0
    };
    if m.version is None {
        assert(m.address_table_lookups =~= Seq::<LookupView>::empty());
    } else {
        let v = m.version->0;
        let vb = seq![(v + 128) as u8];
        let lk = encode_lookups(m.address_table_lookups);
        lemma_holds_split(buf, 0, vb + body, lk);
        lemma_holds_split(buf, 0, vb, body);
    }
    let hb = encode_header(m.header);
    assert(body == hb + (body.subrange(3, body.len() as int)));
    lemma_holds_split(buf, o, hb, body.subrange(3, body.len() as int));
    assert(buf.subrange(o, o + 3)[0] == buf[o]);
}

/// Legacy and version 0 messages round-trip: decoding the encoding of any
/// message this encoding can carry gives back that message: its version,
/// its header bytes in order, its accounts, token and instructions, and for
/// a versioned message every lookup, in order.
pub proof fn law_legacy_message_roundtrip(m: MessageView)
    requires
        legacy_encodable(m),
    ensures
        spec_decode_message(encode_legacy_message(m)) == Ok::<MessageView, &'static str>(m),
{
    let buf = encode_legacy_message(m);
    let body = encode_legacy_body(m);
    let ca = compact(m.static_accounts.len());
    let accs = concat_with(|k: Seq<u8>| encode_key(k), m.static_accounts);
    let ci = compact(m.instructions.len());
    let ins = concat_with(|i: InstructionView| encode_instruction(i), m.instructions);
    let o: int = if m.version is Some {
        1
    } else {
        0
    };
    lemma_message_layout(m);
    if m.version is Some {
        law_lookups_roundtrip(buf, 1 + body.len() as int, m.address_table_lookups);
    }
    lemma_body_reads_back(buf, o, m);
    let o1 = o + 3 + ca.len() + accs.len();
    lemma_assemble(buf, m, o, ca.len() as int, o1, ci.len() as int, o1 + 32 + ci.len() + ins.len());
}

/// The decoded header is the message's three header bytes in order: the
/// first three bytes of a legacy message (first byte below 0x80), the three
/// after the version byte of a versioned one.
pub proof fn law_header_bytes(buf: Seq<u8>)
    ensures
        spec_decode_message(buf) matches Ok(m) ==> {
            let o: int = if buf[0] >= 0x80 {
                1
            } else {
                0
            };
            &&& m.header.num_required_signatures == buf[o]
            &&& m.header.num_readonly_signed == buf[o + 1]
            &&& m.header.num_readonly_unsigned == buf[o + 2]
        },
{
}

} // verus!
