//! The wire codec: schema-driven, bidirectional transformation between a
//! dynamic message and protobuf binary wire format.  Encoding emits every
//! populated field as tag/value items (packed for packable repeated
//! kinds); decoding streams the bytes back, preserving unknown field
//! numbers opaquely.

use vstd::prelude::*;

verus! {

broadcast use {
    vstd::seq::group_seq_axioms,
    vstd::std_specs::vec::group_vec_axioms,
    vstd::slice::group_slice_axioms,
};

use crate::message::{
    is_varint_value, scalar_v, value_v, msg_v, payload_v, unknown_v, DynamicMessage, FieldValue,
    FieldValueV, MsgV, PayloadV, ScalarV, ScalarValue, UnknownField, UnknownV, Value, ValueV,
    WirePayload,
};
use crate::schema::{FieldKind, MessageSchema, FIELD_NUMBER_LIMIT, valid_field_number};

/// Why a byte sequence failed to decode.
#[derive(Debug, PartialEq, Eq)]
pub enum DecodeError {
    /// The input ended in the middle of a tag, length or payload.
    UnexpectedEof,
    /// A field's wire type does not fit the schema's declared kind, or a
    /// referenced child type is missing from the registry.
    TypeMismatch,
    /// A malformed tag, oversized varint, or ill-formed nested payload.
    Malformed,
}

impl DecodeError {
    /// A short machine-readable tag for this error.
    pub fn kind(&self) -> (r: &'static str)
        ensures
            r@ == match self {
                DecodeError::UnexpectedEof => "UnexpectedEof"@,
                DecodeError::TypeMismatch => "TypeMismatch"@,
                DecodeError::Malformed => "Malformed"@,
            },
    {
        match self {
            DecodeError::UnexpectedEof => "UnexpectedEof",
            DecodeError::TypeMismatch => "TypeMismatch",
            DecodeError::Malformed => "Malformed",
        }
    }
}

/// The LEB128 encoding of an unsigned number, least-significant group
/// first, minimal length.
pub open spec fn enc_varint(v: nat) -> Seq<u8>
    decreases v,
{
    if v < 128 {
        seq![v as u8]
    } else {
        seq![((v % 128) + 128) as u8] + enc_varint(v / 128)
    }
}

/// Reads one LEB128 number from the front: the value and the bytes used.
pub open spec fn dec_varint(s: Seq<u8>) -> Option<(nat, nat)>
    decreases s.len(),
{
    if s.len() == 0 {
        None
    } else if s[0] < 128 {
        Some((s[0] as nat, 1))
    } else {
        match dec_varint(s.drop_first()) {
            None => None,
            Some((v, c)) => Some((((s[0] - 128) as nat) + 128 * v, c + 1)),
        }
    }
}

/// Decoding inverts encoding, regardless of what follows.
pub proof fn lemma_varint_roundtrip(v: nat, rest: Seq<u8>)
    ensures
        dec_varint(enc_varint(v) + rest) == Some((v, enc_varint(v).len() as nat)),
        enc_varint(v).len() >= 1,
    decreases v,
{
    let e = enc_varint(v);
    if v < 128 {
        assert((e + rest)[0] == v as u8);
    } else {
        assert((e + rest)[0] == ((v % 128) + 128) as u8);
        assert((e + rest)[0] >= 128);
        lemma_varint_roundtrip(v / 128, rest);
        assert((e + rest).drop_first() =~= enc_varint(v / 128) + rest);
        assert(v == 128 * (v / 128) + v % 128);
    }
}

/// The little-endian byte encoding of a number in `n` bytes.
pub open spec fn le_bytes(v: nat, n: nat) -> Seq<u8>
    decreases n,
{
    if n == 0 {
        Seq::<u8>::empty()
    } else {
        seq![(v % 256) as u8] + le_bytes(v / 256, (n - 1) as nat)
    }
}

/// Reads an `n`-byte little-endian number from the front.
pub open spec fn dec_le(s: Seq<u8>, n: nat) -> nat
    decreases n,
{
    if n == 0 {
        0
    } else {
        (s[0] as nat) + 256 * dec_le(s.drop_first(), (n - 1) as nat)
    }
}

/// 256 to the power `n`.
pub open spec fn pow256(n: nat) -> nat
    decreases n,
{
    if n == 0 {
        1
    } else {
        256 * pow256((n - 1) as nat)
    }
}

/// Little-endian decoding inverts encoding for values that fit.
pub proof fn lemma_le_roundtrip(v: nat, n: nat, rest: Seq<u8>)
    requires
        v < pow256(n),
    ensures
        le_bytes(v, n).len() == n,
        dec_le(le_bytes(v, n) + rest, n) == v,
    decreases n,
{
    if n > 0 {
        assert(v / 256 < pow256((n - 1) as nat)) by {
            assert(pow256(n) == 256 * pow256((n - 1) as nat));
        }
        lemma_le_roundtrip(v / 256, (n - 1) as nat, rest);
        assert((le_bytes(v, n) + rest).drop_first() =~= le_bytes(v / 256, (n - 1) as nat) + rest);
        assert(v == 256 * (v / 256) + v % 256);
    }
}

/// The wire type carried in a tag for each payload shape.
pub open spec fn wire_type_of(p: PayloadV) -> nat {
    match p {
        PayloadV::Varint(_) => 0,
        PayloadV::Fixed64(_) => 1,
        PayloadV::LenDelim(_) => 2,
        PayloadV::Fixed32(_) => 5,
    }
}

/// The byte encoding of one payload (without its tag).
pub open spec fn enc_payload(p: PayloadV) -> Seq<u8> {
    match p {
        PayloadV::Varint(v) => enc_varint(v as nat),
        PayloadV::LenDelim(b) => enc_varint(b.len()) + b,
        PayloadV::Fixed32(v) => le_bytes(v as nat, 4),
        PayloadV::Fixed64(v) => le_bytes(v as nat, 8),
    }
}

/// The byte encoding of one tagged item.
pub open spec fn enc_item(n: u32, p: PayloadV) -> Seq<u8> {
    enc_varint((8 * n + wire_type_of(p)) as nat) + enc_payload(p)
}

/// The byte encoding of a sequence of tagged items.
pub open spec fn enc_items(items: Seq<(u32, PayloadV)>) -> Seq<u8>
    decreases items.len(),
{
    if items.len() == 0 {
        Seq::<u8>::empty()
    } else {
        enc_item(items[0].0, items[0].1) + enc_items(items.drop_first())
    }
}

/// Reads one LEB128 number, with its byte count known to be in range.
pub open spec fn dec_varint_b(s: Seq<u8>) -> Option<(nat, nat)> {
    match dec_varint(s) {
        Some((v, c)) => if 1 <= c <= s.len() {
            Some((v, c))
        } else {
            None
        },
        None => None,
    }
}

/// Splits a byte sequence into its tagged items; schema-independent.
pub open spec fn toks(s: Seq<u8>) -> Result<Seq<(u32, PayloadV)>, DecodeError>
    decreases s.len(),
{
    if s.len() == 0 {
        Ok(Seq::<(u32, PayloadV)>::empty())
    } else {
        match dec_varint_b(s) {
            None => Err(DecodeError::UnexpectedEof),
            Some((tag, c)) => {
                let n = tag / 8;
                let wt = tag % 8;
                if n == 0 || n >= FIELD_NUMBER_LIMIT as nat {
                    Err(DecodeError::Malformed)
                } else if wt == 0 {
                    match dec_varint_b(s.skip(c as int)) {
                        None => Err(DecodeError::UnexpectedEof),
                        Some((v, c2)) => {
                            if v >= 0x1_0000_0000_0000_0000 {
                                Err(DecodeError::Malformed)
                            } else {
                                toks_cons(
                                    (n as u32, PayloadV::Varint(v as u64)),
                                    toks(s.skip(c as int + c2 as int)),
                                )
                            }
                        },
                    }
                } else if wt == 1 {
                    if s.len() - c < 8 {
                        Err(DecodeError::UnexpectedEof)
                    } else {
                        toks_cons(
                            (n as u32, PayloadV::Fixed64(dec_le(s.skip(c as int), 8) as u64)),
                            toks(s.skip(c as int + 8)),
                        )
                    }
                } else if wt == 2 {
                    match dec_varint_b(s.skip(c as int)) {
                        None => Err(DecodeError::UnexpectedEof),
                        Some((l, c2)) => {
                            if s.len() - c - c2 < l {
                                Err(DecodeError::UnexpectedEof)
                            } else {
                                toks_cons(
                                    (
                                        n as u32,
                                        PayloadV::LenDelim(
                                            s.skip(c as int + c2 as int).take(l as int),
                                        ),
                                    ),
                                    toks(s.skip(c as int + c2 as int + l as int)),
                                )
                            }
                        },
                    }
                } else if wt == 5 {
                    if s.len() - c < 4 {
                        Err(DecodeError::UnexpectedEof)
                    } else {
                        toks_cons(
                            (n as u32, PayloadV::Fixed32(dec_le(s.skip(c as int), 4) as u32)),
                            toks(s.skip(c as int + 4)),
                        )
                    }
                } else {
                    Err(DecodeError::Malformed)
                }
            },
        }
    }
}

/// Prepends an item to a tokenizing result.
pub open spec fn toks_cons(
    item: (u32, PayloadV),
    rest: Result<Seq<(u32, PayloadV)>, DecodeError>,
) -> Result<Seq<(u32, PayloadV)>, DecodeError> {
    match rest {
        Ok(items) => Ok(seq![item] + items),
        Err(e) => Err(e),
    }
}

/// All item numbers are valid field numbers.
pub open spec fn wf_items(items: Seq<(u32, PayloadV)>) -> bool {
    forall|i: int| 0 <= i < items.len() ==> valid_field_number((#[trigger] items[i]).0)
}

/// Tokenizing inverts item serialization.
#[verifier::rlimit(60)]
pub proof fn lemma_toks_enc(items: Seq<(u32, PayloadV)>)
    requires
        wf_items(items),
    ensures
        toks(enc_items(items)) == Ok::<Seq<(u32, PayloadV)>, DecodeError>(items),
    decreases items.len(),
{
    if items.len() == 0 {
        assert(enc_items(items).len() == 0);
        assert(items =~= Seq::<(u32, PayloadV)>::empty());
    } else {
        let (n, p) = items[0];
        let rest_items = items.drop_first();
        lemma_toks_enc(rest_items);
        let rest = enc_items(rest_items);
        let s = enc_items(items);
        let tagv = (8 * n + wire_type_of(p)) as nat;
        let tail = enc_payload(p) + rest;
        assert(s =~= enc_varint(tagv) + tail);
        lemma_varint_roundtrip(tagv, tail);
        let c = enc_varint(tagv).len() as nat;
        assert(dec_varint(s) == Some((tagv, c)));
        assert(c <= s.len());
        assert(dec_varint_b(s) == Some((tagv, c)));
        assert(valid_field_number(n));
        assert(tagv / 8 == n as nat && tagv % 8 == wire_type_of(p)) by {
            assert(tagv == 8 * (n as nat) + wire_type_of(p));
            assert(wire_type_of(p) < 8);
        }
        assert(s.skip(c as int) =~= tail);
        match p {
            PayloadV::Varint(v) => {
                lemma_varint_roundtrip(v as nat, rest);
                let c2 = enc_varint(v as nat).len() as nat;
                assert(tail =~= enc_varint(v as nat) + rest);
                assert(dec_varint(tail) == Some((v as nat, c2)));
                assert(dec_varint_b(tail) == Some((v as nat, c2)));
                assert(s.skip(c as int + c2 as int) =~= rest);
                assert(toks(s) == toks_cons((n, p), toks(rest)));
            },
            PayloadV::Fixed64(v) => {
                assert(pow256(8) == 0x1_0000_0000_0000_0000) by {
                    reveal_with_fuel(pow256, 9);
                }
                lemma_le_roundtrip(v as nat, 8, rest);
                assert(tail =~= le_bytes(v as nat, 8) + rest);
                assert(tail.len() - 0 >= 8);
                assert(dec_le(tail, 8) == v as nat);
                assert(s.skip(c as int + 8) =~= rest);
                assert(toks(s) == toks_cons((n, p), toks(rest)));
            },
            PayloadV::Fixed32(v) => {
                assert(pow256(4) == 0x1_0000_0000) by {
                    reveal_with_fuel(pow256, 5);
                }
                lemma_le_roundtrip(v as nat, 4, rest);
                assert(tail =~= le_bytes(v as nat, 4) + rest);
                assert(dec_le(tail, 4) == v as nat);
                assert(s.skip(c as int + 4) =~= rest);
                assert(toks(s) == toks_cons((n, p), toks(rest)));
            },
            PayloadV::LenDelim(b) => {
                lemma_varint_roundtrip(b.len(), b + rest);
                let c2 = enc_varint(b.len()).len() as nat;
                assert(tail =~= enc_varint(b.len()) + (b + rest));
                assert(dec_varint(tail) == Some((b.len() as nat, c2)));
                assert(dec_varint_b(tail) == Some((b.len() as nat, c2)));
                assert(tail.skip(c2 as int) =~= b + rest);
                assert(s.skip(c as int + c2 as int) =~= b + rest);
                assert((b + rest).take(b.len() as int) =~= b);
                assert(s.skip(c as int + c2 as int).take(b.len() as int) =~= b);
                assert(s.skip(c as int + c2 as int + b.len() as int) =~= rest);
                assert(toks(s) == toks_cons((n, p), toks(rest)));
            },
        }
        assert(seq![items[0]] + rest_items =~= items);
    }
}

/// The unsigned wire image of a signed 64-bit value (two's complement).
pub open spec fn wire64_of_i64(i: i64) -> u64 {
    if i >= 0 {
        i as u64
    } else {
        (i + 0x1_0000_0000_0000_0000) as u64
    }
}

/// The signed value a wire image stands for.
pub open spec fn i64_of_wire64(w: u64) -> i64 {
    if w < 0x8000_0000_0000_0000 {
        w as i64
    } else {
        (w - 0x1_0000_0000_0000_0000) as i64
    }
}

/// The signed round trip is the identity.
pub proof fn lemma_wire64_roundtrip(i: i64)
    ensures
        i64_of_wire64(wire64_of_i64(i)) == i,
{
}

/// The wire payload of a scalar value.
pub open spec fn scalar_payload(sv: ScalarV) -> PayloadV {
    match sv {
        ScalarV::Bool(b) => PayloadV::Varint(if b { 1 } else { 0 }),
        ScalarV::Uint64(u) => PayloadV::Varint(u),
        ScalarV::Int64(i) => PayloadV::Varint(wire64_of_i64(i)),
        ScalarV::Text(t) => PayloadV::LenDelim(t),
        ScalarV::Bytes(b) => PayloadV::LenDelim(b),
    }
}

/// The varint a packable element encodes to.
pub open spec fn varint_of_value(v: ValueV) -> u64 {
    match v {
        ValueV::Scalar(ScalarV::Bool(b)) => if b { 1 } else { 0 },
        ValueV::Scalar(ScalarV::Uint64(u)) => u,
        ValueV::Scalar(ScalarV::Int64(i)) => wire64_of_i64(i),
        ValueV::EnumNum(e) => e as u64,
        _ => 0,
    }
}

/// The wire payload of one element value.
pub open spec fn value_payload(v: ValueV) -> PayloadV
    decreases v, 0int,
{
    match v {
        ValueV::Scalar(sv) => scalar_payload(sv),
        ValueV::EnumNum(e) => PayloadV::Varint(e as u64),
        ValueV::Nested(m) => PayloadV::LenDelim(enc_msg(m)),
    }
}

/// The packed byte payload of a repeated varint-kind field.
pub open spec fn packed_payload(es: Seq<ValueV>) -> Seq<u8>
    decreases es.len(),
{
    if es.len() == 0 {
        Seq::<u8>::empty()
    } else {
        enc_varint(varint_of_value(es[0]) as nat) + packed_payload(es.drop_first())
    }
}

/// The byte payload of one map entry: key as field 1, value as field 2.
pub open spec fn entry_bytes(k: ScalarV, v: ValueV) -> Seq<u8>
    decreases v, 1int,
{
    enc_item(1, scalar_payload(k)) + enc_item(2, value_payload(v))
}

/// The tagged items one populated field emits.
pub open spec fn items_of_field(n: u32, fv: FieldValueV) -> Seq<(u32, PayloadV)>
    decreases fv, 0int,
{
    match fv {
        FieldValueV::Single(v) => seq![(n, value_payload(v))],
        FieldValueV::Repeated(es) => if es.len() == 0 {
            Seq::<(u32, PayloadV)>::empty()
        } else if is_varint_value(es[0]) {
            seq![(n, PayloadV::LenDelim(packed_payload(es)))]
        } else {
            rep_items(n, es)
        },
        FieldValueV::MapEntries(es) => map_items(n, es),
    }
}

/// One item per element, for repeated fields that do not pack.
pub open spec fn rep_items(n: u32, es: Seq<ValueV>) -> Seq<(u32, PayloadV)>
    decreases es, 0int,
{
    if es.len() == 0 {
        Seq::<(u32, PayloadV)>::empty()
    } else {
        seq![(n, value_payload(es[0]))] + rep_items(n, es.drop_first())
    }
}

/// One length-delimited item per map entry.
pub open spec fn map_items(n: u32, es: Seq<(ScalarV, ValueV)>) -> Seq<(u32, PayloadV)>
    decreases es, 0int,
{
    if es.len() == 0 {
        Seq::<(u32, PayloadV)>::empty()
    } else {
        seq![(n, PayloadV::LenDelim(entry_bytes(es[0].0, es[0].1)))] + map_items(
            n,
            es.drop_first(),
        )
    }
}

/// The items of all populated fields, in stored order.
pub open spec fn items_of_fields(fields: Seq<(u32, FieldValueV)>) -> Seq<(u32, PayloadV)>
    decreases fields, 0int,
{
    if fields.len() == 0 {
        Seq::<(u32, PayloadV)>::empty()
    } else {
        items_of_field(fields[0].0, fields[0].1) + items_of_fields(fields.drop_first())
    }
}

/// The items of the preserved unknown fields, in stored order.
pub open spec fn items_of_unknowns(us: Seq<UnknownV>) -> Seq<(u32, PayloadV)>
    decreases us.len(),
{
    if us.len() == 0 {
        Seq::<(u32, PayloadV)>::empty()
    } else {
        seq![(us[0].number, us[0].payload)] + items_of_unknowns(us.drop_first())
    }
}

/// All items a message emits: known fields first, then unknowns.
pub open spec fn items_of_msg(m: MsgV) -> Seq<(u32, PayloadV)>
    decreases m, 0int,
{
    items_of_fields(m.fields) + items_of_unknowns(m.unknown)
}

/// The full wire encoding of a message.
pub open spec fn enc_msg(m: MsgV) -> Seq<u8>
    decreases m, 1int,
{
    enc_items(items_of_msg(m))
}

/// Serialization distributes over item concatenation.
pub proof fn lemma_enc_items_append(a: Seq<(u32, PayloadV)>, b: Seq<(u32, PayloadV)>)
    ensures
        enc_items(a + b) == enc_items(a) + enc_items(b),
    decreases a.len(),
{
    if a.len() == 0 {
        assert(a + b =~= b);
        assert(enc_items(a) + enc_items(b) =~= enc_items(b));
    } else {
        lemma_enc_items_append(a.drop_first(), b);
        assert((a + b).drop_first() =~= a.drop_first() + b);
        assert((a + b)[0] == a[0]);
        assert(enc_item(a[0].0, a[0].1) + (enc_items(a.drop_first()) + enc_items(b)) =~= (enc_item(
            a[0].0,
            a[0].1,
        ) + enc_items(a.drop_first())) + enc_items(b));
    }
}

/// Appends the LEB128 encoding of `v`.
fn push_varint(out: &mut Vec<u8>, v: u64)
    ensures
        final(out)@ == old(out)@ + enc_varint(v as nat),
    decreases v,
{
    if v < 128 {
        out.push(v as u8);
        proof {
            assert(final(out)@ =~= old(out)@ + enc_varint(v as nat));
        }
    } else {
        out.push((v % 128 + 128) as u8);
        push_varint(out, v / 128);
        proof {
            assert(out@ =~= old(out)@ + enc_varint(v as nat));
        }
    }
}

/// Appends all bytes of `b`.
fn push_bytes(out: &mut Vec<u8>, b: &Vec<u8>)
    ensures
        final(out)@ == old(out)@ + b@,
{
    let mut i: usize = 0;
    while i < b.len()
        invariant
            0 <= i <= b@.len(),
            out@ == old(out)@ + b@.take(i as int),
        decreases b@.len() - i,
    {
        out.push(b[i]);
        proof {
            assert(out@ =~= old(out)@ + b@.take(i as int + 1));
        }
        i += 1;
    }
    proof {
        assert(b@.take(b@.len() as int) =~= b@);
    }
}

/// Appends a tag with the given field number and wire type.
fn push_tag(out: &mut Vec<u8>, n: u32, wt: u64)
    requires
        wt < 8,
    ensures
        final(out)@ == old(out)@ + enc_varint((8 * n + wt) as nat),
{
    push_varint(out, (n as u64) * 8 + wt);
}

/// Appends a fixed 4-byte little-endian value.
fn push_fixed32(out: &mut Vec<u8>, v: u32)
    ensures
        final(out)@ == old(out)@ + le_bytes(v as nat, 4),
{
    out.push((v % 256) as u8);
    out.push(((v / 256) % 256) as u8);
    out.push(((v / 65536) % 256) as u8);
    out.push(((v / 16777216) % 256) as u8);
    proof {
        reveal_with_fuel(le_bytes, 5);
        assert(out@ =~= old(out)@ + le_bytes(v as nat, 4));
    }
}

/// Appends a fixed 8-byte little-endian value.
fn push_fixed64(out: &mut Vec<u8>, v: u64)
    ensures
        final(out)@ == old(out)@ + le_bytes(v as nat, 8),
{
    let mut i: usize = 0;
    let mut cur = v;
    while i < 8
        invariant
            0 <= i <= 8,
            out@ + le_bytes(cur as nat, (8 - i) as nat) == old(out)@ + le_bytes(v as nat, 8),
        decreases 8 - i,
    {
        let ghost pc = cur;
        out.push((cur % 256) as u8);
        cur = cur / 256;
        proof {
            assert(le_bytes(pc as nat, (8 - i) as nat) =~= seq![(pc % 256) as u8] + le_bytes(
                cur as nat,
                (7 - i) as nat,
            ));
            assert(out@ + le_bytes(cur as nat, (7 - i) as nat) =~= old(out)@ + le_bytes(
                v as nat,
                8,
            ));
        }
        i += 1;
    }
    proof {
        assert(le_bytes(cur as nat, 0) =~= Seq::<u8>::empty());
        assert(out@ + le_bytes(cur as nat, 0) =~= out@);
    }
}

/// The unsigned wire image of a signed value, as an executable step.
fn wire64(i: i64) -> (r: u64)
    ensures
        r == wire64_of_i64(i),
{
    if i >= 0 {
        i as u64
    } else {
        u64::MAX - ((-(i + 1)) as u64)
    }
}

/// Appends one tagged scalar item.
fn push_scalar_item(out: &mut Vec<u8>, n: u32, sv: &ScalarValue)
    ensures
        final(out)@ == old(out)@ + enc_item(n, scalar_payload(scalar_v(*sv))),
{
    match sv {
        ScalarValue::Bool(b) => {
            push_tag(out, n, 0);
            push_varint(out, if *b { 1 } else { 0 });
        },
        ScalarValue::Uint64(u) => {
            push_tag(out, n, 0);
            push_varint(out, *u);
        },
        ScalarValue::Int64(i) => {
            push_tag(out, n, 0);
            let w = wire64(*i);
            push_varint(out, w);
        },
        ScalarValue::Text(t) => {
            push_tag(out, n, 2);
            push_varint(out, t.len() as u64);
            push_bytes(out, t);
        },
        ScalarValue::Bytes(b) => {
            push_tag(out, n, 2);
            push_varint(out, b.len() as u64);
            push_bytes(out, b);
        },
    }
    proof {
        assert(out@ =~= old(out)@ + enc_item(n, scalar_payload(scalar_v(*sv))));
    }
}

/// Appends one tagged item for an element value.
fn push_value_item(out: &mut Vec<u8>, n: u32, v: &Value)
    ensures
        final(out)@ == old(out)@ + enc_item(n, value_payload(value_v(*v))),
    decreases *v, 2int, 0int,
{
    match v {
        Value::Scalar(sv) => {
            push_scalar_item(out, n, sv);
        },
        Value::EnumNum(e) => {
            push_tag(out, n, 0);
            push_varint(out, *e as u64);
            proof {
                assert(out@ =~= old(out)@ + enc_item(n, value_payload(value_v(*v))));
            }
        },
        Value::Nested(child) => {
            let cb = encode(child);
            push_tag(out, n, 2);
            push_varint(out, cb.len() as u64);
            push_bytes(out, &cb);
            proof {
                assert(out@ =~= old(out)@ + enc_item(n, value_payload(value_v(*v))));
            }
        },
    }
}

/// Decides whether an element travels as a varint.
fn is_varint_val(v: &Value) -> (r: bool)
    ensures
        r == is_varint_value(value_v(*v)),
{
    match v {
        Value::Scalar(sv) => match sv {
            ScalarValue::Bool(_) | ScalarValue::Uint64(_) | ScalarValue::Int64(_) => true,
            _ => false,
        },
        Value::EnumNum(_) => true,
        Value::Nested(_) => false,
    }
}

/// The varint image of a packable element.
fn wire_of_value(v: &Value) -> (r: u64)
    ensures
        r == varint_of_value(value_v(*v)),
{
    match v {
        Value::Scalar(ScalarValue::Bool(b)) => if *b {
            1
        } else {
            0
        },
        Value::Scalar(ScalarValue::Uint64(u)) => *u,
        Value::Scalar(ScalarValue::Int64(i)) => wire64(*i),
        Value::EnumNum(e) => *e as u64,
        _ => 0,
    }
}

/// Appends the packed payload of the elements from index `i` on.
fn push_packed(out: &mut Vec<u8>, es: &Vec<Value>, i: usize)
    requires
        i <= es@.len(),
    ensures
        final(out)@ == old(out)@ + packed_payload(crate::message::values_v(es@.skip(i as int))),
    decreases es@.len() - i,
{
    if i < es.len() {
        let w = wire_of_value(&es[i]);
        push_varint(out, w);
        push_packed(out, es, i + 1);
        proof {
            crate::message::lemma_values_v_index(es@.skip(i as int), 0);
            assert(es@.skip(i as int)[0] == es@[i as int]);
            assert(es@.skip(i as int).drop_first() =~= es@.skip(i as int + 1));
            assert(crate::message::values_v(es@.skip(i as int)).drop_first()
                =~= crate::message::values_v(es@.skip(i as int + 1)));
            assert(packed_payload(crate::message::values_v(es@.skip(i as int))) =~= enc_varint(
                varint_of_value(value_v(es@[i as int])) as nat,
            ) + packed_payload(crate::message::values_v(es@.skip(i as int + 1))));
            assert(out@ =~= old(out)@ + packed_payload(
                crate::message::values_v(es@.skip(i as int)),
            ));
        }
    } else {
        proof {
            assert(es@.skip(i as int).len() == 0);
            assert(packed_payload(crate::message::values_v(es@.skip(i as int)))
                =~= Seq::<u8>::empty());
            assert(out@ =~= old(out)@ + packed_payload(
                crate::message::values_v(es@.skip(i as int)),
            ));
        }
    }
}

/// Appends one unpacked item per element from index `i` on.
fn push_rep(out: &mut Vec<u8>, n: u32, es: &Vec<Value>, i: usize)
    requires
        i <= es@.len(),
    ensures
        final(out)@ == old(out)@ + enc_items(
            rep_items(n, crate::message::values_v(es@.skip(i as int))),
        ),
    decreases *es, 2int, es@.len() - i,
{
    if i < es.len() {
        push_value_item(out, n, &es[i]);
        push_rep(out, n, es, i + 1);
        proof {
            let vs = crate::message::values_v(es@.skip(i as int));
            crate::message::lemma_values_v_index(es@.skip(i as int), 0);
            assert(es@.skip(i as int)[0] == es@[i as int]);
            assert(es@.skip(i as int).drop_first() =~= es@.skip(i as int + 1));
            assert(vs.drop_first() =~= crate::message::values_v(es@.skip(i as int + 1)));
            let head = (n, value_payload(value_v(es@[i as int])));
            assert(rep_items(n, vs) == seq![head] + rep_items(n, vs.drop_first()));
            assert((seq![head] + rep_items(n, vs.drop_first()))[0] == head);
            assert((seq![head] + rep_items(n, vs.drop_first())).drop_first() =~= rep_items(
                n,
                vs.drop_first(),
            ));
            assert(out@ =~= old(out)@ + enc_items(rep_items(n, vs)));
        }
    } else {
        proof {
            assert(es@.skip(i as int).len() == 0);
            assert(enc_items(rep_items(n, crate::message::values_v(es@.skip(i as int))))
                =~= Seq::<u8>::empty());
            assert(out@ =~= old(out)@ + enc_items(
                rep_items(n, crate::message::values_v(es@.skip(i as int))),
            ));
        }
    }
}

/// Appends one length-delimited item per map entry from index `i` on.
fn push_map(out: &mut Vec<u8>, n: u32, es: &Vec<(ScalarValue, Value)>, i: usize)
    requires
        i <= es@.len(),
    ensures
        final(out)@ == old(out)@ + enc_items(
            map_items(n, crate::message::entries_v(es@.skip(i as int))),
        ),
    decreases *es, 2int, es@.len() - i,
{
    if i < es.len() {
        let mut eb: Vec<u8> = Vec::new();
        push_scalar_item(&mut eb, 1, &es[i].0);
        push_value_item(&mut eb, 2, &es[i].1);
        proof {
            assert(eb@ =~= entry_bytes(scalar_v(es@[i as int].0), value_v(es@[i as int].1)));
        }
        push_tag(out, n, 2);
        push_varint(out, eb.len() as u64);
        push_bytes(out, &eb);
        push_map(out, n, es, i + 1);
        proof {
            let vs = crate::message::entries_v(es@.skip(i as int));
            crate::message::lemma_entries_v_index(es@.skip(i as int), 0);
            assert(es@.skip(i as int)[0] == es@[i as int]);
            assert(es@.skip(i as int).drop_first() =~= es@.skip(i as int + 1));
            assert(vs.drop_first() =~= crate::message::entries_v(es@.skip(i as int + 1)));
            let head = (
                n,
                PayloadV::LenDelim(
                    entry_bytes(scalar_v(es@[i as int].0), value_v(es@[i as int].1)),
                ),
            );
            assert(map_items(n, vs) == seq![head] + map_items(n, vs.drop_first()));
            assert((seq![head] + map_items(n, vs.drop_first()))[0] == head);
            assert((seq![head] + map_items(n, vs.drop_first())).drop_first() =~= map_items(
                n,
                vs.drop_first(),
            ));
            assert(out@ =~= old(out)@ + enc_items(map_items(n, vs)));
        }
    } else {
        proof {
            assert(es@.skip(i as int).len() == 0);
            assert(enc_items(map_items(n, crate::message::entries_v(es@.skip(i as int))))
                =~= Seq::<u8>::empty());
            assert(out@ =~= old(out)@ + enc_items(
                map_items(n, crate::message::entries_v(es@.skip(i as int))),
            ));
        }
    }
}

/// Appends the items of the populated fields from index `i` on.
fn push_fields(out: &mut Vec<u8>, fields: &Vec<(u32, FieldValue)>, i: usize)
    requires
        i <= fields@.len(),
    ensures
        final(out)@ == old(out)@ + enc_items(
            items_of_fields(crate::message::fields_v(fields@.skip(i as int))),
        ),
    decreases *fields, 2int, fields@.len() - i,
{
    if i < fields.len() {
        let n = fields[i].0;
        let ghost fsv = crate::message::fields_v(fields@.skip(i as int));
        proof {
            crate::message::lemma_fields_v_index(fields@.skip(i as int), 0);
            assert(fields@.skip(i as int)[0] == fields@[i as int]);
            assert(fields@.skip(i as int).drop_first() =~= fields@.skip(i as int + 1));
            assert(fsv.drop_first() =~= crate::message::fields_v(fields@.skip(i as int + 1)));
            assert(fsv[0] == (
                fields@[i as int].0,
                crate::message::field_value_v(fields@[i as int].1),
            ));
        }
        let ghost base = out@;
        match &fields[i].1 {
            FieldValue::Single(v) => {
                push_value_item(out, n, v);
                proof {
                    let hitems = items_of_field(n, fsv[0].1);
                    assert(hitems =~= seq![(n, value_payload(value_v(fields@[i as int].1->Single_0)))]);
                    assert(enc_items(hitems.drop_first()) =~= Seq::<u8>::empty());
                    assert(enc_items(hitems) =~= enc_item(hitems[0].0, hitems[0].1));
                    assert(out@ =~= base + enc_items(items_of_field(n, fsv[0].1)));
                }
            },
            FieldValue::Repeated(es) => {
                if es.len() == 0 {
                    proof {
                        crate::message::lemma_values_v_len(es@);
                        assert(enc_items(items_of_field(n, fsv[0].1)) =~= Seq::<u8>::empty());
                        assert(out@ =~= base + enc_items(items_of_field(n, fsv[0].1)));
                    }
                } else if is_varint_val(&es[0]) {
                    let mut pb: Vec<u8> = Vec::new();
                    push_packed(&mut pb, es, 0);
                    proof {
                        assert(es@.skip(0) =~= es@);
                        crate::message::lemma_values_v_index(es@, 0);
                    }
                    push_tag(out, n, 2);
                    push_varint(out, pb.len() as u64);
                    push_bytes(out, &pb);
                    proof {
                        let vs = crate::message::values_v(es@);
                        assert(pb@ =~= packed_payload(vs));
                        assert(is_varint_value(vs[0]));
                        let hd = (n, PayloadV::LenDelim(packed_payload(vs)));
                        assert(items_of_field(n, fsv[0].1) =~= seq![hd]);
                        assert(seq![hd].drop_first().len() == 0);
                        assert(enc_items(seq![hd].drop_first()) =~= Seq::<u8>::empty());
                        assert(enc_items(seq![hd]) =~= enc_item(n, hd.1));
                        assert(out@ =~= base + enc_items(items_of_field(n, fsv[0].1)));
                    }
                } else {
                    push_rep(out, n, es, 0);
                    proof {
                        let vs = crate::message::values_v(es@);
                        crate::message::lemma_values_v_index(es@, 0);
                        assert(es@.skip(0) =~= es@);
                        assert(!is_varint_value(vs[0]));
                        assert(items_of_field(n, fsv[0].1) == rep_items(n, vs));
                        assert(out@ =~= base + enc_items(items_of_field(n, fsv[0].1)));
                    }
                }
            },
            FieldValue::MapEntries(es) => {
                push_map(out, n, es, 0);
                proof {
                    assert(es@.skip(0) =~= es@);
                    assert(items_of_field(n, fsv[0].1) == map_items(
                        n,
                        crate::message::entries_v(es@),
                    ));
                    assert(out@ =~= base + enc_items(items_of_field(n, fsv[0].1)));
                }
            },
        }
        push_fields(out, fields, i + 1);
        proof {
            assert(items_of_fields(fsv) == items_of_field(fsv[0].0, fsv[0].1) + items_of_fields(
                fsv.drop_first(),
            ));
            lemma_enc_items_append(
                items_of_field(fsv[0].0, fsv[0].1),
                items_of_fields(fsv.drop_first()),
            );
            assert(fsv[0].0 == n);
            assert(out@ =~= old(out)@ + enc_items(items_of_fields(fsv)));
        }
    } else {
        proof {
            assert(fields@.skip(i as int).len() == 0);
            assert(enc_items(items_of_fields(crate::message::fields_v(fields@.skip(i as int))))
                =~= Seq::<u8>::empty());
            assert(out@ =~= old(out)@ + enc_items(
                items_of_fields(crate::message::fields_v(fields@.skip(i as int))),
            ));
        }
    }
}

/// Appends the preserved unknown items from index `i` on.
fn push_unknowns(out: &mut Vec<u8>, us: &Vec<UnknownField>, i: usize)
    requires
        i <= us@.len(),
    ensures
        final(out)@ == old(out)@ + enc_items(
            items_of_unknowns(crate::message::unknowns_v(us@.skip(i as int))),
        ),
    decreases us@.len() - i,
{
    if i < us.len() {
        let n = us[i].number;
        let ghost base = out@;
        match &us[i].payload {
            WirePayload::Varint(v) => {
                push_tag(out, n, 0);
                push_varint(out, *v);
            },
            WirePayload::LenDelim(b) => {
                push_tag(out, n, 2);
                push_varint(out, b.len() as u64);
                push_bytes(out, b);
            },
            WirePayload::Fixed32(v) => {
                push_tag(out, n, 5);
                push_fixed32(out, *v);
            },
            WirePayload::Fixed64(v) => {
                push_tag(out, n, 1);
                push_fixed64(out, *v);
            },
        }
        proof {
            assert(out@ =~= base + enc_item(n, payload_v(us@[i as int].payload)));
        }
        push_unknowns(out, us, i + 1);
        proof {
            let uv = crate::message::unknowns_v(us@.skip(i as int));
            assert(us@.skip(i as int)[0] == us@[i as int]);
            assert(us@.skip(i as int).drop_first() =~= us@.skip(i as int + 1));
            assert(uv.drop_first() =~= crate::message::unknowns_v(us@.skip(i as int + 1)));
            assert(uv[0] == unknown_v(us@[i as int]));
            let head = (uv[0].number, uv[0].payload);
            assert(items_of_unknowns(uv) == seq![head] + items_of_unknowns(uv.drop_first()));
            assert((seq![head] + items_of_unknowns(uv.drop_first()))[0] == head);
            assert((seq![head] + items_of_unknowns(uv.drop_first())).drop_first()
                =~= items_of_unknowns(uv.drop_first()));
            assert(out@ =~= old(out)@ + enc_items(items_of_unknowns(uv)));
        }
    } else {
        proof {
            assert(us@.skip(i as int).len() == 0);
            assert(crate::message::unknowns_v(us@.skip(i as int)).len() == 0);
            assert(enc_items(items_of_unknowns(crate::message::unknowns_v(us@.skip(i as int))))
                =~= Seq::<u8>::empty());
            assert(out@ =~= old(out)@ + enc_items(
                items_of_unknowns(crate::message::unknowns_v(us@.skip(i as int))),
            ));
        }
    }
}

/// The scalar value a wire payload stands for under a scalar kind.
pub open spec fn dec_scalar(k: crate::schema::ScalarKind, p: PayloadV) -> Option<ScalarV> {
    match (k, p) {
        (crate::schema::ScalarKind::Bool, PayloadV::Varint(v)) => Some(ScalarV::Bool(v != 0)),
        (crate::schema::ScalarKind::Uint64, PayloadV::Varint(v)) => Some(ScalarV::Uint64(v)),
        (crate::schema::ScalarKind::Int64, PayloadV::Varint(v)) => Some(
            ScalarV::Int64(i64_of_wire64(v)),
        ),
        (crate::schema::ScalarKind::Text, PayloadV::LenDelim(b)) => Some(ScalarV::Text(b)),
        (crate::schema::ScalarKind::Bytes, PayloadV::LenDelim(b)) => Some(ScalarV::Bytes(b)),
        _ => None,
    }
}

/// Whether a field kind is carried packed when repeated.
pub open spec fn kind_packs(kind: crate::schema::FieldKindV) -> bool {
    match kind {
        crate::schema::FieldKindV::Scalar(k) => crate::schema::is_varint_kind(k),
        crate::schema::FieldKindV::Enumeration(_) => true,
        crate::schema::FieldKindV::MessageRef(_) => false,
    }
}

/// The element a single varint stands for under a packable kind.
pub open spec fn varint_val_of(kind: crate::schema::FieldKindV, w: u64) -> Option<ValueV> {
    match kind {
        crate::schema::FieldKindV::Scalar(k) => match dec_scalar(k, PayloadV::Varint(w)) {
            Some(sv) => Some(ValueV::Scalar(sv)),
            None => None,
        },
        crate::schema::FieldKindV::Enumeration(_) => if w < 0x1_0000_0000 {
            Some(ValueV::EnumNum(w as u32))
        } else {
            None
        },
        crate::schema::FieldKindV::MessageRef(_) => None,
    }
}

/// Parses a packed payload into its elements.
pub open spec fn dec_packed(b: Seq<u8>, kind: crate::schema::FieldKindV) -> Result<
    Seq<ValueV>,
    DecodeError,
>
    decreases b.len(),
{
    if b.len() == 0 {
        Ok(Seq::<ValueV>::empty())
    } else {
        match dec_varint_b(b) {
            None => Err(DecodeError::UnexpectedEof),
            Some((v, c)) => {
                if v >= 0x1_0000_0000_0000_0000 {
                    Err(DecodeError::Malformed)
                } else {
                    match varint_val_of(kind, v as u64) {
                        None => Err(DecodeError::Malformed),
                        Some(val) => match dec_packed(b.skip(c as int), kind) {
                            Ok(r) => Ok(seq![val] + r),
                            Err(e) => Err(e),
                        },
                    }
                }
            },
        }
    }
}

/// Appends several elements to a repeated field, one at a time.
pub open spec fn append_fold(m: MsgV, n: u32, vs: Seq<ValueV>) -> MsgV
    decreases vs.len(),
{
    if vs.len() == 0 {
        m
    } else {
        append_fold(crate::message::append_elem_v(m, n, vs[0]), n, vs.drop_first())
    }
}

/// The element value a payload stands for under a field kind; nested
/// messages decode recursively against their resolved schema.
pub open spec fn interp_value(
    kind: crate::schema::FieldKindV,
    p: PayloadV,
    reg: crate::registry::RegistryV,
    fuel: nat,
) -> Result<ValueV, DecodeError>
    decreases fuel, 1int, 0int,
{
    match kind {
        crate::schema::FieldKindV::Scalar(k) => match dec_scalar(k, p) {
            Some(sv) => Ok(ValueV::Scalar(sv)),
            None => Err(DecodeError::TypeMismatch),
        },
        crate::schema::FieldKindV::Enumeration(_) => match p {
            PayloadV::Varint(v) => if v < 0x1_0000_0000 {
                Ok(ValueV::EnumNum(v as u32))
            } else {
                Err(DecodeError::Malformed)
            },
            _ => Err(DecodeError::TypeMismatch),
        },
        crate::schema::FieldKindV::MessageRef(nm) => match p {
            PayloadV::LenDelim(b) => if !crate::registry::message_resolves(reg.messages, nm) {
                Err(DecodeError::TypeMismatch)
            } else if fuel == 0 {
                Err(DecodeError::Malformed)
            } else {
                match dec_msg(
                    b,
                    crate::registry::resolve_message_v(reg.messages, nm),
                    reg,
                    (fuel - 1) as nat,
                ) {
                    Ok(c) => Ok(ValueV::Nested(c)),
                    Err(e) => Err(e),
                }
            },
            _ => Err(DecodeError::TypeMismatch),
        },
    }
}

/// One decoded map entry: key as field 1, value as field 2, both present.
pub open spec fn interp_entry(
    b: Seq<u8>,
    kk: crate::schema::ScalarKind,
    vkind: crate::schema::FieldKindV,
    reg: crate::registry::RegistryV,
    fuel: nat,
) -> Result<(ScalarV, ValueV), DecodeError>
    decreases fuel, 1int, 1int,
{
    match toks(b) {
        Err(_) => Err(DecodeError::Malformed),
        Ok(eitems) => {
            if eitems.len() == 2 && eitems[0].0 == 1 && eitems[1].0 == 2 {
                match dec_scalar(kk, eitems[0].1) {
                    None => Err(DecodeError::TypeMismatch),
                    Some(k) => match interp_value(vkind, eitems[1].1, reg, fuel) {
                        Ok(v) => Ok((k, v)),
                        Err(e) => Err(e),
                    },
                }
            } else {
                Err(DecodeError::Malformed)
            }
        },
    }
}

/// Folds decoded items into a message: known field numbers populate the
/// matching field, unknown numbers are preserved in order.
pub open spec fn interp_items(
    items: Seq<(u32, PayloadV)>,
    ms: crate::schema::MessageSchemaV,
    reg: crate::registry::RegistryV,
    acc: MsgV,
    fuel: nat,
) -> Result<MsgV, DecodeError>
    decreases fuel, 2int, items.len(),
{
    if items.len() == 0 {
        Ok(acc)
    } else {
        let n = items[0].0;
        let p = items[0].1;
        let rest = items.drop_first();
        match crate::schema::find_field(ms, n) {
            None => interp_items(
                rest,
                ms,
                reg,
                MsgV { fields: acc.fields, unknown: acc.unknown.push(UnknownV { number: n, payload: p }) },
                fuel,
            ),
            Some(fs) => match fs.card {
                crate::schema::Cardinality::Singular => match interp_value(fs.kind, p, reg, fuel) {
                    Err(e) => Err(e),
                    Ok(v) => interp_items(
                        rest,
                        ms,
                        reg,
                        crate::message::set_single_v(acc, n, v),
                        fuel,
                    ),
                },
                crate::schema::Cardinality::Repeated => if kind_packs(fs.kind) {
                    match p {
                        PayloadV::LenDelim(b) => match dec_packed(b, fs.kind) {
                            Err(e) => Err(e),
                            Ok(vals) => interp_items(rest, ms, reg, append_fold(acc, n, vals), fuel),
                        },
                        _ => Err(DecodeError::TypeMismatch),
                    }
                } else {
                    match interp_value(fs.kind, p, reg, fuel) {
                        Err(e) => Err(e),
                        Ok(v) => interp_items(
                            rest,
                            ms,
                            reg,
                            crate::message::append_elem_v(acc, n, v),
                            fuel,
                        ),
                    }
                },
                crate::schema::Cardinality::Mapped(kk) => match p {
                    PayloadV::LenDelim(b) => match interp_entry(b, kk, fs.kind, reg, fuel) {
                        Err(e) => Err(e),
                        Ok((k, v)) => interp_items(
                            rest,
                            ms,
                            reg,
                            crate::message::upsert_entry_v(acc, n, k, v),
                            fuel,
                        ),
                    },
                    _ => Err(DecodeError::TypeMismatch),
                },
            },
        }
    }
}

/// Decodes a byte sequence against a schema, with bounded nesting fuel.
pub open spec fn dec_msg(
    s: Seq<u8>,
    ms: crate::schema::MessageSchemaV,
    reg: crate::registry::RegistryV,
    fuel: nat,
) -> Result<MsgV, DecodeError>
    decreases fuel, 3int, 0int,
{
    match toks(s) {
        Err(e) => Err(e),
        Ok(items) => match interp_items(items, ms, reg, crate::message::empty_msg_v(), fuel) {
            Ok(mv) => Ok(arrange_msg(ms, mv)),
            Err(e) => Err(e),
        },
    }
}

/// What `decode` returns: the fuel equals the input length, which always
/// suffices because each nesting level consumes at least two bytes.
pub open spec fn decode_spec(
    s: Seq<u8>,
    ms: crate::schema::MessageSchemaV,
    reg: crate::registry::RegistryV,
) -> Result<MsgV, DecodeError> {
    dec_msg(s, ms, reg, s.len())
}

/// The view of an executable item list.
pub open spec fn items_view(s: Seq<(u32, WirePayload)>) -> Seq<(u32, PayloadV)> {
    s.map_values(|p: (u32, WirePayload)| (p.0, payload_v(p.1)))
}

/// An n-byte little-endian number is below 256^n.
pub proof fn lemma_dec_le_bound(s: Seq<u8>, n: nat)
    ensures
        dec_le(s, n) < pow256(n),
    decreases n,
{
    if n > 0 {
        lemma_dec_le_bound(s.drop_first(), (n - 1) as nat);
    }
}

/// Viewing commutes with prepending an executable item.
pub proof fn lemma_items_view_cons(v: Seq<(u32, WirePayload)>, x: (u32, WirePayload))
    ensures
        items_view(seq![x] + v) == seq![(x.0, payload_v(x.1))] + items_view(v),
{
    assert(items_view(seq![x] + v) =~= seq![(x.0, payload_v(x.1))] + items_view(v));
}

/// A varint never consumes more bytes than the input holds.
pub proof fn lemma_dec_varint_count(s: Seq<u8>)
    ensures
        match dec_varint(s) {
            Some((v, c)) => 1 <= c <= s.len(),
            None => true,
        },
    decreases s.len(),
{
    if s.len() > 0 && s[0] >= 128 {
        lemma_dec_varint_count(s.drop_first());
    }
}

/// Reads one LEB128 number: its low 64 bits, the bytes consumed, and
/// whether the mathematical value exceeds 64 bits.
#[verifier::loop_isolation(false)]
fn read_varint(s: &[u8], pos: usize) -> (r: Option<(u64, usize, bool)>)
    requires
        pos <= s@.len(),
    ensures
        match dec_varint(s@.skip(pos as int)) {
            None => r is None,
            Some((v, c)) => r matches Some((val, cc, o)) && cc as nat == c && o == (v
                >= 0x1_0000_0000_0000_0000) && (!o ==> val as nat == v),
        },
    decreases s@.len() - pos,
{
    if pos >= s.len() {
        return None;
    }
    let b = s[pos];
    if b < 128 {
        proof {
            assert(s@.skip(pos as int)[0] == b);
        }
        Some((b as u64, 1, false))
    } else {
        match read_varint(s, pos + 1) {
            None => {
                proof {
                    assert(s@.skip(pos as int)[0] == b);
                    assert(s@.skip(pos as int).drop_first() =~= s@.skip(pos as int + 1));
                }
                None
            },
            Some((v, c, o)) => {
                let low = (b - 128) as u64;
                let wide: u128 = (low as u128) + 128u128 * (v as u128);
                let o2 = o || wide > (u64::MAX as u128);
                let val = if o2 {
                    0u64
                } else {
                    wide as u64
                };
                proof {
                    assert(s@.skip(pos as int)[0] == b);
                    assert(s@.skip(pos as int).drop_first() =~= s@.skip(pos as int + 1));
                }
                proof {
                    lemma_dec_varint_count(s@.skip(pos as int + 1));
                }
                Some((val, c + 1, o2))
            },
        }
    }
}

/// Reads an n-byte little-endian number.
fn read_le(s: &[u8], pos: usize, n: usize) -> (r: u64)
    requires
        n <= 8,
        pos + n <= s@.len(),
    ensures
        r as nat == dec_le(s@.skip(pos as int), n as nat),
    decreases n,
{
    if n == 0 {
        0
    } else {
        let b = s[pos];
        let rest = read_le(s, pos + 1, n - 1);
        proof {
            assert(s@.skip(pos as int)[0] == b);
            assert(s@.skip(pos as int).drop_first() =~= s@.skip(pos as int + 1));
            lemma_dec_le_bound(s@.skip(pos as int + 1), (n - 1) as nat);
            assert(pow256((n - 1) as nat) <= pow256(7)) by {
                reveal_with_fuel(pow256, 9);
            }
            assert(pow256(7) == 0x100_0000_0000_0000) by {
                reveal_with_fuel(pow256, 9);
            }
        }
        b as u64 + 256 * rest
    }
}

/// Copies the byte range `[a, b)` of a slice.
#[verifier::loop_isolation(false)]
fn copy_range(s: &[u8], a: usize, b: usize) -> (r: Vec<u8>)
    requires
        a <= b <= s@.len(),
    ensures
        r@ == s@.subrange(a as int, b as int),
{
    let mut out: Vec<u8> = Vec::new();
    let mut i: usize = a;
    while i < b
        invariant
            a <= i <= b,
            out@ == s@.subrange(a as int, i as int),
        decreases b - i,
    {
        out.push(s[i]);
        proof {
            assert(out@ =~= s@.subrange(a as int, i as int + 1));
        }
        i += 1;
    }
    out
}

/// Parses the rest after a varint-typed tag.
#[verifier::rlimit(100)]
fn toks_arm_varint(s: &[u8], pos: usize, c: usize, n: u32) -> (r: Result<
    Vec<(u32, WirePayload)>,
    DecodeError,
>)
    requires
        pos + c <= s@.len(),
        c >= 1,
        dec_varint_b(s@.skip(pos as int)) matches Some((tag, cc)) && cc == c as nat && tag / 8
            == n as nat && 1 <= tag / 8 < FIELD_NUMBER_LIMIT as nat && tag % 8 == 0,
    ensures
        match toks(s@.skip(pos as int)) {
            Ok(items) => r matches Ok(v) && items_view(v@) == items,
            Err(e) => r matches Err(e2) && e == e2,
        },
    decreases s@.len() - pos, 0int,
{
    let ghost sp = s@.skip(pos as int);
    let slen = s.len();
    proof {
        assert(pos + c <= slen);
        lemma_dec_varint_count(sp.skip(c as int));
        assert(sp.skip(c as int) =~= s@.skip(pos as int + c as int));
    }
    match read_varint(s, pos + c) {
        None => Err(DecodeError::UnexpectedEof),
        Some((v, c2, o2)) => {
            if o2 {
                return Err(DecodeError::Malformed);
            }
            proof {
                assert(sp.skip(c as int + c2 as int) =~= s@.skip(
                    pos as int + c as int + c2 as int,
                ));
            }
            match toks_exec(s, pos + c + c2) {
                Err(e) => Err(e),
                Ok(mut rest) => {
                    let ghost prev = rest@;
                    rest.insert(0, (n, WirePayload::Varint(v)));
                    proof {
                        lemma_items_view_cons(prev, (n, WirePayload::Varint(v)));
                        assert(seq![(n, WirePayload::Varint(v))] + prev =~= rest@);
                    }
                    Ok(rest)
                },
            }
        },
    }
}

/// Parses the rest after a length-delimited tag.
#[verifier::rlimit(100)]
fn toks_arm_len(s: &[u8], pos: usize, c: usize, n: u32) -> (r: Result<
    Vec<(u32, WirePayload)>,
    DecodeError,
>)
    requires
        pos + c <= s@.len(),
        c >= 1,
        dec_varint_b(s@.skip(pos as int)) matches Some((tag, cc)) && cc == c as nat && tag / 8
            == n as nat && 1 <= tag / 8 < FIELD_NUMBER_LIMIT as nat && tag % 8 == 2,
    ensures
        match toks(s@.skip(pos as int)) {
            Ok(items) => r matches Ok(v) && items_view(v@) == items,
            Err(e) => r matches Err(e2) && e == e2,
        },
    decreases s@.len() - pos, 0int,
{
    let ghost sp = s@.skip(pos as int);
    let slen = s.len();
    proof {
        assert(pos + c <= slen);
        lemma_dec_varint_count(sp.skip(c as int));
        assert(sp.skip(c as int) =~= s@.skip(pos as int + c as int));
    }
    match read_varint(s, pos + c) {
        None => Err(DecodeError::UnexpectedEof),
        Some((l, c2, o2)) => {
            let avail = s.len() - pos - c - c2;
            if o2 || l > avail as u64 {
                proof {
                    let (lv, _lc) = dec_varint(sp.skip(c as int))->Some_0;
                    if !o2 {
                        assert(lv == l as nat);
                    }
                    assert(sp.len() - (c as nat) - (c2 as nat) < lv);
                }
                return Err(DecodeError::UnexpectedEof);
            }
            let ll = l as usize;
            let blob = copy_range(s, pos + c + c2, pos + c + c2 + ll);
            proof {
                assert(sp.skip(c as int + c2 as int).take(l as int) =~= s@.subrange(
                    pos as int + c as int + c2 as int,
                    pos as int + c as int + c2 as int + l as int,
                ));
                assert(sp.skip(c as int + c2 as int + l as int) =~= s@.skip(
                    pos as int + c as int + c2 as int + l as int,
                ));
            }
            match toks_exec(s, pos + c + c2 + ll) {
                Err(e) => Err(e),
                Ok(mut rest) => {
                    let ghost prev = rest@;
                    let ghost bv = blob@;
                    rest.insert(0, (n, WirePayload::LenDelim(blob)));
                    proof {
                        lemma_items_view_cons(prev, rest@[0]);
                        assert(seq![rest@[0]] + prev =~= rest@);
                        assert(payload_v(rest@[0].1) == PayloadV::LenDelim(bv));
                    }
                    Ok(rest)
                },
            }
        },
    }
}

/// Splits the bytes from `pos` on into executable tagged items.
#[verifier::loop_isolation(false)]
#[verifier::rlimit(100)]
fn toks_exec(s: &[u8], pos: usize) -> (r: Result<Vec<(u32, WirePayload)>, DecodeError>)
    requires
        pos <= s@.len(),
    ensures
        match toks(s@.skip(pos as int)) {
            Ok(items) => r matches Ok(v) && items_view(v@) == items,
            Err(e) => r matches Err(e2) && e == e2,
        },
    decreases s@.len() - pos, 1int,
{
    let ghost sp = s@.skip(pos as int);
    if pos >= s.len() {
        proof {
            assert(sp.len() == 0);
            assert(items_view(Seq::<(u32, WirePayload)>::empty()) =~= Seq::<
                (u32, PayloadV),
            >::empty());
        }
        return Ok(Vec::new());
    }
    let tagr = read_varint(s, pos);
    match tagr {
        None => Err(DecodeError::UnexpectedEof),
        Some((tag, c, o)) => {
            proof {
                lemma_dec_varint_count(sp);
                assert(dec_varint_b(sp) == dec_varint(sp));
            }
            if o || tag / 8 == 0 || tag / 8 >= FIELD_NUMBER_LIMIT as u64 {
                proof {
                    if o {
                        let (tv, _tc) = dec_varint(sp)->Some_0;
                        assert(tv / 8 >= FIELD_NUMBER_LIMIT as nat);
                    }
                }
                return Err(DecodeError::Malformed);
            }
            let n = (tag / 8) as u32;
            let wt = tag % 8;
            if wt == 0 {
                toks_arm_varint(s, pos, c, n)
            } else if wt == 1 {
                if s.len() - pos - c < 8 {
                    return Err(DecodeError::UnexpectedEof);
                }
                let v = read_le(s, pos + c, 8);
                proof {
                    assert(sp.skip(c as int) =~= s@.skip(pos as int + c as int));
                    lemma_dec_le_bound(sp.skip(c as int), 8);
                    assert(pow256(8) == 0x1_0000_0000_0000_0000) by {
                        reveal_with_fuel(pow256, 9);
                    }
                    assert(sp.skip(c as int + 8) =~= s@.skip(pos as int + c as int + 8));
                }
                match toks_exec(s, pos + c + 8) {
                    Err(e) => Err(e),
                    Ok(mut rest) => {
                        let ghost prev = rest@;
                        rest.insert(0, (n, WirePayload::Fixed64(v)));
                        proof {
                            lemma_items_view_cons(prev, rest@[0]);
                            assert(seq![rest@[0]] + prev =~= rest@);
                        }
                        Ok(rest)
                    },
                }
            } else if wt == 2 {
                toks_arm_len(s, pos, c, n)
            } else if wt == 5 {
                if s.len() - pos - c < 4 {
                    return Err(DecodeError::UnexpectedEof);
                }
                let v = read_le(s, pos + c, 4);
                let v32 = v as u32;
                proof {
                    assert(sp.skip(c as int) =~= s@.skip(pos as int + c as int));
                    lemma_dec_le_bound(sp.skip(c as int), 4);
                    assert(pow256(4) == 0x1_0000_0000) by {
                        reveal_with_fuel(pow256, 5);
                    }
                    assert(sp.skip(c as int + 4) =~= s@.skip(pos as int + c as int + 4));
                }
                match toks_exec(s, pos + c + 4) {
                    Err(e) => Err(e),
                    Ok(mut rest) => {
                        let ghost prev = rest@;
                        rest.insert(0, (n, WirePayload::Fixed32(v32)));
                        proof {
                            lemma_items_view_cons(prev, rest@[0]);
                            assert(seq![rest@[0]] + prev =~= rest@);
                        }
                        Ok(rest)
                    },
                }
            } else {
                Err(DecodeError::Malformed)
            }
        },
    }
}


/// Whether a populated field value is an empty container.
pub open spec fn is_empty_container(fv: FieldValueV) -> bool {
    match fv {
        FieldValueV::Repeated(es) => es.len() == 0,
        FieldValueV::MapEntries(es) => es.len() == 0,
        FieldValueV::Single(_) => false,
    }
}

/// Every item of one field carries that field's number.
pub proof fn lemma_items_of_field_nums(n: u32, fv: FieldValueV)
    ensures
        forall|j: int|
            0 <= j < items_of_field(n, fv).len() ==> (#[trigger] items_of_field(n, fv)[j]).0 == n,
{
    match fv {
        FieldValueV::Single(_) => {},
        FieldValueV::Repeated(es) => {
            lemma_rep_items_nums(n, es);
        },
        FieldValueV::MapEntries(es) => {
            lemma_map_items_nums(n, es);
        },
    }
}

/// Every unpacked repeated item carries the field's number.
pub proof fn lemma_rep_items_nums(n: u32, es: Seq<ValueV>)
    ensures
        rep_items(n, es).len() == es.len(),
        forall|j: int| 0 <= j < es.len() ==> (#[trigger] rep_items(n, es)[j]).0 == n,
    decreases es.len(),
{
    if es.len() > 0 {
        lemma_rep_items_nums(n, es.drop_first());
    }
}

/// Every map-entry item carries the field's number.
pub proof fn lemma_map_items_nums(n: u32, es: Seq<(ScalarV, ValueV)>)
    ensures
        map_items(n, es).len() == es.len(),
        forall|j: int| 0 <= j < es.len() ==> (#[trigger] map_items(n, es)[j]).0 == n,
    decreases es.len(),
{
    if es.len() > 0 {
        lemma_map_items_nums(n, es.drop_first());
    }
}

/// Indexing into the unknown items.
pub proof fn lemma_items_of_unknowns_index(us: Seq<UnknownV>)
    ensures
        items_of_unknowns(us).len() == us.len(),
        forall|j: int|
            0 <= j < us.len() ==> (#[trigger] items_of_unknowns(us)[j]) == (
                us[j].number,
                us[j].payload,
            ),
    decreases us.len(),
{
    if us.len() > 0 {
        lemma_items_of_unknowns_index(us.drop_first());
    }
}

/// All items of a well-formed message carry valid field numbers.
pub proof fn lemma_items_of_fields_wf(
    reg: crate::registry::RegistryV,
    ms: crate::schema::MessageSchemaV,
    fs: Seq<(u32, FieldValueV)>,
)
    requires
        crate::schema::wf_message_schema(ms),
        forall|i: int|
            0 <= i < fs.len() ==> match crate::schema::find_field(ms, (#[trigger] fs[i]).0) {
                Some(f) => crate::message::wf_field_value(reg, f, fs[i].1),
                None => false,
            },
    ensures
        wf_items(items_of_fields(fs)),
    decreases fs.len(),
{
    if fs.len() > 0 {
        assert forall|i: int|
            0 <= i < fs.drop_first().len() implies match crate::schema::find_field(
            ms,
            (#[trigger] fs.drop_first()[i]).0,
        ) {
            Some(f) => crate::message::wf_field_value(reg, f, fs.drop_first()[i].1),
            None => false,
        } by {
            assert(fs.drop_first()[i] == fs[i + 1]);
        }
        lemma_items_of_fields_wf(reg, ms, fs.drop_first());
        let head = items_of_field(fs[0].0, fs[0].1);
        let whole = items_of_fields(fs);
        lemma_items_of_field_nums(fs[0].0, fs[0].1);
        let f0 = crate::schema::find_field(ms, fs[0].0)->Some_0;
        assert(exists|k: int| 0 <= k < ms.fields.len() && ms.fields[k].number == fs[0].0);
        let k = choose|k: int| 0 <= k < ms.fields.len() && ms.fields[k].number == fs[0].0;
        assert(valid_field_number(ms.fields[k].number));
        assert forall|j: int| 0 <= j < whole.len() implies valid_field_number(
            (#[trigger] whole[j]).0,
        ) by {
            if j < head.len() {
                assert(whole[j] == head[j]);
            } else {
                assert(whole[j] == items_of_fields(fs.drop_first())[j - head.len()]);
            }
        }
    }
}

/// All items of a well-formed message, unknowns included, carry valid
/// field numbers.
pub proof fn lemma_items_of_msg_wf(
    reg: crate::registry::RegistryV,
    ms: crate::schema::MessageSchemaV,
    m: MsgV,
)
    requires
        crate::schema::wf_message_schema(ms),
        crate::message::wf_msg(reg, ms, m),
    ensures
        wf_items(items_of_msg(m)),
{
    lemma_items_of_fields_wf(reg, ms, m.fields);
    lemma_items_of_unknowns_index(m.unknown);
    let whole = items_of_msg(m);
    let a = items_of_fields(m.fields);
    assert forall|j: int| 0 <= j < whole.len() implies valid_field_number(
        (#[trigger] whole[j]).0,
    ) by {
        if j < a.len() {
            assert(whole[j] == a[j]);
        } else {
            assert(whole[j] == items_of_unknowns(m.unknown)[j - a.len()]);
            assert(items_of_unknowns(m.unknown)[j - a.len()] == (
                m.unknown[j - a.len()].number,
                m.unknown[j - a.len()].payload,
            ));
        }
    }
}

/// A decoded scalar payload inverts its encoding.
pub proof fn lemma_dec_scalar_enc(k: crate::schema::ScalarKind, sv: ScalarV)
    requires
        crate::message::scalar_matches(k, sv),
    ensures
        dec_scalar(k, scalar_payload(sv)) == Some(sv),
{
    match sv {
        ScalarV::Int64(i) => {
            lemma_wire64_roundtrip(i);
        },
        _ => {},
    }
}

/// A packable element's varint inverts its encoding.
pub proof fn lemma_varint_val_enc(kind: crate::schema::FieldKindV, v: ValueV)
    requires
        is_varint_value(v),
        kind_packs(kind),
        match kind {
            crate::schema::FieldKindV::Scalar(k) => crate::message::scalar_matches(
                k,
                v->Scalar_0,
            ) && v matches ValueV::Scalar(_),
            crate::schema::FieldKindV::Enumeration(_) => v matches ValueV::EnumNum(_),
            crate::schema::FieldKindV::MessageRef(_) => false,
        },
    ensures
        varint_val_of(kind, varint_of_value(v)) == Some(v),
{
    match v {
        ValueV::Scalar(sv) => {
            lemma_dec_scalar_enc(kind->Scalar_0, sv);
        },
        _ => {},
    }
}

/// Decoding a packed payload inverts its encoding.
pub proof fn lemma_dec_packed_enc(kind: crate::schema::FieldKindV, es: Seq<ValueV>)
    requires
        kind_packs(kind),
        forall|i: int|
            0 <= i < es.len() ==> is_varint_value(#[trigger] es[i]) && match kind {
                crate::schema::FieldKindV::Scalar(k) => crate::message::scalar_matches(
                    k,
                    es[i]->Scalar_0,
                ) && es[i] matches ValueV::Scalar(_),
                crate::schema::FieldKindV::Enumeration(_) => es[i] matches ValueV::EnumNum(_),
                crate::schema::FieldKindV::MessageRef(_) => false,
            },
    ensures
        dec_packed(packed_payload(es), kind) == Ok::<Seq<ValueV>, DecodeError>(es),
    decreases es.len(),
{
    if es.len() == 0 {
        assert(es =~= Seq::<ValueV>::empty());
    } else {
        assert forall|i: int|
            0 <= i < es.drop_first().len() implies is_varint_value(#[trigger] es.drop_first()[i])
            && match kind {
            crate::schema::FieldKindV::Scalar(k) => crate::message::scalar_matches(
                k,
                es.drop_first()[i]->Scalar_0,
            ) && es.drop_first()[i] matches ValueV::Scalar(_),
            crate::schema::FieldKindV::Enumeration(_) => es.drop_first()[i] matches
                ValueV::EnumNum(_),
            crate::schema::FieldKindV::MessageRef(_) => false,
        } by {
            assert(es.drop_first()[i] == es[i + 1]);
        }
        lemma_dec_packed_enc(kind, es.drop_first());
        let w = varint_of_value(es[0]);
        let rest = packed_payload(es.drop_first());
        lemma_varint_roundtrip(w as nat, rest);
        let b = packed_payload(es);
        assert(b =~= enc_varint(w as nat) + rest);
        let c = enc_varint(w as nat).len() as nat;
        assert(dec_varint_b(b) == Some((w as nat, c)));
        lemma_varint_val_enc(kind, es[0]);
        assert(b.skip(c as int) =~= rest);
        assert(seq![es[0]] + es.drop_first() =~= es);
    }
}

/// One serialized item is at least two bytes longer than its blob.
pub proof fn lemma_enc_item_len(n: u32, p: PayloadV)
    ensures
        enc_item(n, p).len() >= 1 + enc_payload(p).len(),
        p matches PayloadV::LenDelim(b) ==> enc_item(n, p).len() >= 2 + b.len(),
{
    lemma_varint_roundtrip((8 * n + wire_type_of(p)) as nat, Seq::<u8>::empty());
    match p {
        PayloadV::LenDelim(b) => {
            lemma_varint_roundtrip(b.len(), Seq::<u8>::empty());
        },
        _ => {},
    }
}

/// Serialized item lists add their lengths.
pub proof fn lemma_enc_items_len(a: Seq<(u32, PayloadV)>, b: Seq<(u32, PayloadV)>)
    ensures
        enc_items(a + b).len() == enc_items(a).len() + enc_items(b).len(),
{
    lemma_enc_items_append(a, b);
}

/// The empty container a repeated or map field decodes to when absent.
pub open spec fn empty_fv_of(card: crate::schema::Cardinality) -> FieldValueV {
    match card {
        crate::schema::Cardinality::Mapped(_) => FieldValueV::MapEntries(Seq::empty()),
        _ => FieldValueV::Repeated(Seq::empty()),
    }
}

/// Whether a cardinality is a container (repeated or map).
pub open spec fn is_container(card: crate::schema::Cardinality) -> bool {
    !(card is Singular)
}

/// The decoded fields arranged along the schema: each schema field in
/// declaration order, taking its decoded value when present and an empty
/// container when an absent field is repeated or map.
pub open spec fn arrange_fields(
    sfields: Seq<crate::schema::FieldSchemaV>,
    got: Seq<(u32, FieldValueV)>,
) -> Seq<(u32, FieldValueV)>
    decreases sfields.len(),
{
    if sfields.len() == 0 {
        Seq::<(u32, FieldValueV)>::empty()
    } else {
        arrange_one(sfields[0], got) + arrange_fields(sfields.drop_first(), got)
    }
}

/// One schema field's contribution to the arranged result.
pub open spec fn arrange_one(
    f: crate::schema::FieldSchemaV,
    got: Seq<(u32, FieldValueV)>,
) -> Seq<(u32, FieldValueV)> {
    if crate::message::has_field_v(got, f.number) {
        seq![(f.number, got[crate::message::field_idx_v(got, f.number)].1)]
    } else if is_container(f.card) {
        seq![(f.number, empty_fv_of(f.card))]
    } else {
        Seq::<(u32, FieldValueV)>::empty()
    }
}

/// A decoded message arranged along its schema; unknowns are untouched.
pub open spec fn arrange_msg(ms: crate::schema::MessageSchemaV, m: MsgV) -> MsgV {
    MsgV { fields: arrange_fields(ms.fields, m.fields), unknown: m.unknown }
}

/// The value after canonicalizing nested children against the registry.
pub open spec fn canon_value(
    reg: crate::registry::RegistryV,
    kind: crate::schema::FieldKindV,
    v: ValueV,
) -> ValueV
    decreases v,
{
    match (kind, v) {
        (crate::schema::FieldKindV::MessageRef(nm), ValueV::Nested(m)) => ValueV::Nested(
            canon_msg(reg, crate::registry::resolve_message_v(reg.messages, nm), m),
        ),
        (_, other) => other,
    }
}

/// The elements after canonicalizing nested children.
pub open spec fn canon_values(
    reg: crate::registry::RegistryV,
    kind: crate::schema::FieldKindV,
    es: Seq<ValueV>,
) -> Seq<ValueV>
    decreases es,
{
    if es.len() == 0 {
        Seq::<ValueV>::empty()
    } else {
        seq![canon_value(reg, kind, es[0])] + canon_values(reg, kind, es.drop_first())
    }
}

/// The map entries after canonicalizing nested values.
pub open spec fn canon_entries(
    reg: crate::registry::RegistryV,
    vkind: crate::schema::FieldKindV,
    es: Seq<(ScalarV, ValueV)>,
) -> Seq<(ScalarV, ValueV)>
    decreases es,
{
    if es.len() == 0 {
        Seq::<(ScalarV, ValueV)>::empty()
    } else {
        seq![(es[0].0, canon_value(reg, vkind, es[0].1))] + canon_entries(
            reg,
            vkind,
            es.drop_first(),
        )
    }
}

/// The field value after canonicalizing nested children.
pub open spec fn canon_fv(
    reg: crate::registry::RegistryV,
    kind: crate::schema::FieldKindV,
    fv: FieldValueV,
) -> FieldValueV
    decreases fv,
{
    match fv {
        FieldValueV::Single(v) => FieldValueV::Single(canon_value(reg, kind, v)),
        FieldValueV::Repeated(es) => FieldValueV::Repeated(canon_values(reg, kind, es)),
        FieldValueV::MapEntries(es) => FieldValueV::MapEntries(canon_entries(reg, kind, es)),
    }
}

/// The populated fields that survive the wire (empty containers emit no
/// items), with nested children canonicalized.
pub open spec fn canon_pop(
    reg: crate::registry::RegistryV,
    ms: crate::schema::MessageSchemaV,
    fs: Seq<(u32, FieldValueV)>,
) -> Seq<(u32, FieldValueV)>
    decreases fs,
{
    if fs.len() == 0 {
        Seq::<(u32, FieldValueV)>::empty()
    } else if is_empty_container(fs[0].1) {
        canon_pop(reg, ms, fs.drop_first())
    } else {
        let entry = match crate::schema::find_field(ms, fs[0].0) {
            Some(f) => (fs[0].0, canon_fv(reg, f.kind, fs[0].1)),
            None => fs[0],
        };
        seq![entry] + canon_pop(reg, ms, fs.drop_first())
    }
}

/// The canonical form a message's wire encoding decodes back to: its
/// surviving populated fields arranged along the schema, absent
/// container fields re-populated empty, nested children likewise.
pub open spec fn canon_msg(
    reg: crate::registry::RegistryV,
    ms: crate::schema::MessageSchemaV,
    m: MsgV,
) -> MsgV
    decreases m,
{
    MsgV {
        fields: arrange_fields(ms.fields, canon_pop(reg, ms, m.fields)),
        unknown: m.unknown,
    }
}

/// Canonicalizing leaves scalar and enum elements untouched.
pub proof fn lemma_canon_values_flat(
    reg: crate::registry::RegistryV,
    kind: crate::schema::FieldKindV,
    es: Seq<ValueV>,
)
    requires
        forall|i: int| 0 <= i < es.len() ==> !((#[trigger] es[i]) matches ValueV::Nested(_)),
    ensures
        canon_values(reg, kind, es) == es,
    decreases es.len(),
{
    if es.len() > 0 {
        assert forall|i: int|
            0 <= i < es.drop_first().len() implies !((#[trigger] es.drop_first()[i]) matches
            ValueV::Nested(_)) by {
            assert(es.drop_first()[i] == es[i + 1]);
        }
        lemma_canon_values_flat(reg, kind, es.drop_first());
        assert(seq![canon_value(reg, kind, es[0])] + es.drop_first() =~= es);
    }
}

/// Enough fuel for decoding one element value.
pub open spec fn fuel_ok_value(v: ValueV, fuel: nat) -> bool {
    match v {
        ValueV::Nested(child) => fuel >= enc_msg(child).len() + 1,
        _ => true,
    }
}

/// The accumulator after one field's items have been folded in.
pub open spec fn after_field(
    reg: crate::registry::RegistryV,
    kind: crate::schema::FieldKindV,
    acc: MsgV,
    n: u32,
    fv: FieldValueV,
) -> MsgV {
    if is_empty_container(fv) {
        acc
    } else {
        MsgV { fields: acc.fields.push((n, canon_fv(reg, kind, fv))), unknown: acc.unknown }
    }
}

/// Folding elements into a message whose last field is the repeated
/// entry extends exactly that entry.
pub proof fn lemma_append_fold_entry(
    base: Seq<(u32, FieldValueV)>,
    done: Seq<ValueV>,
    unk: Seq<UnknownV>,
    n: u32,
    vs: Seq<ValueV>,
)
    requires
        forall|j: int| 0 <= j < base.len() ==> (#[trigger] base[j]).0 != n,
    ensures
        append_fold(
            MsgV { fields: base.push((n, FieldValueV::Repeated(done))), unknown: unk },
            n,
            vs,
        ) == (MsgV { fields: base.push((n, FieldValueV::Repeated(done + vs))), unknown: unk }),
    decreases vs.len(),
{
    let m = MsgV { fields: base.push((n, FieldValueV::Repeated(done))), unknown: unk };
    if vs.len() == 0 {
        assert(done + vs =~= done);
    } else {
        assert(m.fields[base.len() as int].0 == n);
        assert(crate::message::has_field_v(m.fields, n));
        let c = crate::message::field_idx_v(m.fields, n);
        assert(m.fields[c].0 == n);
        if c < base.len() as int {
            assert(m.fields[c] == base[c]);
            assert(base[c].0 != n);
        }
        assert(c == base.len() as int);
        let m2 = crate::message::append_elem_v(m, n, vs[0]);
        assert(m2.fields =~= base.push((n, FieldValueV::Repeated(done.push(vs[0])))));
        lemma_append_fold_entry(base, done.push(vs[0]), unk, n, vs.drop_first());
        assert(done.push(vs[0]) + vs.drop_first() =~= done + vs);
    }
}

/// Decoding one element payload inverts its encoding, up to
/// normalization of nested children.
pub proof fn lemma_rt_value(
    reg: crate::registry::RegistryV,
    kind: crate::schema::FieldKindV,
    v: ValueV,
    fuel: nat,
)
    requires
        crate::registry::wf_registry(reg),
        crate::message::wf_value(reg, kind, v),
        fuel_ok_value(v, fuel),
    ensures
        interp_value(kind, value_payload(v), reg, fuel) == Ok::<ValueV, DecodeError>(
            canon_value(reg, kind, v),
        ),
    decreases v, 0int,
{
    match (kind, v) {
        (crate::schema::FieldKindV::Scalar(k), ValueV::Scalar(sv)) => {
            lemma_dec_scalar_enc(k, sv);
        },
        (crate::schema::FieldKindV::MessageRef(nm), ValueV::Nested(child)) => {
            let cms = crate::registry::resolve_message_v(reg.messages, nm);
            let i = choose|i: int|
                0 <= i < reg.messages.len() && reg.messages[i].name == nm;
            assert(crate::schema::wf_message_schema(reg.messages[i]));
            lemma_rt_msg(reg, cms, child, (fuel - 1) as nat);
        },
        _ => {},
    }
}

/// Decoding one map entry inverts its encoding.
pub proof fn lemma_rt_entry(
    reg: crate::registry::RegistryV,
    kk: crate::schema::ScalarKind,
    vkind: crate::schema::FieldKindV,
    k: ScalarV,
    v: ValueV,
    fuel: nat,
)
    requires
        crate::registry::wf_registry(reg),
        crate::message::scalar_matches(kk, k),
        crate::message::wf_value(reg, vkind, v),
        fuel_ok_value(v, fuel),
    ensures
        interp_entry(entry_bytes(k, v), kk, vkind, reg, fuel) == Ok::<
            (ScalarV, ValueV),
            DecodeError,
        >((k, canon_value(reg, vkind, v))),
    decreases v, 1int,
{
    let items2 = seq![(1u32, scalar_payload(k)), (2u32, value_payload(v))];
    assert(items2[0] == (1u32, scalar_payload(k)));
    assert(items2.drop_first() =~= seq![(2u32, value_payload(v))]);
    assert(items2.drop_first()[0] == (2u32, value_payload(v)));
    assert(items2.drop_first().drop_first() =~= Seq::<(u32, PayloadV)>::empty());
    assert(enc_items(items2.drop_first().drop_first()) =~= Seq::<u8>::empty());
    assert(enc_items(items2.drop_first()) =~= enc_item(2u32, value_payload(v)));
    assert(entry_bytes(k, v) =~= enc_items(items2));
    assert(wf_items(items2));
    lemma_toks_enc(items2);
    assert(toks(entry_bytes(k, v)) == Ok::<Seq<(u32, PayloadV)>, DecodeError>(items2));
    lemma_dec_scalar_enc(kk, k);
    lemma_rt_value(reg, vkind, v, fuel);
}

/// Folding the unpacked items of remaining elements extends the last
/// (repeated) entry of the accumulator, element by element.
pub proof fn lemma_rt_rep(
    reg: crate::registry::RegistryV,
    ms: crate::schema::MessageSchemaV,
    n: u32,
    es: Seq<ValueV>,
    rest: Seq<(u32, PayloadV)>,
    base: Seq<(u32, FieldValueV)>,
    done: Seq<ValueV>,
    unk: Seq<UnknownV>,
    fuel: nat,
)
    requires
        crate::registry::wf_registry(reg),
        crate::schema::wf_message_schema(ms),
        crate::schema::find_field(ms, n) is Some,
        crate::schema::find_field(ms, n)->Some_0.card == crate::schema::Cardinality::Repeated,
        !kind_packs(crate::schema::find_field(ms, n)->Some_0.kind),
        forall|i: int|
            0 <= i < es.len() ==> crate::message::wf_value(
                reg,
                crate::schema::find_field(ms, n)->Some_0.kind,
                #[trigger] es[i],
            ),
        forall|j: int| 0 <= j < base.len() ==> (#[trigger] base[j]).0 != n,
        fuel >= enc_items(rep_items(n, es) + rest).len(),
    ensures
        interp_items(
            rep_items(n, es) + rest,
            ms,
            reg,
            MsgV { fields: base.push((n, FieldValueV::Repeated(done))), unknown: unk },
            fuel,
        ) == interp_items(
            rest,
            ms,
            reg,
            MsgV {
                fields: base.push(
                    (
                        n,
                        FieldValueV::Repeated(
                            done + canon_values(
                                reg,
                                crate::schema::find_field(ms, n)->Some_0.kind,
                                es,
                            ),
                        ),
                    ),
                ),
                unknown: unk,
            },
            fuel,
        ),
    decreases es, 1int,
{
    let acc = MsgV { fields: base.push((n, FieldValueV::Repeated(done))), unknown: unk };
    if es.len() == 0 {
        assert(rep_items(n, es) + rest =~= rest);
        assert(done + canon_values(reg, crate::schema::find_field(ms, n)->Some_0.kind, es)
            =~= done);
    } else {
        let f = crate::schema::find_field(ms, n)->Some_0;
        let head = (n, value_payload(es[0]));
        let tail_items = rep_items(n, es.drop_first()) + rest;
        assert(rep_items(n, es) =~= seq![head] + rep_items(n, es.drop_first()));
        assert(rep_items(n, es) + rest =~= seq![head] + tail_items);
        assert((seq![head] + tail_items)[0] == head);
        assert((seq![head] + tail_items).drop_first() =~= tail_items);
        lemma_enc_items_len(seq![head], tail_items);
        assert(seq![head] + tail_items =~= rep_items(n, es) + rest);
        lemma_enc_item_len(n, value_payload(es[0]));
        assert(enc_items(seq![head]) =~= enc_item(n, head.1) + enc_items(
            Seq::<(u32, PayloadV)>::empty(),
        ));
        lemma_rt_value(reg, f.kind, es[0], fuel);
        assert(acc.fields[base.len() as int].0 == n);
        assert(crate::message::has_field_v(acc.fields, n));
        let c = crate::message::field_idx_v(acc.fields, n);
        assert(acc.fields[c].0 == n);
        if c < base.len() as int {
            assert(acc.fields[c] == base[c]);
            assert(base[c].0 != n);
        }
        assert(c == base.len() as int);
        let acc2 = crate::message::append_elem_v(acc, n, canon_value(reg, f.kind, es[0]));
        assert(acc2.fields =~= base.push(
            (n, FieldValueV::Repeated(done.push(canon_value(reg, f.kind, es[0])))),
        ));
        assert forall|i: int|
            0 <= i < es.drop_first().len() implies crate::message::wf_value(
            reg,
            crate::schema::find_field(ms, n)->Some_0.kind,
            #[trigger] es.drop_first()[i],
        ) by {
            assert(es.drop_first()[i] == es[i + 1]);
        }
        lemma_rt_rep(
            reg,
            ms,
            n,
            es.drop_first(),
            rest,
            base,
            done.push(canon_value(reg, f.kind, es[0])),
            unk,
            fuel,
        );
        assert(done.push(canon_value(reg, f.kind, es[0])) + canon_values(
            reg,
            f.kind,
            es.drop_first(),
        ) =~= done + canon_values(reg, f.kind, es));
    }
}

/// Folding the map-entry items of remaining entries extends the last
/// (map) entry of the accumulator, entry by entry.
pub proof fn lemma_rt_map(
    reg: crate::registry::RegistryV,
    ms: crate::schema::MessageSchemaV,
    n: u32,
    es: Seq<(ScalarV, ValueV)>,
    rest: Seq<(u32, PayloadV)>,
    base: Seq<(u32, FieldValueV)>,
    done: Seq<(ScalarV, ValueV)>,
    unk: Seq<UnknownV>,
    fuel: nat,
)
    requires
        crate::registry::wf_registry(reg),
        crate::schema::wf_message_schema(ms),
        crate::schema::find_field(ms, n) is Some,
        crate::schema::find_field(ms, n)->Some_0.card matches crate::schema::Cardinality::Mapped(
            kk,
        ) && forall|i: int|
            0 <= i < es.len() ==> crate::message::scalar_matches(kk, (#[trigger] es[i]).0),
        forall|i: int|
            0 <= i < es.len() ==> crate::message::wf_value(
                reg,
                crate::schema::find_field(ms, n)->Some_0.kind,
                (#[trigger] es[i]).1,
            ),
        forall|i: int, j: int| 0 <= i < j < es.len() ==> es[i].0 != es[j].0,
        forall|i: int, j: int|
            0 <= i < es.len() && 0 <= j < done.len() ==> (#[trigger] done[j]).0 != (
            #[trigger] es[i]).0,
        forall|j: int| 0 <= j < base.len() ==> (#[trigger] base[j]).0 != n,
        fuel >= enc_items(map_items(n, es) + rest).len(),
    ensures
        interp_items(
            map_items(n, es) + rest,
            ms,
            reg,
            MsgV { fields: base.push((n, FieldValueV::MapEntries(done))), unknown: unk },
            fuel,
        ) == interp_items(
            rest,
            ms,
            reg,
            MsgV {
                fields: base.push(
                    (
                        n,
                        FieldValueV::MapEntries(
                            done + canon_entries(
                                reg,
                                crate::schema::find_field(ms, n)->Some_0.kind,
                                es,
                            ),
                        ),
                    ),
                ),
                unknown: unk,
            },
            fuel,
        ),
    decreases es, 1int,
{
    let acc = MsgV { fields: base.push((n, FieldValueV::MapEntries(done))), unknown: unk };
    if es.len() == 0 {
        assert(map_items(n, es) + rest =~= rest);
        assert(done + canon_entries(reg, crate::schema::find_field(ms, n)->Some_0.kind, es)
            =~= done);
    } else {
        let f = crate::schema::find_field(ms, n)->Some_0;
        let kk = f.card->Mapped_0;
        let eb = entry_bytes(es[0].0, es[0].1);
        let head = (n, PayloadV::LenDelim(eb));
        let tail_items = map_items(n, es.drop_first()) + rest;
        assert(map_items(n, es) =~= seq![head] + map_items(n, es.drop_first()));
        assert(map_items(n, es) + rest =~= seq![head] + tail_items);
        assert((seq![head] + tail_items)[0] == head);
        assert((seq![head] + tail_items).drop_first() =~= tail_items);
        lemma_enc_items_len(seq![head], tail_items);
        assert(seq![head] + tail_items =~= map_items(n, es) + rest);
        lemma_enc_item_len(n, head.1);
        assert(enc_items(seq![head]) =~= enc_item(n, head.1) + enc_items(
            Seq::<(u32, PayloadV)>::empty(),
        ));
        lemma_enc_item_len(2u32, value_payload(es[0].1));
        assert(eb.len() >= enc_item(2u32, value_payload(es[0].1)).len());
        lemma_rt_entry(reg, kk, f.kind, es[0].0, es[0].1, fuel);
        assert(acc.fields[base.len() as int].0 == n);
        assert(crate::message::has_field_v(acc.fields, n));
        let c = crate::message::field_idx_v(acc.fields, n);
        assert(acc.fields[c].0 == n);
        if c < base.len() as int {
            assert(acc.fields[c] == base[c]);
            assert(base[c].0 != n);
        }
        assert(c == base.len() as int);
        let acc2 = crate::message::upsert_entry_v(
            acc,
            n,
            es[0].0,
            canon_value(reg, f.kind, es[0].1),
        );
        assert(!(exists|j: int| 0 <= j < done.len() && done[j].0 == es[0].0));
        assert(acc2.fields =~= base.push(
            (
                n,
                FieldValueV::MapEntries(done.push((es[0].0, canon_value(reg, f.kind, es[0].1)))),
            ),
        ));
        assert forall|i: int|
            0 <= i < es.drop_first().len() implies crate::message::scalar_matches(
            kk,
            (#[trigger] es.drop_first()[i]).0,
        ) && crate::message::wf_value(reg, f.kind, es.drop_first()[i].1) by {
            assert(es.drop_first()[i] == es[i + 1]);
        }
        assert forall|i: int, j: int|
            0 <= i < j < es.drop_first().len() implies es.drop_first()[i].0 != es.drop_first()[
            j
        ].0 by {
            assert(es.drop_first()[i] == es[i + 1]);
            assert(es.drop_first()[j] == es[j + 1]);
        }
        let done2 = done.push((es[0].0, canon_value(reg, f.kind, es[0].1)));
        assert forall|i: int, j: int|
            0 <= i < es.drop_first().len() && 0 <= j < done2.len() implies (
        #[trigger] done2[j]).0 != (#[trigger] es.drop_first()[i]).0 by {
            assert(es.drop_first()[i] == es[i + 1]);
            if j < done.len() {
                assert(done2[j] == done[j]);
            }
        }
        lemma_rt_map(reg, ms, n, es.drop_first(), rest, base, done2, unk, fuel);
        assert(done2 + canon_entries(reg, f.kind, es.drop_first()) =~= done + canon_entries(
            reg,
            f.kind,
            es,
        ));
    }
}

/// Folding one field's items into a fresh accumulator appends exactly
/// its canonicalized entry (or nothing, for an empty container).
#[verifier::rlimit(100)]
pub proof fn lemma_rt_one_field(
    reg: crate::registry::RegistryV,
    ms: crate::schema::MessageSchemaV,
    n: u32,
    fv: FieldValueV,
    rest: Seq<(u32, PayloadV)>,
    acc: MsgV,
    fuel: nat,
)
    requires
        crate::registry::wf_registry(reg),
        crate::schema::wf_message_schema(ms),
        crate::schema::find_field(ms, n) is Some,
        crate::message::wf_field_value(reg, crate::schema::find_field(ms, n)->Some_0, fv),
        !crate::message::has_field_v(acc.fields, n),
        fuel >= enc_items(items_of_field(n, fv) + rest).len(),
    ensures
        interp_items(items_of_field(n, fv) + rest, ms, reg, acc, fuel) == interp_items(
            rest,
            ms,
            reg,
            after_field(reg, crate::schema::find_field(ms, n)->Some_0.kind, acc, n, fv),
            fuel,
        ),
    decreases fv, 2int,
{
    let f = crate::schema::find_field(ms, n)->Some_0;
    match fv {
        FieldValueV::Single(v) => {
            let head = (n, value_payload(v));
            assert(items_of_field(n, fv) + rest =~= seq![head] + rest);
            assert((seq![head] + rest)[0] == head);
            assert((seq![head] + rest).drop_first() =~= rest);
            lemma_enc_items_len(seq![head], rest);
            assert(seq![head] + rest =~= items_of_field(n, fv) + rest);
            lemma_enc_item_len(n, head.1);
            assert(enc_items(seq![head]) =~= enc_item(n, head.1) + enc_items(
                Seq::<(u32, PayloadV)>::empty(),
            ));
            lemma_rt_value(reg, f.kind, v, fuel);
            let acc2 = crate::message::set_single_v(acc, n, canon_value(reg, f.kind, v));
            assert(acc2 == after_field(reg, f.kind, acc, n, fv));
        },
        FieldValueV::Repeated(es) => {
            if es.len() == 0 {
                assert(items_of_field(n, fv) + rest =~= rest);
            } else if is_varint_value(es[0]) {
                assert(kind_packs(f.kind)) by {
                    assert(crate::message::wf_value(reg, f.kind, es[0]));
                }
                assert forall|i: int|
                    0 <= i < es.len() implies is_varint_value(#[trigger] es[i]) && match f.kind {
                    crate::schema::FieldKindV::Scalar(k) => crate::message::scalar_matches(
                        k,
                        es[i]->Scalar_0,
                    ) && es[i] matches ValueV::Scalar(_),
                    crate::schema::FieldKindV::Enumeration(_) => es[i] matches ValueV::EnumNum(
                        _,
                    ),
                    crate::schema::FieldKindV::MessageRef(_) => false,
                } by {
                    assert(crate::message::wf_value(reg, f.kind, es[i]));
                }
                let head = (n, PayloadV::LenDelim(packed_payload(es)));
                assert(items_of_field(n, fv) + rest =~= seq![head] + rest);
                assert((seq![head] + rest)[0] == head);
                assert((seq![head] + rest).drop_first() =~= rest);
                assert(seq![head] + rest =~= items_of_field(n, fv) + rest);
                lemma_dec_packed_enc(f.kind, es);
                let m1 = crate::message::append_elem_v(acc, n, es[0]);
                assert(m1.fields =~= acc.fields.push((n, FieldValueV::Repeated(seq![es[0]]))));
                assert forall|j: int|
                    0 <= j < acc.fields.len() implies (#[trigger] acc.fields[j]).0 != n by {}
                lemma_append_fold_entry(
                    acc.fields,
                    seq![es[0]],
                    acc.unknown,
                    n,
                    es.drop_first(),
                );
                assert(seq![es[0]] + es.drop_first() =~= es);
                assert(append_fold(acc, n, es) == (MsgV {
                    fields: acc.fields.push((n, FieldValueV::Repeated(es))),
                    unknown: acc.unknown,
                }));
                lemma_canon_values_flat(reg, f.kind, es);
                assert(after_field(reg, f.kind, acc, n, fv) == (MsgV {
                    fields: acc.fields.push((n, FieldValueV::Repeated(es))),
                    unknown: acc.unknown,
                }));
            } else {
                assert(!kind_packs(f.kind)) by {
                    assert(crate::message::wf_value(reg, f.kind, es[0]));
                }
                let head = (n, value_payload(es[0]));
                let tail_items = rep_items(n, es.drop_first()) + rest;
                assert(rep_items(n, es) =~= seq![head] + rep_items(n, es.drop_first()));
                assert(items_of_field(n, fv) + rest =~= seq![head] + tail_items);
                assert((seq![head] + tail_items)[0] == head);
                assert((seq![head] + tail_items).drop_first() =~= tail_items);
                lemma_enc_items_len(seq![head], tail_items);
                assert(seq![head] + tail_items =~= items_of_field(n, fv) + rest);
                lemma_enc_item_len(n, head.1);
                assert(enc_items(seq![head]) =~= enc_item(n, head.1) + enc_items(
                    Seq::<(u32, PayloadV)>::empty(),
                ));
                assert(crate::message::wf_value(reg, f.kind, es[0]));
                lemma_rt_value(reg, f.kind, es[0], fuel);
                let acc2 = crate::message::append_elem_v(acc, n, canon_value(reg, f.kind, es[0]));
                assert(acc2.fields =~= acc.fields.push(
                    (n, FieldValueV::Repeated(seq![canon_value(reg, f.kind, es[0])])),
                ));
                assert forall|i: int|
                    0 <= i < es.drop_first().len() implies crate::message::wf_value(
                    reg,
                    crate::schema::find_field(ms, n)->Some_0.kind,
                    #[trigger] es.drop_first()[i],
                ) by {
                    assert(es.drop_first()[i] == es[i + 1]);
                }
                assert forall|j: int|
                    0 <= j < acc.fields.len() implies (#[trigger] acc.fields[j]).0 != n by {}
                lemma_rt_rep(
                    reg,
                    ms,
                    n,
                    es.drop_first(),
                    rest,
                    acc.fields,
                    seq![canon_value(reg, f.kind, es[0])],
                    acc.unknown,
                    fuel,
                );
                assert(seq![canon_value(reg, f.kind, es[0])] + canon_values(
                    reg,
                    f.kind,
                    es.drop_first(),
                ) =~= canon_values(reg, f.kind, es));
            }
        },
        FieldValueV::MapEntries(es) => {
            if es.len() == 0 {
                assert(items_of_field(n, fv) + rest =~= rest);
            } else {
                let kk = f.card->Mapped_0;
                let eb = entry_bytes(es[0].0, es[0].1);
                let head = (n, PayloadV::LenDelim(eb));
                let tail_items = map_items(n, es.drop_first()) + rest;
                assert(map_items(n, es) =~= seq![head] + map_items(n, es.drop_first()));
                assert(items_of_field(n, fv) + rest =~= seq![head] + tail_items);
                assert((seq![head] + tail_items)[0] == head);
                assert((seq![head] + tail_items).drop_first() =~= tail_items);
                lemma_enc_items_len(seq![head], tail_items);
                assert(seq![head] + tail_items =~= items_of_field(n, fv) + rest);
                lemma_enc_item_len(n, head.1);
                assert(enc_items(seq![head]) =~= enc_item(n, head.1) + enc_items(
                    Seq::<(u32, PayloadV)>::empty(),
                ));
                lemma_enc_item_len(2u32, value_payload(es[0].1));
                assert(eb.len() >= enc_item(2u32, value_payload(es[0].1)).len());
                lemma_rt_entry(reg, kk, f.kind, es[0].0, es[0].1, fuel);
                let acc2 = crate::message::upsert_entry_v(
                    acc,
                    n,
                    es[0].0,
                    canon_value(reg, f.kind, es[0].1),
                );
                assert(acc2.fields =~= acc.fields.push(
                    (
                        n,
                        FieldValueV::MapEntries(
                            seq![(es[0].0, canon_value(reg, f.kind, es[0].1))],
                        ),
                    ),
                ));
                assert forall|i: int|
                    0 <= i < es.drop_first().len() implies crate::message::scalar_matches(
                    kk,
                    (#[trigger] es.drop_first()[i]).0,
                ) && crate::message::wf_value(reg, f.kind, es.drop_first()[i].1) by {
                    assert(es.drop_first()[i] == es[i + 1]);
                }
                assert forall|i: int, j: int|
                    0 <= i < j < es.drop_first().len() implies es.drop_first()[i].0
                    != es.drop_first()[j].0 by {
                    assert(es.drop_first()[i] == es[i + 1]);
                    assert(es.drop_first()[j] == es[j + 1]);
                }
                let done1 = seq![(es[0].0, canon_value(reg, f.kind, es[0].1))];
                assert forall|i: int, j: int|
                    0 <= i < es.drop_first().len() && 0 <= j < done1.len() implies (
                #[trigger] done1[j]).0 != (#[trigger] es.drop_first()[i]).0 by {
                    assert(es.drop_first()[i] == es[i + 1]);
                }
                assert forall|j: int|
                    0 <= j < acc.fields.len() implies (#[trigger] acc.fields[j]).0 != n by {}
                lemma_rt_map(
                    reg,
                    ms,
                    n,
                    es.drop_first(),
                    rest,
                    acc.fields,
                    done1,
                    acc.unknown,
                    fuel,
                );
                assert(done1 + canon_entries(reg, f.kind, es.drop_first()) =~= canon_entries(
                    reg,
                    f.kind,
                    es,
                ));
            }
        },
    }
}

/// Folding a whole field list and the trailing unknowns into a fresh
/// accumulator yields exactly the canonicalized surviving fields and
/// the unknowns.
pub proof fn lemma_rt_fields(
    reg: crate::registry::RegistryV,
    ms: crate::schema::MessageSchemaV,
    fs: Seq<(u32, FieldValueV)>,
    us: Seq<UnknownV>,
    acc: MsgV,
    fuel: nat,
)
    requires
        crate::registry::wf_registry(reg),
        crate::schema::wf_message_schema(ms),
        forall|i: int|
            0 <= i < fs.len() ==> match crate::schema::find_field(ms, (#[trigger] fs[i]).0) {
                Some(f) => crate::message::wf_field_value(reg, f, fs[i].1),
                None => false,
            },
        forall|i: int, j: int| 0 <= i < j < fs.len() ==> fs[i].0 != fs[j].0,
        forall|i: int|
            0 <= i < fs.len() ==> !crate::message::has_field_v(acc.fields, (#[trigger] fs[i]).0),
        forall|i: int|
            0 <= i < us.len() ==> crate::schema::find_field(ms, (#[trigger] us[i]).number)
                is None,
        fuel >= enc_items(items_of_fields(fs) + items_of_unknowns(us)).len(),
    ensures
        interp_items(items_of_fields(fs) + items_of_unknowns(us), ms, reg, acc, fuel) == Ok::<
            MsgV,
            DecodeError,
        >(MsgV { fields: acc.fields + canon_pop(reg, ms, fs), unknown: acc.unknown + us }),
    decreases fs, 3int,
{
    if fs.len() == 0 {
        assert(items_of_fields(fs) + items_of_unknowns(us) =~= items_of_unknowns(us));
        lemma_items_of_unknowns_index(us);
        assert forall|i: int|
            0 <= i < items_of_unknowns(us).len() implies crate::schema::find_field(
            ms,
            (#[trigger] items_of_unknowns(us)[i]).0,
        ) is None by {
            assert(items_of_unknowns(us)[i] == (us[i].number, us[i].payload));
        }
        lemma_interp_preserves_unknowns(items_of_unknowns(us), ms, reg, acc, fuel);
        let out = interp_items(items_of_unknowns(us), ms, reg, acc, fuel)->Ok_0;
        assert forall|j: int| 0 <= j < out.unknown.len() implies out.unknown[j] == (acc.unknown
            + us)[j] by {
            if j >= acc.unknown.len() {
                assert(items_of_unknowns(us)[j - acc.unknown.len()] == (
                    us[j - acc.unknown.len()].number,
                    us[j - acc.unknown.len()].payload,
                ));
            }
        }
        assert(out.unknown =~= acc.unknown + us);
        assert(acc.fields + canon_pop(reg, ms, fs) =~= acc.fields);
        assert(out == (MsgV {
            fields: acc.fields + canon_pop(reg, ms, fs),
            unknown: acc.unknown + us,
        }));
    } else {
        let a = items_of_field(fs[0].0, fs[0].1);
        let b = items_of_fields(fs.drop_first());
        let c = items_of_unknowns(us);
        assert(items_of_fields(fs) =~= a + b);
        assert((a + b) + c =~= a + (b + c));
        assert(items_of_fields(fs) + c =~= a + (b + c));
        lemma_enc_items_len(a, b + c);
        lemma_enc_items_len(b, c);
        lemma_enc_items_len(a + b, c);
        lemma_enc_items_len(a, b);
        lemma_rt_one_field(reg, ms, fs[0].0, fs[0].1, b + c, acc, fuel);
        let acc2 = after_field(
            reg,
            crate::schema::find_field(ms, fs[0].0)->Some_0.kind,
            acc,
            fs[0].0,
            fs[0].1,
        );
        assert forall|i: int|
            0 <= i < fs.drop_first().len() implies match crate::schema::find_field(
            ms,
            (#[trigger] fs.drop_first()[i]).0,
        ) {
            Some(f) => crate::message::wf_field_value(reg, f, fs.drop_first()[i].1),
            None => false,
        } by {
            assert(fs.drop_first()[i] == fs[i + 1]);
        }
        assert forall|i: int, j: int|
            0 <= i < j < fs.drop_first().len() implies fs.drop_first()[i].0 != fs.drop_first()[
            j
        ].0 by {
            assert(fs.drop_first()[i] == fs[i + 1]);
            assert(fs.drop_first()[j] == fs[j + 1]);
        }
        assert forall|i: int|
            0 <= i < fs.drop_first().len() implies !crate::message::has_field_v(
            acc2.fields,
            (#[trigger] fs.drop_first()[i]).0,
        ) by {
            assert(fs.drop_first()[i] == fs[i + 1]);
            if crate::message::has_field_v(acc2.fields, fs[i + 1].0) {
                let w = choose|w: int|
                    0 <= w < acc2.fields.len() && acc2.fields[w].0 == fs[i + 1].0;
                if !is_empty_container(fs[0].1) {
                    if w < acc.fields.len() {
                        assert(crate::message::has_field_v(acc.fields, fs[i + 1].0));
                    } else {
                        assert(acc2.fields[w].0 == fs[0].0);
                    }
                } else {
                    assert(crate::message::has_field_v(acc.fields, fs[i + 1].0));
                }
            }
        }
        lemma_rt_fields(reg, ms, fs.drop_first(), us, acc2, fuel);
        if is_empty_container(fs[0].1) {
            assert(acc2.fields + canon_pop(reg, ms, fs.drop_first()) =~= acc.fields + canon_pop(
                reg,
                ms,
                fs,
            ));
        } else {
            assert(acc2.fields + canon_pop(reg, ms, fs.drop_first()) =~= acc.fields + (seq![
                (
                    fs[0].0,
                    canon_fv(
                        reg,
                        crate::schema::find_field(ms, fs[0].0)->Some_0.kind,
                        fs[0].1,
                    ),
                ),
            ] + canon_pop(reg, ms, fs.drop_first())));
        }
    }
}

/// Decoding a message's own encoding, with any sufficient fuel, yields
/// its normalization.
pub proof fn lemma_rt_msg(
    reg: crate::registry::RegistryV,
    ms: crate::schema::MessageSchemaV,
    m: MsgV,
    fuel: nat,
)
    requires
        crate::registry::wf_registry(reg),
        crate::schema::wf_message_schema(ms),
        crate::message::wf_msg(reg, ms, m),
        fuel >= enc_msg(m).len(),
    ensures
        dec_msg(enc_msg(m), ms, reg, fuel) == Ok::<MsgV, DecodeError>(canon_msg(reg, ms, m)),
    decreases m, 4int,
{
    lemma_items_of_msg_wf(reg, ms, m);
    lemma_toks_enc(items_of_msg(m));
    let acc = crate::message::empty_msg_v();
    assert forall|i: int|
        0 <= i < m.fields.len() implies !crate::message::has_field_v(
        acc.fields,
        (#[trigger] m.fields[i]).0,
    ) by {}
    lemma_rt_fields(reg, ms, m.fields, m.unknown, acc, fuel);
    assert(acc.fields + canon_pop(reg, ms, m.fields) =~= canon_pop(reg, ms, m.fields));
    assert(acc.unknown + m.unknown =~= m.unknown);
}

/// Law: decoding a message's wire encoding yields the message itself,
/// after normalizing absent-vs-default container fields — encoding then
/// decoding never loses or invents populated state.
pub proof fn lemma_encode_decode_roundtrip(
    reg: crate::registry::RegistryV,
    ms: crate::schema::MessageSchemaV,
    m: MsgV,
)
    requires
        crate::registry::wf_registry(reg),
        crate::schema::wf_message_schema(ms),
        crate::message::wf_msg(reg, ms, m),
    ensures
        decode_spec(enc_msg(m), ms, reg) == Ok::<MsgV, DecodeError>(canon_msg(reg, ms, m)),
{
    lemma_rt_msg(reg, ms, m, enc_msg(m).len());
}

/// A non-member field with an eager default appears in the default
/// field list, carrying exactly that default.
pub proof fn lemma_default_contains(
    ms: crate::schema::MessageSchemaV,
    fs: Seq<crate::schema::FieldSchemaV>,
    i: int,
)
    requires
        0 <= i < fs.len(),
        !crate::message::is_oneof_member(ms, fs[i].number),
        crate::message::default_field_value(fs[i]) is Some,
    ensures
        exists|j: int|
            0 <= j < crate::message::default_fields(ms, fs).len()
                && #[trigger] crate::message::default_fields(ms, fs)[j] == (
                fs[i].number,
                crate::message::default_field_value(fs[i])->Some_0,
            ),
    decreases i,
{
    let whole = crate::message::default_fields(ms, fs);
    let head = crate::message::default_entry(ms, fs[0]);
    if i == 0 {
        assert(whole[0] == (fs[0].number, crate::message::default_field_value(fs[0])->Some_0));
    } else {
        assert(fs.drop_first()[i - 1] == fs[i]);
        lemma_default_contains(ms, fs.drop_first(), i - 1);
        let j = choose|j: int|
            0 <= j < crate::message::default_fields(ms, fs.drop_first()).len()
                && #[trigger] crate::message::default_fields(ms, fs.drop_first())[j] == (
                fs.drop_first()[i - 1].number,
                crate::message::default_field_value(fs.drop_first()[i - 1])->Some_0,
            );
        assert(whole[head.len() + j] == crate::message::default_fields(ms, fs.drop_first())[j]);
    }
}

/// Canonicalizing a field list whose values hold no nested messages
/// keeps exactly its nonempty entries, values unchanged.
pub proof fn lemma_canon_pop_flat(
    reg: crate::registry::RegistryV,
    ms: crate::schema::MessageSchemaV,
    fs: Seq<(u32, FieldValueV)>,
)
    requires
        forall|i: int|
            0 <= i < fs.len() ==> ((#[trigger] fs[i]).1 matches FieldValueV::Single(v)
                && !(v is Nested)) || is_empty_container(fs[i].1),
        forall|i: int, j: int| 0 <= i < j < fs.len() ==> fs[i].0 != fs[j].0,
    ensures
        forall|n: u32|
            #[trigger] crate::message::has_field_v(canon_pop(reg, ms, fs), n) == (exists|i: int|
                0 <= i < fs.len() && (#[trigger] fs[i]).0 == n && !is_empty_container(fs[i].1)),
        forall|n: u32|
            #[trigger] crate::message::has_field_v(canon_pop(reg, ms, fs), n) ==> exists|i: int|
                0 <= i < fs.len() && (#[trigger] fs[i]).0 == n && canon_pop(reg, ms, fs)[
                    crate::message::field_idx_v(canon_pop(reg, ms, fs), n)
                ].1 == fs[i].1,
        forall|a: int, b: int|
            0 <= a < b < canon_pop(reg, ms, fs).len() ==> canon_pop(reg, ms, fs)[a].0 != canon_pop(
                reg,
                ms,
                fs,
            )[b].0,
    decreases fs.len(),
{
    let p = canon_pop(reg, ms, fs);
    if fs.len() > 0 {
        assert forall|i: int, j: int|
            0 <= i < j < fs.drop_first().len() implies fs.drop_first()[i].0 != fs.drop_first()[
            j
        ].0 by {
            assert(fs.drop_first()[i] == fs[i + 1]);
            assert(fs.drop_first()[j] == fs[j + 1]);
        }
        assert forall|i: int|
            0 <= i < fs.drop_first().len() implies ((#[trigger] fs.drop_first()[i]).1 matches
            FieldValueV::Single(v) && !(v is Nested)) || is_empty_container(
            fs.drop_first()[i].1,
        ) by {
            assert(fs.drop_first()[i] == fs[i + 1]);
        }
        lemma_canon_pop_flat(reg, ms, fs.drop_first());
        let pr = canon_pop(reg, ms, fs.drop_first());
        if is_empty_container(fs[0].1) {
            assert(p == pr);
            assert forall|n: u32| #[trigger] crate::message::has_field_v(p, n) == (exists|i: int|
                0 <= i < fs.len() && (#[trigger] fs[i]).0 == n && !is_empty_container(
                    fs[i].1,
                )) by {
                if exists|i: int|
                    0 <= i < fs.len() && (#[trigger] fs[i]).0 == n && !is_empty_container(
                        fs[i].1,
                    ) {
                    let i = choose|i: int|
                        0 <= i < fs.len() && (#[trigger] fs[i]).0 == n && !is_empty_container(
                            fs[i].1,
                        );
                    assert(i > 0);
                    assert(fs.drop_first()[i - 1] == fs[i]);
                    assert(crate::message::has_field_v(pr, n));
                }
                if crate::message::has_field_v(pr, n) {
                    let i = choose|i: int|
                        0 <= i < fs.drop_first().len() && (#[trigger] fs.drop_first()[i]).0 == n
                            && !is_empty_container(fs.drop_first()[i].1);
                    assert(fs.drop_first()[i] == fs[i + 1]);
                }
            }
            assert forall|n: u32|
                #[trigger] crate::message::has_field_v(p, n) implies exists|i: int|
                0 <= i < fs.len() && (#[trigger] fs[i]).0 == n && p[
                    crate::message::field_idx_v(p, n)
                ].1 == fs[i].1 by {
                let i = choose|i: int|
                    0 <= i < fs.drop_first().len() && (#[trigger] fs.drop_first()[i]).0 == n && pr[
                        crate::message::field_idx_v(pr, n)
                    ].1 == fs.drop_first()[i].1;
                assert(fs.drop_first()[i] == fs[i + 1]);
            }
        } else {
            let v0 = fs[0].1->Single_0;
            assert(canon_value(
                reg,
                match crate::schema::find_field(ms, fs[0].0) {
                    Some(f) => f.kind,
                    None => crate::schema::FieldKindV::Scalar(crate::schema::ScalarKind::Bool),
                },
                v0,
            ) == v0);
            let entry = match crate::schema::find_field(ms, fs[0].0) {
                Some(f) => (fs[0].0, canon_fv(reg, f.kind, fs[0].1)),
                None => fs[0],
            };
            assert(entry == fs[0]);
            assert(p == seq![fs[0]] + pr);
            assert forall|n: u32| #[trigger] crate::message::has_field_v(p, n) == (exists|i: int|
                0 <= i < fs.len() && (#[trigger] fs[i]).0 == n && !is_empty_container(
                    fs[i].1,
                )) by {
                if crate::message::has_field_v(p, n) {
                    let w = choose|w: int| 0 <= w < p.len() && p[w].0 == n;
                    if w == 0 {
                        assert(fs[0].0 == n && !is_empty_container(fs[0].1));
                    } else {
                        assert(p[w] == pr[w - 1]);
                        assert(crate::message::has_field_v(pr, n));
                        let i = choose|i: int|
                            0 <= i < fs.drop_first().len() && (#[trigger] fs.drop_first()[i]).0
                                == n && !is_empty_container(fs.drop_first()[i].1);
                        assert(fs.drop_first()[i] == fs[i + 1]);
                    }
                }
                if exists|i: int|
                    0 <= i < fs.len() && (#[trigger] fs[i]).0 == n && !is_empty_container(
                        fs[i].1,
                    ) {
                    let i = choose|i: int|
                        0 <= i < fs.len() && (#[trigger] fs[i]).0 == n && !is_empty_container(
                            fs[i].1,
                        );
                    if i == 0 {
                        assert(p[0].0 == n);
                    } else {
                        assert(fs.drop_first()[i - 1] == fs[i]);
                        assert(crate::message::has_field_v(pr, n));
                        let w = choose|w: int| 0 <= w < pr.len() && pr[w].0 == n;
                        assert(p[w + 1] == pr[w]);
                    }
                }
            }
            assert forall|n: u32|
                #[trigger] crate::message::has_field_v(p, n) implies exists|i: int|
                0 <= i < fs.len() && (#[trigger] fs[i]).0 == n && p[
                    crate::message::field_idx_v(p, n)
                ].1 == fs[i].1 by {
                let c = crate::message::field_idx_v(p, n);
                assert(p[c].0 == n);
                if c == 0 {
                    assert(p[c].1 == fs[0].1);
                } else {
                    assert(p[c] == pr[c - 1]);
                    assert(crate::message::has_field_v(pr, n));
                    let cr = crate::message::field_idx_v(pr, n);
                    assert(pr[cr].0 == n);
                    let i0 = choose|i: int|
                        0 <= i < fs.drop_first().len() && (#[trigger] fs.drop_first()[i]).0 == n
                            && pr[crate::message::field_idx_v(pr, n)].1 == fs.drop_first()[i].1;
                    assert(fs.drop_first()[i0] == fs[i0 + 1]);
                    assert(fs[i0 + 1].0 == n);
                    assert(fs[0].0 != fs[i0 + 1].0);
                    assert(pr[cr].1 == fs[i0 + 1].1);
                    assert(p[cr + 1] == pr[cr]);
                    assert(p[c] == pr[c - 1]);
                    if c - 1 != cr {
                        if c - 1 < cr {
                            assert(pr[c - 1].0 != pr[cr].0);
                        } else {
                            assert(pr[cr].0 != pr[c - 1].0);
                        }
                    }
                    assert(c == cr + 1);
                }
            }
            assert forall|a: int, b: int| 0 <= a < b < p.len() implies p[a].0 != p[b].0 by {
                if a == 0 {
                    assert(p[b] == pr[b - 1]);
                    assert(crate::message::has_field_v(pr, pr[b - 1].0));
                    let i = choose|i: int|
                        0 <= i < fs.drop_first().len() && (#[trigger] fs.drop_first()[i]).0 == pr[
                            b - 1
                        ].0 && !is_empty_container(fs.drop_first()[i].1);
                    assert(fs.drop_first()[i] == fs[i + 1]);
                    assert(fs[0].0 != fs[i + 1].0);
                } else {
                    assert(p[a] == pr[a - 1]);
                    assert(p[b] == pr[b - 1]);
                }
            }
        }
    }
}

/// Default field lists hold only flat values: zero scalars, zero enum
/// numbers and empty containers, with unique numbers.
pub proof fn lemma_default_flat(ms: crate::schema::MessageSchemaV)
    requires
        crate::schema::wf_message_schema(ms),
    ensures
        forall|i: int|
            0 <= i < crate::message::default_fields(ms, ms.fields).len() ==> ((
            #[trigger] crate::message::default_fields(ms, ms.fields)[i]).1 matches
                FieldValueV::Single(v) && !(v is Nested)) || is_empty_container(
                crate::message::default_fields(ms, ms.fields)[i].1,
            ),
        forall|i: int, j: int|
            0 <= i < j < crate::message::default_fields(ms, ms.fields).len()
                ==> crate::message::default_fields(ms, ms.fields)[i].0
                != crate::message::default_fields(ms, ms.fields)[j].0,
{
    crate::message::lemma_default_fields_props(ms, ms.fields);
    let d = crate::message::default_fields(ms, ms.fields);
    assert forall|i: int| 0 <= i < d.len() implies ((#[trigger] d[i]).1 matches
        FieldValueV::Single(v) && !(v is Nested)) || is_empty_container(d[i].1) by {
        let i0 = choose|k: int|
            0 <= k < ms.fields.len() && (#[trigger] d[i]).0 == ms.fields[k].number
                && crate::message::default_field_value(ms.fields[k]) == Some(d[i].1)
                && !crate::message::is_oneof_member(ms, ms.fields[k].number);
        assert(crate::message::default_field_value(ms.fields[i0]) == Some(d[i].1));
    }
}

/// Arranged against the schema, the surviving default entries rebuild
/// the default field list itself: the builder's output is canonical.
pub proof fn lemma_arrange_default(
    reg: crate::registry::RegistryV,
    ms: crate::schema::MessageSchemaV,
    k: int,
)
    requires
        crate::schema::wf_message_schema(ms),
        0 <= k <= ms.fields.len(),
    ensures
        arrange_fields(
            ms.fields.skip(k),
            canon_pop(reg, ms, crate::message::default_fields(ms, ms.fields)),
        ) == crate::message::default_fields(ms, ms.fields.skip(k)),
    decreases ms.fields.len() - k,
{
    let d = crate::message::default_fields(ms, ms.fields);
    let p = canon_pop(reg, ms, d);
    crate::message::lemma_default_fields_props(ms, ms.fields);
    lemma_default_flat(ms);
    lemma_canon_pop_flat(reg, ms, d);
    let sf = ms.fields.skip(k);
    if k < ms.fields.len() {
        let f = ms.fields[k];
        let n = f.number;
        assert(sf[0] == f);
        assert(sf.drop_first() =~= ms.fields.skip(k + 1));
        lemma_arrange_default(reg, ms, k + 1);
        crate::registry::lemma_find_field_unique(ms, k);
        if crate::message::is_oneof_member(ms, n) {
            let (g, kk) = choose|g: int, kk: int|
                0 <= g < ms.oneofs.len() && 0 <= kk < ms.oneofs[g].len() && ms.oneofs[g][kk] == n;
            assert(crate::schema::singular_member(ms, ms.oneofs[g][kk]));
            assert(f.card == crate::schema::Cardinality::Singular);
            if crate::message::has_field_v(p, n) {
                let i = choose|i: int|
                    0 <= i < d.len() && (#[trigger] d[i]).0 == n && !is_empty_container(d[i].1);
                let i0 = choose|kk2: int|
                    0 <= kk2 < ms.fields.len() && (#[trigger] d[i]).0 == ms.fields[kk2].number
                        && crate::message::default_field_value(ms.fields[kk2]) == Some(d[i].1)
                        && !crate::message::is_oneof_member(ms, ms.fields[kk2].number);
                assert(false);
            }
            assert(arrange_one(f, p) =~= Seq::<(u32, FieldValueV)>::empty());
            assert(crate::message::default_entry(ms, f) =~= Seq::<(u32, FieldValueV)>::empty());
        } else {
            match crate::message::default_field_value(f) {
                Some(dv) => {
                    lemma_default_contains(ms, ms.fields, k);
                    let j = choose|j: int|
                        0 <= j < d.len() && #[trigger] d[j] == (n, dv);
                    if is_empty_container(dv) {
                        if crate::message::has_field_v(p, n) {
                            let i = choose|i: int|
                                0 <= i < d.len() && (#[trigger] d[i]).0 == n
                                    && !is_empty_container(d[i].1);
                            if i < j {
                                assert(d[i].0 != d[j].0);
                            } else if j < i {
                                assert(d[j].0 != d[i].0);
                            }
                            assert(false);
                        }
                        assert(is_container(f.card));
                        assert(empty_fv_of(f.card) == dv);
                        assert(arrange_one(f, p) =~= seq![(n, dv)]);
                    } else {
                        assert(crate::message::has_field_v(p, n));
                        let i = choose|i: int|
                            0 <= i < d.len() && (#[trigger] d[i]).0 == n && p[
                                crate::message::field_idx_v(p, n)
                            ].1 == d[i].1;
                        if i < j {
                            assert(d[i].0 != d[j].0);
                        } else if j < i {
                            assert(d[j].0 != d[i].0);
                        }
                        assert(d[i] == (n, dv));
                        assert(p[crate::message::field_idx_v(p, n)].1 == dv);
                        assert(arrange_one(f, p) =~= seq![(n, dv)]);
                    }
                    assert(crate::message::default_entry(ms, f) =~= seq![(n, dv)]);
                },
                None => {
                    if crate::message::has_field_v(p, n) {
                        let i = choose|i: int|
                            0 <= i < d.len() && (#[trigger] d[i]).0 == n && !is_empty_container(
                                d[i].1,
                            );
                        let i0 = choose|kk2: int|
                            0 <= kk2 < ms.fields.len() && (#[trigger] d[i]).0 == ms.fields[
                                kk2
                            ].number && crate::message::default_field_value(ms.fields[kk2])
                                == Some(d[i].1) && !crate::message::is_oneof_member(
                                ms,
                                ms.fields[kk2].number,
                            );
                            assert(ms.fields[i0].number == n);
                            if i0 < k {
                                assert(ms.fields[i0].number != ms.fields[k].number);
                            } else if k < i0 {
                                assert(ms.fields[k].number != ms.fields[i0].number);
                            }
                        assert(false);
                    }
                    assert(f.card == crate::schema::Cardinality::Singular);
                    assert(arrange_one(f, p) =~= Seq::<(u32, FieldValueV)>::empty());
                    assert(crate::message::default_entry(ms, f) =~= Seq::<
                        (u32, FieldValueV),
                    >::empty());
                },
            }
        }
        assert(arrange_fields(sf, p) =~= crate::message::default_fields(ms, sf));
    } else {
        assert(sf.len() == 0);
    }
}

/// Law: the builder's default message is canonical, so it round-trips
/// exactly: decoding the encoding of `build_default`'s output yields
/// that output unchanged, empty containers included.
pub proof fn lemma_default_roundtrip_exact(
    reg: crate::registry::RegistryV,
    ms: crate::schema::MessageSchemaV,
)
    requires
        crate::registry::wf_registry(reg),
        crate::schema::wf_message_schema(ms),
    ensures
        canon_msg(reg, ms, crate::message::default_msg(ms)) == crate::message::default_msg(ms),
        decode_spec(enc_msg(crate::message::default_msg(ms)), ms, reg) == Ok::<MsgV, DecodeError>(
            crate::message::default_msg(ms),
        ),
{
    lemma_arrange_default(reg, ms, 0);
    assert(ms.fields.skip(0) =~= ms.fields);
    crate::message::lemma_default_msg_wf(reg, ms);
    lemma_roundtrip_exact(reg, ms, crate::message::default_msg(ms));
}

/// Law: a canonical message — one whose fields stand in schema order
/// with every repeated and map field present (possibly empty), as the
/// builder produces — round trips exactly: decoding its own encoding
/// yields the message itself, losing no populated state.
pub proof fn lemma_roundtrip_exact(
    reg: crate::registry::RegistryV,
    ms: crate::schema::MessageSchemaV,
    m: MsgV,
)
    requires
        crate::registry::wf_registry(reg),
        crate::schema::wf_message_schema(ms),
        crate::message::wf_msg(reg, ms, m),
        canon_msg(reg, ms, m) == m,
    ensures
        decode_spec(enc_msg(m), ms, reg) == Ok::<MsgV, DecodeError>(m),
{
    lemma_encode_decode_roundtrip(reg, ms, m);
}

/// Arranging an empty decode result yields only empty containers, one
/// per repeated or map field of the schema.
pub proof fn lemma_arrange_of_empty(sfields: Seq<crate::schema::FieldSchemaV>)
    ensures
        forall|j: int|
            0 <= j < arrange_fields(sfields, Seq::<(u32, FieldValueV)>::empty()).len()
                ==> is_empty_container(
                (#[trigger] arrange_fields(sfields, Seq::<(u32, FieldValueV)>::empty())[j]).1,
            ),
    decreases sfields.len(),
{
    if sfields.len() > 0 {
        lemma_arrange_of_empty(sfields.drop_first());
        let got = Seq::<(u32, FieldValueV)>::empty();
        let whole = arrange_fields(sfields, got);
        let head = arrange_one(sfields[0], got);
        assert forall|j: int| 0 <= j < whole.len() implies is_empty_container(
            (#[trigger] whole[j]).1,
        ) by {
            if j < head.len() {
                assert(whole[j] == head[j]);
            } else {
                assert(whole[j] == arrange_fields(sfields.drop_first(), got)[j - head.len()]);
            }
        }
    }
}

/// Law (boundary): decoding an empty byte sequence never errs; it
/// yields a message with no unknowns and no non-default state — its
/// only fields are the schema's repeated and map fields, each an empty
/// container, in declaration order.
pub proof fn lemma_decode_empty(
    ms: crate::schema::MessageSchemaV,
    reg: crate::registry::RegistryV,
)
    ensures
        decode_spec(Seq::<u8>::empty(), ms, reg) matches Ok(m) && m.unknown.len() == 0
            && m.fields == arrange_fields(ms.fields, Seq::<(u32, FieldValueV)>::empty()) && (
        forall|j: int| 0 <= j < m.fields.len() ==> is_empty_container((#[trigger] m.fields[j]).1)),
{
    lemma_arrange_of_empty(ms.fields);
}

/// Arranging depends only on the presence and value of the schema's
/// field numbers in the decoded fields.
pub proof fn lemma_arrange_agree(
    sfields: Seq<crate::schema::FieldSchemaV>,
    a: Seq<(u32, FieldValueV)>,
    b: Seq<(u32, FieldValueV)>,
)
    requires
        forall|i: int|
            0 <= i < sfields.len() ==> crate::message::has_field_v(
                a,
                (#[trigger] sfields[i]).number,
            ) == crate::message::has_field_v(b, sfields[i].number) && (
            crate::message::has_field_v(a, sfields[i].number) ==> a[crate::message::field_idx_v(
                a,
                sfields[i].number,
            )].1 == b[crate::message::field_idx_v(b, sfields[i].number)].1),
    ensures
        arrange_fields(sfields, a) == arrange_fields(sfields, b),
    decreases sfields.len(),
{
    if sfields.len() > 0 {
        assert(crate::message::has_field_v(a, sfields[0].number)
            == crate::message::has_field_v(b, sfields[0].number));
        assert(arrange_one(sfields[0], a) == arrange_one(sfields[0], b));
        assert forall|i: int|
            0 <= i < sfields.drop_first().len() implies crate::message::has_field_v(
            a,
            (#[trigger] sfields.drop_first()[i]).number,
        ) == crate::message::has_field_v(b, sfields.drop_first()[i].number) && (
        crate::message::has_field_v(a, sfields.drop_first()[i].number)
            ==> a[crate::message::field_idx_v(a, sfields.drop_first()[i].number)].1
            == b[crate::message::field_idx_v(b, sfields.drop_first()[i].number)].1) by {
            assert(sfields.drop_first()[i] == sfields[i + 1]);
        }
        lemma_arrange_agree(sfields.drop_first(), a, b);
    }
}

/// Law: items whose field numbers the schema does not know are preserved
/// opaquely, in order, rather than rejected.
pub proof fn lemma_interp_preserves_unknowns(
    items: Seq<(u32, PayloadV)>,
    ms: crate::schema::MessageSchemaV,
    reg: crate::registry::RegistryV,
    acc: MsgV,
    fuel: nat,
)
    requires
        forall|i: int|
            0 <= i < items.len() ==> crate::schema::find_field(ms, (#[trigger] items[i]).0)
                is None,
    ensures
        interp_items(items, ms, reg, acc, fuel) matches Ok(out) && out.fields == acc.fields
            && out.unknown.len() == acc.unknown.len() + items.len() && (forall|j: int|
            0 <= j < acc.unknown.len() ==> out.unknown[j] == acc.unknown[j]) && (forall|j: int|
            0 <= j < items.len() ==> out.unknown[acc.unknown.len() + j] == (UnknownV {
                number: items[j].0,
                payload: items[j].1,
            })),
    decreases items.len(),
{
    if items.len() > 0 {
        let acc2 = MsgV {
            fields: acc.fields,
            unknown: acc.unknown.push(
                UnknownV { number: items[0].0, payload: items[0].1 },
            ),
        };
        assert forall|i: int|
            0 <= i < items.drop_first().len() implies crate::schema::find_field(
            ms,
            (#[trigger] items.drop_first()[i]).0,
        ) is None by {
            assert(items.drop_first()[i] == items[i + 1]);
        }
        lemma_interp_preserves_unknowns(items.drop_first(), ms, reg, acc2, fuel);
        let r = interp_items(items, ms, reg, acc, fuel);
        assert(r == interp_items(items.drop_first(), ms, reg, acc2, fuel));
        let out = r->Ok_0;
        assert forall|j: int|
            0 <= j < items.len() implies out.unknown[acc.unknown.len() + j] == (UnknownV {
            number: items[j].0,
            payload: items[j].1,
        }) by {
            if j > 0 {
                assert(items.drop_first()[j - 1] == items[j]);
                assert(out.unknown[acc2.unknown.len() + (j - 1)] == (UnknownV {
                    number: items.drop_first()[j - 1].0,
                    payload: items.drop_first()[j - 1].1,
                }));
            }
        }
    }
}

/// Encodes a dynamic message to protobuf binary wire format: every
/// populated field emits its tag/value items in stored order, then the
/// preserved unknown fields follow in stored order.
pub fn encode(m: &DynamicMessage) -> (r: Vec<u8>)
    ensures
        r@ == enc_msg(msg_v(*m)),
    decreases *m, 3int, 0int,
{
    let mut out: Vec<u8> = Vec::new();
    push_fields(&mut out, &m.fields, 0);
    push_unknowns(&mut out, &m.unknown, 0);
    proof {
        assert(m.fields@.skip(0) =~= m.fields@);
        assert(m.unknown@.skip(0) =~= m.unknown@);
        lemma_enc_items_append(
            items_of_fields(crate::message::fields_v(m.fields@)),
            items_of_unknowns(crate::message::unknowns_v(m.unknown@)),
        );
        assert(out@ =~= enc_msg(msg_v(*m)));
    }
    out
}

/// The signed value a wire image stands for, as an executable step.
fn unwire64(w: u64) -> (r: i64)
    ensures
        r == i64_of_wire64(w),
{
    if w < 0x8000_0000_0000_0000 {
        w as i64
    } else {
        -((u64::MAX - w) as i64) - 1
    }
}

/// Decides the scalar value a payload stands for under a scalar kind.
fn dec_scalar_exec(k: crate::schema::ScalarKind, p: WirePayload) -> (r: Option<ScalarValue>)
    ensures
        match dec_scalar(k, payload_v(p)) {
            Some(sv) => r matches Some(x) && scalar_v(x) == sv,
            None => r is None,
        },
{
    match (k, p) {
        (crate::schema::ScalarKind::Bool, WirePayload::Varint(v)) => Some(
            ScalarValue::Bool(v != 0),
        ),
        (crate::schema::ScalarKind::Uint64, WirePayload::Varint(v)) => Some(
            ScalarValue::Uint64(v),
        ),
        (crate::schema::ScalarKind::Int64, WirePayload::Varint(v)) => Some(
            ScalarValue::Int64(unwire64(v)),
        ),
        (crate::schema::ScalarKind::Text, WirePayload::LenDelim(b)) => Some(ScalarValue::Text(b)),
        (crate::schema::ScalarKind::Bytes, WirePayload::LenDelim(b)) => Some(
            ScalarValue::Bytes(b),
        ),
        _ => None,
    }
}

/// Decides whether a field kind packs when repeated.
fn kind_packs_exec(kind: &FieldKind) -> (r: bool)
    ensures
        r == kind_packs(kind@),
{
    match kind {
        FieldKind::Scalar(k) => match k {
            crate::schema::ScalarKind::Bool
            | crate::schema::ScalarKind::Uint64
            | crate::schema::ScalarKind::Int64 => true,
            _ => false,
        },
        FieldKind::Enumeration(_) => true,
        FieldKind::MessageRef(_) => false,
    }
}

/// The element a varint stands for under a packable kind.
fn varint_val_exec(kind: &FieldKind, w: u64) -> (r: Option<Value>)
    ensures
        match varint_val_of(kind@, w) {
            Some(v) => r matches Some(x) && value_v(x) == v,
            None => r is None,
        },
{
    match kind {
        FieldKind::Scalar(k) => match dec_scalar_exec(*k, WirePayload::Varint(w)) {
            Some(sv) => Some(Value::Scalar(sv)),
            None => None,
        },
        FieldKind::Enumeration(_) => if w < 0x1_0000_0000 {
            Some(Value::EnumNum(w as u32))
        } else {
            None
        },
        FieldKind::MessageRef(_) => None,
    }
}

/// Parses the packed payload from `pos` on into owned elements.
#[verifier::loop_isolation(false)]
fn dec_packed_exec(b: &Vec<u8>, pos: usize, kind: &FieldKind) -> (r: Result<
    Vec<Value>,
    DecodeError,
>)
    requires
        pos <= b@.len(),
    ensures
        match dec_packed(b@.skip(pos as int), kind@) {
            Ok(vals) => r matches Ok(v) && crate::message::values_v(v@) == vals,
            Err(e) => r matches Err(e2) && e2 == e,
        },
    decreases b@.len() - pos,
{
    let ghost bp = b@.skip(pos as int);
    if pos >= b.len() {
        proof {
            assert(bp.len() == 0);
            assert(crate::message::values_v(Seq::<Value>::empty()) =~= Seq::<ValueV>::empty());
        }
        return Ok(Vec::new());
    }
    match read_varint(b.as_slice(), pos) {
        None => Err(DecodeError::UnexpectedEof),
        Some((v, c, o)) => {
            proof {
                lemma_dec_varint_count(bp);
            }
            if o {
                return Err(DecodeError::Malformed);
            }
            match varint_val_exec(kind, v) {
                None => Err(DecodeError::Malformed),
                Some(val) => {
                    proof {
                        assert(bp.skip(c as int) =~= b@.skip(pos as int + c as int));
                    }
                    match dec_packed_exec(b, pos + c, kind) {
                        Err(e) => Err(e),
                        Ok(mut rest) => {
                            let ghost prev = rest@;
                            let ghost vv = value_v(val);
                            rest.insert(0, val);
                            proof {
                                assert(rest@.drop_first() =~= prev);
                                assert(value_v(rest@[0]) == vv);
                                assert(crate::message::values_v(rest@) == seq![
                                    value_v(rest@[0]),
                                ] + crate::message::values_v(rest@.drop_first()));
                                assert(crate::message::values_v(rest@) =~= seq![vv]
                                    + crate::message::values_v(prev));
                            }
                            Ok(rest)
                        },
                    }
                },
            }
        },
    }
}

/// Decodes the bytes from a length-delimited map entry.
fn interp_entry_exec(
    b: &Vec<u8>,
    kk: crate::schema::ScalarKind,
    vkind: &FieldKind,
    reg: &crate::registry::DescriptorRegistry,
    fuel: usize,
) -> (r: Result<(ScalarValue, Value), DecodeError>)
    requires
        crate::registry::wf_registry(reg@),
    ensures
        match interp_entry(b@, kk, vkind@, reg@, fuel as nat) {
            Ok((k, v)) => r matches Ok(p) && scalar_v(p.0) == k && value_v(p.1) == v,
            Err(e) => r matches Err(e2) && e2 == e,
        },
    decreases fuel, 1int, 1int,
{
    proof {
        assert(b@.skip(0) =~= b@);
    }
    match toks_exec(b.as_slice(), 0) {
        Err(_) => Err(DecodeError::Malformed),
        Ok(eitems) => {
            if eitems.len() == 2 && eitems[0].0 == 1 && eitems[1].0 == 2 {
                proof {
                    assert(items_view(eitems@)[0] == (eitems@[0].0, payload_v(eitems@[0].1)));
                    assert(items_view(eitems@)[1] == (eitems@[1].0, payload_v(eitems@[1].1)));
                }
                match dec_scalar_exec(kk, eitems[0].1.dup()) {
                    None => Err(DecodeError::TypeMismatch),
                    Some(k) => match interp_value_exec(vkind, eitems[1].1.dup(), reg, fuel) {
                        Err(e) => Err(e),
                        Ok(v) => Ok((k, v)),
                    },
                }
            } else {
                Err(DecodeError::Malformed)
            }
        },
    }
}

/// Decodes the element value a payload stands for under a field kind.
fn interp_value_exec(
    kind: &FieldKind,
    p: WirePayload,
    reg: &crate::registry::DescriptorRegistry,
    fuel: usize,
) -> (r: Result<Value, DecodeError>)
    requires
        crate::registry::wf_registry(reg@),
    ensures
        match interp_value(kind@, payload_v(p), reg@, fuel as nat) {
            Ok(v) => r matches Ok(x) && value_v(x) == v,
            Err(e) => r matches Err(e2) && e2 == e,
        },
    decreases fuel, 1int, 0int,
{
    match kind {
        FieldKind::Scalar(k) => match dec_scalar_exec(*k, p) {
            Some(sv) => Ok(Value::Scalar(sv)),
            None => Err(DecodeError::TypeMismatch),
        },
        FieldKind::Enumeration(_) => match p {
            WirePayload::Varint(v) => if v < 0x1_0000_0000 {
                Ok(Value::EnumNum(v as u32))
            } else {
                Err(DecodeError::Malformed)
            },
            _ => Err(DecodeError::TypeMismatch),
        },
        FieldKind::MessageRef(nm) => match p {
            WirePayload::LenDelim(b) => match reg.resolve_message(nm.as_str()) {
                Err(_) => Err(DecodeError::TypeMismatch),
                Ok(cms) => {
                    proof {
                        let i = choose|i: int|
                            0 <= i < reg@.messages.len() && reg@.messages[i] == cms@;
                        assert(crate::schema::wf_message_schema(reg@.messages[i]));
                        assert(cms@ == crate::registry::resolve_message_v(reg@.messages, nm@));
                    }
                    if fuel == 0 {
                        return Err(DecodeError::Malformed);
                    }
                    match decode_rec(b.as_slice(), &cms, reg, fuel - 1) {
                        Err(e) => Err(e),
                        Ok(child) => Ok(Value::Nested(Box::new(child))),
                    }
                },
            },
            _ => Err(DecodeError::TypeMismatch),
        },
    }
}

/// Folds the items from `idx` on into the accumulated message.
#[verifier::loop_isolation(false)]
fn interp_exec(
    items: &Vec<(u32, WirePayload)>,
    idx: usize,
    ms: &MessageSchema,
    reg: &crate::registry::DescriptorRegistry,
    acc: DynamicMessage,
    fuel: usize,
) -> (r: Result<DynamicMessage, DecodeError>)
    requires
        idx <= items@.len(),
        crate::schema::wf_message_schema(ms@),
        crate::registry::wf_registry(reg@),
        crate::message::unique_fields(msg_v(acc).fields),
    ensures
        match interp_items(items_view(items@).skip(idx as int), ms@, reg@, msg_v(acc), fuel as nat) {
            Ok(mv) => r matches Ok(m) && msg_v(m) == mv,
            Err(e) => r matches Err(e2) && e2 == e,
        },
        r matches Ok(m) ==> crate::message::unique_fields(msg_v(m).fields),
    decreases fuel, 2int, items@.len() - idx,
{
    let ghost iv = items_view(items@).skip(idx as int);
    if idx >= items.len() {
        proof {
            assert(iv.len() == 0);
        }
        return Ok(acc);
    }
    let mut acc = acc;
    let n = items[idx].0;
    let p = items[idx].1.dup();
    proof {
        assert(items_view(items@)[idx as int] == (items@[idx as int].0, payload_v(
            items@[idx as int].1,
        )));
        assert(iv[0] == (n, payload_v(p)));
        assert(iv.drop_first() =~= items_view(items@).skip(idx as int + 1));
    }
    match crate::registry::find_field_idx(ms, n) {
        None => {
            let ghost accv = msg_v(acc);
            acc.store_unknown(UnknownField { number: n, payload: p });
            interp_exec(items, idx + 1, ms, reg, acc, fuel)
        },
        Some(fi) => {
            proof {
                crate::registry::lemma_find_field_unique(ms@, fi as int);
                assert(ms@.fields[fi as int] == ms.fields@[fi as int]@);
            }
            match ms.fields[fi].card {
                crate::schema::Cardinality::Singular => {
                    match interp_value_exec(&ms.fields[fi].kind, p, reg, fuel) {
                        Err(e) => Err(e),
                        Ok(v) => {
                            proof {
                                crate::message::lemma_set_single_unique(
                                    msg_v(acc),
                                    n,
                                    value_v(v),
                                );
                            }
                            acc.store_single(n, v);
                            interp_exec(items, idx + 1, ms, reg, acc, fuel)
                        },
                    }
                },
                crate::schema::Cardinality::Repeated => {
                    if kind_packs_exec(&ms.fields[fi].kind) {
                        match p {
                            WirePayload::LenDelim(b) => {
                                proof {
                                    assert(b@.skip(0) =~= b@);
                                }
                                match dec_packed_exec(&b, 0, &ms.fields[fi].kind) {
                                    Err(e) => Err(e),
                                    Ok(mut vals) => {
                                        let ghost acc0 = msg_v(acc);
                                        let ghost vals0 = crate::message::values_v(vals@);
                                        while vals.len() > 0
                                            invariant
                                                crate::message::unique_fields(msg_v(acc).fields),
                                                append_fold(
                                                    msg_v(acc),
                                                    n,
                                                    crate::message::values_v(vals@),
                                                ) == append_fold(acc0, n, vals0),
                                            decreases vals@.len(),
                                        {
                                            let ghost prevv = vals@;
                                            let ghost pacc = msg_v(acc);
                                            let v = vals.remove(0);
                                            proof {
                                                crate::message::lemma_values_v_index(prevv, 0);
                                                assert(vals@ =~= prevv.drop_first());
                                                assert(crate::message::values_v(prevv).drop_first()
                                                    =~= crate::message::values_v(vals@));
                                                crate::message::lemma_append_elem_unique(
                                                    pacc,
                                                    n,
                                                    value_v(v),
                                                );
                                            }
                                            acc.store_append(n, v);
                                        }
                                        proof {
                                            assert(crate::message::values_v(vals@) =~= Seq::<
                                                ValueV,
                                            >::empty());
                                            assert(msg_v(acc) == append_fold(acc0, n, vals0));
                                        }
                                        interp_exec(items, idx + 1, ms, reg, acc, fuel)
                                    },
                                }
                            },
                            _ => Err(DecodeError::TypeMismatch),
                        }
                    } else {
                        match interp_value_exec(&ms.fields[fi].kind, p, reg, fuel) {
                            Err(e) => Err(e),
                            Ok(v) => {
                                proof {
                                    crate::message::lemma_append_elem_unique(
                                        msg_v(acc),
                                        n,
                                        value_v(v),
                                    );
                                }
                                acc.store_append(n, v);
                                interp_exec(items, idx + 1, ms, reg, acc, fuel)
                            },
                        }
                    }
                },
                crate::schema::Cardinality::Mapped(kk) => {
                    match p {
                        WirePayload::LenDelim(b) => {
                            match interp_entry_exec(&b, kk, &ms.fields[fi].kind, reg, fuel) {
                                Err(e) => Err(e),
                                Ok((k, v)) => {
                                    proof {
                                        crate::message::lemma_upsert_entry_unique(
                                            msg_v(acc),
                                            n,
                                            scalar_v(k),
                                            value_v(v),
                                        );
                                    }
                                    acc.store_upsert(n, k, v);
                                    interp_exec(items, idx + 1, ms, reg, acc, fuel)
                                },
                            }
                        },
                        _ => Err(DecodeError::TypeMismatch),
                    }
                },
            }
        },
    }
}

/// Rebuilds a decoded message along the schema from field index `fi`
/// on: each schema field in declaration order takes its decoded value,
/// and an absent repeated or map field an empty container.
#[verifier::loop_isolation(false)]
fn arrange_exec(ms: &MessageSchema, fi: usize, work: DynamicMessage) -> (r: DynamicMessage)
    requires
        fi <= ms.fields@.len(),
        crate::schema::wf_message_schema(ms@),
        crate::message::unique_fields(msg_v(work).fields),
    ensures
        msg_v(r).fields == arrange_fields(ms@.fields.skip(fi as int), msg_v(work).fields),
        msg_v(r).unknown == msg_v(work).unknown,
    decreases ms.fields@.len() - fi,
{
    let ghost sf = ms@.fields.skip(fi as int);
    let ghost gotv = msg_v(work).fields;
    if fi >= ms.fields.len() {
        proof {
            assert(sf.len() == 0);
        }
        let r = DynamicMessage { fields: Vec::new(), unknown: work.unknown };
        proof {
            assert(msg_v(r).fields =~= arrange_fields(sf, gotv));
        }
        return r;
    }
    let mut work = work;
    let n = ms.fields[fi].number;
    proof {
        assert(ms@.fields[fi as int] == ms.fields@[fi as int]@);
        assert(sf[0] == ms@.fields[fi as int]);
        assert(sf.drop_first() =~= ms@.fields.skip(fi as int + 1));
        crate::message::lemma_fields_v_numbers(work.fields@);
        crate::message::lemma_has_field_iff(work.fields@, n);
    }
    match work.entry_idx(n) {
        Some(i) => {
            let ghost oldfs = work.fields@;
            let ghost oldv = gotv;
            let e = work.fields.remove(i);
            proof {
                crate::message::lemma_fields_v_remove(oldfs, i as int);
                crate::message::lemma_fields_v_index(oldfs, i as int);
                assert(crate::message::has_field_v(oldv, n));
                let c = crate::message::field_idx_v(oldv, n);
                assert(oldv[c].0 == n);
                assert(oldv[i as int].0 == n);
                assert(c == i as int);
                assert(oldv[i as int].1 == crate::message::field_value_v(e.1));
                crate::message::lemma_remove_unique(oldv, i as int);
                assert(msg_v(work).fields =~= oldv.remove(i as int));
                crate::registry::lemma_find_field_unique(ms@, fi as int);
                assert forall|k: int|
                    0 <= k < sf.drop_first().len() implies crate::message::has_field_v(
                    msg_v(work).fields,
                    (#[trigger] sf.drop_first()[k]).number,
                ) == crate::message::has_field_v(oldv, sf.drop_first()[k].number) && (
                crate::message::has_field_v(msg_v(work).fields, sf.drop_first()[k].number)
                    ==> msg_v(work).fields[crate::message::field_idx_v(
                    msg_v(work).fields,
                    sf.drop_first()[k].number,
                )].1 == oldv[crate::message::field_idx_v(oldv, sf.drop_first()[k].number)].1) by {
                    let mnum = sf.drop_first()[k].number;
                    assert(sf.drop_first()[k] == ms@.fields[fi as int + 1 + k]);
                    assert(ms@.fields[fi as int].number != ms@.fields[fi as int + 1 + k].number);
                    assert(mnum != n);
                    let rem = oldv.remove(i as int);
                    if crate::message::has_field_v(rem, mnum) {
                        let w = choose|w: int| 0 <= w < rem.len() && rem[w].0 == mnum;
                        let w0 = if w < i as int {
                            w
                        } else {
                            w + 1
                        };
                        assert(rem[w] == oldv[w0]);
                        assert(crate::message::has_field_v(oldv, mnum));
                        let ca = crate::message::field_idx_v(rem, mnum);
                        let cb = crate::message::field_idx_v(oldv, mnum);
                        let ca0 = if ca < i as int {
                            ca
                        } else {
                            ca + 1
                        };
                        assert(rem[ca] == oldv[ca0]);
                        assert(oldv[ca0].0 == mnum);
                        assert(oldv[cb].0 == mnum);
                        assert(ca0 == cb);
                    }
                    if crate::message::has_field_v(oldv, mnum) {
                        let w = choose|w: int| 0 <= w < oldv.len() && oldv[w].0 == mnum;
                        assert(w != i as int);
                        let w1 = if w < i as int {
                            w
                        } else {
                            w - 1
                        };
                        assert(rem[w1] == oldv[w]);
                        assert(crate::message::has_field_v(rem, mnum));
                    }
                }
            }
            let ghost remv = msg_v(work).fields;
            let rest = arrange_exec(ms, fi + 1, work);
            proof {
                lemma_arrange_agree(sf.drop_first(), remv, oldv);
            }
            let mut out = rest;
            let ghost prevf = out.fields@;
            out.fields.insert(0, (n, e.1));
            proof {
                assert(out.fields@.drop_first() =~= prevf);
                assert(out.fields@[0] == (n, e.1));
                assert(msg_v(out).fields == seq![
                    (n, crate::message::field_value_v(e.1)),
                ] + crate::message::fields_v(prevf));
                assert(sf[0].number == n);
                assert(crate::message::has_field_v(oldv, n));
                assert(crate::message::field_idx_v(oldv, n) == i as int);
                assert(arrange_one(sf[0], oldv) =~= seq![(n, oldv[i as int].1)]);
                assert(msg_v(out).fields =~= arrange_fields(sf, oldv));
            }
            out
        },
        None => {
            proof {
                assert(!crate::message::has_field_v(gotv, n));
            }
            let rest = arrange_exec(ms, fi + 1, work);
            match ms.fields[fi].card {
                crate::schema::Cardinality::Singular => {
                    proof {
                        assert(arrange_one(sf[0], gotv) =~= Seq::<(u32, FieldValueV)>::empty());
                        assert(msg_v(rest).fields =~= arrange_fields(sf, gotv));
                    }
                    rest
                },
                crate::schema::Cardinality::Repeated => {
                    let mut out = rest;
                    let ghost prevf = out.fields@;
                    out.fields.insert(0, (n, FieldValue::Repeated(Vec::new())));
                    proof {
                        assert(out.fields@.drop_first() =~= prevf);
                        assert(crate::message::values_v(Seq::<Value>::empty()) =~= Seq::<
                            ValueV,
                        >::empty());
                        assert(crate::message::field_value_v(out.fields@[0].1)
                            =~~= empty_fv_of(sf[0].card));
                        assert(arrange_one(sf[0], gotv) =~= seq![(n, empty_fv_of(sf[0].card))]);
                        assert(msg_v(out).fields =~= arrange_fields(sf, gotv));
                    }
                    out
                },
                crate::schema::Cardinality::Mapped(_) => {
                    let mut out = rest;
                    let ghost prevf = out.fields@;
                    out.fields.insert(0, (n, FieldValue::MapEntries(Vec::new())));
                    proof {
                        assert(out.fields@.drop_first() =~= prevf);
                        assert(crate::message::entries_v(Seq::<(ScalarValue, Value)>::empty())
                            =~= Seq::<(ScalarV, ValueV)>::empty());
                        assert(crate::message::field_value_v(out.fields@[0].1)
                            =~~= empty_fv_of(sf[0].card));
                        assert(arrange_one(sf[0], gotv) =~= seq![(n, empty_fv_of(sf[0].card))]);
                        assert(msg_v(out).fields =~= arrange_fields(sf, gotv));
                    }
                    out
                },
            }
        },
    }
}

/// Decodes a byte sequence with the given nesting fuel.
fn decode_rec(
    s: &[u8],
    ms: &MessageSchema,
    reg: &crate::registry::DescriptorRegistry,
    fuel: usize,
) -> (r: Result<DynamicMessage, DecodeError>)
    requires
        crate::schema::wf_message_schema(ms@),
        crate::registry::wf_registry(reg@),
    ensures
        match dec_msg(s@, ms@, reg@, fuel as nat) {
            Ok(mv) => r matches Ok(m) && msg_v(m) == mv,
            Err(e) => r matches Err(e2) && e2 == e,
        },
    decreases fuel, 3int, 0int,
{
    proof {
        assert(s@.skip(0) =~= s@);
    }
    match toks_exec(s, 0) {
        Err(e) => Err(e),
        Ok(items) => {
            let acc = DynamicMessage::new_empty();
            proof {
                assert(items_view(items@).skip(0) =~= items_view(items@));
            }
            match interp_exec(&items, 0, ms, reg, acc, fuel) {
                Err(e) => Err(e),
                Ok(m) => {
                    proof {
                        assert(ms@.fields.skip(0) =~= ms@.fields);
                    }
                    let r = arrange_exec(ms, 0, m);
                    Ok(r)
                },
            }
        },
    }
}

/// Decodes protobuf wire bytes against a schema: known field numbers
/// populate the matching field (packed for packable repeated kinds, key
/// and value submessages for maps, recursively for nested messages),
/// unknown field numbers are preserved opaquely, a wire type that does
/// not fit the declared kind fails with `TypeMismatch`, and truncated
/// input fails with `UnexpectedEof`.  The result is canonical: fields
/// stand in schema declaration order, and a repeated or map field with
/// no wire presence is populated as an empty container (the wire cannot
/// distinguish an absent container from an empty one), so decoding
/// inverts encoding exactly on the builder's messages.
pub fn decode(bytes: &[u8], ms: &MessageSchema, reg: &crate::registry::DescriptorRegistry) -> (r:
    Result<DynamicMessage, DecodeError>)
    requires
        crate::schema::wf_message_schema(ms@),
        crate::registry::wf_registry(reg@),
    ensures
        match r {
            Ok(m) => decode_spec(bytes@, ms@, reg@) matches Ok(mv) && msg_v(m) == mv,
            Err(e) => decode_spec(bytes@, ms@, reg@) matches Err(e2) && e2 == e,
        },
{
    decode_rec(bytes, ms, reg, bytes.len())
}

} // verus!
