//! Dynamic messages: concrete, editable instances of a message schema,
//! built purely from runtime descriptors.  A message maps field numbers to
//! values and additionally preserves unknown wire fields opaquely.

use vstd::prelude::*;

verus! {

broadcast use {vstd::seq::group_seq_axioms, vstd::std_specs::vec::group_vec_axioms};

use crate::registry::{message_resolves, resolve_message_v, DescriptorRegistry, RegistryV};
use crate::schema::{
    find_field, Cardinality, FieldKind, FieldKindV, FieldSchemaV, MessageSchema, MessageSchemaV,
    ScalarKind,
};

/// A concrete scalar value.  Text is carried as its UTF-8 bytes.
#[derive(Debug, PartialEq, Eq)]
pub enum ScalarValue {
    Bool(bool),
    Uint64(u64),
    Int64(i64),
    Text(Vec<u8>),
    Bytes(Vec<u8>),
}

/// Ghost view of a scalar value.
pub enum ScalarV {
    Bool(bool),
    Uint64(u64),
    Int64(i64),
    Text(Seq<u8>),
    Bytes(Seq<u8>),
}

/// One element value: a scalar, an enum number, or a nested message.
#[derive(Debug, PartialEq, Eq)]
pub enum Value {
    Scalar(ScalarValue),
    EnumNum(u32),
    Nested(Box<DynamicMessage>),
}

/// Ghost view of a `Value`.
pub enum ValueV {
    Scalar(ScalarV),
    EnumNum(u32),
    Nested(MsgV),
}

/// The raw payload of one wire field, as found on the wire.
#[derive(Debug, PartialEq, Eq)]
pub enum WirePayload {
    Varint(u64),
    LenDelim(Vec<u8>),
    Fixed32(u32),
    Fixed64(u64),
}

/// Ghost view of a `WirePayload`.
pub enum PayloadV {
    Varint(u64),
    LenDelim(Seq<u8>),
    Fixed32(u32),
    Fixed64(u64),
}

/// A wire field whose number the schema does not know; preserved opaquely.
#[derive(Debug, PartialEq, Eq)]
pub struct UnknownField {
    pub number: u32,
    pub payload: WirePayload,
}

/// Ghost view of an `UnknownField`.
pub struct UnknownV {
    pub number: u32,
    pub payload: PayloadV,
}

/// The value of one populated field.
#[derive(Debug, PartialEq, Eq)]
pub enum FieldValue {
    Single(Value),
    Repeated(Vec<Value>),
    MapEntries(Vec<(ScalarValue, Value)>),
}

/// Ghost view of a `FieldValue`.
pub enum FieldValueV {
    Single(ValueV),
    Repeated(Seq<ValueV>),
    MapEntries(Seq<(ScalarV, ValueV)>),
}

/// A dynamic message: populated fields by number, in insertion order,
/// plus preserved unknown wire fields.
#[derive(Debug, PartialEq, Eq)]
pub struct DynamicMessage {
    pub fields: Vec<(u32, FieldValue)>,
    pub unknown: Vec<UnknownField>,
}

/// Ghost view of a `DynamicMessage`.
pub struct MsgV {
    pub fields: Seq<(u32, FieldValueV)>,
    pub unknown: Seq<UnknownV>,
}

/// View of a scalar value.
pub open spec fn scalar_v(s: ScalarValue) -> ScalarV {
    match s {
        ScalarValue::Bool(b) => ScalarV::Bool(b),
        ScalarValue::Uint64(u) => ScalarV::Uint64(u),
        ScalarValue::Int64(i) => ScalarV::Int64(i),
        ScalarValue::Text(t) => ScalarV::Text(t@),
        ScalarValue::Bytes(b) => ScalarV::Bytes(b@),
    }
}

/// View of a wire payload.
pub open spec fn payload_v(p: WirePayload) -> PayloadV {
    match p {
        WirePayload::Varint(v) => PayloadV::Varint(v),
        WirePayload::LenDelim(b) => PayloadV::LenDelim(b@),
        WirePayload::Fixed32(v) => PayloadV::Fixed32(v),
        WirePayload::Fixed64(v) => PayloadV::Fixed64(v),
    }
}

/// View of an unknown field.
pub open spec fn unknown_v(u: UnknownField) -> UnknownV {
    UnknownV { number: u.number, payload: payload_v(u.payload) }
}

/// Views of a sequence of unknown fields.
pub open spec fn unknowns_v(s: Seq<UnknownField>) -> Seq<UnknownV> {
    s.map_values(|u: UnknownField| unknown_v(u))
}

/// View of one element value.
pub open spec fn value_v(v: Value) -> ValueV
    decreases v,
{
    match v {
        Value::Scalar(s) => ValueV::Scalar(scalar_v(s)),
        Value::EnumNum(e) => ValueV::EnumNum(e),
        Value::Nested(b) => ValueV::Nested(msg_v(*b)),
    }
}

/// Views of a sequence of element values.
pub open spec fn values_v(s: Seq<Value>) -> Seq<ValueV>
    decreases s,
{
    if s.len() == 0 {
        Seq::<ValueV>::empty()
    } else {
        seq![value_v(s[0])] + values_v(s.drop_first())
    }
}

/// Views of a sequence of map entries.
pub open spec fn entries_v(s: Seq<(ScalarValue, Value)>) -> Seq<(ScalarV, ValueV)>
    decreases s,
{
    if s.len() == 0 {
        Seq::<(ScalarV, ValueV)>::empty()
    } else {
        seq![(scalar_v(s[0].0), value_v(s[0].1))] + entries_v(s.drop_first())
    }
}

/// View of a field value.
pub open spec fn field_value_v(fv: FieldValue) -> FieldValueV
    decreases fv,
{
    match fv {
        FieldValue::Single(v) => FieldValueV::Single(value_v(v)),
        FieldValue::Repeated(es) => FieldValueV::Repeated(values_v(es@)),
        FieldValue::MapEntries(es) => FieldValueV::MapEntries(entries_v(es@)),
    }
}

/// Views of a field list.
pub open spec fn fields_v(s: Seq<(u32, FieldValue)>) -> Seq<(u32, FieldValueV)>
    decreases s,
{
    if s.len() == 0 {
        Seq::<(u32, FieldValueV)>::empty()
    } else {
        seq![(s[0].0, field_value_v(s[0].1))] + fields_v(s.drop_first())
    }
}

/// View of a dynamic message.
pub open spec fn msg_v(m: DynamicMessage) -> MsgV
    decreases m,
{
    MsgV { fields: fields_v(m.fields@), unknown: unknowns_v(m.unknown@) }
}

/// The empty message.
pub open spec fn empty_msg_v() -> MsgV {
    MsgV { fields: Seq::empty(), unknown: Seq::empty() }
}

/// Indexing into a viewed field list.
pub proof fn lemma_fields_v_index(s: Seq<(u32, FieldValue)>, i: int)
    requires
        0 <= i < s.len(),
    ensures
        fields_v(s).len() == s.len(),
        fields_v(s)[i] == (s[i].0, field_value_v(s[i].1)),
    decreases s.len(),
{
    if i > 0 {
        lemma_fields_v_index(s.drop_first(), i - 1);
    } else {
        lemma_fields_v_len(s.drop_first());
    }
}

/// The viewed field list has the same length.
pub proof fn lemma_fields_v_len(s: Seq<(u32, FieldValue)>)
    ensures
        fields_v(s).len() == s.len(),
    decreases s.len(),
{
    if s.len() > 0 {
        lemma_fields_v_len(s.drop_first());
    }
}

/// Indexing into a viewed value list.
pub proof fn lemma_values_v_index(s: Seq<Value>, i: int)
    requires
        0 <= i < s.len(),
    ensures
        values_v(s).len() == s.len(),
        values_v(s)[i] == value_v(s[i]),
    decreases s.len(),
{
    if i > 0 {
        lemma_values_v_index(s.drop_first(), i - 1);
    } else {
        lemma_values_v_len(s.drop_first());
    }
}

/// The viewed value list has the same length.
pub proof fn lemma_values_v_len(s: Seq<Value>)
    ensures
        values_v(s).len() == s.len(),
    decreases s.len(),
{
    if s.len() > 0 {
        lemma_values_v_len(s.drop_first());
    }
}

/// Indexing into a viewed entry list.
pub proof fn lemma_entries_v_index(s: Seq<(ScalarValue, Value)>, i: int)
    requires
        0 <= i < s.len(),
    ensures
        entries_v(s).len() == s.len(),
        entries_v(s)[i] == (scalar_v(s[i].0), value_v(s[i].1)),
    decreases s.len(),
{
    if i > 0 {
        lemma_entries_v_index(s.drop_first(), i - 1);
    } else {
        lemma_entries_v_len(s.drop_first());
    }
}

/// The viewed entry list has the same length.
pub proof fn lemma_entries_v_len(s: Seq<(ScalarValue, Value)>)
    ensures
        entries_v(s).len() == s.len(),
    decreases s.len(),
{
    if s.len() > 0 {
        lemma_entries_v_len(s.drop_first());
    }
}

/// Why a mutation against a schema was refused.
#[derive(Debug, PartialEq, Eq)]
pub enum FieldAccessError {
    /// The field number does not exist in the owning schema.
    UnknownField,
    /// The field exists but has a different cardinality.
    CardinalityMismatch,
    /// The field exists but holds a different kind of value.
    KindMismatch,
    /// Another member of the same oneof group is already populated.
    OneofConflict,
    /// A referenced child message type could not be resolved.
    TypeUnresolved,
    /// The field is not a member of any oneof group.
    NotOneofMember,
}

impl FieldAccessError {
    /// A short machine-readable tag for this error.
    pub fn kind(&self) -> (r: &'static str)
        ensures
            r@ == match self {
                FieldAccessError::UnknownField => "UnknownField"@,
                FieldAccessError::CardinalityMismatch => "CardinalityMismatch"@,
                FieldAccessError::KindMismatch => "KindMismatch"@,
                FieldAccessError::OneofConflict => "OneofConflict"@,
                FieldAccessError::TypeUnresolved => "TypeUnresolved"@,
                FieldAccessError::NotOneofMember => "NotOneofMember"@,
            },
    {
        match self {
            FieldAccessError::UnknownField => "UnknownField",
            FieldAccessError::CardinalityMismatch => "CardinalityMismatch",
            FieldAccessError::KindMismatch => "KindMismatch",
            FieldAccessError::OneofConflict => "OneofConflict",
            FieldAccessError::TypeUnresolved => "TypeUnresolved",
            FieldAccessError::NotOneofMember => "NotOneofMember",
        }
    }
}

/// Whether some populated field carries number `n`.
pub open spec fn has_field_v(fields: Seq<(u32, FieldValueV)>, n: u32) -> bool {
    exists|i: int| 0 <= i < fields.len() && fields[i].0 == n
}

/// The index of the populated field with number `n` (meaningful when
/// field numbers are unique).
pub open spec fn field_idx_v(fields: Seq<(u32, FieldValueV)>, n: u32) -> int {
    choose|i: int| 0 <= i < fields.len() && fields[i].0 == n
}

/// Populated field numbers are unique.
pub open spec fn unique_fields(fields: Seq<(u32, FieldValueV)>) -> bool {
    forall|i: int, j: int| 0 <= i < j < fields.len() ==> fields[i].0 != fields[j].0
}

/// Whether a scalar value matches a scalar kind.
pub open spec fn scalar_matches(k: ScalarKind, sv: ScalarV) -> bool {
    match (k, sv) {
        (ScalarKind::Bool, ScalarV::Bool(_)) => true,
        (ScalarKind::Uint64, ScalarV::Uint64(_)) => true,
        (ScalarKind::Int64, ScalarV::Int64(_)) => true,
        (ScalarKind::Text, ScalarV::Text(_)) => true,
        (ScalarKind::Bytes, ScalarV::Bytes(_)) => true,
        _ => false,
    }
}

/// Whether an element value travels as a varint on the wire.
pub open spec fn is_varint_value(v: ValueV) -> bool {
    match v {
        ValueV::Scalar(sv) => match sv {
            ScalarV::Bool(_) | ScalarV::Uint64(_) | ScalarV::Int64(_) => true,
            _ => false,
        },
        ValueV::EnumNum(_) => true,
        ValueV::Nested(_) => false,
    }
}

/// Whether an element value conforms to a field kind, recursively for
/// nested messages (the child must be well formed for its own schema).
pub open spec fn wf_value(reg: RegistryV, kind: FieldKindV, v: ValueV) -> bool
    decreases v,
{
    match (kind, v) {
        (FieldKindV::Scalar(k), ValueV::Scalar(sv)) => scalar_matches(k, sv),
        (FieldKindV::Enumeration(_), ValueV::EnumNum(_)) => true,
        (FieldKindV::MessageRef(n), ValueV::Nested(child)) => message_resolves(reg.messages, n)
            && wf_msg(reg, resolve_message_v(reg.messages, n), child),
        _ => false,
    }
}

/// Whether every element of a repeated field conforms.
pub open spec fn wf_elems(reg: RegistryV, kind: FieldKindV, es: Seq<ValueV>) -> bool
    decreases es,
{
    forall|i: int| 0 <= i < es.len() ==> wf_value(reg, kind, #[trigger] es[i])
}

/// Whether every map entry conforms: keys match the key kind and are
/// unique, values conform to the value kind.
pub open spec fn wf_entries(
    reg: RegistryV,
    kk: ScalarKind,
    vkind: FieldKindV,
    es: Seq<(ScalarV, ValueV)>,
) -> bool
    decreases es,
{
    &&& forall|i: int|
        0 <= i < es.len() ==> scalar_matches(kk, (#[trigger] es[i]).0) && wf_value(
            reg,
            vkind,
            es[i].1,
        )
    &&& forall|i: int, j: int| 0 <= i < j < es.len() ==> es[i].0 != es[j].0
}

/// Whether a populated field value conforms to its field schema.
pub open spec fn wf_field_value(reg: RegistryV, fs: FieldSchemaV, fv: FieldValueV) -> bool
    decreases fv,
{
    match (fs.card, fv) {
        (Cardinality::Singular, FieldValueV::Single(v)) => wf_value(reg, fs.kind, v),
        (Cardinality::Repeated, FieldValueV::Repeated(es)) => wf_elems(reg, fs.kind, es),
        (Cardinality::Mapped(kk), FieldValueV::MapEntries(es)) => wf_entries(
            reg,
            kk,
            fs.kind,
            es,
        ),
        _ => false,
    }
}

/// At most one member of each oneof group is populated.
pub open spec fn oneof_exclusive(ms: MessageSchemaV, fields: Seq<(u32, FieldValueV)>) -> bool {
    forall|g: int, k1: int, k2: int|
        0 <= g < ms.oneofs.len() && 0 <= k1 < k2 < ms.oneofs[g].len() ==> !(has_field_v(
            fields,
            #[trigger] ms.oneofs[g][k1],
        ) && has_field_v(fields, #[trigger] ms.oneofs[g][k2]))
}

/// Full well-formedness of a message against its schema and registry.
pub open spec fn wf_msg(reg: RegistryV, ms: MessageSchemaV, m: MsgV) -> bool
    decreases m,
{
    &&& unique_fields(m.fields)
    &&& forall|i: int|
        0 <= i < m.fields.len() ==> match find_field(ms, (#[trigger] m.fields[i]).0) {
            Some(fs) => wf_field_value(reg, fs, m.fields[i].1),
            None => false,
        }
    &&& forall|i: int|
        0 <= i < m.unknown.len() ==> find_field(ms, (#[trigger] m.unknown[i]).number) is None
            && crate::schema::valid_field_number(m.unknown[i].number)
    &&& oneof_exclusive(ms, m.fields)
}

/// The protobuf zero value for a scalar kind.
pub open spec fn zero_scalar_v(k: ScalarKind) -> ScalarV {
    match k {
        ScalarKind::Bool => ScalarV::Bool(false),
        ScalarKind::Uint64 => ScalarV::Uint64(0),
        ScalarKind::Int64 => ScalarV::Int64(0),
        ScalarKind::Text => ScalarV::Text(Seq::empty()),
        ScalarKind::Bytes => ScalarV::Bytes(Seq::empty()),
    }
}

/// Whether a field number belongs to some oneof group of the schema.
pub open spec fn is_oneof_member(ms: MessageSchemaV, n: u32) -> bool {
    exists|g: int, k: int|
        0 <= g < ms.oneofs.len() && 0 <= k < ms.oneofs[g].len() && ms.oneofs[g][k] == n
}

/// The default value of a field, if the builder populates it eagerly:
/// scalars get their zero value, enums their zero number, repeated and
/// map fields an empty container; singular message fields stay absent.
pub open spec fn default_field_value(fs: FieldSchemaV) -> Option<FieldValueV> {
    match fs.card {
        Cardinality::Repeated => Some(FieldValueV::Repeated(Seq::empty())),
        Cardinality::Mapped(_) => Some(FieldValueV::MapEntries(Seq::empty())),
        Cardinality::Singular => match fs.kind {
            FieldKindV::Scalar(k) => Some(FieldValueV::Single(ValueV::Scalar(zero_scalar_v(k)))),
            FieldKindV::Enumeration(_) => Some(FieldValueV::Single(ValueV::EnumNum(0))),
            FieldKindV::MessageRef(_) => None,
        },
    }
}

/// The default entries contributed by one field schema.
pub open spec fn default_entry(ms: MessageSchemaV, fs: FieldSchemaV) -> Seq<(u32, FieldValueV)> {
    if is_oneof_member(ms, fs.number) {
        Seq::empty()
    } else {
        match default_field_value(fs) {
            Some(v) => seq![(fs.number, v)],
            None => Seq::empty(),
        }
    }
}

/// The default field list for a schema's field sequence.
pub open spec fn default_fields(ms: MessageSchemaV, fs: Seq<FieldSchemaV>) -> Seq<
    (u32, FieldValueV),
>
    decreases fs.len(),
{
    if fs.len() == 0 {
        Seq::empty()
    } else {
        default_entry(ms, fs[0]) + default_fields(ms, fs.drop_first())
    }
}

/// The default message for a schema.
pub open spec fn default_msg(ms: MessageSchemaV) -> MsgV {
    MsgV { fields: default_fields(ms, ms.fields), unknown: Seq::empty() }
}

/// Taking one more field schema appends exactly its default entries.
pub proof fn lemma_default_fields_take(ms: MessageSchemaV, fs: Seq<FieldSchemaV>, i: int)
    requires
        0 <= i < fs.len(),
    ensures
        default_fields(ms, fs.take(i + 1)) == default_fields(ms, fs.take(i)) + default_entry(
            ms,
            fs[i],
        ),
    decreases i,
{
    if i == 0 {
        assert(fs.take(1).drop_first() =~= fs.take(0));
        assert(default_fields(ms, fs.take(0)) + default_entry(ms, fs[0]) =~= default_entry(
            ms,
            fs.take(1)[0],
        ) + default_fields(ms, fs.take(1).drop_first()));
    } else {
        let d = fs.drop_first();
        lemma_default_fields_take(ms, d, i - 1);
        assert(fs.take(i + 1).drop_first() =~= d.take(i));
        assert(fs.take(i).drop_first() =~= d.take(i - 1));
        assert(d[i - 1] == fs[i]);
        assert(default_entry(ms, fs[0]) + (default_fields(ms, d.take(i - 1)) + default_entry(
            ms,
            d[i - 1],
        )) =~= (default_entry(ms, fs[0]) + default_fields(ms, d.take(i - 1))) + default_entry(
            ms,
            d[i - 1],
        ));
    }
}

/// Every default entry stems from a schema field with its number, and
/// numbers that are unique in the schema stay unique in the defaults.
pub proof fn lemma_default_fields_props(ms: MessageSchemaV, fs: Seq<FieldSchemaV>)
    ensures
        forall|j: int|
            0 <= j < default_fields(ms, fs).len() ==> exists|i: int|
                0 <= i < fs.len() && (#[trigger] default_fields(ms, fs)[j]).0 == fs[i].number
                    && default_field_value(fs[i]) == Some(default_fields(ms, fs)[j].1)
                    && !is_oneof_member(ms, fs[i].number),
        (forall|a: int, b: int| 0 <= a < b < fs.len() ==> fs[a].number != fs[b].number)
            ==> unique_fields(default_fields(ms, fs)),
    decreases fs.len(),
{
    if fs.len() > 0 {
        let d = fs.drop_first();
        lemma_default_fields_props(ms, d);
        let whole = default_fields(ms, fs);
        let head = default_entry(ms, fs[0]);
        let tail = default_fields(ms, d);
        assert forall|j: int| 0 <= j < whole.len() implies exists|i: int|
            0 <= i < fs.len() && (#[trigger] whole[j]).0 == fs[i].number && default_field_value(
                fs[i],
            ) == Some(whole[j].1) && !is_oneof_member(ms, fs[i].number) by {
            if j < head.len() {
                assert(whole[j] == head[j]);
                assert(0 <= 0 < fs.len() && whole[j].0 == fs[0].number && default_field_value(
                    fs[0],
                ) == Some(whole[j].1) && !is_oneof_member(ms, fs[0].number));
            } else {
                let jj = j - head.len();
                assert(whole[j] == tail[jj]);
                let i0 = choose|i: int|
                    0 <= i < d.len() && (#[trigger] tail[jj]).0 == d[i].number
                        && default_field_value(d[i]) == Some(tail[jj].1) && !is_oneof_member(
                        ms,
                        d[i].number,
                    );
                assert(d[i0] == fs[i0 + 1]);
                assert(0 <= i0 + 1 < fs.len() && whole[j].0 == fs[i0 + 1].number
                    && default_field_value(fs[i0 + 1]) == Some(whole[j].1) && !is_oneof_member(
                    ms,
                    fs[i0 + 1].number,
                ));
            }
        }
        if forall|a: int, b: int| 0 <= a < b < fs.len() ==> fs[a].number != fs[b].number {
            assert forall|a: int, b: int| 0 <= a < b < whole.len() implies whole[a].0
                != whole[b].0 by {
                if head.len() == 1 && a == 0 {
                    let bb = b - 1;
                    let i0 = choose|i: int|
                        0 <= i < d.len() && (#[trigger] tail[bb]).0 == d[i].number
                            && default_field_value(d[i]) == Some(tail[bb].1) && !is_oneof_member(
                            ms,
                            d[i].number,
                        );
                    assert(whole[b] == tail[bb]);
                    assert(d[i0] == fs[i0 + 1]);
                    assert(whole[a].0 == fs[0].number);
                    assert(fs[0].number != fs[i0 + 1].number);
                } else {
                    let off = head.len();
                    assert(whole[a] == tail[a - off]);
                    assert(whole[b] == tail[b - off]);
                }
            }
        }
    }
}

/// A default message is well formed for any registry, given a
/// structurally well-formed schema.
pub proof fn lemma_default_msg_wf(reg: RegistryV, ms: MessageSchemaV)
    requires
        crate::schema::wf_message_schema(ms),
    ensures
        wf_msg(reg, ms, default_msg(ms)),
{
    let m = default_msg(ms);
    lemma_default_fields_props(ms, ms.fields);
    assert forall|i: int| 0 <= i < m.fields.len() implies match find_field(
        ms,
        (#[trigger] m.fields[i]).0,
    ) {
        Some(fs) => wf_field_value(reg, fs, m.fields[i].1),
        None => false,
    } by {
        let i0 = choose|k: int|
            0 <= k < ms.fields.len() && (#[trigger] m.fields[i]).0 == ms.fields[k].number
                && default_field_value(ms.fields[k]) == Some(m.fields[i].1) && !is_oneof_member(
                ms,
                ms.fields[k].number,
            );
        crate::registry::lemma_find_field_unique(ms, i0);
        let fs = ms.fields[i0];
        match default_field_value(fs) {
            Some(v) => {
                assert(wf_field_value(reg, fs, v));
            },
            None => {},
        }
    }
    assert forall|g: int, k1: int, k2: int|
        0 <= g < ms.oneofs.len() && 0 <= k1 < k2 < ms.oneofs[g].len() implies !(has_field_v(
        m.fields,
        #[trigger] ms.oneofs[g][k1],
    ) && has_field_v(m.fields, #[trigger] ms.oneofs[g][k2])) by {
        if has_field_v(m.fields, ms.oneofs[g][k1]) {
            let i = choose|i: int|
                0 <= i < m.fields.len() && m.fields[i].0 == ms.oneofs[g][k1];
            assert(is_oneof_member(ms, m.fields[i].0));
            let i0 = choose|k: int|
                0 <= k < ms.fields.len() && (#[trigger] m.fields[i]).0 == ms.fields[k].number
                    && default_field_value(ms.fields[k]) == Some(m.fields[i].1)
                    && !is_oneof_member(ms, ms.fields[k].number);
            assert(false);
        }
    }
}

/// Viewing commutes with pushing a field entry.
pub proof fn lemma_fields_v_push(s: Seq<(u32, FieldValue)>, x: (u32, FieldValue))
    ensures
        fields_v(s.push(x)) == fields_v(s).push((x.0, field_value_v(x.1))),
    decreases s.len(),
{
    if s.len() == 0 {
        assert(s.push(x).drop_first() =~= s);
        assert(fields_v(s.push(x)) =~= fields_v(s).push((x.0, field_value_v(x.1))));
    } else {
        assert(s.push(x).drop_first() =~= s.drop_first().push(x));
        lemma_fields_v_push(s.drop_first(), x);
        assert(fields_v(s.push(x)) =~= fields_v(s).push((x.0, field_value_v(x.1))));
    }
}

/// Viewing commutes with updating a field entry.
pub proof fn lemma_fields_v_update(s: Seq<(u32, FieldValue)>, i: int, x: (u32, FieldValue))
    requires
        0 <= i < s.len(),
    ensures
        fields_v(s.update(i, x)) == fields_v(s).update(i, (x.0, field_value_v(x.1))),
{
    lemma_fields_v_len(s);
    lemma_fields_v_len(s.update(i, x));
    assert forall|j: int| 0 <= j < s.len() implies fields_v(s.update(i, x))[j] == fields_v(
        s,
    ).update(i, (x.0, field_value_v(x.1)))[j] by {
        lemma_fields_v_index(s.update(i, x), j);
        lemma_fields_v_index(s, j);
    }
    assert(fields_v(s.update(i, x)) =~= fields_v(s).update(i, (x.0, field_value_v(x.1))));
}

/// Viewing commutes with removing a field entry.
pub proof fn lemma_fields_v_remove(s: Seq<(u32, FieldValue)>, i: int)
    requires
        0 <= i < s.len(),
    ensures
        fields_v(s.remove(i)) == fields_v(s).remove(i),
{
    lemma_fields_v_len(s);
    lemma_fields_v_len(s.remove(i));
    assert forall|j: int| 0 <= j < s.len() - 1 implies fields_v(s.remove(i))[j] == fields_v(
        s,
    ).remove(i)[j] by {
        lemma_fields_v_index(s.remove(i), j);
        if j < i {
            lemma_fields_v_index(s, j);
        } else {
            lemma_fields_v_index(s, j + 1);
        }
    }
    assert(fields_v(s.remove(i)) =~= fields_v(s).remove(i));
}

/// Viewing commutes with pushing an element value.
pub proof fn lemma_values_v_push(s: Seq<Value>, x: Value)
    ensures
        values_v(s.push(x)) == values_v(s).push(value_v(x)),
    decreases s.len(),
{
    if s.len() == 0 {
        assert(s.push(x).drop_first() =~= s);
        assert(values_v(s.push(x)) =~= values_v(s).push(value_v(x)));
    } else {
        assert(s.push(x).drop_first() =~= s.drop_first().push(x));
        lemma_values_v_push(s.drop_first(), x);
        assert(values_v(s.push(x)) =~= values_v(s).push(value_v(x)));
    }
}

/// Viewing commutes with pushing a map entry.
pub proof fn lemma_entries_v_push(s: Seq<(ScalarValue, Value)>, x: (ScalarValue, Value))
    ensures
        entries_v(s.push(x)) == entries_v(s).push((scalar_v(x.0), value_v(x.1))),
    decreases s.len(),
{
    if s.len() == 0 {
        assert(s.push(x).drop_first() =~= s);
        assert(entries_v(s.push(x)) =~= entries_v(s).push((scalar_v(x.0), value_v(x.1))));
    } else {
        assert(s.push(x).drop_first() =~= s.drop_first().push(x));
        lemma_entries_v_push(s.drop_first(), x);
        assert(entries_v(s.push(x)) =~= entries_v(s).push((scalar_v(x.0), value_v(x.1))));
    }
}

/// Viewing commutes with updating a map entry.
pub proof fn lemma_entries_v_update(s: Seq<(ScalarValue, Value)>, i: int, x: (ScalarValue, Value))
    requires
        0 <= i < s.len(),
    ensures
        entries_v(s.update(i, x)) == entries_v(s).update(i, (scalar_v(x.0), value_v(x.1))),
{
    lemma_entries_v_len(s);
    lemma_entries_v_len(s.update(i, x));
    assert forall|j: int| 0 <= j < s.len() implies entries_v(s.update(i, x))[j] == entries_v(
        s,
    ).update(i, (scalar_v(x.0), value_v(x.1)))[j] by {
        lemma_entries_v_index(s.update(i, x), j);
        lemma_entries_v_index(s, j);
    }
    assert(entries_v(s.update(i, x)) =~= entries_v(s).update(i, (scalar_v(x.0), value_v(x.1))));
}

/// The message after overwriting or creating the singular field `n`.
pub open spec fn set_single_v(m: MsgV, n: u32, v: ValueV) -> MsgV {
    if has_field_v(m.fields, n) {
        MsgV {
            fields: m.fields.update(field_idx_v(m.fields, n), (n, FieldValueV::Single(v))),
            unknown: m.unknown,
        }
    } else {
        MsgV { fields: m.fields.push((n, FieldValueV::Single(v))), unknown: m.unknown }
    }
}

/// The message after appending one element to the repeated field `n`.
pub open spec fn append_elem_v(m: MsgV, n: u32, v: ValueV) -> MsgV {
    if has_field_v(m.fields, n) {
        let i = field_idx_v(m.fields, n);
        let newfv = match m.fields[i].1 {
            FieldValueV::Repeated(es) => FieldValueV::Repeated(es.push(v)),
            _ => FieldValueV::Repeated(seq![v]),
        };
        MsgV { fields: m.fields.update(i, (n, newfv)), unknown: m.unknown }
    } else {
        MsgV { fields: m.fields.push((n, FieldValueV::Repeated(seq![v]))), unknown: m.unknown }
    }
}

/// The first index at which map entries carry key `k`.
pub open spec fn first_key_idx(es: Seq<(ScalarV, ValueV)>, k: ScalarV) -> int {
    choose|j: int|
        0 <= j < es.len() && es[j].0 == k && (forall|b: int| 0 <= b < j ==> es[b].0 != k)
}

/// The message after inserting or overwriting one entry of map field `n`.
pub open spec fn upsert_entry_v(m: MsgV, n: u32, k: ScalarV, v: ValueV) -> MsgV {
    if has_field_v(m.fields, n) {
        let i = field_idx_v(m.fields, n);
        let newfv = match m.fields[i].1 {
            FieldValueV::MapEntries(es) => {
                if exists|j: int| 0 <= j < es.len() && es[j].0 == k {
                    FieldValueV::MapEntries(es.update(first_key_idx(es, k), (k, v)))
                } else {
                    FieldValueV::MapEntries(es.push((k, v)))
                }
            },
            _ => FieldValueV::MapEntries(seq![(k, v)]),
        };
        MsgV { fields: m.fields.update(i, (n, newfv)), unknown: m.unknown }
    } else {
        MsgV { fields: m.fields.push((n, FieldValueV::MapEntries(seq![(k, v)]))), unknown: m.unknown }
    }
}


/// Whether `m` is a populated member, other than `n`, of a oneof group
/// that also contains `n`.
pub open spec fn is_blocking(
    ms: MessageSchemaV,
    fields: Seq<(u32, FieldValueV)>,
    n: u32,
    m: u32,
) -> bool {
    exists|g: int, k1: int, k2: int|
        0 <= g < ms.oneofs.len() && 0 <= k1 < ms.oneofs[g].len() && 0 <= k2 < ms.oneofs[g].len()
            && ms.oneofs[g][k1] == n && ms.oneofs[g][k2] == m && k2 != k1 && has_field_v(fields, m)
}

/// The populated other member blocking `n` (unique under the schema's
/// group disjointness and the message's oneof exclusivity).
pub open spec fn blocked_member(ms: MessageSchemaV, fields: Seq<(u32, FieldValueV)>, n: u32) -> u32 {
    choose|m: u32| is_blocking(ms, fields, n, m)
}

/// The value a oneof member activates to: the zero scalar, the zero enum
/// number, or an empty child message.
pub open spec fn member_default(fs: FieldSchemaV) -> ValueV {
    match fs.kind {
        FieldKindV::Scalar(k) => ValueV::Scalar(zero_scalar_v(k)),
        FieldKindV::Enumeration(_) => ValueV::EnumNum(0),
        FieldKindV::MessageRef(_) => ValueV::Nested(empty_msg_v()),
    }
}

/// The message after activating oneof member `n`: any populated other
/// member of its group is removed, then `n` is set to its default.
pub open spec fn activate_v(m: MsgV, ms: MessageSchemaV, n: u32) -> MsgV {
    let base = if oneof_blocked(ms, m.fields, n) {
        MsgV {
            fields: m.fields.remove(field_idx_v(m.fields, blocked_member(ms, m.fields, n))),
            unknown: m.unknown,
        }
    } else {
        m
    };
    set_single_v(base, n, member_default(find_field(ms, n)->Some_0))
}

/// Removing an entry keeps field numbers unique.
pub proof fn lemma_remove_unique(fields: Seq<(u32, FieldValueV)>, i: int)
    requires
        unique_fields(fields),
        0 <= i < fields.len(),
    ensures
        unique_fields(fields.remove(i)),
{
    let r = fields.remove(i);
    assert forall|a: int, b: int| 0 <= a < b < r.len() implies r[a].0 != r[b].0 by {
        let a0 = if a < i { a } else { a + 1 };
        let b0 = if b < i { b } else { b + 1 };
        assert(r[a] == fields[a0]);
        assert(r[b] == fields[b0]);
    }
}


/// Under group disjointness and oneof exclusivity, at most one member
/// blocks `n`.
pub proof fn lemma_blocking_unique(
    ms: MessageSchemaV,
    fields: Seq<(u32, FieldValueV)>,
    n: u32,
    m1: u32,
    m2: u32,
)
    requires
        crate::schema::wf_message_schema(ms),
        oneof_exclusive(ms, fields),
        is_blocking(ms, fields, n, m1),
        is_blocking(ms, fields, n, m2),
    ensures
        m1 == m2,
{
    let (g1, k11, k12) = choose|g: int, k1: int, k2: int|
        0 <= g < ms.oneofs.len() && 0 <= k1 < ms.oneofs[g].len() && 0 <= k2 < ms.oneofs[g].len()
            && ms.oneofs[g][k1] == n && ms.oneofs[g][k2] == m1 && k2 != k1 && has_field_v(
            fields,
            m1,
        );
    let (g2, k21, k22) = choose|g: int, k1: int, k2: int|
        0 <= g < ms.oneofs.len() && 0 <= k1 < ms.oneofs[g].len() && 0 <= k2 < ms.oneofs[g].len()
            && ms.oneofs[g][k1] == n && ms.oneofs[g][k2] == m2 && k2 != k1 && has_field_v(
            fields,
            m2,
        );
    if g1 != g2 {
        if g1 < g2 {
            assert(ms.oneofs[g1][k11] != ms.oneofs[g2][k21]);
        } else {
            assert(ms.oneofs[g2][k21] != ms.oneofs[g1][k11]);
        }
    }
    assert(g1 == g2);
    if k12 != k22 {
        if k12 < k22 {
            assert(!(has_field_v(fields, ms.oneofs[g1][k12]) && has_field_v(
                fields,
                ms.oneofs[g1][k22],
            )));
        } else {
            assert(!(has_field_v(fields, ms.oneofs[g1][k22]) && has_field_v(
                fields,
                ms.oneofs[g1][k12],
            )));
        }
    }
}

/// Whether writing the oneof member `n` is blocked because another member
/// of the same group is populated.
pub open spec fn oneof_blocked(
    ms: MessageSchemaV,
    fields: Seq<(u32, FieldValueV)>,
    n: u32,
) -> bool {
    exists|g: int, k1: int, k2: int|
        0 <= g < ms.oneofs.len() && 0 <= k1 < ms.oneofs[g].len() && 0 <= k2 < ms.oneofs[g].len()
            && ms.oneofs[g][k1] == n && k2 != k1 && has_field_v(fields, ms.oneofs[g][k2])
}

/// Whether an element value matches a field kind on the surface (nested
/// messages are not checked against their schema here).
pub open spec fn shallow_matches(kind: FieldKindV, v: ValueV) -> bool {
    match (kind, v) {
        (FieldKindV::Scalar(k), ValueV::Scalar(sv)) => scalar_matches(k, sv),
        (FieldKindV::Enumeration(_), ValueV::EnumNum(_)) => true,
        (FieldKindV::MessageRef(_), ValueV::Nested(_)) => true,
        _ => false,
    }
}

/// The protobuf zero value for a scalar kind, as an executable value.
pub fn zero_scalar(k: ScalarKind) -> (r: ScalarValue)
    ensures
        scalar_v(r) == zero_scalar_v(k),
{
    match k {
        ScalarKind::Bool => ScalarValue::Bool(false),
        ScalarKind::Uint64 => ScalarValue::Uint64(0),
        ScalarKind::Int64 => ScalarValue::Int64(0),
        ScalarKind::Text => {
            let r = ScalarValue::Text(Vec::new());
            proof {
                assert(scalar_v(r) =~~= zero_scalar_v(ScalarKind::Text));
            }
            r
        },
        ScalarKind::Bytes => {
            let r = ScalarValue::Bytes(Vec::new());
            proof {
                assert(scalar_v(r) =~~= zero_scalar_v(ScalarKind::Bytes));
            }
            r
        },
    }
}

/// Decides whether a field number belongs to a oneof group.
#[verifier::loop_isolation(false)]
pub fn is_member(ms: &MessageSchema, n: u32) -> (r: bool)
    ensures
        r == is_oneof_member(ms@, n),
{
    let ng = ms.oneofs.len();
    let mut g: usize = 0;
    while g < ng
        invariant
            0 <= g <= ng,
            forall|a: int, k: int|
                0 <= a < g && 0 <= k < ms@.oneofs[a].len() ==> ms@.oneofs[a][k] != n,
        decreases ng - g,
    {
        let nk = ms.oneofs[g].len();
        let mut k: usize = 0;
        while k < nk
            invariant
                0 <= k <= nk,
                forall|b: int| 0 <= b < k ==> ms@.oneofs[g as int][b] != n,
            decreases nk - k,
    {
            proof {
                assert(ms@.oneofs[g as int][k as int] == ms.oneofs@[g as int]@[k as int]);
            }
            if ms.oneofs[g][k] == n {
                return true;
            }
            k += 1;
        }
        g += 1;
    }
    false
}

/// Whether a field number is populated, related across viewing.
pub proof fn lemma_has_field_iff(s: Seq<(u32, FieldValue)>, n: u32)
    ensures
        has_field_v(fields_v(s), n) == (exists|i: int| 0 <= i < s.len() && s[i].0 == n),
{
    lemma_fields_v_numbers(s);
    if exists|i: int| 0 <= i < s.len() && s[i].0 == n {
        let i = choose|i: int| 0 <= i < s.len() && s[i].0 == n;
        lemma_fields_v_index(s, i);
        assert(fields_v(s)[i].0 == n);
        assert(has_field_v(fields_v(s), n));
    }
    if has_field_v(fields_v(s), n) {
        let i = choose|i: int| 0 <= i < fields_v(s).len() && fields_v(s)[i].0 == n;
        assert(s[i].0 == n);
    }
}

/// Field numbers are preserved by viewing.
pub proof fn lemma_fields_v_numbers(s: Seq<(u32, FieldValue)>)
    ensures
        fields_v(s).len() == s.len(),
        forall|i: int| 0 <= i < s.len() ==> (#[trigger] fields_v(s)[i]).0 == s[i].0,
{
    lemma_fields_v_len(s);
    assert forall|i: int| 0 <= i < s.len() implies (#[trigger] fields_v(s)[i]).0 == s[i].0 by {
        lemma_fields_v_index(s, i);
    }
}

/// Decides whether a scalar value matches a scalar kind.
pub fn scalar_kind_matches(k: ScalarKind, v: &ScalarValue) -> (r: bool)
    ensures
        r == scalar_matches(k, scalar_v(*v)),
{
    match (k, v) {
        (ScalarKind::Bool, ScalarValue::Bool(_)) => true,
        (ScalarKind::Uint64, ScalarValue::Uint64(_)) => true,
        (ScalarKind::Int64, ScalarValue::Int64(_)) => true,
        (ScalarKind::Text, ScalarValue::Text(_)) => true,
        (ScalarKind::Bytes, ScalarValue::Bytes(_)) => true,
        _ => false,
    }
}

/// Whether a singular scalar write to field `n` must succeed.
pub open spec fn scalar_set_ok(
    ms: MessageSchemaV,
    fields: Seq<(u32, FieldValueV)>,
    n: u32,
    sv: ScalarV,
) -> bool {
    match find_field(ms, n) {
        Some(fs) => fs.card == Cardinality::Singular && (fs.kind matches FieldKindV::Scalar(k)
            && scalar_matches(k, sv)) && !oneof_blocked(ms, fields, n),
        None => false,
    }
}

/// Decides whether two scalar values are equal in view.
pub fn scalar_eq(a: &ScalarValue, b: &ScalarValue) -> (r: bool)
    ensures
        r == (scalar_v(*a) == scalar_v(*b)),
{
    match (a, b) {
        (ScalarValue::Bool(x), ScalarValue::Bool(y)) => x == y,
        (ScalarValue::Uint64(x), ScalarValue::Uint64(y)) => x == y,
        (ScalarValue::Int64(x), ScalarValue::Int64(y)) => x == y,
        (ScalarValue::Text(x), ScalarValue::Text(y)) => crate::strutil::bytes_eq(x, y),
        (ScalarValue::Bytes(x), ScalarValue::Bytes(y)) => crate::strutil::bytes_eq(x, y),
        _ => false,
    }
}

impl DynamicMessage {
    /// A message with no populated fields.
    pub fn new_empty() -> (r: DynamicMessage)
        ensures
            msg_v(r) == empty_msg_v(),
    {
        let r = DynamicMessage { fields: Vec::new(), unknown: Vec::new() };
        proof {
            assert(msg_v(r).fields =~= empty_msg_v().fields);
            assert(msg_v(r).unknown =~= empty_msg_v().unknown);
        }
        r
    }

    /// Builds the schema-correct default instance: scalar fields get their
    /// zero value, enum fields the zero number, repeated and map fields an
    /// empty container; singular nested messages stay absent and oneof
    /// members stay unset.
    #[verifier::loop_isolation(false)]
    pub fn build_default(ms: &MessageSchema) -> (r: DynamicMessage)
        ensures
            msg_v(r) == default_msg(ms@),
    {
        let mut fields: Vec<(u32, FieldValue)> = Vec::new();
        proof {
            assert(fields_v(fields@) =~= default_fields(ms@, ms@.fields.take(0)));
        }
        let nf = ms.fields.len();
        let mut i: usize = 0;
        while i < nf
            invariant
                0 <= i <= nf,
                fields_v(fields@) == default_fields(ms@, ms@.fields.take(i as int)),
            decreases nf - i,
        {
            let ghost prev = fields@;
            let f = &ms.fields[i];
            proof {
                assert(ms@.fields[i as int] == ms.fields@[i as int]@);
            }
            if !is_member(ms, f.number) {
                match f.card {
                    Cardinality::Repeated => {
                        fields.push((f.number, FieldValue::Repeated(Vec::new())));
                        proof {
                            lemma_fields_v_push(prev, fields@[prev.len() as int]);
                            assert(field_value_v(fields@[prev.len() as int].1) =~~= FieldValueV::Repeated(
                                Seq::empty(),
                            ));
                        }
                    },
                    Cardinality::Mapped(_) => {
                        fields.push((f.number, FieldValue::MapEntries(Vec::new())));
                        proof {
                            lemma_fields_v_push(prev, fields@[prev.len() as int]);
                            assert(field_value_v(fields@[prev.len() as int].1) =~~= FieldValueV::MapEntries(
                                Seq::empty(),
                            ));
                        }
                    },
                    Cardinality::Singular => {
                        match &f.kind {
                            FieldKind::Scalar(k) => {
                                fields.push(
                                    (f.number, FieldValue::Single(Value::Scalar(zero_scalar(*k)))),
                                );
                                proof {
                                    lemma_fields_v_push(prev, fields@[prev.len() as int]);
                                }
                            },
                            FieldKind::Enumeration(_) => {
                                fields.push((f.number, FieldValue::Single(Value::EnumNum(0))));
                                proof {
                                    lemma_fields_v_push(prev, fields@[prev.len() as int]);
                                }
                            },
                            FieldKind::MessageRef(_) => {},
                        }
                    },
                }
            }
            proof {
                lemma_default_fields_take(ms@, ms@.fields, i as int);
                assert(fields_v(fields@) =~= default_fields(ms@, ms@.fields.take(i as int + 1)));
            }
            i += 1;
        }
        proof {
            assert(ms@.fields.take(nf as int) =~= ms@.fields);
        }
        let r = DynamicMessage { fields, unknown: Vec::new() };
        proof {
            assert(msg_v(r).unknown =~= Seq::<UnknownV>::empty());
        }
        r
    }

    /// Decides whether writing oneof member `n` is blocked by another
    /// populated member of the same group.
    #[verifier::loop_isolation(false)]
    pub fn blocked(&self, ms: &MessageSchema, n: u32) -> (r: bool)
        requires
            crate::schema::wf_message_schema(ms@),
        ensures
            r == oneof_blocked(ms@, msg_v(*self).fields, n),
    {
        proof {
            lemma_fields_v_numbers(self.fields@);
        }
        let ng = ms.oneofs.len();
        let mut g: usize = 0;
        while g < ng
            invariant
                0 <= g <= ng,
                forall|a: int, k1: int, k2: int|
                    0 <= a < g && 0 <= k1 < ms@.oneofs[a].len() && 0 <= k2 < ms@.oneofs[a].len()
                        && ms@.oneofs[a][k1] == n && k2 != k1 ==> !has_field_v(
                        msg_v(*self).fields,
                        ms@.oneofs[a][k2],
                    ),
            decreases ng - g,
        {
            let nk = ms.oneofs[g].len();
            let mut k1: usize = 0;
            let mut in_group = false;
            let ghost mut k1w: int = 0;
            while k1 < nk
                invariant
                    0 <= k1 <= nk,
                    in_group ==> 0 <= k1w < nk && ms@.oneofs[g as int][k1w] == n,
                    !in_group ==> forall|b: int| 0 <= b < k1 ==> ms@.oneofs[g as int][b] != n,
                decreases nk - k1,
            {
                proof {
                    assert(ms@.oneofs[g as int][k1 as int] == ms.oneofs@[g as int]@[k1 as int]);
                }
                if ms.oneofs[g][k1] == n {
                    in_group = true;
                    proof {
                        k1w = k1 as int;
                    }
                }
                k1 += 1;
            }
            if in_group {
                let mut k2: usize = 0;
                while k2 < nk
                    invariant
                        0 <= k2 <= nk,
                        0 <= k1w < nk && ms@.oneofs[g as int][k1w] == n,
                        forall|b: int|
                            0 <= b < k2 && b != k1w ==> !has_field_v(
                                msg_v(*self).fields,
                                ms@.oneofs[g as int][b],
                            ),
                    decreases nk - k2,
                {
                    proof {
                        assert(ms@.oneofs[g as int][k2 as int] == ms.oneofs@[g as int]@[k2 as int]);
                    }
                    let member = ms.oneofs[g][k2];
                    if member != n {
                        match self.entry_idx(member) {
                            Some(i) => {
                                proof {
                                    assert(msg_v(*self).fields[i as int].0 == member);
                                    assert(k2 as int != k1w);
                                }
                                return true;
                            },
                            None => {
                                proof {
                                    assert forall|j: int|
                                        0 <= j < msg_v(*self).fields.len() implies (
                                        #[trigger] msg_v(*self).fields[j]).0 != member by {}
                                }
                            },
                        }
                    }
                    k2 += 1;
                }
                proof {
                    assert forall|b1: int, b2: int|
                        0 <= b1 < nk && 0 <= b2 < nk && ms@.oneofs[g as int][b1] == n && b2
                            != b1 implies !has_field_v(
                        msg_v(*self).fields,
                        ms@.oneofs[g as int][b2],
                    ) by {
                        assert(b1 == k1w);
                    }
                }
            }
            g += 1;
        }
        false
    }

    /// Replaces or creates the entry for field `n` with the given value.
    #[verifier::loop_isolation(false)]
    pub(crate) fn store_single(&mut self, n: u32, v: Value)
        requires
            unique_fields(msg_v(*old(self)).fields),
        ensures
            msg_v(*final(self)) == set_single_v(msg_v(*old(self)), n, value_v(v)),
    {
        proof {
            lemma_fields_v_numbers(self.fields@);
        }
        let ghost vv = value_v(v);
        let ghost oldm = msg_v(*self);
        let ghost oldfs = self.fields@;
        proof {
            lemma_has_field_iff(oldfs, n);
        }
        match self.entry_idx(n) {
            Some(i) => {
                let ghost olds = self.fields@;
                let _ = self.fields.remove(i);
                self.fields.insert(i, (n, FieldValue::Single(v)));
                proof {
                    assert(self.fields@ =~= olds.update(i as int, self.fields@[i as int]));
                    lemma_fields_v_update(olds, i as int, self.fields@[i as int]);
                    assert(has_field_v(oldm.fields, n));
                    let c = field_idx_v(oldm.fields, n);
                    assert(oldm.fields[c].0 == n);
                    assert(oldm.fields[i as int].0 == n);
                    assert(c == i as int);
                    assert(msg_v(*self).fields =~= set_single_v(oldm, n, vv).fields);
                }
            },
            None => {
                self.fields.push((n, FieldValue::Single(v)));
                proof {
                    let x = self.fields@.last();
                    assert(self.fields@ == oldfs.push(x));
                    lemma_fields_v_push(oldfs, x);
                    assert(!has_field_v(oldm.fields, n));
                    assert(field_value_v(x.1) == FieldValueV::Single(vv));
                    assert(msg_v(*self).fields == fields_v(oldfs).push(
                        (n, FieldValueV::Single(vv)),
                    ));
                }
            },
        }
    }

    /// Writes a scalar value to the singular scalar field `n`, validating
    /// number, cardinality, kind and oneof exclusivity.
    pub fn set_scalar(&mut self, ms: &MessageSchema, n: u32, val: ScalarValue) -> (r: Result<
        (),
        FieldAccessError,
    >)
        requires
            crate::schema::wf_message_schema(ms@),
            unique_fields(msg_v(*old(self)).fields),
        ensures
            r is Ok <==> scalar_set_ok(ms@, msg_v(*old(self)).fields, n, scalar_v(val)),
            r is Ok ==> msg_v(*final(self)) == set_single_v(
                msg_v(*old(self)),
                n,
                ValueV::Scalar(scalar_v(val)),
            ),
            r is Err ==> msg_v(*final(self)) == msg_v(*old(self)),
            r == Err::<(), FieldAccessError>(FieldAccessError::UnknownField) <==> find_field(
                ms@,
                n,
            ) is None,
    {
        match crate::registry::find_field_idx(ms, n) {
            None => Err(FieldAccessError::UnknownField),
            Some(fi) => {
                proof {
                    crate::registry::lemma_find_field_unique(ms@, fi as int);
                    assert(ms@.fields[fi as int] == ms.fields@[fi as int]@);
                }
                match ms.fields[fi].card {
                    Cardinality::Singular => {},
                    _ => {
                        return Err(FieldAccessError::CardinalityMismatch);
                    },
                }
                match &ms.fields[fi].kind {
                    FieldKind::Scalar(k) => {
                        if !scalar_kind_matches(*k, &val) {
                            return Err(FieldAccessError::KindMismatch);
                        }
                    },
                    _ => {
                        return Err(FieldAccessError::KindMismatch);
                    },
                }
                if self.blocked(ms, n) {
                    return Err(FieldAccessError::OneofConflict);
                }
                self.store_single(n, Value::Scalar(val));
                Ok(())
            },
        }
    }

    /// Appends one element to the repeated field `n`, validating number,
    /// cardinality and (surface) kind.
    #[verifier::loop_isolation(false)]
    pub fn append_repeated(&mut self, ms: &MessageSchema, n: u32, val: Value) -> (r: Result<
        (),
        FieldAccessError,
    >)
        requires
            crate::schema::wf_message_schema(ms@),
            unique_fields(msg_v(*old(self)).fields),
        ensures
            r is Ok <==> (find_field(ms@, n) matches Some(fs) && fs.card == Cardinality::Repeated
                && shallow_matches(fs.kind, value_v(val))),
            r is Ok ==> msg_v(*final(self)) == append_elem_v(msg_v(*old(self)), n, value_v(val)),
            r is Err ==> msg_v(*final(self)) == msg_v(*old(self)),
            r == Err::<(), FieldAccessError>(FieldAccessError::UnknownField) <==> find_field(
                ms@,
                n,
            ) is None,
    {
        match crate::registry::find_field_idx(ms, n) {
            None => Err(FieldAccessError::UnknownField),
            Some(fi) => {
                proof {
                    crate::registry::lemma_find_field_unique(ms@, fi as int);
                    assert(ms@.fields[fi as int] == ms.fields@[fi as int]@);
                }
                match ms.fields[fi].card {
                    Cardinality::Repeated => {},
                    _ => {
                        return Err(FieldAccessError::CardinalityMismatch);
                    },
                }
                let kind_ok = match (&ms.fields[fi].kind, &val) {
                    (FieldKind::Scalar(k), Value::Scalar(sv)) => scalar_kind_matches(*k, sv),
                    (FieldKind::Enumeration(_), Value::EnumNum(_)) => true,
                    (FieldKind::MessageRef(_), Value::Nested(_)) => true,
                    _ => false,
                };
                if !kind_ok {
                    return Err(FieldAccessError::KindMismatch);
                }
                self.store_append(n, val);
                Ok(())
            },
        }
    }

    /// Appends one element to field `n` without schema validation.
    #[verifier::loop_isolation(false)]
    pub(crate) fn store_append(&mut self, n: u32, val: Value)
        requires
            unique_fields(msg_v(*old(self)).fields),
        ensures
            msg_v(*final(self)) == append_elem_v(msg_v(*old(self)), n, value_v(val)),
    {
        proof {
            lemma_fields_v_numbers(self.fields@);
        }
        let ghost vv = value_v(val);
        let ghost oldm = msg_v(*self);
        let ghost oldfs = self.fields@;
        proof {
            lemma_has_field_iff(oldfs, n);
        }
        match self.entry_idx(n) {
                    Some(i) => {
                        let ghost olds = self.fields@;
                        let old_entry = self.fields.remove(i);
                        let newfv = match old_entry.1 {
                            FieldValue::Repeated(mut es) => {
                                let ghost olde = es@;
                                es.push(val);
                                proof {
                                    lemma_values_v_push(olde, es@.last());
                                    assert(olde.push(es@.last()) =~= es@);
                                }
                                FieldValue::Repeated(es)
                            },
                            _ => {
                                let mut es: Vec<Value> = Vec::new();
                                es.push(val);
                                proof {
                                    assert(values_v(es@.drop_first()) =~= Seq::<ValueV>::empty());
                                    assert(values_v(es@) =~= seq![value_v(es@[0])]);
                                }
                                FieldValue::Repeated(es)
                            },
                        };
                        self.fields.insert(i, (n, newfv));
                        proof {
                            assert(self.fields@ =~= olds.update(i as int, self.fields@[i as int]));
                            lemma_fields_v_update(olds, i as int, self.fields@[i as int]);
                            lemma_fields_v_index(olds, i as int);
                            assert(has_field_v(oldm.fields, n));
                            let c = field_idx_v(oldm.fields, n);
                            assert(oldm.fields[c].0 == n);
                            assert(oldm.fields[i as int].0 == n);
                            assert(c == i as int);
                            assert(msg_v(*self).fields =~= append_elem_v(oldm, n, vv).fields);
                        }
                    },
                    None => {
                        let mut es: Vec<Value> = Vec::new();
                        es.push(val);
                        proof {
                            assert(values_v(es@.drop_first()) =~= Seq::<ValueV>::empty());
                            assert(values_v(es@) =~= seq![value_v(es@[0])]);
                        }
                        self.fields.push((n, FieldValue::Repeated(es)));
                        proof {
                            let x = self.fields@.last();
                            assert(self.fields@ == oldfs.push(x));
                            lemma_fields_v_push(oldfs, x);
                            assert(!has_field_v(oldm.fields, n));
                            assert(field_value_v(x.1) == FieldValueV::Repeated(seq![vv]));
                            assert(msg_v(*self).fields == fields_v(oldfs).push(
                                (n, FieldValueV::Repeated(seq![vv])),
                            ));
                        }
                    },
                }
    }

    /// Inserts or overwrites one entry of the map field `n`, validating
    /// number, cardinality, key kind and (surface) value kind.
    #[verifier::loop_isolation(false)]
    pub fn set_map_entry(
        &mut self,
        ms: &MessageSchema,
        n: u32,
        key: ScalarValue,
        val: Value,
    ) -> (r: Result<(), FieldAccessError>)
        requires
            crate::schema::wf_message_schema(ms@),
            unique_fields(msg_v(*old(self)).fields),
        ensures
            r is Ok <==> (find_field(ms@, n) matches Some(fs) && (fs.card matches
                Cardinality::Mapped(kk) && scalar_matches(kk, scalar_v(key))) && shallow_matches(
                fs.kind,
                value_v(val),
            )),
            r is Ok ==> msg_v(*final(self)) == upsert_entry_v(
                msg_v(*old(self)),
                n,
                scalar_v(key),
                value_v(val),
            ),
            r is Err ==> msg_v(*final(self)) == msg_v(*old(self)),
            r == Err::<(), FieldAccessError>(FieldAccessError::UnknownField) <==> find_field(
                ms@,
                n,
            ) is None,
    {
        match crate::registry::find_field_idx(ms, n) {
            None => Err(FieldAccessError::UnknownField),
            Some(fi) => {
                proof {
                    crate::registry::lemma_find_field_unique(ms@, fi as int);
                    assert(ms@.fields[fi as int] == ms.fields@[fi as int]@);
                }
                let kk = match ms.fields[fi].card {
                    Cardinality::Mapped(kk) => kk,
                    _ => {
                        return Err(FieldAccessError::CardinalityMismatch);
                    },
                };
                if !scalar_kind_matches(kk, &key) {
                    return Err(FieldAccessError::KindMismatch);
                }
                let kind_ok = match (&ms.fields[fi].kind, &val) {
                    (FieldKind::Scalar(k), Value::Scalar(sv)) => scalar_kind_matches(*k, sv),
                    (FieldKind::Enumeration(_), Value::EnumNum(_)) => true,
                    (FieldKind::MessageRef(_), Value::Nested(_)) => true,
                    _ => false,
                };
                if !kind_ok {
                    return Err(FieldAccessError::KindMismatch);
                }
                self.store_upsert(n, key, val);
                Ok(())
            },
        }
    }

    /// Inserts or overwrites one map entry of field `n` without schema
    /// validation.
    #[verifier::loop_isolation(false)]
    pub(crate) fn store_upsert(&mut self, n: u32, key: ScalarValue, val: Value)
        requires
            unique_fields(msg_v(*old(self)).fields),
        ensures
            msg_v(*final(self)) == upsert_entry_v(
                msg_v(*old(self)),
                n,
                scalar_v(key),
                value_v(val),
            ),
    {
        proof {
            lemma_fields_v_numbers(self.fields@);
        }
        let ghost kv = scalar_v(key);
        let ghost vv = value_v(val);
        let ghost oldm = msg_v(*self);
        let ghost oldfs = self.fields@;
        proof {
            lemma_has_field_iff(oldfs, n);
        }
        match self.entry_idx(n) {
                    Some(i) => {
                        let ghost olds = self.fields@;
                        let old_entry = self.fields.remove(i);
                        let newfv = match old_entry.1 {
                            FieldValue::MapEntries(mut es) => {
                                let ghost olde = es@;
                                let mut j: usize = 0;
                                let mut found: Option<usize> = None;
                                while j < es.len()
                                    invariant
                                        0 <= j <= es@.len(),
                                        es@ == olde,
                                        match found {
                                            Some(x) => 0 <= x < es@.len() && scalar_v(
                                                es@[x as int].0,
                                            ) == kv && forall|b: int|
                                                0 <= b < x ==> scalar_v(es@[b].0) != kv,
                                            None => forall|b: int|
                                                0 <= b < j ==> scalar_v(es@[b].0) != kv,
                                        },
                                        found is Some ==> j == es@.len(),
                                    decreases es@.len() - j + (if found is Some {
                                        0int
                                    } else {
                                        1int
                                    }),
                                {
                                    if scalar_eq(&es[j].0, &key) {
                                        found = Some(j);
                                        proof {
                                            lemma_entries_v_index(olde, j as int);
                                        }
                                        break;
                                    }
                                    j += 1;
                                }
                                proof {
                                    lemma_entries_v_len(olde);
                                }
                                match found {
                                    Some(x) => {
                                        let ghost olde2 = es@;
                                        let _ = es.remove(x);
                                        es.insert(x, (key, val));
                                        proof {
                                            assert(es@ =~= olde2.update(x as int, es@[x as int]));
                                            lemma_entries_v_update(
                                                olde2,
                                                x as int,
                                                es@[x as int],
                                            );
                                            assert forall|b: int|
                                                0 <= b < entries_v(olde).len() implies (
                                            scalar_v(olde[b].0) == entries_v(olde)[b].0) by {
                                                lemma_entries_v_index(olde, b);
                                            }
                                            assert(forall|b: int|
                                                0 <= b < x ==> entries_v(olde)[b].0 != kv);
                                            assert(entries_v(olde)[x as int].0 == kv);
                                            assert(exists|jj: int|
                                                0 <= jj < entries_v(olde).len() && entries_v(
                                                    olde,
                                                )[jj].0 == kv);
                                            let c = first_key_idx(entries_v(olde), kv);
                                            assert((x as int) < entries_v(olde).len());
                                            if c != x as int {
                                                assert(entries_v(olde)[c].0 == kv);
                                            }
                                            assert(c == x as int);
                                        }
                                        FieldValue::MapEntries(es)
                                    },
                                    None => {
                                        let ghost olde2 = es@;
                                        es.push((key, val));
                                        proof {
                                            lemma_entries_v_push(olde2, es@.last());
                                            assert(olde2.push(es@.last()) =~= es@);
                                            assert forall|b: int|
                                                0 <= b < entries_v(olde).len() implies (
                                            scalar_v(olde[b].0) == entries_v(olde)[b].0) by {
                                                lemma_entries_v_index(olde, b);
                                            }
                                        }
                                        FieldValue::MapEntries(es)
                                    },
                                }
                            },
                            _ => {
                                let mut es: Vec<(ScalarValue, Value)> = Vec::new();
                                es.push((key, val));
                                proof {
                                    assert(entries_v(es@.drop_first()) =~= Seq::<
                                        (ScalarV, ValueV),
                                    >::empty());
                                    assert(entries_v(es@) =~= seq![
                                        (scalar_v(es@[0].0), value_v(es@[0].1)),
                                    ]);
                                }
                                FieldValue::MapEntries(es)
                            },
                        };
                        self.fields.insert(i, (n, newfv));
                        proof {
                            assert(self.fields@ =~= olds.update(i as int, self.fields@[i as int]));
                            lemma_fields_v_update(olds, i as int, self.fields@[i as int]);
                            lemma_fields_v_index(olds, i as int);
                            assert(has_field_v(oldm.fields, n));
                            let c = field_idx_v(oldm.fields, n);
                            assert(oldm.fields[c].0 == n);
                            assert(oldm.fields[i as int].0 == n);
                            assert(c == i as int);
                            assert(msg_v(*self).fields =~= upsert_entry_v(
                                oldm,
                                n,
                                kv,
                                vv,
                            ).fields);
                        }
                    },
                    None => {
                        let mut es: Vec<(ScalarValue, Value)> = Vec::new();
                        es.push((key, val));
                        proof {
                            assert(entries_v(es@.drop_first()) =~= Seq::<
                                (ScalarV, ValueV),
                            >::empty());
                            assert(entries_v(es@) =~= seq![
                                (scalar_v(es@[0].0), value_v(es@[0].1)),
                            ]);
                        }
                        self.fields.push((n, FieldValue::MapEntries(es)));
                        proof {
                            let x = self.fields@.last();
                            assert(self.fields@ == oldfs.push(x));
                            lemma_fields_v_push(oldfs, x);
                            assert(!has_field_v(oldm.fields, n));
                            assert(field_value_v(x.1) == FieldValueV::MapEntries(seq![(kv, vv)]));
                            assert(msg_v(*self).fields == fields_v(oldfs).push(
                                (n, FieldValueV::MapEntries(seq![(kv, vv)])),
                            ));
                        }
                    },
                }
    }


    /// Finds the populated other member of `n`'s oneof group, as an
    /// index into the populated fields.
    #[verifier::loop_isolation(false)]
    fn find_blocking(&self, ms: &MessageSchema, n: u32) -> (r: Option<usize>)
        requires
            crate::schema::wf_message_schema(ms@),
        ensures
            match r {
                Some(ei) => 0 <= ei < self.fields@.len() && is_blocking(
                    ms@,
                    msg_v(*self).fields,
                    n,
                    self.fields@[ei as int].0,
                ),
                None => !oneof_blocked(ms@, msg_v(*self).fields, n),
            },
    {
        proof {
            lemma_fields_v_numbers(self.fields@);
        }
        let ng = ms.oneofs.len();
        let mut g: usize = 0;
        while g < ng
            invariant
                0 <= g <= ng,
                forall|a: int, k1: int, k2: int|
                    0 <= a < g && 0 <= k1 < ms@.oneofs[a].len() && 0 <= k2 < ms@.oneofs[a].len()
                        && ms@.oneofs[a][k1] == n && k2 != k1 ==> !has_field_v(
                        msg_v(*self).fields,
                        ms@.oneofs[a][k2],
                    ),
            decreases ng - g,
        {
            let nk = ms.oneofs[g].len();
            let mut k1 = 0usize;
            let mut in_group = false;
            let ghost mut k1w: int = 0;
            while k1 < nk
                invariant
                    0 <= k1 <= nk,
                    in_group ==> 0 <= k1w < nk && ms@.oneofs[g as int][k1w] == n,
                    !in_group ==> forall|b: int| 0 <= b < k1 ==> ms@.oneofs[g as int][b] != n,
                decreases nk - k1,
            {
                proof {
                    assert(ms@.oneofs[g as int][k1 as int] == ms.oneofs@[g as int]@[k1 as int]);
                }
                if ms.oneofs[g][k1] == n {
                    in_group = true;
                    proof {
                        k1w = k1 as int;
                    }
                }
                k1 += 1;
            }
            if in_group {
                let mut k2 = 0usize;
                while k2 < nk
                    invariant
                        0 <= k2 <= nk,
                        0 <= k1w < nk && ms@.oneofs[g as int][k1w] == n,
                        forall|b: int|
                            0 <= b < k2 && b != k1w ==> !has_field_v(
                                msg_v(*self).fields,
                                ms@.oneofs[g as int][b],
                            ),
                    decreases nk - k2,
                {
                    proof {
                        assert(ms@.oneofs[g as int][k2 as int] == ms.oneofs@[g as int]@[k2 as int]);
                    }
                    let member = ms.oneofs[g][k2];
                    if member != n {
                        match self.entry_idx(member) {
                            Some(ei) => {
                                proof {
                                    assert(msg_v(*self).fields[ei as int].0 == member);
                                    assert(k2 as int != k1w);
                                    assert(is_blocking(ms@, msg_v(*self).fields, n, member));
                                }
                                return Some(ei);
                            },
                            None => {
                                proof {
                                    assert forall|j: int|
                                        0 <= j < msg_v(*self).fields.len() implies (
                                    #[trigger] msg_v(*self).fields[j]).0 != member by {}
                                }
                            },
                        }
                    }
                    k2 += 1;
                }
                proof {
                    assert forall|b1: int, b2: int|
                        0 <= b1 < nk && 0 <= b2 < nk && ms@.oneofs[g as int][b1] == n && b2
                            != b1 implies !has_field_v(
                        msg_v(*self).fields,
                        ms@.oneofs[g as int][b2],
                    ) by {
                        assert(b1 == k1w);
                    }
                }
            }
            g += 1;
        }
        None
    }

    /// Activates oneof member `n`: any populated other member of its
    /// group is cleared, then `n` is populated with its default value
    /// (zero scalar, zero enum number, or an empty child message).
    #[verifier::loop_isolation(false)]
    pub fn activate_oneof_member(&mut self, ms: &MessageSchema, n: u32) -> (r: Result<
        (),
        FieldAccessError,
    >)
        requires
            crate::schema::wf_message_schema(ms@),
            unique_fields(msg_v(*old(self)).fields),
            oneof_exclusive(ms@, msg_v(*old(self)).fields),
        ensures
            r is Ok <==> is_oneof_member(ms@, n),
            r is Ok ==> msg_v(*final(self)) == activate_v(msg_v(*old(self)), ms@, n),
            r is Err ==> msg_v(*final(self)) == msg_v(*old(self)) && r == Err::<
                (),
                FieldAccessError,
            >(FieldAccessError::NotOneofMember),
    {
        if !is_member(ms, n) {
            return Err(FieldAccessError::NotOneofMember);
        }
        let ghost oldm = msg_v(*self);
        proof {
            lemma_fields_v_numbers(self.fields@);
        }
        match self.find_blocking(ms, n) {
            Some(ei) => {
                let ghost mm = self.fields@[ei as int].0;
                proof {
                    assert(oneof_blocked(ms@, oldm.fields, n));
                    lemma_blocking_unique(ms@, oldm.fields, n, blocked_member(
                        ms@,
                        oldm.fields,
                        n,
                    ), mm);
                    let c = field_idx_v(oldm.fields, mm);
                    assert(oldm.fields[c].0 == mm);
                    assert(oldm.fields[ei as int].0 == mm);
                    assert(c == ei as int);
                }
                let ghost olds = self.fields@;
                let _ = self.fields.remove(ei);
                proof {
                    lemma_fields_v_remove(olds, ei as int);
                    lemma_remove_unique(fields_v(olds), ei as int);
                }
                self.set_member_default(ms, n);
                Ok(())
            },
            None => {
                self.set_member_default(ms, n);
                Ok(())
            },
        }
    }

    /// Populates oneof member `n` with its default value.
    fn set_member_default(&mut self, ms: &MessageSchema, n: u32)
        requires
            crate::schema::wf_message_schema(ms@),
            is_oneof_member(ms@, n),
            unique_fields(msg_v(*old(self)).fields),
        ensures
            msg_v(*final(self)) == set_single_v(
                msg_v(*old(self)),
                n,
                member_default(find_field(ms@, n)->Some_0),
            ),
    {
        proof {
            let (g, k) = choose|g: int, k: int|
                0 <= g < ms@.oneofs.len() && 0 <= k < ms@.oneofs[g].len() && ms@.oneofs[g][k] == n;
            assert(crate::schema::singular_member(ms@, ms@.oneofs[g][k]));
        }
        match crate::registry::find_field_idx(ms, n) {
            None => {
                proof {
                    assert(false);
                }
            },
            Some(fi) => {
                proof {
                    crate::registry::lemma_find_field_unique(ms@, fi as int);
                    assert(ms@.fields[fi as int] == ms.fields@[fi as int]@);
                }
                let v = match &ms.fields[fi].kind {
                    FieldKind::Scalar(k) => Value::Scalar(zero_scalar(*k)),
                    FieldKind::Enumeration(_) => Value::EnumNum(0),
                    FieldKind::MessageRef(_) => Value::Nested(Box::new(DynamicMessage::new_empty())),
                };
                proof {
                    assert(value_v(v) == member_default(find_field(ms@, n)->Some_0));
                }
                self.store_single(n, v);
            },
        }
    }

    /// Lazily materializes the singular nested-message field `n`: if it
    /// is absent, a default child for its resolved schema is populated;
    /// if it is already populated, nothing changes.
    pub fn expand_nested(
        &mut self,
        ms: &MessageSchema,
        reg: &DescriptorRegistry,
        n: u32,
    ) -> (r: Result<(), FieldAccessError>)
        requires
            crate::schema::wf_message_schema(ms@),
            crate::registry::wf_registry(reg@),
            unique_fields(msg_v(*old(self)).fields),
        ensures
            r is Ok <==> (find_field(ms@, n) matches Some(fs) && fs.card == Cardinality::Singular
                && (fs.kind matches FieldKindV::MessageRef(nm) && message_resolves(
                reg@.messages,
                nm,
            )) && !oneof_blocked(ms@, msg_v(*old(self)).fields, n)),
            r is Ok && has_field_v(msg_v(*old(self)).fields, n) ==> msg_v(*final(self)) == msg_v(
                *old(self),
            ),
            r is Ok && !has_field_v(msg_v(*old(self)).fields, n) ==> (find_field(ms@, n) matches
                Some(fs) && fs.kind matches FieldKindV::MessageRef(nm) && msg_v(*final(self))
                == set_single_v(
                msg_v(*old(self)),
                n,
                ValueV::Nested(default_msg(resolve_message_v(reg@.messages, nm))),
            )),
            r is Err ==> msg_v(*final(self)) == msg_v(*old(self)),
    {
        match crate::registry::find_field_idx(ms, n) {
            None => Err(FieldAccessError::UnknownField),
            Some(fi) => {
                proof {
                    crate::registry::lemma_find_field_unique(ms@, fi as int);
                    assert(ms@.fields[fi as int] == ms.fields@[fi as int]@);
                }
                match ms.fields[fi].card {
                    Cardinality::Singular => {},
                    _ => {
                        return Err(FieldAccessError::CardinalityMismatch);
                    },
                }
                let nm = match &ms.fields[fi].kind {
                    FieldKind::MessageRef(nm) => nm,
                    _ => {
                        return Err(FieldAccessError::KindMismatch);
                    },
                };
                let cms = match reg.resolve_message(nm.as_str()) {
                    Ok(cms) => cms,
                    Err(_) => {
                        return Err(FieldAccessError::TypeUnresolved);
                    },
                };
                if self.blocked(ms, n) {
                    return Err(FieldAccessError::OneofConflict);
                }
                proof {
                    lemma_has_field_iff(self.fields@, n);
                }
                match self.entry_idx(n) {
                    Some(_) => Ok(()),
                    None => {
                        let child = DynamicMessage::build_default(&cms);
                        proof {
                            assert(cms@ == resolve_message_v(reg@.messages, nm@));
                        }
                        self.store_single(n, Value::Nested(Box::new(child)));
                        Ok(())
                    },
                }
            },
        }
    }

    /// Finds the index of the populated field with number `n`, if any.
    #[verifier::loop_isolation(false)]
    pub fn entry_idx(&self, n: u32) -> (r: Option<usize>)
        ensures
            match r {
                Some(i) => 0 <= i < self.fields@.len() && self.fields@[i as int].0 == n && forall|
                    j: int,
                |
                    0 <= j < i ==> self.fields@[j].0 != n,
                None => forall|j: int| 0 <= j < self.fields@.len() ==> self.fields@[j].0 != n,
            },
    {
        let mut i: usize = 0;
        while i < self.fields.len()
            invariant
                0 <= i <= self.fields@.len(),
                forall|j: int| 0 <= j < i ==> self.fields@[j].0 != n,
            decreases self.fields@.len() - i,
        {
            if self.fields[i].0 == n {
                return Some(i);
            }
            i += 1;
        }
        None
    }
}


impl WirePayload {
    /// Copies this payload, preserving its view.
    #[verifier::loop_isolation(false)]
    pub fn dup(&self) -> (r: WirePayload)
        ensures
            payload_v(r) == payload_v(*self),
    {
        match self {
            WirePayload::Varint(v) => WirePayload::Varint(*v),
            WirePayload::Fixed32(v) => WirePayload::Fixed32(*v),
            WirePayload::Fixed64(v) => WirePayload::Fixed64(*v),
            WirePayload::LenDelim(b) => {
                let mut out: Vec<u8> = Vec::new();
                let mut i: usize = 0;
                while i < b.len()
                    invariant
                        0 <= i <= b@.len(),
                        out@ == b@.take(i as int),
                    decreases b@.len() - i,
                {
                    out.push(b[i]);
                    proof {
                        assert(out@ =~= b@.take(i as int + 1));
                    }
                    i += 1;
                }
                proof {
                    assert(b@.take(b@.len() as int) =~= b@);
                }
                WirePayload::LenDelim(out)
            },
        }
    }
}

impl DynamicMessage {
    /// Preserves one unknown wire field, appended in order.
    pub(crate) fn store_unknown(&mut self, u: UnknownField)
        ensures
            msg_v(*final(self)) == (MsgV {
                fields: msg_v(*old(self)).fields,
                unknown: msg_v(*old(self)).unknown.push(unknown_v(u)),
            }),
    {
        let ghost uv = unknown_v(u);
        let ghost prev = self.unknown@;
        self.unknown.push(u);
        proof {
            assert(unknowns_v(self.unknown@) =~= unknowns_v(prev).push(uv));
        }
    }
}

/// Overwriting or creating a singular field keeps field numbers unique.
pub proof fn lemma_set_single_unique(m: MsgV, n: u32, v: ValueV)
    requires
        unique_fields(m.fields),
    ensures
        unique_fields(set_single_v(m, n, v).fields),
{
    if has_field_v(m.fields, n) {
        let i = field_idx_v(m.fields, n);
        assert(m.fields[i].0 == n);
    }
}

/// Appending a repeated element keeps field numbers unique.
pub proof fn lemma_append_elem_unique(m: MsgV, n: u32, v: ValueV)
    requires
        unique_fields(m.fields),
    ensures
        unique_fields(append_elem_v(m, n, v).fields),
{
    if has_field_v(m.fields, n) {
        let i = field_idx_v(m.fields, n);
        assert(m.fields[i].0 == n);
    }
}

/// Inserting or overwriting a map entry keeps field numbers unique.
pub proof fn lemma_upsert_entry_unique(m: MsgV, n: u32, k: ScalarV, v: ValueV)
    requires
        unique_fields(m.fields),
    ensures
        unique_fields(upsert_entry_v(m, n, k, v).fields),
{
    if has_field_v(m.fields, n) {
        let i = field_idx_v(m.fields, n);
        assert(m.fields[i].0 == n);
    }
}

} // verus!
