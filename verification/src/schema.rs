//! Runtime descriptors: schemas for scalar kinds, fields, messages, enums,
//! methods and services, together with their ghost views and the
//! well-formedness conditions that the registry establishes at link time.

use vstd::prelude::*;

verus! {

/// A scalar field kind supported by the dynamic message engine.
#[derive(Clone, Copy, PartialEq, Eq, Structural, Debug)]
pub enum ScalarKind {
    Bool,
    Uint64,
    Int64,
    Text,
    Bytes,
}

/// How often a field occurs: once, as an ordered sequence, or as a
/// mapping whose keys have the given scalar kind.
#[derive(Clone, Copy, PartialEq, Eq, Structural, Debug)]
pub enum Cardinality {
    Singular,
    Repeated,
    Mapped(ScalarKind),
}

/// What a field holds: a scalar, a reference to an enum type, or a
/// reference to a message type.  References carry fully-qualified names.
#[derive(Debug)]
pub enum FieldKind {
    Scalar(ScalarKind),
    Enumeration(String),
    MessageRef(String),
}

/// Ghost view of a `FieldKind`.
pub enum FieldKindV {
    Scalar(ScalarKind),
    Enumeration(Seq<char>),
    MessageRef(Seq<char>),
}

impl View for FieldKind {
    type V = FieldKindV;

    open spec fn view(&self) -> FieldKindV {
        match self {
            FieldKind::Scalar(k) => FieldKindV::Scalar(*k),
            FieldKind::Enumeration(n) => FieldKindV::Enumeration(n@),
            FieldKind::MessageRef(n) => FieldKindV::MessageRef(n@),
        }
    }
}

/// One field of a message schema.  For a mapped field, `kind` is the
/// kind of the values and the key kind sits in the cardinality.
#[derive(Debug)]
pub struct FieldSchema {
    pub number: u32,
    pub name: String,
    pub kind: FieldKind,
    pub card: Cardinality,
}

/// Ghost view of a `FieldSchema`.
pub struct FieldSchemaV {
    pub number: u32,
    pub name: Seq<char>,
    pub kind: FieldKindV,
    pub card: Cardinality,
}

impl View for FieldSchema {
    type V = FieldSchemaV;

    open spec fn view(&self) -> FieldSchemaV {
        FieldSchemaV { number: self.number, name: self.name@, kind: self.kind@, card: self.card }
    }
}

/// One message type: an ordered field list plus oneof groups given as
/// lists of member field numbers.
#[derive(Debug)]
pub struct MessageSchema {
    pub name: String,
    pub fields: Vec<FieldSchema>,
    pub oneofs: Vec<Vec<u32>>,
}

/// Ghost view of a `MessageSchema`.
pub struct MessageSchemaV {
    pub name: Seq<char>,
    pub fields: Seq<FieldSchemaV>,
    pub oneofs: Seq<Seq<u32>>,
}

impl View for MessageSchema {
    type V = MessageSchemaV;

    open spec fn view(&self) -> MessageSchemaV {
        MessageSchemaV {
            name: self.name@,
            fields: self.fields@.map_values(|f: FieldSchema| f@),
            oneofs: self.oneofs@.map_values(|g: Vec<u32>| g@),
        }
    }
}

/// One enum type: ordered (name, number) pairs.
#[derive(Debug)]
pub struct EnumSchema {
    pub name: String,
    pub values: Vec<(String, u32)>,
}

/// Ghost view of an `EnumSchema`.
pub struct EnumSchemaV {
    pub name: Seq<char>,
    pub values: Seq<(Seq<char>, u32)>,
}

impl View for EnumSchema {
    type V = EnumSchemaV;

    open spec fn view(&self) -> EnumSchemaV {
        EnumSchemaV {
            name: self.name@,
            values: self.values@.map_values(|p: (String, u32)| (p.0@, p.1)),
        }
    }
}

/// One RPC method: input and output are fully-qualified message names.
#[derive(Debug)]
pub struct MethodSchema {
    pub name: String,
    pub input: String,
    pub output: String,
    pub unary: bool,
}

/// Ghost view of a `MethodSchema`.
pub struct MethodSchemaV {
    pub name: Seq<char>,
    pub input: Seq<char>,
    pub output: Seq<char>,
    pub unary: bool,
}

impl View for MethodSchema {
    type V = MethodSchemaV;

    open spec fn view(&self) -> MethodSchemaV {
        MethodSchemaV {
            name: self.name@,
            input: self.input@,
            output: self.output@,
            unary: self.unary,
        }
    }
}

/// One RPC service: a name and its methods in declaration order.
#[derive(Debug)]
pub struct ServiceSchema {
    pub name: String,
    pub methods: Vec<MethodSchema>,
}

/// Ghost view of a `ServiceSchema`.
pub struct ServiceSchemaV {
    pub name: Seq<char>,
    pub methods: Seq<MethodSchemaV>,
}

impl View for ServiceSchema {
    type V = ServiceSchemaV;

    open spec fn view(&self) -> ServiceSchemaV {
        ServiceSchemaV {
            name: self.name@,
            methods: self.methods@.map_values(|m: MethodSchema| m@),
        }
    }
}

/// One file-level descriptor: the types and services a proto file declares,
/// already carrying fully-qualified names.
#[derive(Debug)]
pub struct FileSchema {
    pub services: Vec<ServiceSchema>,
    pub messages: Vec<MessageSchema>,
    pub enums: Vec<EnumSchema>,
}

/// Ghost view of a `FileSchema`.
pub struct FileSchemaV {
    pub services: Seq<ServiceSchemaV>,
    pub messages: Seq<MessageSchemaV>,
    pub enums: Seq<EnumSchemaV>,
}

impl View for FileSchema {
    type V = FileSchemaV;

    open spec fn view(&self) -> FileSchemaV {
        FileSchemaV {
            services: self.services@.map_values(|s: ServiceSchema| s@),
            messages: self.messages@.map_values(|m: MessageSchema| m@),
            enums: self.enums@.map_values(|e: EnumSchema| e@),
        }
    }
}

/// An unprocessed descriptor set: file descriptors in order, not yet linked.
#[derive(Debug)]
pub struct RawDescriptorSet {
    pub files: Vec<FileSchema>,
}

impl View for RawDescriptorSet {
    type V = Seq<FileSchemaV>;

    open spec fn view(&self) -> Seq<FileSchemaV> {
        self.files@.map_values(|f: FileSchema| f@)
    }
}

impl FieldKind {
    /// Copies this kind, preserving its view.
    pub fn dup(&self) -> (r: FieldKind)
        ensures
            r@ == self@,
    {
        match self {
            FieldKind::Scalar(k) => FieldKind::Scalar(*k),
            FieldKind::Enumeration(n) => FieldKind::Enumeration(n.clone()),
            FieldKind::MessageRef(n) => FieldKind::MessageRef(n.clone()),
        }
    }
}

impl FieldSchema {
    /// Copies this field schema, preserving its view.
    pub fn dup(&self) -> (r: FieldSchema)
        ensures
            r@ == self@,
    {
        FieldSchema {
            number: self.number,
            name: self.name.clone(),
            kind: self.kind.dup(),
            card: self.card,
        }
    }
}

impl MessageSchema {
    /// Copies this message schema, preserving its view.
    pub fn dup(&self) -> (r: MessageSchema)
        ensures
            r@ == self@,
    {
        let mut fields: Vec<FieldSchema> = Vec::new();
        let mut i: usize = 0;
        while i < self.fields.len()
            invariant
                0 <= i <= self.fields@.len(),
                fields@.len() == i,
                forall|j: int| 0 <= j < i ==> fields@[j]@ == self.fields@[j]@,
            decreases self.fields@.len() - i,
        {
            fields.push(self.fields[i].dup());
            i += 1;
        }
        let mut oneofs: Vec<Vec<u32>> = Vec::new();
        let mut g: usize = 0;
        while g < self.oneofs.len()
            invariant
                0 <= g <= self.oneofs@.len(),
                oneofs@.len() == g,
                forall|j: int| 0 <= j < g ==> oneofs@[j]@ == self.oneofs@[j]@,
            decreases self.oneofs@.len() - g,
        {
            let mut grp: Vec<u32> = Vec::new();
            let mut k: usize = 0;
            while k < self.oneofs[g].len()
                invariant
                    0 <= g < self.oneofs@.len(),
                    0 <= k <= self.oneofs@[g as int]@.len(),
                    grp@ == self.oneofs@[g as int]@.take(k as int),
                decreases self.oneofs@[g as int]@.len() - k,
            {
                grp.push(self.oneofs[g][k]);
                k += 1;
            }
            proof {
                assert(grp@ =~= self.oneofs@[g as int]@);
            }
            oneofs.push(grp);
            g += 1;
        }
        let r = MessageSchema { name: self.name.clone(), fields, oneofs };
        proof {
            assert(r@.fields =~= self@.fields);
            assert(r@.oneofs =~= self@.oneofs);
        }
        r
    }
}

impl EnumSchema {
    /// Copies this enum schema, preserving its view.
    pub fn dup(&self) -> (r: EnumSchema)
        ensures
            r@ == self@,
    {
        let mut values: Vec<(String, u32)> = Vec::new();
        let mut i: usize = 0;
        while i < self.values.len()
            invariant
                0 <= i <= self.values@.len(),
                values@.len() == i,
                forall|j: int| 0 <= j < i ==> values@[j].0@ == self.values@[j].0@ && values@[j].1
                    == self.values@[j].1,
            decreases self.values@.len() - i,
        {
            values.push((self.values[i].0.clone(), self.values[i].1));
            i += 1;
        }
        let r = EnumSchema { name: self.name.clone(), values };
        proof {
            assert(r@.values =~= self@.values);
        }
        r
    }
}

impl MethodSchema {
    /// Copies this method schema, preserving its view.
    pub fn dup(&self) -> (r: MethodSchema)
        ensures
            r@ == self@,
    {
        MethodSchema {
            name: self.name.clone(),
            input: self.input.clone(),
            output: self.output.clone(),
            unary: self.unary,
        }
    }
}

impl ServiceSchema {
    /// Copies this service schema, preserving its view.
    pub fn dup(&self) -> (r: ServiceSchema)
        ensures
            r@ == self@,
    {
        let mut methods: Vec<MethodSchema> = Vec::new();
        let mut i: usize = 0;
        while i < self.methods.len()
            invariant
                0 <= i <= self.methods@.len(),
                methods@.len() == i,
                forall|j: int| 0 <= j < i ==> methods@[j]@ == self.methods@[j]@,
            decreases self.methods@.len() - i,
        {
            methods.push(self.methods[i].dup());
            i += 1;
        }
        let r = ServiceSchema { name: self.name.clone(), methods };
        proof {
            assert(r@.methods =~= self@.methods);
        }
        r
    }
}

/// The largest valid protobuf field number plus one (2^29).
pub const FIELD_NUMBER_LIMIT: u32 = 0x2000_0000;

/// A valid protobuf field number: nonzero and below 2^29.
pub open spec fn valid_field_number(n: u32) -> bool {
    1 <= n && n < FIELD_NUMBER_LIMIT
}

/// Whether a scalar kind is carried on the wire as a varint.
pub open spec fn is_varint_kind(k: ScalarKind) -> bool {
    match k {
        ScalarKind::Bool | ScalarKind::Uint64 | ScalarKind::Int64 => true,
        ScalarKind::Text | ScalarKind::Bytes => false,
    }
}

/// The field schema with the given number, if any.
pub open spec fn find_field(ms: MessageSchemaV, n: u32) -> Option<FieldSchemaV> {
    if exists|i: int| 0 <= i < ms.fields.len() && ms.fields[i].number == n {
        Some(ms.fields[choose|i: int| 0 <= i < ms.fields.len() && ms.fields[i].number == n])
    } else {
        None
    }
}

/// Structural well-formedness of one message schema: field numbers are
/// valid and unique, and every oneof group names distinct, existing,
/// singular fields, each field belonging to at most one group.
pub open spec fn wf_message_schema(ms: MessageSchemaV) -> bool {
    &&& forall|i: int|
        0 <= i < ms.fields.len() ==> valid_field_number(#[trigger] ms.fields[i].number)
    &&& forall|i: int, j: int|
        0 <= i < j < ms.fields.len() ==> ms.fields[i].number != ms.fields[j].number
    &&& forall|g: int, k: int|
        0 <= g < ms.oneofs.len() && 0 <= k < ms.oneofs[g].len() ==> singular_member(
            ms,
            #[trigger] ms.oneofs[g][k],
        )
    &&& forall|g: int, k1: int, k2: int|
        0 <= g < ms.oneofs.len() && 0 <= k1 < k2 < ms.oneofs[g].len() ==> ms.oneofs[g][k1]
            != ms.oneofs[g][k2]
    &&& forall|g1: int, g2: int, k1: int, k2: int|
        0 <= g1 < g2 < ms.oneofs.len() && 0 <= k1 < ms.oneofs[g1].len() && 0 <= k2
            < ms.oneofs[g2].len() ==> ms.oneofs[g1][k1] != ms.oneofs[g2][k2]
}

/// Whether field number `n` names a singular field of `ms`.
pub open spec fn singular_member(ms: MessageSchemaV, n: u32) -> bool {
    match find_field(ms, n) {
        Some(fs) => fs.card == Cardinality::Singular,
        None => false,
    }
}

/// An enum schema is well formed when some entry carries the number zero.
pub open spec fn wf_enum_schema(es: EnumSchemaV) -> bool {
    exists|i: int| 0 <= i < es.values.len() && es.values[i].1 == 0
}

/// A service schema is well formed when its method names are unique.
pub open spec fn wf_service_schema(ss: ServiceSchemaV) -> bool {
    forall|i: int, j: int|
        0 <= i < j < ss.methods.len() ==> ss.methods[i].name != ss.methods[j].name
}

} // verus!
