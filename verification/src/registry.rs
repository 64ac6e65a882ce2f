//! The descriptor registry: a linked, indexed view over a raw descriptor
//! set.  Linking is all-or-nothing: every type reference in every schema
//! must resolve against the combined namespace of all files, names must be
//! unique, and each schema must be structurally well formed.

use vstd::prelude::*;

verus! {

use crate::schema::{
    Cardinality, EnumSchema, EnumSchemaV, FieldKind, FieldKindV, FieldSchemaV, FileSchemaV, MessageSchema,
    MessageSchemaV, MethodSchemaV, RawDescriptorSet, ServiceSchema, ServiceSchemaV, FileSchema,
    find_field, singular_member, valid_field_number, FIELD_NUMBER_LIMIT, wf_enum_schema, wf_message_schema,
    wf_service_schema,
};
use crate::strutil::str_eq;

/// Why a raw descriptor set failed to link, or a lookup failed.
#[derive(Debug, PartialEq, Eq)]
pub enum DescriptorLinkError {
    /// Two types in the set share a fully-qualified name.
    DuplicateType(String),
    /// A field or method references a type absent from the set.
    UnresolvedType(String),
    /// A schema breaks a structural invariant (field numbers, oneofs,
    /// missing enum zero value, duplicate method names).
    InvalidSchema(String),
    /// A lookup was made with a name outside the registry.
    UnknownType(String),
}

impl DescriptorLinkError {
    /// A short machine-readable tag for this error.
    pub fn kind(&self) -> (r: &'static str)
        ensures
            r@ == match self {
                DescriptorLinkError::DuplicateType(_) => "DuplicateType"@,
                DescriptorLinkError::UnresolvedType(_) => "UnresolvedType"@,
                DescriptorLinkError::InvalidSchema(_) => "InvalidSchema"@,
                DescriptorLinkError::UnknownType(_) => "UnknownType"@,
            },
    {
        match self {
            DescriptorLinkError::DuplicateType(_) => "DuplicateType",
            DescriptorLinkError::UnresolvedType(_) => "UnresolvedType",
            DescriptorLinkError::InvalidSchema(_) => "InvalidSchema",
            DescriptorLinkError::UnknownType(_) => "UnknownType",
        }
    }
}

/// Ghost view of a linked registry.
pub struct RegistryV {
    pub services: Seq<ServiceSchemaV>,
    pub messages: Seq<MessageSchemaV>,
    pub enums: Seq<EnumSchemaV>,
}

/// The views of a sequence of services.
pub open spec fn svc_views(s: Seq<ServiceSchema>) -> Seq<ServiceSchemaV> {
    s.map_values(|x: ServiceSchema| x@)
}

/// The views of a sequence of message schemas.
pub open spec fn msg_views(s: Seq<MessageSchema>) -> Seq<MessageSchemaV> {
    s.map_values(|x: MessageSchema| x@)
}

/// The views of a sequence of enum schemas.
pub open spec fn enum_views(s: Seq<EnumSchema>) -> Seq<EnumSchemaV> {
    s.map_values(|x: EnumSchema| x@)
}

/// The views of a sequence of file schemas.
pub open spec fn file_views(s: Seq<FileSchema>) -> Seq<FileSchemaV> {
    s.map_values(|x: FileSchema| x@)
}

/// All services of a file sequence, in order.
pub open spec fn flat_services(files: Seq<FileSchemaV>) -> Seq<ServiceSchemaV>
    decreases files.len(),
{
    if files.len() == 0 {
        Seq::<ServiceSchemaV>::empty()
    } else {
        files[0].services + flat_services(files.drop_first())
    }
}

/// All message schemas of a file sequence, in order.
pub open spec fn flat_messages(files: Seq<FileSchemaV>) -> Seq<MessageSchemaV>
    decreases files.len(),
{
    if files.len() == 0 {
        Seq::<MessageSchemaV>::empty()
    } else {
        files[0].messages + flat_messages(files.drop_first())
    }
}

/// All enum schemas of a file sequence, in order.
pub open spec fn flat_enums(files: Seq<FileSchemaV>) -> Seq<EnumSchemaV>
    decreases files.len(),
{
    if files.len() == 0 {
        Seq::<EnumSchemaV>::empty()
    } else {
        files[0].enums + flat_enums(files.drop_first())
    }
}

/// Taking one more file appends exactly that file's services.
pub proof fn lemma_flat_services_take(files: Seq<FileSchemaV>, i: int)
    requires
        0 <= i < files.len(),
    ensures
        flat_services(files.take(i + 1)) == flat_services(files.take(i)) + files[i].services,
    decreases i,
{
    if i == 0 {
        assert(files.take(1).drop_first() =~= files.take(0));
        assert(flat_services(files.take(0)) + files[0].services =~= files.take(1)[0].services
            + flat_services(files.take(1).drop_first()));
    } else {
        let d = files.drop_first();
        lemma_flat_services_take(d, i - 1);
        assert(files.take(i + 1).drop_first() =~= d.take(i));
        assert(files.take(i).drop_first() =~= d.take(i - 1));
        assert(d[i - 1] == files[i]);
        assert(files[0].services + (flat_services(d.take(i - 1)) + d[i - 1].services) =~= (files[
            0
        ].services + flat_services(d.take(i - 1))) + d[i - 1].services);
    }
}

/// Taking one more file appends exactly that file's message schemas.
pub proof fn lemma_flat_messages_take(files: Seq<FileSchemaV>, i: int)
    requires
        0 <= i < files.len(),
    ensures
        flat_messages(files.take(i + 1)) == flat_messages(files.take(i)) + files[i].messages,
    decreases i,
{
    if i == 0 {
        assert(files.take(1).drop_first() =~= files.take(0));
        assert(flat_messages(files.take(0)) + files[0].messages =~= files.take(1)[0].messages
            + flat_messages(files.take(1).drop_first()));
    } else {
        let d = files.drop_first();
        lemma_flat_messages_take(d, i - 1);
        assert(files.take(i + 1).drop_first() =~= d.take(i));
        assert(files.take(i).drop_first() =~= d.take(i - 1));
        assert(d[i - 1] == files[i]);
        assert(files[0].messages + (flat_messages(d.take(i - 1)) + d[i - 1].messages) =~= (files[
            0
        ].messages + flat_messages(d.take(i - 1))) + d[i - 1].messages);
    }
}

/// Taking one more file appends exactly that file's enum schemas.
pub proof fn lemma_flat_enums_take(files: Seq<FileSchemaV>, i: int)
    requires
        0 <= i < files.len(),
    ensures
        flat_enums(files.take(i + 1)) == flat_enums(files.take(i)) + files[i].enums,
    decreases i,
{
    if i == 0 {
        assert(files.take(1).drop_first() =~= files.take(0));
        assert(flat_enums(files.take(0)) + files[0].enums =~= files.take(1)[0].enums + flat_enums(
            files.take(1).drop_first(),
        ));
    } else {
        let d = files.drop_first();
        lemma_flat_enums_take(d, i - 1);
        assert(files.take(i + 1).drop_first() =~= d.take(i));
        assert(files.take(i).drop_first() =~= d.take(i - 1));
        assert(d[i - 1] == files[i]);
        assert(files[0].enums + (flat_enums(d.take(i - 1)) + d[i - 1].enums) =~= (files[0].enums
            + flat_enums(d.take(i - 1))) + d[i - 1].enums);
    }
}

/// The indexed, resolved view over a raw descriptor set.  Built once,
/// immutable afterwards.
#[derive(Debug)]
pub struct DescriptorRegistry {
    pub services: Vec<ServiceSchema>,
    pub messages: Vec<MessageSchema>,
    pub enums: Vec<EnumSchema>,
}

impl View for DescriptorRegistry {
    type V = RegistryV;

    open spec fn view(&self) -> RegistryV {
        RegistryV {
            services: svc_views(self.services@),
            messages: msg_views(self.messages@),
            enums: enum_views(self.enums@),
        }
    }
}

/// Whether some message schema in `msgs` carries the name `n`.
pub open spec fn message_resolves(msgs: Seq<MessageSchemaV>, n: Seq<char>) -> bool {
    exists|i: int| 0 <= i < msgs.len() && msgs[i].name == n
}

/// The message schema named `n` (meaningful when names are unique).
pub open spec fn resolve_message_v(msgs: Seq<MessageSchemaV>, n: Seq<char>) -> MessageSchemaV {
    msgs[choose|i: int| 0 <= i < msgs.len() && msgs[i].name == n]
}

/// Whether some enum schema in `enums` carries the name `n`.
pub open spec fn enum_resolves(enums: Seq<EnumSchemaV>, n: Seq<char>) -> bool {
    exists|i: int| 0 <= i < enums.len() && enums[i].name == n
}

/// The enum schema named `n` (meaningful when names are unique).
pub open spec fn resolve_enum_v(enums: Seq<EnumSchemaV>, n: Seq<char>) -> EnumSchemaV {
    enums[choose|i: int| 0 <= i < enums.len() && enums[i].name == n]
}

/// Whether one field's type reference resolves in the registry.
pub open spec fn field_ref_resolves(reg: RegistryV, kind: FieldKindV) -> bool {
    match kind {
        FieldKindV::Scalar(_) => true,
        FieldKindV::Enumeration(n) => enum_resolves(reg.enums, n),
        FieldKindV::MessageRef(n) => message_resolves(reg.messages, n),
    }
}

/// Every type reference in every schema of the registry resolves.
pub open spec fn linked_registry(reg: RegistryV) -> bool {
    &&& forall|mi: int, fi: int|
        0 <= mi < reg.messages.len() && 0 <= fi < reg.messages[mi].fields.len()
            ==> field_ref_resolves(reg, #[trigger] reg.messages[mi].fields[fi].kind)
    &&& forall|si: int, mi: int|
        0 <= si < reg.services.len() && 0 <= mi < reg.services[si].methods.len()
            ==> message_resolves(reg.messages, (#[trigger] reg.services[si].methods[mi]).input)
                && message_resolves(reg.messages, reg.services[si].methods[mi].output)
}

/// Full well-formedness of a linked registry: unique names, structurally
/// well-formed schemas, and all references resolved.
pub open spec fn wf_registry(reg: RegistryV) -> bool {
    &&& forall|i: int, j: int|
        0 <= i < j < reg.messages.len() ==> reg.messages[i].name != reg.messages[j].name
    &&& forall|i: int, j: int|
        0 <= i < j < reg.enums.len() ==> reg.enums[i].name != reg.enums[j].name
    &&& forall|i: int, j: int|
        0 <= i < j < reg.services.len() ==> reg.services[i].name != reg.services[j].name
    &&& forall|i: int| 0 <= i < reg.messages.len() ==> wf_message_schema(#[trigger] reg.messages[i])
    &&& forall|i: int| 0 <= i < reg.enums.len() ==> wf_enum_schema(#[trigger] reg.enums[i])
    &&& forall|i: int| 0 <= i < reg.services.len() ==> wf_service_schema(#[trigger] reg.services[i])
    &&& linked_registry(reg)
}

/// The registry a raw set flattens to, before any checking.
pub open spec fn flat_registry(files: Seq<FileSchemaV>) -> RegistryV {
    RegistryV {
        services: flat_services(files),
        messages: flat_messages(files),
        enums: flat_enums(files),
    }
}

/// Law: in a well-formed registry, every type reference reachable from any
/// service resolves to a schema present in the same registry — the method's
/// input and output resolve, and every field reference of every message
/// schema in the registry (hence of every transitively reachable message)
/// resolves as well.
pub proof fn lemma_linked_references_resolve(reg: RegistryV, si: int, mi: int)
    requires
        wf_registry(reg),
        0 <= si < reg.services.len(),
        0 <= mi < reg.services[si].methods.len(),
    ensures
        message_resolves(reg.messages, reg.services[si].methods[mi].input),
        message_resolves(reg.messages, reg.services[si].methods[mi].output),
        forall|xi: int, fi: int|
            0 <= xi < reg.messages.len() && 0 <= fi < reg.messages[xi].fields.len()
                ==> field_ref_resolves(reg, #[trigger] reg.messages[xi].fields[fi].kind),
{
}

/// Under unique field numbers, looking a field number up yields exactly
/// the field that carries it.
pub proof fn lemma_find_field_unique(ms: MessageSchemaV, i: int)
    requires
        forall|a: int, b: int|
            0 <= a < b < ms.fields.len() ==> ms.fields[a].number != ms.fields[b].number,
        0 <= i < ms.fields.len(),
    ensures
        find_field(ms, ms.fields[i].number) == Some(ms.fields[i]),
{
    let n = ms.fields[i].number;
    assert(exists|k: int| 0 <= k < ms.fields.len() && ms.fields[k].number == n);
    let k = choose|k: int| 0 <= k < ms.fields.len() && ms.fields[k].number == n;
    assert(k == i);
}

/// Finds the index of the field carrying number `n`, if any.
#[verifier::loop_isolation(false)]
pub fn find_field_idx(ms: &MessageSchema, n: u32) -> (r: Option<usize>)
    ensures
        match r {
            Some(i) => 0 <= i < ms@.fields.len() && ms@.fields[i as int].number == n,
            None => find_field(ms@, n) is None,
        },
{
    let mut i: usize = 0;
    while i < ms.fields.len()
        invariant
            0 <= i <= ms@.fields.len(),
            forall|j: int| 0 <= j < i ==> ms@.fields[j].number != n,
        decreases ms@.fields.len() - i,
    {
        if ms.fields[i].number == n {
            return Some(i);
        }
        i += 1;
    }
    None
}

/// Decides structural well-formedness of one message schema.
#[verifier::loop_isolation(false)]
fn check_message_schema(ms: &MessageSchema) -> (r: bool)
    ensures
        r == wf_message_schema(ms@),
{
    let nf = ms.fields.len();
    let mut i: usize = 0;
    while i < nf
        invariant
            0 <= i <= nf,
            forall|j: int| 0 <= j < i ==> valid_field_number(#[trigger] ms@.fields[j].number),
        decreases nf - i,
    {
        let n = ms.fields[i].number;
        proof {
            assert(ms@.fields[i as int].number == n);
        }
        if n < 1 || n >= FIELD_NUMBER_LIMIT {
            return false;
        }
        i += 1;
    }
    i = 0;
    while i < nf
        invariant
            0 <= i <= nf,
            forall|a: int, b: int|
                0 <= a < b < nf && a < i ==> ms@.fields[a].number != ms@.fields[b].number,
        decreases nf - i,
    {
        let mut j: usize = i + 1;
        while j < nf
            invariant
                i < j <= nf,
                forall|b: int| i < b < j ==> ms@.fields[i as int].number != ms@.fields[b].number,
            decreases nf - j,
        {
            proof {
                assert(ms@.fields[i as int].number == ms.fields@[i as int].number);
                assert(ms@.fields[j as int].number == ms.fields@[j as int].number);
            }
            if ms.fields[i].number == ms.fields[j].number {
                return false;
            }
            j += 1;
        }
        i += 1;
    }
    let ng = ms.oneofs.len();
    let mut g: usize = 0;
    while g < ng
        invariant
            0 <= g <= ng,
            forall|a: int, k: int|
                0 <= a < g && 0 <= k < ms@.oneofs[a].len() ==> singular_member(
                    ms@,
                    #[trigger] ms@.oneofs[a][k],
                ),
            forall|a: int, k1: int, k2: int|
                0 <= a < g && 0 <= k1 < k2 < ms@.oneofs[a].len() ==> ms@.oneofs[a][k1]
                    != ms@.oneofs[a][k2],
        decreases ng - g,
    {
        let nk = ms.oneofs[g].len();
        let mut k: usize = 0;
        while k < nk
            invariant
                0 <= k <= nk,
                forall|kk: int| 0 <= kk < k ==> singular_member(ms@, #[trigger] ms@.oneofs[g as int][kk]),
            decreases nk - k,
        {
            let member = ms.oneofs[g][k];
            proof {
                assert(ms@.oneofs[g as int] == ms.oneofs@[g as int]@);
                assert(ms@.oneofs[g as int][k as int] == member);
            }
            match find_field_idx(ms, member) {
                None => {
                    return false;
                },
                Some(idx) => {
                    proof {
                        lemma_find_field_unique(ms@, idx as int);
                        assert(ms@.fields[idx as int].card == ms.fields@[idx as int].card);
                    }
                    match ms.fields[idx].card {
                        Cardinality::Singular => {},
                        _ => {
                            return false;
                        },
                    }
                },
            }
            k += 1;
        }
        let mut k1: usize = 0;
        while k1 < nk
            invariant
                0 <= k1 <= nk,
                forall|a: int, b: int|
                    0 <= a < b < nk && a < k1 ==> ms@.oneofs[g as int][a] != ms@.oneofs[g as int][b],
            decreases nk - k1,
        {
            let mut k2: usize = k1 + 1;
            while k2 < nk
                invariant
                    k1 < k2 <= nk,
                    forall|b: int|
                        k1 < b < k2 ==> ms@.oneofs[g as int][k1 as int] != ms@.oneofs[g as int][b],
                decreases nk - k2,
            {
                proof {
                    assert(ms@.oneofs[g as int] == ms.oneofs@[g as int]@);
                    assert(ms@.oneofs[g as int][k1 as int] == ms.oneofs@[g as int]@[k1 as int]);
                    assert(ms@.oneofs[g as int][k2 as int] == ms.oneofs@[g as int]@[k2 as int]);
                }
                if ms.oneofs[g][k1] == ms.oneofs[g][k2] {
                    return false;
                }
                k2 += 1;
            }
            k1 += 1;
        }
        g += 1;
    }
    let mut g1: usize = 0;
    while g1 < ng
        invariant
            0 <= g1 <= ng,
            forall|a1: int, a2: int, k1: int, k2: int|
                0 <= a1 < a2 < ng && a1 < g1 && 0 <= k1 < ms@.oneofs[a1].len() && 0 <= k2
                    < ms@.oneofs[a2].len() ==> ms@.oneofs[a1][k1] != ms@.oneofs[a2][k2],
        decreases ng - g1,
    {
        let mut g2: usize = g1 + 1;
        while g2 < ng
            invariant
                g1 < g2 <= ng,
                forall|a2: int, k1: int, k2: int|
                    g1 < a2 < g2 && 0 <= k1 < ms@.oneofs[g1 as int].len() && 0 <= k2
                        < ms@.oneofs[a2].len() ==> ms@.oneofs[g1 as int][k1] != ms@.oneofs[a2][k2],
            decreases ng - g2,
        {
            let nk1 = ms.oneofs[g1].len();
            let mut k1: usize = 0;
            while k1 < nk1
                invariant
                    0 <= k1 <= nk1,
                    forall|a: int, k2: int|
                        0 <= a < k1 && 0 <= k2 < ms@.oneofs[g2 as int].len() ==> ms@.oneofs[
                            g1 as int
                        ][a] != ms@.oneofs[g2 as int][k2],
                decreases nk1 - k1,
            {
                let nk2 = ms.oneofs[g2].len();
                let mut k2: usize = 0;
                while k2 < nk2
                    invariant
                        0 <= k2 <= nk2,
                        forall|b: int|
                            0 <= b < k2 ==> ms@.oneofs[g1 as int][k1 as int] != ms@.oneofs[
                                g2 as int
                            ][b],
                    decreases nk2 - k2,
                {
                    if ms.oneofs[g1][k1] == ms.oneofs[g2][k2] {
                        return false;
                    }
                    k2 += 1;
                }
                k1 += 1;
            }
            g2 += 1;
        }
        g1 += 1;
    }
    true
}

/// Decides whether an enum schema carries the required zero value.
#[verifier::loop_isolation(false)]
fn check_enum_schema(es: &EnumSchema) -> (r: bool)
    ensures
        r == wf_enum_schema(es@),
{
    let mut i: usize = 0;
    while i < es.values.len()
        invariant
            0 <= i <= es@.values.len(),
            forall|j: int| 0 <= j < i ==> es@.values[j].1 != 0,
        decreases es@.values.len() - i,
    {
        proof {
            assert(es@.values[i as int].1 == es.values@[i as int].1);
        }
        if es.values[i].1 == 0 {
            return true;
        }
        i += 1;
    }
    false
}

/// Decides whether a service's method names are unique.
#[verifier::loop_isolation(false)]
fn check_service_schema(ss: &ServiceSchema) -> (r: bool)
    ensures
        r == wf_service_schema(ss@),
{
    let nm = ss.methods.len();
    let mut i: usize = 0;
    while i < nm
        invariant
            0 <= i <= nm,
            forall|a: int, b: int|
                0 <= a < b < nm && a < i ==> ms_name(ss@, a) != ms_name(ss@, b),
        decreases nm - i,
    {
        let mut j: usize = i + 1;
        while j < nm
            invariant
                i < j <= nm,
                forall|b: int| i < b < j ==> ms_name(ss@, i as int) != ms_name(ss@, b),
            decreases nm - j,
        {
            proof {
                assert(ms_name(ss@, i as int) == ss.methods@[i as int]@.name);
                assert(ms_name(ss@, j as int) == ss.methods@[j as int]@.name);
            }
            if str_eq(ss.methods[i].name.as_str(), ss.methods[j].name.as_str()) {
                return false;
            }
            j += 1;
        }
        i += 1;
    }
    proof {
        assert forall|a: int, b: int| 0 <= a < b < ss@.methods.len() implies ss@.methods[a].name
            != ss@.methods[b].name by {
            assert(ms_name(ss@, a) != ms_name(ss@, b));
        }
    }
    true
}

/// The name of method `i` of a service.
pub open spec fn ms_name(ss: ServiceSchemaV, i: int) -> Seq<char> {
    ss.methods[i].name
}

/// Finds the index of the message schema named `name`.
fn find_message_idx(msgs: &Vec<MessageSchema>, name: &str) -> (r: Option<usize>)
    ensures
        match r {
            Some(i) => 0 <= i < msgs@.len() && msgs@[i as int]@.name == name@,
            None => !message_resolves(msg_views(msgs@), name@),
        },
{
    let ghost mv = msg_views(msgs@);
    let mut i: usize = 0;
    while i < msgs.len()
        invariant
            0 <= i <= msgs@.len(),
            mv == msg_views(msgs@),
            forall|j: int| 0 <= j < i ==> mv[j].name != name@,
        decreases msgs@.len() - i,
    {
        if str_eq(msgs[i].name.as_str(), name) {
            return Some(i);
        }
        i += 1;
    }
    None
}

/// Finds the index of the enum schema named `name`.
fn find_enum_idx(enums: &Vec<EnumSchema>, name: &str) -> (r: Option<usize>)
    ensures
        match r {
            Some(i) => 0 <= i < enums@.len() && enums@[i as int]@.name == name@,
            None => !enum_resolves(enum_views(enums@), name@),
        },
{
    let ghost ev = enum_views(enums@);
    let mut i: usize = 0;
    while i < enums.len()
        invariant
            0 <= i <= enums@.len(),
            ev == enum_views(enums@),
            forall|j: int| 0 <= j < i ==> ev[j].name != name@,
        decreases enums@.len() - i,
    {
        if str_eq(enums[i].name.as_str(), name) {
            return Some(i);
        }
        i += 1;
    }
    None
}

/// The registry view assembled from three schema vectors.
pub open spec fn reg_of(
    services: Seq<ServiceSchema>,
    messages: Seq<MessageSchema>,
    enums: Seq<EnumSchema>,
) -> RegistryV {
    RegistryV {
        services: svc_views(services),
        messages: msg_views(messages),
        enums: enum_views(enums),
    }
}

/// Gathers the services of all files, in file order.
#[verifier::loop_isolation(false)]
fn collect_services(files: &Vec<FileSchema>) -> (r: Vec<ServiceSchema>)
    ensures
        svc_views(r@) == flat_services(file_views(files@)),
{
    let ghost fv = file_views(files@);
    let mut out: Vec<ServiceSchema> = Vec::new();
    proof {
        assert(svc_views(out@) =~= flat_services(fv.take(0)));
    }
    let mut i: usize = 0;
    while i < files.len()
        invariant
            0 <= i <= files@.len(),
            svc_views(out@) == flat_services(fv.take(i as int)),
        decreases files@.len() - i,
    {
        let nf = files[i].services.len();
        let mut k: usize = 0;
        while k < nf
            invariant
                0 <= k <= nf,
                svc_views(out@) == flat_services(fv.take(i as int)) + fv[i as int].services.take(
                    k as int,
                ),
            decreases nf - k,
        {
            let ghost prev = out@;
            out.push(files[i].services[k].dup());
            proof {
                assert(fv[i as int].services[k as int] == files@[i as int].services@[k as int]@);
                assert(out@ =~= prev.push(out@[prev.len() as int]));
                assert(out@[prev.len() as int]@ == files@[i as int].services@[k as int]@);
                assert(fv[i as int].services.take(k + 1) =~= fv[i as int].services.take(
                    k as int,
                ).push(fv[i as int].services[k as int]));
                assert(svc_views(out@).len() == flat_services(fv.take(i as int)).len() + k + 1);
                assert forall|j: int| 0 <= j < out@.len() implies svc_views(out@)[j] == (
                flat_services(fv.take(i as int)) + fv[i as int].services.take(k + 1))[j] by {
                    assert(svc_views(out@)[j] == out@[j]@);
                    if j < prev.len() {
                        assert(out@[j] == prev[j]);
                        assert(svc_views(prev)[j] == prev[j]@);
                    }
                }
                assert(svc_views(out@) =~= flat_services(fv.take(i as int)) + fv[i as int].services.take(
                    k + 1,
                ));
            }
            k += 1;
        }
        proof {
            lemma_flat_services_take(fv, i as int);
            assert(fv[i as int].services.take(fv[i as int].services.len() as int) =~= fv[
                i as int
            ].services);
            assert(svc_views(out@) == flat_services(fv.take(i as int + 1)));
        }
        i += 1;
    }
    proof {
        assert(fv.take(fv.len() as int) =~= fv);
    }
    out
}

/// Gathers the messages of all files, in file order.
#[verifier::loop_isolation(false)]
fn collect_messages(files: &Vec<FileSchema>) -> (r: Vec<MessageSchema>)
    ensures
        msg_views(r@) == flat_messages(file_views(files@)),
{
    let ghost fv = file_views(files@);
    let mut out: Vec<MessageSchema> = Vec::new();
    proof {
        assert(msg_views(out@) =~= flat_messages(fv.take(0)));
    }
    let mut i: usize = 0;
    while i < files.len()
        invariant
            0 <= i <= files@.len(),
            msg_views(out@) == flat_messages(fv.take(i as int)),
        decreases files@.len() - i,
    {
        let nf = files[i].messages.len();
        let mut k: usize = 0;
        while k < nf
            invariant
                0 <= k <= nf,
                msg_views(out@) == flat_messages(fv.take(i as int)) + fv[i as int].messages.take(
                    k as int,
                ),
            decreases nf - k,
        {
            let ghost prev = out@;
            out.push(files[i].messages[k].dup());
            proof {
                assert(fv[i as int].messages[k as int] == files@[i as int].messages@[k as int]@);
                assert(out@ =~= prev.push(out@[prev.len() as int]));
                assert(out@[prev.len() as int]@ == files@[i as int].messages@[k as int]@);
                assert(fv[i as int].messages.take(k + 1) =~= fv[i as int].messages.take(
                    k as int,
                ).push(fv[i as int].messages[k as int]));
                assert(msg_views(out@).len() == flat_messages(fv.take(i as int)).len() + k + 1);
                assert forall|j: int| 0 <= j < out@.len() implies msg_views(out@)[j] == (
                flat_messages(fv.take(i as int)) + fv[i as int].messages.take(k + 1))[j] by {
                    assert(msg_views(out@)[j] == out@[j]@);
                    if j < prev.len() {
                        assert(out@[j] == prev[j]);
                        assert(msg_views(prev)[j] == prev[j]@);
                    }
                }
                assert(msg_views(out@) =~= flat_messages(fv.take(i as int)) + fv[i as int].messages.take(
                    k + 1,
                ));
            }
            k += 1;
        }
        proof {
            lemma_flat_messages_take(fv, i as int);
            assert(fv[i as int].messages.take(fv[i as int].messages.len() as int) =~= fv[
                i as int
            ].messages);
            assert(msg_views(out@) == flat_messages(fv.take(i as int + 1)));
        }
        i += 1;
    }
    proof {
        assert(fv.take(fv.len() as int) =~= fv);
    }
    out
}

/// Gathers the enums of all files, in file order.
#[verifier::loop_isolation(false)]
fn collect_enums(files: &Vec<FileSchema>) -> (r: Vec<EnumSchema>)
    ensures
        enum_views(r@) == flat_enums(file_views(files@)),
{
    let ghost fv = file_views(files@);
    let mut out: Vec<EnumSchema> = Vec::new();
    proof {
        assert(enum_views(out@) =~= flat_enums(fv.take(0)));
    }
    let mut i: usize = 0;
    while i < files.len()
        invariant
            0 <= i <= files@.len(),
            enum_views(out@) == flat_enums(fv.take(i as int)),
        decreases files@.len() - i,
    {
        let nf = files[i].enums.len();
        let mut k: usize = 0;
        while k < nf
            invariant
                0 <= k <= nf,
                enum_views(out@) == flat_enums(fv.take(i as int)) + fv[i as int].enums.take(
                    k as int,
                ),
            decreases nf - k,
        {
            let ghost prev = out@;
            out.push(files[i].enums[k].dup());
            proof {
                assert(fv[i as int].enums[k as int] == files@[i as int].enums@[k as int]@);
                assert(out@ =~= prev.push(out@[prev.len() as int]));
                assert(out@[prev.len() as int]@ == files@[i as int].enums@[k as int]@);
                assert(fv[i as int].enums.take(k + 1) =~= fv[i as int].enums.take(
                    k as int,
                ).push(fv[i as int].enums[k as int]));
                assert(enum_views(out@).len() == flat_enums(fv.take(i as int)).len() + k + 1);
                assert forall|j: int| 0 <= j < out@.len() implies enum_views(out@)[j] == (
                flat_enums(fv.take(i as int)) + fv[i as int].enums.take(k + 1))[j] by {
                    assert(enum_views(out@)[j] == out@[j]@);
                    if j < prev.len() {
                        assert(out@[j] == prev[j]);
                        assert(enum_views(prev)[j] == prev[j]@);
                    }
                }
                assert(enum_views(out@) =~= flat_enums(fv.take(i as int)) + fv[i as int].enums.take(
                    k + 1,
                ));
            }
            k += 1;
        }
        proof {
            lemma_flat_enums_take(fv, i as int);
            assert(fv[i as int].enums.take(fv[i as int].enums.len() as int) =~= fv[
                i as int
            ].enums);
            assert(enum_views(out@) == flat_enums(fv.take(i as int + 1)));
        }
        i += 1;
    }
    proof {
        assert(fv.take(fv.len() as int) =~= fv);
    }
    out
}

/// Finds a pair of message schemas sharing a name, if any.
#[verifier::loop_isolation(false)]
fn dup_message_name(msgs: &Vec<MessageSchema>) -> (r: Option<usize>)
    ensures
        match r {
            None => forall|i: int, j: int|
                0 <= i < j < msgs@.len() ==> msgs@[i]@.name != msgs@[j]@.name,
            Some(i) => 0 <= i < msgs@.len() && exists|j: int|
                i < j < msgs@.len() && msgs@[i as int]@.name == msgs@[j]@.name,
        },
{
    let n = msgs.len();
    let mut i: usize = 0;
    while i < n
        invariant
            0 <= i <= n,
            forall|a: int, b: int| 0 <= a < b < n && a < i ==> msgs@[a]@.name != msgs@[b]@.name,
        decreases n - i,
    {
        let mut j: usize = i + 1;
        while j < n
            invariant
                i < j <= n,
                forall|b: int| i < b < j ==> msgs@[i as int]@.name != msgs@[b]@.name,
            decreases n - j,
        {
            if str_eq(msgs[i].name.as_str(), msgs[j].name.as_str()) {
                return Some(i);
            }
            j += 1;
        }
        i += 1;
    }
    None
}

/// Finds a pair of enum schemas sharing a name, if any.
#[verifier::loop_isolation(false)]
fn dup_enum_name(enums: &Vec<EnumSchema>) -> (r: Option<usize>)
    ensures
        match r {
            None => forall|i: int, j: int|
                0 <= i < j < enums@.len() ==> enums@[i]@.name != enums@[j]@.name,
            Some(i) => 0 <= i < enums@.len() && exists|j: int|
                i < j < enums@.len() && enums@[i as int]@.name == enums@[j]@.name,
        },
{
    let n = enums.len();
    let mut i: usize = 0;
    while i < n
        invariant
            0 <= i <= n,
            forall|a: int, b: int| 0 <= a < b < n && a < i ==> enums@[a]@.name != enums@[b]@.name,
        decreases n - i,
    {
        let mut j: usize = i + 1;
        while j < n
            invariant
                i < j <= n,
                forall|b: int| i < b < j ==> enums@[i as int]@.name != enums@[b]@.name,
            decreases n - j,
        {
            if str_eq(enums[i].name.as_str(), enums[j].name.as_str()) {
                return Some(i);
            }
            j += 1;
        }
        i += 1;
    }
    None
}

/// Finds a pair of services sharing a name, if any.
#[verifier::loop_isolation(false)]
fn dup_service_name(svcs: &Vec<ServiceSchema>) -> (r: Option<usize>)
    ensures
        match r {
            None => forall|i: int, j: int|
                0 <= i < j < svcs@.len() ==> svcs@[i]@.name != svcs@[j]@.name,
            Some(i) => 0 <= i < svcs@.len() && exists|j: int|
                i < j < svcs@.len() && svcs@[i as int]@.name == svcs@[j]@.name,
        },
{
    let n = svcs.len();
    let mut i: usize = 0;
    while i < n
        invariant
            0 <= i <= n,
            forall|a: int, b: int| 0 <= a < b < n && a < i ==> svcs@[a]@.name != svcs@[b]@.name,
        decreases n - i,
    {
        let mut j: usize = i + 1;
        while j < n
            invariant
                i < j <= n,
                forall|b: int| i < b < j ==> svcs@[i as int]@.name != svcs@[b]@.name,
            decreases n - j,
        {
            if str_eq(svcs[i].name.as_str(), svcs[j].name.as_str()) {
                return Some(i);
            }
            j += 1;
        }
        i += 1;
    }
    None
}

/// Checks that every type reference in every message and method resolves.
#[verifier::loop_isolation(false)]
fn check_all_links(
    services: &Vec<ServiceSchema>,
    messages: &Vec<MessageSchema>,
    enums: &Vec<EnumSchema>,
) -> (r: Option<String>)
    ensures
        match r {
            None => linked_registry(reg_of(services@, messages@, enums@)),
            Some(_) => !linked_registry(reg_of(services@, messages@, enums@)),
        },
{
    let ghost reg = reg_of(services@, messages@, enums@);
    let mut mi: usize = 0;
    while mi < messages.len()
        invariant
            0 <= mi <= messages@.len(),
            forall|a: int, fi: int|
                0 <= a < mi && 0 <= fi < reg.messages[a].fields.len() ==> field_ref_resolves(
                    reg,
                    #[trigger] reg.messages[a].fields[fi].kind,
                ),
        decreases messages@.len() - mi,
    {
        let nf = messages[mi].fields.len();
        let mut fi: usize = 0;
        while fi < nf
            invariant
                0 <= fi <= nf,
                forall|b: int|
                    0 <= b < fi ==> field_ref_resolves(
                        reg,
                        #[trigger] reg.messages[mi as int].fields[b].kind,
                    ),
            decreases nf - fi,
        {
            proof {
                assert(reg.messages[mi as int].fields[fi as int].kind == messages@[mi as int]@.fields[
                    fi as int
                ].kind);
            }
            match &messages[mi].fields[fi].kind {
                FieldKind::Scalar(_) => {},
                FieldKind::Enumeration(n) => {
                    match find_enum_idx(enums, n.as_str()) {
                        None => {
                            return Some(n.clone());
                        },
                        Some(idx) => {
                            proof {
                                assert(enum_views(enums@)[idx as int].name == n@);
                                assert(enum_resolves(reg.enums, n@));
                            }
                        },
                    }
                },
                FieldKind::MessageRef(n) => {
                    match find_message_idx(messages, n.as_str()) {
                        None => {
                            return Some(n.clone());
                        },
                        Some(idx) => {
                            proof {
                                assert(msg_views(messages@)[idx as int].name == n@);
                                assert(message_resolves(reg.messages, n@));
                            }
                        },
                    }
                },
            }
            fi += 1;
        }
        mi += 1;
    }
    let mut si: usize = 0;
    while si < services.len()
        invariant
            0 <= si <= services@.len(),
            forall|a: int, b: int|
                0 <= a < si && 0 <= b < reg.services[a].methods.len() ==> message_resolves(
                    reg.messages,
                    (#[trigger] reg.services[a].methods[b]).input,
                ) && message_resolves(reg.messages, reg.services[a].methods[b].output),
        decreases services@.len() - si,
    {
        let nm = services[si].methods.len();
        let mut bi: usize = 0;
        while bi < nm
            invariant
                0 <= bi <= nm,
                forall|b: int|
                    0 <= b < bi ==> message_resolves(
                        reg.messages,
                        (#[trigger] reg.services[si as int].methods[b]).input,
                    ) && message_resolves(reg.messages, reg.services[si as int].methods[b].output),
            decreases nm - bi,
        {
            proof {
                assert(reg.services[si as int].methods[bi as int] == services@[si as int]@.methods[
                    bi as int
                ]);
            }
            match find_message_idx(messages, services[si].methods[bi].input.as_str()) {
                None => {
                    return Some(services[si].methods[bi].input.clone());
                },
                Some(idx) => {
                    proof {
                        assert(msg_views(messages@)[idx as int].name == services@[si as int]@.methods[
                            bi as int
                        ].input);
                        assert(message_resolves(reg.messages, reg.services[si as int].methods[bi as int].input));
                    }
                },
            }
            match find_message_idx(messages, services[si].methods[bi].output.as_str()) {
                None => {
                    return Some(services[si].methods[bi].output.clone());
                },
                Some(idx) => {
                    proof {
                        assert(msg_views(messages@)[idx as int].name == services@[si as int]@.methods[
                            bi as int
                        ].output);
                        assert(message_resolves(reg.messages, reg.services[si as int].methods[bi as int].output));
                    }
                },
            }
            bi += 1;
        }
        si += 1;
    }
    None
}

impl DescriptorRegistry {
    /// Links a raw descriptor set into a registry.  Construction is
    /// all-or-nothing: the result is the flattened set exactly when every
    /// name is unique, every schema is structurally well formed and every
    /// reference resolves; otherwise the matching error is returned.
    #[verifier::loop_isolation(false)]
    pub fn from_raw(raw: &RawDescriptorSet) -> (r: Result<DescriptorRegistry, DescriptorLinkError>)
        ensures
            match r {
                Ok(reg) => reg@ == flat_registry(raw@) && wf_registry(reg@),
                Err(_) => !wf_registry(flat_registry(raw@)),
            },
    {
        let services = collect_services(&raw.files);
        let messages = collect_messages(&raw.files);
        let enums = collect_enums(&raw.files);
        let ghost regv = flat_registry(raw@);
        proof {
            assert(regv == reg_of(services@, messages@, enums@));
        }
        if let Some(i) = dup_message_name(&messages) {
            proof {
                let j = choose|j: int|
                    i < j < messages@.len() && messages@[i as int]@.name == messages@[j]@.name;
                assert(regv.messages[i as int].name == regv.messages[j].name);
            }
            return Err(DescriptorLinkError::DuplicateType(messages[i].name.clone()));
        }
        if let Some(i) = dup_enum_name(&enums) {
            proof {
                let j = choose|j: int|
                    i < j < enums@.len() && enums@[i as int]@.name == enums@[j]@.name;
                assert(regv.enums[i as int].name == regv.enums[j].name);
            }
            return Err(DescriptorLinkError::DuplicateType(enums[i].name.clone()));
        }
        if let Some(i) = dup_service_name(&services) {
            proof {
                let j = choose|j: int|
                    i < j < services@.len() && services@[i as int]@.name == services@[j]@.name;
                assert(regv.services[i as int].name == regv.services[j].name);
            }
            return Err(DescriptorLinkError::DuplicateType(services[i].name.clone()));
        }
        let mut i: usize = 0;
        while i < messages.len()
            invariant
                0 <= i <= messages@.len(),
                forall|a: int| 0 <= a < i ==> wf_message_schema(#[trigger] regv.messages[a]),
            decreases messages@.len() - i,
        {
            if !check_message_schema(&messages[i]) {
                proof {
                    assert(regv.messages[i as int] == messages@[i as int]@);
                }
                return Err(DescriptorLinkError::InvalidSchema(messages[i].name.clone()));
            }
            proof {
                assert(regv.messages[i as int] == messages@[i as int]@);
            }
            i += 1;
        }
        i = 0;
        while i < enums.len()
            invariant
                0 <= i <= enums@.len(),
                forall|a: int| 0 <= a < i ==> wf_enum_schema(#[trigger] regv.enums[a]),
            decreases enums@.len() - i,
        {
            if !check_enum_schema(&enums[i]) {
                proof {
                    assert(regv.enums[i as int] == enums@[i as int]@);
                }
                return Err(DescriptorLinkError::InvalidSchema(enums[i].name.clone()));
            }
            proof {
                assert(regv.enums[i as int] == enums@[i as int]@);
            }
            i += 1;
        }
        i = 0;
        while i < services.len()
            invariant
                0 <= i <= services@.len(),
                forall|a: int| 0 <= a < i ==> wf_service_schema(#[trigger] regv.services[a]),
            decreases services@.len() - i,
        {
            if !check_service_schema(&services[i]) {
                proof {
                    assert(regv.services[i as int] == services@[i as int]@);
                }
                return Err(DescriptorLinkError::InvalidSchema(services[i].name.clone()));
            }
            proof {
                assert(regv.services[i as int] == services@[i as int]@);
            }
            i += 1;
        }
        if let Some(n) = check_all_links(&services, &messages, &enums) {
            return Err(DescriptorLinkError::UnresolvedType(n));
        }
        Ok(DescriptorRegistry { services, messages, enums })
    }

    /// Returns the services in declaration order.
    #[verifier::loop_isolation(false)]
    pub fn list_services(&self) -> (r: Vec<ServiceSchema>)
        ensures
            svc_views(r@) == self@.services,
    {
        let mut out: Vec<ServiceSchema> = Vec::new();
        let mut i: usize = 0;
        while i < self.services.len()
            invariant
                0 <= i <= self.services@.len(),
                out@.len() == i,
                forall|j: int| 0 <= j < i ==> out@[j]@ == self@.services[j],
            decreases self.services@.len() - i,
        {
            out.push(self.services[i].dup());
            i += 1;
        }
        proof {
            assert(svc_views(out@) =~= self@.services);
        }
        out
    }

    /// Looks up the message schema with the given fully-qualified name.
    pub fn resolve_message(&self, name: &str) -> (r: Result<MessageSchema, DescriptorLinkError>)
        ensures
            match r {
                Ok(ms) => message_resolves(self@.messages, name@) && ms@.name == name@ && (exists|
                    i: int,
                |
                    0 <= i < self@.messages.len() && self@.messages[i] == ms@) && (wf_registry(
                    self@,
                ) ==> ms@ == resolve_message_v(self@.messages, name@)),
                Err(e) => !message_resolves(self@.messages, name@) && (e matches
                    DescriptorLinkError::UnknownType(n) && n@ == name@),
            },
    {
        match find_message_idx(&self.messages, name) {
            Some(i) => {
                let ms = self.messages[i].dup();
                proof {
                    assert(self@.messages[i as int] == ms@);
                    if wf_registry(self@) {
                        let k = choose|k: int|
                            0 <= k < self@.messages.len() && self@.messages[k].name == name@;
                        assert(self@.messages[k].name == self@.messages[i as int].name);
                    }
                }
                Ok(ms)
            },
            None => Err(DescriptorLinkError::UnknownType(name.to_owned())),
        }
    }

    /// Looks up the enum schema with the given fully-qualified name.
    pub fn resolve_enum(&self, name: &str) -> (r: Result<EnumSchema, DescriptorLinkError>)
        ensures
            match r {
                Ok(es) => enum_resolves(self@.enums, name@) && es@.name == name@ && (exists|i: int|
                    0 <= i < self@.enums.len() && self@.enums[i] == es@) && (wf_registry(self@)
                    ==> es@ == resolve_enum_v(self@.enums, name@)),
                Err(e) => !enum_resolves(self@.enums, name@) && (e matches
                    DescriptorLinkError::UnknownType(n) && n@ == name@),
            },
    {
        match find_enum_idx(&self.enums, name) {
            Some(i) => {
                let es = self.enums[i].dup();
                proof {
                    assert(self@.enums[i as int] == es@);
                    if wf_registry(self@) {
                        let k = choose|k: int|
                            0 <= k < self@.enums.len() && self@.enums[k].name == name@;
                        assert(self@.enums[k].name == self@.enums[i as int].name);
                    }
                }
                Ok(es)
            },
            None => Err(DescriptorLinkError::UnknownType(name.to_owned())),
        }
    }
}

} // verus!
