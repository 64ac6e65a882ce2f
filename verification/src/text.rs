//! The editable textual projection of a dynamic message: a flat
//! hexadecimal rendering of its wire encoding, two digits per byte.
//! Parsing reads the digits back and decodes the bytes against the
//! schema, so the projection is exactly as lossless as the wire codec.

use vstd::prelude::*;

verus! {

broadcast use {vstd::seq::group_seq_axioms, vstd::std_specs::vec::group_vec_axioms};

use vstd::string::StrSliceExecFns;

use crate::message::{msg_v, DynamicMessage, MsgV};
use crate::registry::{wf_registry, DescriptorRegistry, RegistryV};
use crate::schema::{wf_message_schema, MessageSchema, MessageSchemaV};
use crate::wire::{decode, decode_spec, enc_msg, encode, DecodeError};

/// Why a textual form failed to parse back into a message.
#[derive(Debug, PartialEq, Eq)]
pub enum TextParseError {
    /// The text is not a sequence of hexadecimal digit pairs.
    NotHex,
    /// The digits decoded, but the bytes broke against the schema.
    Wire(DecodeError),
}

impl TextParseError {
    /// A short machine-readable tag for this error.
    pub fn kind(&self) -> (r: &'static str)
        ensures
            r@ == match self {
                TextParseError::NotHex => "NotHex"@,
                TextParseError::Wire(_) => "Wire"@,
            },
    {
        match self {
            TextParseError::NotHex => "NotHex",
            TextParseError::Wire(_) => "Wire",
        }
    }
}

/// The lower-case hexadecimal digit for a value below sixteen.
pub open spec fn hex_digit(d: nat) -> char {
    if d == 0 {
        '0'
    } else if d == 1 {
        '1'
    } else if d == 2 {
        '2'
    } else if d == 3 {
        '3'
    } else if d == 4 {
        '4'
    } else if d == 5 {
        '5'
    } else if d == 6 {
        '6'
    } else if d == 7 {
        '7'
    } else if d == 8 {
        '8'
    } else if d == 9 {
        '9'
    } else if d == 10 {
        'a'
    } else if d == 11 {
        'b'
    } else if d == 12 {
        'c'
    } else if d == 13 {
        'd'
    } else if d == 14 {
        'e'
    } else {
        'f'
    }
}

/// The value of a hexadecimal digit character, if it is one.
pub open spec fn hex_val(c: char) -> Option<nat> {
    if c == '0' {
        Some(0 as nat)
    } else if c == '1' {
        Some(1 as nat)
    } else if c == '2' {
        Some(2 as nat)
    } else if c == '3' {
        Some(3 as nat)
    } else if c == '4' {
        Some(4 as nat)
    } else if c == '5' {
        Some(5 as nat)
    } else if c == '6' {
        Some(6 as nat)
    } else if c == '7' {
        Some(7 as nat)
    } else if c == '8' {
        Some(8 as nat)
    } else if c == '9' {
        Some(9 as nat)
    } else if c == 'a' {
        Some(10 as nat)
    } else if c == 'b' {
        Some(11 as nat)
    } else if c == 'c' {
        Some(12 as nat)
    } else if c == 'd' {
        Some(13 as nat)
    } else if c == 'e' {
        Some(14 as nat)
    } else if c == 'f' {
        Some(15 as nat)
    } else {
        None
    }
}

/// The hexadecimal rendering of a byte sequence, two digits per byte.
pub open spec fn hex_of(b: Seq<u8>) -> Seq<char>
    decreases b.len(),
{
    if b.len() == 0 {
        Seq::<char>::empty()
    } else {
        seq![hex_digit(b[0] as nat / 16), hex_digit(b[0] as nat % 16)] + hex_of(b.drop_first())
    }
}

/// The bytes a sequence of hexadecimal digit pairs stands for.
pub open spec fn unhex(s: Seq<char>) -> Option<Seq<u8>>
    decreases s.len(),
{
    if s.len() == 0 {
        Some(Seq::<u8>::empty())
    } else if s.len() == 1 {
        None
    } else {
        match (hex_val(s[0]), hex_val(s[1])) {
            (Some(h), Some(l)) => match unhex(s.skip(2)) {
                Some(t) => Some(seq![(16 * h + l) as u8] + t),
                None => None,
            },
            _ => None,
        }
    }
}

/// The textual projection of a message.
pub open spec fn text_of(m: MsgV) -> Seq<char> {
    hex_of(enc_msg(m))
}

/// What parsing a textual form yields: the digits back to bytes, the
/// bytes decoded against the schema.
pub open spec fn parse_text(s: Seq<char>, ms: MessageSchemaV, reg: RegistryV) -> Result<
    MsgV,
    TextParseError,
> {
    match unhex(s) {
        None => Err(TextParseError::NotHex),
        Some(b) => match decode_spec(b, ms, reg) {
            Ok(mv) => Ok(mv),
            Err(e) => Err(TextParseError::Wire(e)),
        },
    }
}

/// Reading the rendered digits back yields exactly the original bytes.
pub proof fn lemma_unhex_hex(b: Seq<u8>)
    ensures
        unhex(hex_of(b)) == Some(b),
    decreases b.len(),
{
    if b.len() == 0 {
        assert(hex_of(b).len() == 0);
        assert(unhex(hex_of(b)) == Some(Seq::<u8>::empty()));
        assert(b =~= Seq::<u8>::empty());
    } else {
        lemma_unhex_hex(b.drop_first());
        let s = hex_of(b);
        let h = b[0] as nat / 16;
        let l = b[0] as nat % 16;
        assert(h < 16 && l < 16);
        assert(s[0] == hex_digit(h) && s[1] == hex_digit(l));
        assert(hex_val(hex_digit(h)) == Some(h));
        assert(hex_val(hex_digit(l)) == Some(l));
        assert(s.skip(2) =~= hex_of(b.drop_first()));
        assert(16 * h + l == b[0] as nat);
        assert(seq![(16 * h + l) as u8] + b.drop_first() =~= b);
    }
}

/// Law: the textual projection round-trips — parsing the rendered text
/// of a well-formed message yields its canonical form, and the message
/// itself whenever it is already canonical (as the builder's output is):
/// the projection loses no populated state.
pub proof fn lemma_text_roundtrip(reg: RegistryV, ms: MessageSchemaV, m: MsgV)
    requires
        wf_registry(reg),
        wf_message_schema(ms),
        crate::message::wf_msg(reg, ms, m),
    ensures
        parse_text(text_of(m), ms, reg) == Ok::<MsgV, TextParseError>(
            crate::wire::canon_msg(reg, ms, m),
        ),
        crate::wire::canon_msg(reg, ms, m) == m ==> parse_text(text_of(m), ms, reg) == Ok::<
            MsgV,
            TextParseError,
        >(m),
{
    lemma_unhex_hex(enc_msg(m));
    crate::wire::lemma_encode_decode_roundtrip(reg, ms, m);
}

/// Law: the builder's default message survives the textual round trip
/// unchanged, empty containers included.
pub proof fn lemma_text_roundtrip_default(reg: RegistryV, ms: MessageSchemaV)
    requires
        wf_registry(reg),
        wf_message_schema(ms),
    ensures
        parse_text(text_of(crate::message::default_msg(ms)), ms, reg) == Ok::<
            MsgV,
            TextParseError,
        >(crate::message::default_msg(ms)),
{
    crate::message::lemma_default_msg_wf(reg, ms);
    crate::wire::lemma_default_roundtrip_exact(reg, ms);
    lemma_text_roundtrip(reg, ms, crate::message::default_msg(ms));
}

/// Relies on String::push: appends one character to the string.
#[verifier::external_body]
fn push_char(s: &mut String, c: char)
    ensures
        final(s)@ == old(s)@ + seq![c],
{
    s.push(c);
}

/// The lower-case hexadecimal digit for a value below sixteen.
fn hex_digit_exec(d: u8) -> (r: char)
    requires
        d < 16,
    ensures
        r == hex_digit(d as nat),
{
    match d {
        0 => '0',
        1 => '1',
        2 => '2',
        3 => '3',
        4 => '4',
        5 => '5',
        6 => '6',
        7 => '7',
        8 => '8',
        9 => '9',
        10 => 'a',
        11 => 'b',
        12 => 'c',
        13 => 'd',
        14 => 'e',
        _ => 'f',
    }
}

/// The value of a hexadecimal digit character, if it is one.
fn hex_val_exec(c: char) -> (r: Option<u8>)
    ensures
        match hex_val(c) {
            Some(d) => r matches Some(x) && x as nat == d,
            None => r is None,
        },
{
    match c {
        '0' => Some(0),
        '1' => Some(1),
        '2' => Some(2),
        '3' => Some(3),
        '4' => Some(4),
        '5' => Some(5),
        '6' => Some(6),
        '7' => Some(7),
        '8' => Some(8),
        '9' => Some(9),
        'a' => Some(10),
        'b' => Some(11),
        'c' => Some(12),
        'd' => Some(13),
        'e' => Some(14),
        'f' => Some(15),
        _ => None,
    }
}

/// Appends the hexadecimal rendering of the bytes from `i` on.
fn hex_push(out: &mut String, b: &Vec<u8>, i: usize)
    requires
        i <= b@.len(),
    ensures
        final(out)@ == old(out)@ + hex_of(b@.skip(i as int)),
    decreases b@.len() - i,
{
    if i < b.len() {
        let byte = b[i];
        push_char(out, hex_digit_exec(byte / 16));
        push_char(out, hex_digit_exec(byte % 16));
        hex_push(out, b, i + 1);
        proof {
            assert(b@.skip(i as int)[0] == byte);
            assert(b@.skip(i as int).drop_first() =~= b@.skip(i as int + 1));
            assert(out@ =~= old(out)@ + hex_of(b@.skip(i as int)));
        }
    } else {
        proof {
            assert(b@.skip(i as int).len() == 0);
            assert(hex_of(b@.skip(i as int)) =~= Seq::<char>::empty());
            assert(out@ =~= old(out)@ + hex_of(b@.skip(i as int)));
        }
    }
}

/// Renders a message as editable text: the hexadecimal digits of its
/// wire encoding, two per byte.
pub fn to_editable_text(m: &DynamicMessage) -> (r: String)
    ensures
        r@ == text_of(msg_v(*m)),
{
    let bytes = encode(m);
    let mut out = String::new();
    proof {
        assert(out@ =~= Seq::<char>::empty());
    }
    hex_push(&mut out, &bytes, 0);
    proof {
        assert(bytes@.skip(0) =~= bytes@);
        assert(out@ =~= text_of(msg_v(*m)));
    }
    out
}

/// Reads the hexadecimal digit pairs from position `i` on back to bytes.
fn unhex_exec(s: &str, i: usize, n: usize) -> (r: Option<Vec<u8>>)
    requires
        n == s@.len(),
        i <= n,
    ensures
        match unhex(s@.skip(i as int)) {
            Some(b) => r matches Some(v) && v@ == b,
            None => r is None,
        },
    decreases n - i,
{
    let ghost sp = s@.skip(i as int);
    if i >= n {
        proof {
            assert(sp.len() == 0);
        }
        return Some(Vec::new());
    }
    if n - i == 1 {
        return None;
    }
    let c1 = s.get_char(i);
    let c2 = s.get_char(i + 1);
    proof {
        assert(sp[0] == s@[i as int]);
        assert(sp[1] == s@[i as int + 1]);
    }
    let h = match hex_val_exec(c1) {
        Some(h) => h,
        None => {
            return None;
        },
    };
    let l = match hex_val_exec(c2) {
        Some(l) => l,
        None => {
            return None;
        },
    };
    proof {
        assert(sp.skip(2) =~= s@.skip(i as int + 2));
    }
    match unhex_exec(s, i + 2, n) {
        None => None,
        Some(mut rest) => {
            let byte = 16 * h + l;
            let ghost prev = rest@;
            rest.insert(0, byte);
            proof {
                assert(rest@ =~= seq![byte] + prev);
            }
            Some(rest)
        },
    }
}

/// Parses editable text back into a message: the digit pairs are read to
/// bytes and the bytes are decoded against the schema; non-hexadecimal
/// text fails with `NotHex`, schema-breaking bytes with `Wire`.
pub fn from_editable_text(s: &str, ms: &MessageSchema, reg: &DescriptorRegistry) -> (r: Result<
    DynamicMessage,
    TextParseError,
>)
    requires
        wf_message_schema(ms@),
        wf_registry(reg@),
    ensures
        match r {
            Ok(m) => parse_text(s@, ms@, reg@) matches Ok(mv) && msg_v(m) == mv,
            Err(e) => parse_text(s@, ms@, reg@) matches Err(e2) && e2 == e,
        },
{
    let n = s.unicode_len();
    proof {
        assert(s@.skip(0) =~= s@);
    }
    match unhex_exec(s, 0, n) {
        None => Err(TextParseError::NotHex),
        Some(bytes) => match decode(bytes.as_slice(), ms, reg) {
            Ok(m) => Ok(m),
            Err(e) => Err(TextParseError::Wire(e)),
        },
    }
}

} // verus!
