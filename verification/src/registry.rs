//! Battle.net's sign-in registry values: which keys and values are kept, how a
//! value is written as text in a snapshot and read back, and which backups are
//! pruned.
use vstd::prelude::*;

use base64::Engine;

use crate::models::{strs, RegistryValueBackup};
use crate::text::{
    chars_eq_ignore_case, chars_of, decimal, decimal_u64, eq_ignore_case, lemma_parse_decimal,
    parse_unsigned, parse_unsigned_chars, string_of, str_eq,
};

verus! {

/// The kinds of registry values.
#[derive(Clone, Copy, Debug, PartialEq, Eq, Structural)]
pub enum RegKind {
    NoType,
    Sz,
    ExpandSz,
    Binary,
    Dword,
    DwordBigEndian,
    Link,
    MultiSz,
    ResourceList,
    FullResourceDescriptor,
    ResourceRequirementsList,
    Qword,
}

/// The name of a kind as a snapshot records it.
pub open spec fn kind_name_v(kind: RegKind) -> Seq<char> {
    match kind {
        RegKind::NoType => "REG_NONE"@,
        RegKind::Sz => "REG_SZ"@,
        RegKind::ExpandSz => "REG_EXPAND_SZ"@,
        RegKind::Binary => "REG_BINARY"@,
        RegKind::Dword => "REG_DWORD"@,
        RegKind::DwordBigEndian => "REG_DWORD_BIG_ENDIAN"@,
        RegKind::Link => "REG_LINK"@,
        RegKind::MultiSz => "REG_MULTI_SZ"@,
        RegKind::ResourceList => "REG_RESOURCE_LIST"@,
        RegKind::FullResourceDescriptor => "REG_FULL_RESOURCE_DESCRIPTOR"@,
        RegKind::ResourceRequirementsList => "REG_RESOURCE_REQUIREMENTS_LIST"@,
        RegKind::Qword => "REG_QWORD"@,
    }
}

/// The name of a kind as a snapshot records it (`REG_SZ`, `REG_DWORD`, ...).
pub fn kind_name(kind: RegKind) -> (r: &'static str)
    ensures
        r@ == kind_name_v(kind),
{
    match kind {
        RegKind::NoType => "REG_NONE",
        RegKind::Sz => "REG_SZ",
        RegKind::ExpandSz => "REG_EXPAND_SZ",
        RegKind::Binary => "REG_BINARY",
        RegKind::Dword => "REG_DWORD",
        RegKind::DwordBigEndian => "REG_DWORD_BIG_ENDIAN",
        RegKind::Link => "REG_LINK",
        RegKind::MultiSz => "REG_MULTI_SZ",
        RegKind::ResourceList => "REG_RESOURCE_LIST",
        RegKind::FullResourceDescriptor => "REG_FULL_RESOURCE_DESCRIPTOR",
        RegKind::ResourceRequirementsList => "REG_RESOURCE_REQUIREMENTS_LIST",
        RegKind::Qword => "REG_QWORD",
    }
}

/// The kind a snapshot name stands for; a name other than the binary, DWORD,
/// big-endian DWORD, QWORD, string, expandable string and multi-string ones is
/// read as a string.
pub open spec fn kind_of_name(s: Seq<char>) -> RegKind {
    if s == "REG_BINARY"@ {
        RegKind::Binary
    } else if s == "REG_DWORD"@ {
        RegKind::Dword
    } else if s == "REG_DWORD_BIG_ENDIAN"@ {
        RegKind::DwordBigEndian
    } else if s == "REG_QWORD"@ {
        RegKind::Qword
    } else if s == "REG_SZ"@ {
        RegKind::Sz
    } else if s == "REG_EXPAND_SZ"@ {
        RegKind::ExpandSz
    } else if s == "REG_MULTI_SZ"@ {
        RegKind::MultiSz
    } else {
        RegKind::Sz
    }
}

/// The kind of a snapshot record's `ValueKind`.
pub fn parse_value_kind(kind_str: &str) -> (r: RegKind)
    ensures
        r == kind_of_name(kind_str@),
{
    if str_eq(kind_str, "REG_BINARY") {
        RegKind::Binary
    } else if str_eq(kind_str, "REG_DWORD") {
        RegKind::Dword
    } else if str_eq(kind_str, "REG_DWORD_BIG_ENDIAN") {
        RegKind::DwordBigEndian
    } else if str_eq(kind_str, "REG_QWORD") {
        RegKind::Qword
    } else if str_eq(kind_str, "REG_SZ") {
        RegKind::Sz
    } else if str_eq(kind_str, "REG_EXPAND_SZ") {
        RegKind::ExpandSz
    } else if str_eq(kind_str, "REG_MULTI_SZ") {
        RegKind::MultiSz
    } else {
        RegKind::Sz
    }
}

/// The seven kinds that a snapshot keeps by name.
pub open spec fn named_kind(k: RegKind) -> bool {
    k is Binary || k is Dword || k is DwordBigEndian || k is Qword || k is Sz || k is ExpandSz
        || k is MultiSz
}

/// A named kind reads back as itself from its name.
pub proof fn lemma_kind_name_round_trip(kind: RegKind)
    requires
        named_kind(kind),
    ensures
        kind_of_name(kind_name_v(kind)) == kind,
{
    {
        reveal_strlit("REG_BINARY");
        reveal_strlit("REG_DWORD");
        reveal_strlit("REG_DWORD_BIG_ENDIAN");
        reveal_strlit("REG_QWORD");
        reveal_strlit("REG_SZ");
        reveal_strlit("REG_EXPAND_SZ");
        reveal_strlit("REG_MULTI_SZ");
        assert("REG_QWORD"@[4] != "REG_DWORD"@[4]);
        assert("REG_SZ"@.len() != "REG_DWORD"@.len());
        assert("REG_EXPAND_SZ"@.len() != "REG_DWORD"@.len());
        assert("REG_MULTI_SZ"@.len() != "REG_DWORD"@.len());
        assert("REG_DWORD_BIG_ENDIAN"@.len() != "REG_DWORD"@.len());
        assert("REG_BINARY"@.len() != "REG_DWORD"@.len());
        assert("REG_SZ"@.len() != "REG_BINARY"@.len());
        assert("REG_EXPAND_SZ"@.len() != "REG_BINARY"@.len());
        assert("REG_MULTI_SZ"@.len() != "REG_BINARY"@.len());
        assert("REG_DWORD_BIG_ENDIAN"@.len() != "REG_BINARY"@.len());
        assert("REG_QWORD"@.len() != "REG_BINARY"@.len());
        assert("REG_SZ"@.len() != "REG_DWORD_BIG_ENDIAN"@.len());
        assert("REG_EXPAND_SZ"@.len() != "REG_DWORD_BIG_ENDIAN"@.len());
        assert("REG_MULTI_SZ"@.len() != "REG_DWORD_BIG_ENDIAN"@.len());
        assert("REG_QWORD"@.len() != "REG_DWORD_BIG_ENDIAN"@.len());
        assert("REG_SZ"@.len() != "REG_QWORD"@.len());
        assert("REG_EXPAND_SZ"@.len() != "REG_QWORD"@.len());
        assert("REG_MULTI_SZ"@.len() != "REG_QWORD"@.len());
        assert("REG_EXPAND_SZ"@.len() != "REG_SZ"@.len());
        assert("REG_MULTI_SZ"@.len() != "REG_SZ"@.len());
        assert("REG_MULTI_SZ"@.len() != "REG_EXPAND_SZ"@.len());
    }
}

// ─── Base64 ───────────────────────────────────────────────────────────

/// The character of a 6-bit value in the standard base64 alphabet.
pub open spec fn b64_char(v: u8) -> char {
    if v < 26 {
        (65 + v) as char
    } else if v < 52 {
        (97 + v - 26) as char
    } else if v < 62 {
        (48 + v - 52) as char
    } else if v == 62 {
        '+'
    } else {
        '/'
    }
}

/// The 6-bit value of a character of the standard base64 alphabet.
pub open spec fn b64_value(c: char) -> u8 {
    let x = c as u32;
    if 65 <= x <= 90 {
        (x - 65) as u8
    } else if 97 <= x <= 122 {
        (x - 97 + 26) as u8
    } else if 48 <= x <= 57 {
        (x - 48 + 52) as u8
    } else if c == '+' {
        62
    } else {
        63
    }
}

proof fn lemma_b64_value(v: u8)
    requires
        v < 64,
    ensures
        b64_value(b64_char(v)) == v,
        b64_char(v) != '=',
{
    let c = b64_char(v);
    vstd::utf8::char_is_scalar(c);
    if v < 26 {
        assert(c as u32 == 65 + v);
    } else if v < 52 {
        assert(c as u32 == 97 + v - 26);
    } else if v < 62 {
        assert(c as u32 == 48 + v - 52);
    }
}

/// Standard base64 with padding (RFC 4648, section 4).
pub open spec fn base64_text(b: Seq<u8>) -> Seq<char>
    decreases b.len(),
{
    if b.len() == 0 {
        Seq::empty()
    } else if b.len() == 1 {
        seq![b64_char(b[0] >> 2), b64_char((b[0] & 3) << 4), '=', '=']
    } else if b.len() == 2 {
        seq![b64_char(b[0] >> 2), b64_char(((b[0] & 3) << 4) | (b[1] >> 4)), b64_char((b[1] & 15) << 2), '=']
    } else {
        seq![b64_char(b[0] >> 2), b64_char(((b[0] & 3) << 4) | (b[1] >> 4)), b64_char(((b[1] & 15) << 2) | (b[2] >> 6)), b64_char(b[2] & 63)]
            + base64_text(b.subrange(3, b.len() as int))
    }
}

/// The bytes of a group of four base64 characters, the last one or two of which may
/// be the padding `=`.
pub open spec fn b64_group(c0: char, c1: char, c2: char, c3: char) -> Seq<u8> {
    let v0 = b64_value(c0);
    let v1 = b64_value(c1);
    let v2 = b64_value(c2);
    let v3 = b64_value(c3);
    let x0 = (v0 << 2) | (v1 >> 4);
    let x1 = (v1 << 4) | (v2 >> 2);
    let x2 = (v2 << 6) | v3;
    if c2 == '=' {
        seq![x0]
    } else if c3 == '=' {
        seq![x0, x1]
    } else {
        seq![x0, x1, x2]
    }
}

/// The bytes that a padded standard base64 text stands for, read four characters at
/// a time.
pub open spec fn base64_bytes(s: Seq<char>) -> Seq<u8>
    decreases s.len(),
{
    if s.len() < 4 {
        Seq::empty()
    } else {
        b64_group(s[0], s[1], s[2], s[3]) + base64_bytes(s.subrange(4, s.len() as int))
    }
}

/// What the standard engine decodes a text to: the bytes, when the text is their
/// padded encoding; nothing for any other text.
pub open spec fn base64_value(s: Seq<char>) -> Option<Seq<u8>> {
    if exists|b: Seq<u8>| #[trigger] base64_text(b) == s {
        Some(base64_bytes(s))
    } else {
        None
    }
}

/// Reading an encoding back gives the bytes.
pub proof fn lemma_base64_bytes(b: Seq<u8>)
    ensures
        base64_bytes(base64_text(b)) == b,
    decreases b.len(),
{
    let t = base64_text(b);
    if b.len() == 0 {
        assert(b =~= Seq::<u8>::empty());
    } else if b.len() == 1 {
        let b0 = b[0];
        let v0 = b0 >> 2;
        let v1 = (b0 & 3) << 4;
        assert(v0 < 64 && v1 < 64 && ((v0 << 2) | (v1 >> 4)) == b0) by (bit_vector)
            requires
                v0 == b0 >> 2,
                v1 == (b0 & 3) << 4,
        ;
        lemma_b64_value(v0);
        lemma_b64_value(v1);
        assert(t =~= seq![b64_char(v0), b64_char(v1), '=', '=']);
        assert(t.subrange(4, t.len() as int) =~= Seq::<char>::empty());
        assert(base64_bytes(Seq::<char>::empty()) == Seq::<u8>::empty());
        assert(b64_group(t[0], t[1], t[2], t[3]) == seq![b0]);
        assert(b =~= seq![b0]);
    } else if b.len() == 2 {
        let b0 = b[0];
        let b1 = b[1];
        let v0 = b0 >> 2;
        let v1 = ((b0 & 3) << 4) | (b1 >> 4);
        let v2 = (b1 & 15) << 2;
        assert(v0 < 64 && v1 < 64 && v2 < 64 && ((v0 << 2) | (v1 >> 4)) == b0 && ((v1 << 4) | (v2
            >> 2)) == b1) by (bit_vector)
            requires
                v0 == b0 >> 2,
                v1 == ((b0 & 3) << 4) | (b1 >> 4),
                v2 == (b1 & 15) << 2,
        ;
        lemma_b64_value(v0);
        lemma_b64_value(v1);
        lemma_b64_value(v2);
        assert(t =~= seq![b64_char(v0), b64_char(v1), b64_char(v2), '=']);
        assert(t.subrange(4, t.len() as int) =~= Seq::<char>::empty());
        assert(base64_bytes(Seq::<char>::empty()) == Seq::<u8>::empty());
        assert(b64_group(t[0], t[1], t[2], t[3]) =~= seq![b0, b1]);
        assert(b =~= seq![b0, b1]);
    } else {
        let b0 = b[0];
        let b1 = b[1];
        let b2 = b[2];
        let v0 = b0 >> 2;
        let v1 = ((b0 & 3) << 4) | (b1 >> 4);
        let v2 = ((b1 & 15) << 2) | (b2 >> 6);
        let v3 = b2 & 63;
        assert(v0 < 64 && v1 < 64 && v2 < 64 && v3 < 64 && ((v0 << 2) | (v1 >> 4)) == b0 && ((v1
            << 4) | (v2 >> 2)) == b1 && ((v2 << 6) | v3) == b2) by (bit_vector)
            requires
                v0 == b0 >> 2,
                v1 == ((b0 & 3) << 4) | (b1 >> 4),
                v2 == ((b1 & 15) << 2) | (b2 >> 6),
                v3 == b2 & 63,
        ;
        lemma_b64_value(v0);
        lemma_b64_value(v1);
        lemma_b64_value(v2);
        lemma_b64_value(v3);
        let rest = b.subrange(3, b.len() as int);
        lemma_base64_bytes(rest);
        assert(t =~= seq![b64_char(v0), b64_char(v1), b64_char(v2), b64_char(v3)] + base64_text(rest));
        assert(t.subrange(4, t.len() as int) =~= base64_text(rest));
        assert(b64_group(t[0], t[1], t[2], t[3]) =~= seq![b0, b1, b2]);
        assert(b =~= seq![b0, b1, b2] + rest);
    }
}

/// A text is the encoding of at most one byte sequence, and `base64_value` of an
/// encoding is its bytes.
pub proof fn lemma_base64_value(b: Seq<u8>)
    ensures
        base64_value(base64_text(b)) == Some(b),
{
    lemma_base64_bytes(b);
}

/// base64's `STANDARD.encode`. Trusted: the result is the standard-alphabet,
/// padded encoding of RFC 4648 that the crate documents for this engine.
#[verifier::external_body]
fn base64_encode(data: &Vec<u8>) -> (r: String)
    ensures
        r@ == base64_text(data@),
{
    base64::engine::general_purpose::STANDARD.encode(data.as_slice())
}

/// base64's `STANDARD.decode`. Trusted: the engine requires canonical padding and
/// zero trailing bits, so it decodes exactly the padded encodings of byte
/// sequences: what it gives back encodes to the text, and the encoding of some
/// bytes decodes to those bytes.
#[verifier::external_body]
fn base64_decode(s: &str) -> (r: Option<Vec<u8>>)
    ensures
        r matches Some(v) ==> s@ == base64_text(v@),
        forall|b: Seq<u8>| s@ == #[trigger] base64_text(b) ==> r is Some && r.unwrap()@ == b,
{
    base64::engine::general_purpose::STANDARD.decode(s).ok()
}

// ─── UTF-16 ───────────────────────────────────────────────────────────

/// The UTF-16 code units of a character.
pub open spec fn utf16_of(c: char) -> Seq<u16> {
    let v = c as u32;
    if v < 0x10000 {
        seq![v as u16]
    } else {
        let u = (v - 0x10000) as u32;
        seq![(0xD800 + (u >> 10)) as u16, (0xDC00 + (u & 0x3FF)) as u16]
    }
}

/// The UTF-16 code units of a text (what `str::encode_utf16` gives).
pub open spec fn utf16_text(s: Seq<char>) -> Seq<u16>
    decreases s.len(),
{
    if s.len() == 0 {
        Seq::empty()
    } else {
        utf16_text(s.drop_last()) + utf16_of(s.last())
    }
}

/// Decoding UTF-16 code units: a high surrogate followed by a low one is one
/// character, any other surrogate is U+FFFD (the replacement character), and any
/// other unit is the character of that code.
pub open spec fn utf16_decode(u: Seq<u16>) -> Seq<char>
    decreases u.len(),
{
    if u.len() == 0 {
        Seq::empty()
    } else if 0xD800 <= u[0] < 0xDC00 && u.len() >= 2 && 0xDC00 <= u[1] < 0xE000 {
        seq![(0x10000 + (u[0] - 0xD800) * 0x400 + (u[1] - 0xDC00)) as char] + utf16_decode(
            u.subrange(2, u.len() as int),
        )
    } else if 0xD800 <= u[0] < 0xE000 {
        seq!['\u{FFFD}'] + utf16_decode(u.subrange(1, u.len() as int))
    } else {
        seq![u[0] as char] + utf16_decode(u.subrange(1, u.len() as int))
    }
}

/// std's `String::from_utf16_lossy`. Trusted: as std documents it (through
/// `char::decode_utf16`), the units are decoded as UTF-16 and each unpaired
/// surrogate becomes U+FFFD; `utf16_decode` states that decoding.
#[verifier::external_body]
fn from_utf16_lossy(units: &Vec<u16>) -> (r: String)
    ensures
        r@ == utf16_decode(units@),
{
    String::from_utf16_lossy(units.as_slice())
}

proof fn lemma_utf16_front(s: Seq<char>)
    requires
        s.len() > 0,
    ensures
        utf16_text(s) == utf16_of(s[0]) + utf16_text(s.drop_first()),
{
    lemma_utf16_concat(seq![s[0]], s.drop_first());
    assert(seq![s[0]] + s.drop_first() =~= s);
    let one = seq![s[0]];
    assert(one.drop_last() =~= Seq::<char>::empty());
    assert(one.last() == s[0]);
    assert(utf16_text(Seq::<char>::empty()) =~= Seq::<u16>::empty());
    assert(utf16_text(one) =~= utf16_text(one.drop_last()) + utf16_of(one.last()));
    assert(utf16_text(one) =~= utf16_of(s[0]));
}

/// Decoding the UTF-16 units of a text gives the text back.
pub proof fn lemma_utf16_decode(s: Seq<char>)
    ensures
        utf16_decode(utf16_text(s)) == s,
    decreases s.len(),
{
    if s.len() == 0 {
        assert(utf16_text(s) =~= Seq::<u16>::empty());
        assert(s =~= Seq::<char>::empty());
    } else {
        let c = s[0];
        let rest = s.drop_first();
        lemma_utf16_front(s);
        lemma_utf16_decode(rest);
        let u = utf16_text(s);
        let r = utf16_text(rest);
        let v = c as u32;
        vstd::utf8::char_is_scalar(c);
        vstd::utf8::char_u32_cast(c, v);
        if v < 0x10000 {
            assert(u =~= seq![v as u16] + r);
            assert(u[0] == v as u16);
            assert(!(0xD800 <= v <= 0xDFFF));
            assert(u.subrange(1, u.len() as int) =~= r);
            assert((u[0] as char) == c);
        } else {
            let w = (v - 0x10000) as u32;
            let hi = (0xD800 + (w >> 10)) as u16;
            let lo = (0xDC00 + (w & 0x3FF)) as u16;
            assert(w <= 0xFFFFF);
            assert(w <= 0xFFFFF ==> (w >> 10) <= 0x3FF && (w & 0x3FF) <= 0x3FF && (w >> 10) * 0x400
                + (w & 0x3FF) == w) by (bit_vector);
            assert(u =~= seq![hi, lo] + r);
            assert(hi == 0xD800 + (w >> 10));
            assert(lo == 0xDC00 + (w & 0x3FF));
            assert(0x10000 + (hi - 0xD800) * 0x400 + (lo - 0xDC00) == v);
            assert(u.subrange(2, u.len() as int) =~= r);
        }
        assert(seq![c] + rest =~= s);
    }
}

/// The UTF-16 code units of a text.
pub fn encode_utf16(s: &Vec<char>) -> (r: Vec<u16>)
    ensures
        r@ == utf16_text(s@),
{
    let mut r: Vec<u16> = Vec::new();
    let mut i: usize = 0;
    while i < s.len()
        invariant
            i <= s@.len(),
            r@ == utf16_text(s@.subrange(0, i as int)),
        decreases s.len() - i,
    {
        let c = s[i];
        let v = c as u32;
        proof {
            assert(s@.subrange(0, i + 1).drop_last() =~= s@.subrange(0, i as int));
        }
        if v < 0x10000 {
            r.push(v as u16);
            proof {
                assert(r@ =~= utf16_text(s@.subrange(0, i + 1)));
            }
        } else {
            let u = v - 0x10000;
            assert(u >> 10 <= 0x3fffff) by (bit_vector);
            assert(u & 0x3FF < 0x400) by (bit_vector);
            r.push((0xD800 + (u >> 10)) as u16);
            r.push((0xDC00 + (u & 0x3FF)) as u16);
            proof {
                assert(r@ =~= utf16_text(s@.subrange(0, i + 1)));
            }
        }
        i = i + 1;
    }
    assert(s@.subrange(0, s@.len() as int) =~= s@);
    r
}

/// The little-endian bytes of code units.
pub open spec fn units_bytes(units: Seq<u16>) -> Seq<u8>
    decreases units.len(),
{
    if units.len() == 0 {
        Seq::empty()
    } else {
        units_bytes(units.drop_last()) + seq![
            (units.last() & 0xff) as u8,
            (units.last() >> 8) as u8,
        ]
    }
}

/// The code units of little-endian byte pairs (a last odd byte is ignored, as
/// `chunks_exact(2)` does).
pub open spec fn bytes_units(b: Seq<u8>) -> Seq<u16> {
    Seq::new((b.len() / 2) as nat, |i: int| (b[2 * i] as u16) | ((b[2 * i + 1] as u16) << 8))
}

/// The code units before the first zero (what `take_while(|&c| c != 0)` keeps).
pub open spec fn until_zero(u: Seq<u16>) -> Seq<u16>
    decreases u.len(),
{
    if u.len() == 0 {
        Seq::empty()
    } else if u[0] == 0 {
        Seq::empty()
    } else {
        seq![u[0]] + until_zero(u.drop_first())
    }
}

fn le_bytes_of_units(units: &Vec<u16>) -> (r: Vec<u8>)
    ensures
        r@ == units_bytes(units@),
{
    let mut r: Vec<u8> = Vec::new();
    let mut i: usize = 0;
    while i < units.len()
        invariant
            i <= units@.len(),
            r@ == units_bytes(units@.subrange(0, i as int)),
        decreases units.len() - i,
    {
        let u = units[i];
        proof {
            assert(units@.subrange(0, i + 1).drop_last() =~= units@.subrange(0, i as int));
        }
        r.push((u & 0xff) as u8);
        r.push((u >> 8) as u8);
        proof {
            assert(r@ =~= units_bytes(units@.subrange(0, i + 1)));
        }
        i = i + 1;
    }
    assert(units@.subrange(0, units@.len() as int) =~= units@);
    r
}

fn units_of_le_bytes(b: &Vec<u8>) -> (r: Vec<u16>)
    ensures
        r@ == bytes_units(b@),
{
    let blen = b.len();
    let n = blen / 2;
    assert(2 * n <= b@.len());
    let mut r: Vec<u16> = Vec::new();
    let mut i: usize = 0;
    while i < n
        invariant
            n == b@.len() / 2,
            blen == b@.len(),
            2 * n <= b@.len(),
            i <= n,
            r@.len() == i,
            forall|k: int| 0 <= k < i ==> #[trigger] r@[k] == ((b@[2 * k] as u16) | ((b@[2 * k + 1] as u16) << 8)),
        decreases n - i,
    {
        let lo = b[2 * i] as u16;
        let hi = b[2 * i + 1] as u16;
        r.push(lo | (hi << 8));
        i = i + 1;
    }
    assert(r@ =~= bytes_units(b@));
    r
}

fn take_until_zero(u: &Vec<u16>) -> (r: Vec<u16>)
    ensures
        r@ == until_zero(u@),
{
    let mut r: Vec<u16> = Vec::new();
    let mut i: usize = 0;
    assert(u@.subrange(0, u@.len() as int) =~= u@);
    assert(r@ + until_zero(u@) =~= until_zero(u@));
    while i < u.len() && u[i] != 0
        invariant
            i <= u@.len(),
            r@ == u@.subrange(0, i as int),
            forall|k: int| 0 <= k < i ==> u@[k] != 0,
            until_zero(u@) == r@ + until_zero(u@.subrange(i as int, u@.len() as int)),
        decreases u.len() - i,
    {
        proof {
            let rest = u@.subrange(i as int, u@.len() as int);
            assert(rest.drop_first() =~= u@.subrange(i + 1, u@.len() as int));
            assert(rest[0] == u@[i as int]);
        }
        r.push(u[i]);
        i = i + 1;
    }
    proof {
        let rest = u@.subrange(i as int, u@.len() as int);
        if i < u@.len() {
            assert(rest[0] == 0);
        } else {
            assert(rest.len() == 0);
        }
    }
    assert(u@.subrange(0, 0) =~= Seq::<u16>::empty());
    r
}

// ─── Multi-strings ────────────────────────────────────────────────────

/// The non-empty pieces of `s` from `start` on, cut at NUL characters; `i` is where
/// the scan is.
pub open spec fn pieces_from(s: Seq<char>, start: int, i: int) -> Seq<Seq<char>>
    decreases s.len() - i,
{
    if i < start || start < 0 || i >= s.len() {
        if 0 <= start < i <= s.len() {
            seq![s.subrange(start, i)]
        } else {
            Seq::empty()
        }
    } else if s[i] == '\0' {
        (if i > start {
            seq![s.subrange(start, i)]
        } else {
            Seq::<Seq<char>>::empty()
        }) + pieces_from(s, i + 1, i + 1)
    } else {
        pieces_from(s, start, i + 1)
    }
}

/// The non-empty strings between NUL characters (`split('\0')` keeping non-empty parts).
pub open spec fn nul_pieces(s: Seq<char>) -> Seq<Seq<char>> {
    pieces_from(s, 0, 0)
}

fn split_nul(s: &Vec<char>) -> (r: Vec<String>)
    ensures
        strs(r@) == nul_pieces(s@),
{
    let mut out: Vec<String> = Vec::new();
    let mut cur: Vec<char> = Vec::new();
    let mut start: usize = 0;
    let mut i: usize = 0;
    while i < s.len()
        invariant
            start <= i <= s@.len(),
            cur@ == s@.subrange(start as int, i as int),
            strs(out@) + pieces_from(s@, start as int, i as int) == nul_pieces(s@),
        decreases s.len() - i,
    {
        if s[i] == '\0' {
            if cur.len() > 0 {
                let ghost before = out@;
                out.push(string_of(&cur));
                proof {
                    assert(strs(out@) =~= strs(before) + seq![s@.subrange(start as int, i as int)]);
                }
            }
            proof {
                if cur@.len() == 0 {
                    assert(strs(out@) + pieces_from(s@, i + 1, i + 1) =~= strs(out@) + (
                    Seq::<Seq<char>>::empty() + pieces_from(s@, i + 1, i + 1)));
                } else {
                    assert(strs(out@) + pieces_from(s@, i + 1, i + 1) =~= (strs(out@).drop_last()
                        + seq![s@.subrange(start as int, i as int)]) + pieces_from(s@, i + 1, i + 1));
                }
            }
            cur = Vec::new();
            start = i + 1;
            proof {
                assert(cur@ =~= s@.subrange(start as int, (i + 1) as int));
            }
        } else {
            cur.push(s[i]);
            proof {
                assert(cur@ =~= s@.subrange(start as int, (i + 1) as int));
            }
        }
        i = i + 1;
    }
    if cur.len() > 0 {
        let ghost before = out@;
        out.push(string_of(&cur));
        proof {
            assert(strs(out@) =~= strs(before) + seq![s@.subrange(start as int, i as int)]);
        }
    }
    out
}

/// A lowercase hexadecimal digit.
pub open spec fn hex_digit(n: u32) -> char {
    if n < 10 {
        (48 + n) as char
    } else {
        (97 + n - 10) as char
    }
}

/// How serde_json writes a character inside a string: `"` and `\\` escaped with a
/// backslash, the control characters backspace, tab, line feed, form feed and
/// carriage return as `\\b`, `\\t`, `\\n`, `\\f`, `\\r`, the other characters below
/// U+0020 as `\\u00` and two lowercase hexadecimal digits, and every other character
/// as itself.
pub open spec fn json_char(c: char) -> Seq<char> {
    let x = c as u32;
    if c == '"' {
        seq!['\\', '"']
    } else if c == '\\' {
        seq!['\\', '\\']
    } else if x == 8 {
        seq!['\\', 'b']
    } else if x == 9 {
        seq!['\\', 't']
    } else if x == 10 {
        seq!['\\', 'n']
    } else if x == 12 {
        seq!['\\', 'f']
    } else if x == 13 {
        seq!['\\', 'r']
    } else if x < 0x20 {
        seq!['\\', 'u', '0', '0', hex_digit(x / 16), hex_digit(x % 16)]
    } else {
        seq![c]
    }
}

/// The characters of a string, each as serde_json writes it.
pub open spec fn json_escaped(s: Seq<char>) -> Seq<char>
    decreases s.len(),
{
    if s.len() == 0 {
        Seq::empty()
    } else {
        json_escaped(s.drop_last()) + json_char(s.last())
    }
}

/// A string as serde_json writes it: in double quotes, escaped.
pub open spec fn json_quoted(s: Seq<char>) -> Seq<char> {
    seq!['"'] + json_escaped(s) + seq!['"']
}

/// The strings written one after the other, separated by commas.
pub open spec fn json_items(v: Seq<Seq<char>>) -> Seq<char>
    decreases v.len(),
{
    if v.len() == 0 {
        Seq::empty()
    } else if v.len() == 1 {
        json_quoted(v[0])
    } else {
        json_items(v.drop_last()) + seq![','] + json_quoted(v.last())
    }
}

/// A list of strings as serde_json's `to_string` writes it (compact): `[`, the
/// strings separated by commas, `]`.
pub open spec fn json_list_text(v: Seq<Seq<char>>) -> Seq<char> {
    seq!['['] + json_items(v) + seq![']']
}

/// What serde_json reads from a text as a list of strings (`None` when it fails).
pub uninterp spec fn json_strings_parsed(s: Seq<char>) -> Option<Seq<Seq<char>>>;

/// serde_json's `to_string` for a list of strings. Trusted: writing a list of
/// strings does not fail (the writer is an in-memory buffer and strings always
/// serialise); the text is the compact form `json_list_text` that the serializer
/// writes (`format_escaped_str` and its escape table for each string); and
/// serde_json's `from_str` reads the text back as the same list.
#[verifier::external_body]
fn strings_to_json(v: &Vec<String>) -> (r: Option<String>)
    ensures
        r is Some,
        r is Some ==> r.unwrap()@ == json_list_text(strs(v@)),
        r is Some ==> json_strings_parsed(r.unwrap()@) == Some(strs(v@)),
{
    serde_json::to_string(v).ok()
}

/// serde_json's `from_str` as a list of strings. Trusted: the result is
/// `json_strings_parsed` of the text.
#[verifier::external_body]
fn strings_from_json(s: &str) -> (r: Option<Vec<String>>)
    ensures
        match json_strings_parsed(s@) {
            Some(v) => r matches Some(x) && strs(x@) == v,
            None => r is None,
        },
{
    serde_json::from_str::<Vec<String>>(s).ok()
}

// ─── Numbers ──────────────────────────────────────────────────────────

/// The little-endian value of four bytes.
pub open spec fn le_u32(b0: u8, b1: u8, b2: u8, b3: u8) -> u32 {
    (b0 as u32) | ((b1 as u32) << 8) | ((b2 as u32) << 16) | ((b3 as u32) << 24)
}

/// The little-endian value of eight bytes.
pub open spec fn le_u64(b: Seq<u8>) -> u64 {
    (b[0] as u64) | ((b[1] as u64) << 8) | ((b[2] as u64) << 16) | ((b[3] as u64) << 24) | ((
    b[4] as u64) << 32) | ((b[5] as u64) << 40) | ((b[6] as u64) << 48) | ((b[7] as u64) << 56)
}

/// The little-endian bytes of a 32-bit value.
pub open spec fn u32_le(v: u32) -> Seq<u8> {
    seq![(v & 0xff) as u8, ((v >> 8) & 0xff) as u8, ((v >> 16) & 0xff) as u8, ((v >> 24) & 0xff) as u8]
}

/// The big-endian bytes of a 32-bit value.
pub open spec fn u32_be(v: u32) -> Seq<u8> {
    seq![((v >> 24) & 0xff) as u8, ((v >> 16) & 0xff) as u8, ((v >> 8) & 0xff) as u8, (v & 0xff) as u8]
}

/// The little-endian bytes of a 64-bit value.
pub open spec fn u64_le(v: u64) -> Seq<u8> {
    seq![(v & 0xff) as u8, ((v >> 8) & 0xff) as u8, ((v >> 16) & 0xff) as u8, ((v >> 24) & 0xff) as u8,
    ((v >> 32) & 0xff) as u8, ((v >> 40) & 0xff) as u8, ((v >> 48) & 0xff) as u8, ((v >> 56) & 0xff) as u8]
}

fn u32_le_bytes(v: u32) -> (r: Vec<u8>)
    ensures
        r@ == u32_le(v),
{
    let mut r: Vec<u8> = Vec::new();
    r.push((v & 0xff) as u8);
    r.push(((v >> 8) & 0xff) as u8);
    r.push(((v >> 16) & 0xff) as u8);
    r.push(((v >> 24) & 0xff) as u8);
    assert(r@ =~= u32_le(v));
    r
}

fn u32_be_bytes(v: u32) -> (r: Vec<u8>)
    ensures
        r@ == u32_be(v),
{
    let mut r: Vec<u8> = Vec::new();
    r.push(((v >> 24) & 0xff) as u8);
    r.push(((v >> 16) & 0xff) as u8);
    r.push(((v >> 8) & 0xff) as u8);
    r.push((v & 0xff) as u8);
    assert(r@ =~= u32_be(v));
    r
}

fn u64_le_bytes(v: u64) -> (r: Vec<u8>)
    ensures
        r@ == u64_le(v),
{
    let mut r: Vec<u8> = Vec::new();
    r.push((v & 0xff) as u8);
    r.push(((v >> 8) & 0xff) as u8);
    r.push(((v >> 16) & 0xff) as u8);
    r.push(((v >> 24) & 0xff) as u8);
    r.push(((v >> 32) & 0xff) as u8);
    r.push(((v >> 40) & 0xff) as u8);
    r.push(((v >> 48) & 0xff) as u8);
    r.push(((v >> 56) & 0xff) as u8);
    assert(r@ =~= u64_le(v));
    r
}

// ─── Reading back what was written ────────────────────────────────────

/// The text holds no NUL character.
pub open spec fn no_nul(s: Seq<char>) -> bool {
    forall|i: int| 0 <= i < s.len() ==> s[i] != '\0'
}

/// No code unit is zero.
pub open spec fn no_zero(u: Seq<u16>) -> bool {
    forall|i: int| 0 <= i < u.len() ==> u[i] != 0
}

proof fn lemma_units_bytes_shape(u: Seq<u16>)
    ensures
        units_bytes(u).len() == 2 * u.len(),
        forall|k: int|
            0 <= k < u.len() ==> units_bytes(u)[2 * k] == (#[trigger] u[k] & 0xff) as u8
                && units_bytes(u)[2 * k + 1] == (u[k] >> 8) as u8,
    decreases u.len(),
{
    if u.len() > 0 {
        let p = u.drop_last();
        lemma_units_bytes_shape(p);
        assert forall|k: int| 0 <= k < u.len() implies units_bytes(u)[2 * k] == (#[trigger] u[k]
            & 0xff) as u8 && units_bytes(u)[2 * k + 1] == (u[k] >> 8) as u8 by {
            if k < u.len() - 1 {
                assert(p[k] == u[k]);
            }
        }
    }
}

/// Reading the little-endian bytes of code units gives the units back.
proof fn lemma_bytes_units_inverse(u: Seq<u16>)
    ensures
        bytes_units(units_bytes(u)) == u,
{
    lemma_units_bytes_shape(u);
    let b = units_bytes(u);
    assert forall|k: int| 0 <= k < u.len() implies #[trigger] bytes_units(b)[k] == u[k] by {
        let x = u[k];
        assert(b[2 * k] == (x & 0xff) as u8);
        assert(b[2 * k + 1] == (x >> 8) as u8);
        assert((((x & 0xff) as u8) as u16) | ((((x >> 8) as u8) as u16) << 8) == x) by (bit_vector);
    }
    assert(bytes_units(b) =~= u);
}

/// A text without NUL characters has no zero code unit.
proof fn lemma_utf16_no_zero(s: Seq<char>)
    requires
        no_nul(s),
    ensures
        no_zero(utf16_text(s)),
    decreases s.len(),
{
    if s.len() > 0 {
        let p = s.drop_last();
        assert forall|i: int| 0 <= i < p.len() implies p[i] != '\0' by {
            assert(p[i] == s[i]);
        }
        lemma_utf16_no_zero(p);
        let c = s.last();
        let v = c as u32;
        assert(c != '\0');
        vstd::utf8::char_is_scalar(c);
        if v == 0 {
            vstd::utf8::char_u32_cast(c, v);
            assert(c == '\0');
        }
        let w = utf16_of(c);
        if v >= 0x10000 {
            let u = (v - 0x10000) as u32;
            assert(v <= 0x10FFFF);
            assert(u <= 0xFFFFF);
            assert(u <= 0xFFFFF ==> (0xD800 + (u >> 10)) as u16 != 0 && (0xDC00 + (u & 0x3FF)) as u16
                != 0) by (bit_vector);
        }
        assert forall|i: int| 0 <= i < w.len() implies w[i] != 0 by {}
        let t = utf16_text(s);
        assert(t == utf16_text(p) + w);
        assert forall|i: int| 0 <= i < t.len() implies t[i] != 0 by {
            if i < utf16_text(p).len() {
                assert(t[i] == utf16_text(p)[i]);
            } else {
                assert(t[i] == w[i - utf16_text(p).len()]);
            }
        }
    }
}

/// Code units without a zero, followed by a zero, are kept up to that zero.
proof fn lemma_until_zero_terminated(u: Seq<u16>)
    requires
        no_zero(u),
    ensures
        until_zero(u + seq![0u16]) == u,
    decreases u.len(),
{
    let w = u + seq![0u16];
    if u.len() == 0 {
        assert(w[0] == 0);
    } else {
        assert(w[0] == u[0]);
        let rest = u.drop_first();
        assert forall|i: int| 0 <= i < rest.len() implies rest[i] != 0 by {
            assert(rest[i] == u[i + 1]);
        }
        lemma_until_zero_terminated(rest);
        assert(w.drop_first() =~= rest + seq![0u16]);
        assert(seq![u[0]] + rest =~= u);
    }
}

/// The bytes of a string value: its UTF-16 units and a terminating zero, little-endian.
pub open spec fn sz_bytes(s: Seq<char>) -> Seq<u8> {
    units_bytes(utf16_text(s) + seq![0u16])
}

/// The string value that `b` holds, when `b` is the bytes of a text without NUL.
pub open spec fn sz_text_of(b: Seq<u8>) -> bool {
    exists|s: Seq<char>| no_nul(s) && b == #[trigger] sz_bytes(s)
}

proof fn lemma_sz_units(s: Seq<char>)
    requires
        no_nul(s),
    ensures
        until_zero(bytes_units(sz_bytes(s))) == utf16_text(s),
{
    lemma_bytes_units_inverse(utf16_text(s) + seq![0u16]);
    lemma_utf16_no_zero(s);
    lemma_until_zero_terminated(utf16_text(s));
}

/// The texts are each non-empty and without NUL.
pub open spec fn multi_texts(v: Seq<Seq<char>>) -> bool {
    forall|i: int| 0 <= i < v.len() ==> (#[trigger] v[i]).len() > 0 && no_nul(v[i])
}

/// The bytes of a multi-string value: each text's UTF-16 units ended by a zero, a
/// final zero, little-endian.
pub open spec fn multi_sz_bytes_of(v: Seq<Seq<char>>) -> Seq<u8> {
    units_bytes(multi_units(v) + seq![0u16])
}

/// `b` is the bytes of a list of non-empty texts without NUL.
pub open spec fn multi_text_of(b: Seq<u8>) -> bool {
    exists|v: Seq<Seq<char>>| multi_texts(v) && b == #[trigger] multi_sz_bytes_of(v)
}

/// The texts, each followed by a NUL.
pub open spec fn joined(v: Seq<Seq<char>>) -> Seq<char>
    decreases v.len(),
{
    if v.len() == 0 {
        Seq::empty()
    } else {
        joined(v.drop_last()) + v.last() + seq!['\0']
    }
}

proof fn lemma_utf16_concat(a: Seq<char>, b: Seq<char>)
    ensures
        utf16_text(a + b) == utf16_text(a) + utf16_text(b),
    decreases b.len(),
{
    if b.len() == 0 {
        assert(a + b =~= a);
    } else {
        lemma_utf16_concat(a, b.drop_last());
        assert((a + b).drop_last() =~= a + b.drop_last());
        assert((a + b).last() == b.last());
    }
}

proof fn lemma_utf16_nul()
    ensures
        utf16_text(seq!['\0']) == seq![0u16],
{
    let z = seq!['\0'];
    assert(z.drop_last() =~= Seq::<char>::empty());
    assert(z.last() == '\0');
    assert(('\0' as u32) == 0);
    assert(utf16_of('\0') =~= seq![0u16]);
    assert(utf16_text(z) =~= utf16_text(Seq::<char>::empty()) + utf16_of('\0'));
}

proof fn lemma_joined_units(v: Seq<Seq<char>>)
    ensures
        utf16_text(joined(v)) == multi_units(v),
    decreases v.len(),
{
    if v.len() > 0 {
        lemma_joined_units(v.drop_last());
        lemma_utf16_concat(joined(v.drop_last()) + v.last(), seq!['\0']);
        lemma_utf16_concat(joined(v.drop_last()), v.last());
        lemma_utf16_nul();
    }
}

proof fn lemma_joined_front(v: Seq<Seq<char>>)
    requires
        v.len() > 0,
    ensures
        joined(v) == v[0] + seq!['\0'] + joined(v.drop_first()),
    decreases v.len(),
{
    if v.len() == 1 {
        assert(v.drop_last() =~= Seq::<Seq<char>>::empty());
        assert(v.drop_first() =~= Seq::<Seq<char>>::empty());
        assert(joined(v) =~= v[0] + seq!['\0'] + joined(v.drop_first()));
    } else {
        let d = v.drop_last();
        lemma_joined_front(d);
        assert(d.drop_first() =~= v.drop_first().drop_last());
        assert(v.drop_first().last() == v.last());
        assert(d[0] == v[0]);
        assert(joined(v) =~= v[0] + seq!['\0'] + joined(v.drop_first()));
    }
}

/// Scanning a run of non-NUL characters up to a NUL cuts out that run as a piece.
proof fn lemma_pieces_run(s: Seq<char>, start: int, i: int, e: int)
    requires
        0 <= start <= i <= e < s.len(),
        start < e,
        forall|k: int| i <= k < e ==> s[k] != '\0',
        s[e] == '\0',
    ensures
        pieces_from(s, start, i) == seq![s.subrange(start, e)] + pieces_from(s, e + 1, e + 1),
    decreases e - i,
{
    if i < e {
        lemma_pieces_run(s, start, i + 1, e);
    }
}

/// The pieces of NUL-separated non-empty texts, from where they begin, are the texts.
proof fn lemma_pieces_joined(p: Seq<char>, v: Seq<Seq<char>>)
    requires
        multi_texts(v),
    ensures
        pieces_from(p + joined(v) + seq!['\0'], p.len() as int, p.len() as int) == v,
    decreases v.len(),
{
    let s = p + joined(v) + seq!['\0'];
    if v.len() == 0 {
        assert(s =~= p + seq!['\0']);
        assert(s[p.len() as int] == '\0');
        assert(pieces_from(s, p.len() + 1int, p.len() + 1int) =~= Seq::<Seq<char>>::empty());
        assert(v =~= Seq::<Seq<char>>::empty());
    } else {
        lemma_joined_front(v);
        let w = v[0];
        let rest = v.drop_first();
        let q = p + w + seq!['\0'];
        assert(s =~= q + joined(rest) + seq!['\0']);
        let start = p.len() as int;
        let e = start + w.len();
        assert(w.len() > 0 && no_nul(w));
        assert forall|k: int| start <= k < e implies s[k] != '\0' by {
            assert(s[k] == w[k - start]);
        }
        assert(s[e] == '\0');
        lemma_pieces_run(s, start, start, e);
        assert(s.subrange(start, e) =~= w);
        assert forall|i: int| 0 <= i < rest.len() implies (#[trigger] rest[i]).len() > 0 && no_nul(
            rest[i],
        ) by {
            assert(rest[i] == v[i + 1]);
        }
        lemma_pieces_joined(q, rest);
        assert(q.len() == e + 1);
        assert(seq![w] + rest =~= v);
    }
}

/// The bytes of a value of `kind` that a snapshot writes as text and reads back
/// unchanged: any bytes for the kinds kept as base64, exactly four bytes for a
/// DWORD (either byte order), exactly eight for a QWORD, the bytes of a text without
/// NUL for a string, and the bytes of non-empty texts without NUL for a
/// multi-string.
pub open spec fn restorable(kind: RegKind, b: Seq<u8>) -> bool {
    match kind {
        RegKind::Dword | RegKind::DwordBigEndian => b.len() == 4,
        RegKind::Qword => b.len() == 8,
        RegKind::Sz | RegKind::ExpandSz => sz_text_of(b),
        RegKind::MultiSz => multi_text_of(b),
        _ => true,
    }
}

proof fn lemma_dword_bytes(b0: u8, b1: u8, b2: u8, b3: u8)
    ensures
        u32_le(le_u32(b0, b1, b2, b3)) == seq![b0, b1, b2, b3],
        u32_be(le_u32(b3, b2, b1, b0)) == seq![b0, b1, b2, b3],
{
    let v = le_u32(b0, b1, b2, b3);
    assert(((b0 as u32) | ((b1 as u32) << 8) | ((b2 as u32) << 16) | ((b3 as u32) << 24)) & 0xff
        == b0 as u32) by (bit_vector);
    assert((((b0 as u32) | ((b1 as u32) << 8) | ((b2 as u32) << 16) | ((b3 as u32) << 24)) >> 8)
        & 0xff == b1 as u32) by (bit_vector);
    assert((((b0 as u32) | ((b1 as u32) << 8) | ((b2 as u32) << 16) | ((b3 as u32) << 24)) >> 16)
        & 0xff == b2 as u32) by (bit_vector);
    assert((((b0 as u32) | ((b1 as u32) << 8) | ((b2 as u32) << 16) | ((b3 as u32) << 24)) >> 24)
        & 0xff == b3 as u32) by (bit_vector);
    assert(u32_le(v) =~= seq![b0, b1, b2, b3]);
    let w = le_u32(b3, b2, b1, b0);
    assert(((b3 as u32) | ((b2 as u32) << 8) | ((b1 as u32) << 16) | ((b0 as u32) << 24)) & 0xff
        == b3 as u32) by (bit_vector);
    assert((((b3 as u32) | ((b2 as u32) << 8) | ((b1 as u32) << 16) | ((b0 as u32) << 24)) >> 8)
        & 0xff == b2 as u32) by (bit_vector);
    assert((((b3 as u32) | ((b2 as u32) << 8) | ((b1 as u32) << 16) | ((b0 as u32) << 24)) >> 16)
        & 0xff == b1 as u32) by (bit_vector);
    assert((((b3 as u32) | ((b2 as u32) << 8) | ((b1 as u32) << 16) | ((b0 as u32) << 24)) >> 24)
        & 0xff == b0 as u32) by (bit_vector);
    assert(u32_be(w) =~= seq![b0, b1, b2, b3]);
}

proof fn lemma_qword_bytes(b: Seq<u8>)
    requires
        b.len() == 8,
    ensures
        u64_le(le_u64(b)) == b,
{
    let (b0, b1, b2, b3, b4, b5, b6, b7) = (b[0], b[1], b[2], b[3], b[4], b[5], b[6], b[7]);
    let v = le_u64(b);
    assert(v == (b0 as u64) | ((b1 as u64) << 8) | ((b2 as u64) << 16) | ((b3 as u64) << 24) | ((
    b4 as u64) << 32) | ((b5 as u64) << 40) | ((b6 as u64) << 48) | ((b7 as u64) << 56));
    assert(v == (b0 as u64) | ((b1 as u64) << 8) | ((b2 as u64) << 16) | ((b3 as u64) << 24) | ((
    b4 as u64) << 32) | ((b5 as u64) << 40) | ((b6 as u64) << 48) | ((b7 as u64) << 56) ==> (v
        & 0xff == b0 as u64 && (v >> 8) & 0xff == b1 as u64 && (v >> 16) & 0xff == b2 as u64 && (v
        >> 24) & 0xff == b3 as u64 && (v >> 32) & 0xff == b4 as u64 && (v >> 40) & 0xff == b5 as u64
        && (v >> 48) & 0xff == b6 as u64 && (v >> 56) & 0xff == b7 as u64)) by (bit_vector);
    assert(u64_le(v) =~= b);
}

// ─── Values as text ───────────────────────────────────────────────────

/// The text a snapshot keeps for a registry value of `kind` with `bytes`.
pub open spec fn value_text(kind: RegKind, b: Seq<u8>) -> Seq<char> {
    match kind {
        RegKind::Binary => base64_text(b),
        RegKind::Dword => if b.len() >= 4 {
            decimal(le_u32(b[0], b[1], b[2], b[3]) as nat)
        } else {
            base64_text(b)
        },
        RegKind::DwordBigEndian => if b.len() >= 4 {
            decimal(le_u32(b[3], b[2], b[1], b[0]) as nat)
        } else {
            base64_text(b)
        },
        RegKind::Qword => if b.len() >= 8 {
            decimal(le_u64(b) as nat)
        } else {
            base64_text(b)
        },
        RegKind::Sz | RegKind::ExpandSz => utf16_decode(until_zero(bytes_units(b))),
        RegKind::MultiSz => json_list_text(nul_pieces(utf16_decode(bytes_units(b)))),
        _ => base64_text(b),
    }
}

/// The text a snapshot keeps for a registry value: base64 for binary data (and for
/// numbers too short for their kind), the decimal number for DWORD, big-endian
/// DWORD and QWORD values, the text up to the first NUL for strings, and a JSON list
/// of the non-empty strings for multi-strings.
pub fn serialize_raw_value(kind: RegKind, bytes: &Vec<u8>) -> (r: String)
    ensures
        r@ == value_text(kind, bytes@),
        restorable(kind, bytes@) ==> value_bytes(r@, kind) == Some(bytes@),
{
    proof {
        lemma_base64_value(bytes@);
    }
    match kind {
        RegKind::Binary => base64_encode(bytes),
        RegKind::Dword => {
            if bytes.len() >= 4 {
                let v = (bytes[0] as u32) | ((bytes[1] as u32) << 8) | ((bytes[2] as u32) << 16) | ((
                bytes[3] as u32) << 24);
                proof {
                    lemma_parse_decimal(v as nat, 0xffff_ffff);
                    lemma_dword_bytes(bytes@[0], bytes@[1], bytes@[2], bytes@[3]);
                    if bytes@.len() == 4 {
                        assert(bytes@ =~= seq![bytes@[0], bytes@[1], bytes@[2], bytes@[3]]);
                    }
                }
                string_of(&decimal_u64(v as u64))
            } else {
                base64_encode(bytes)
            }
        },
        RegKind::DwordBigEndian => {
            if bytes.len() >= 4 {
                let v = (bytes[3] as u32) | ((bytes[2] as u32) << 8) | ((bytes[1] as u32) << 16) | ((
                bytes[0] as u32) << 24);
                proof {
                    lemma_parse_decimal(v as nat, 0xffff_ffff);
                    lemma_dword_bytes(bytes@[0], bytes@[1], bytes@[2], bytes@[3]);
                    if bytes@.len() == 4 {
                        assert(bytes@ =~= seq![bytes@[0], bytes@[1], bytes@[2], bytes@[3]]);
                    }
                }
                string_of(&decimal_u64(v as u64))
            } else {
                base64_encode(bytes)
            }
        },
        RegKind::Qword => {
            if bytes.len() >= 8 {
                let v = (bytes[0] as u64) | ((bytes[1] as u64) << 8) | ((bytes[2] as u64) << 16) | ((
                bytes[3] as u64) << 24) | ((bytes[4] as u64) << 32) | ((bytes[5] as u64) << 40) | ((
                bytes[6] as u64) << 48) | ((bytes[7] as u64) << 56);
                proof {
                    lemma_parse_decimal(v as nat, 0xffff_ffff_ffff_ffff);
                    if bytes@.len() == 8 {
                        lemma_qword_bytes(bytes@);
                    }
                }
                string_of(&decimal_u64(v))
            } else {
                base64_encode(bytes)
            }
        },
        RegKind::Sz | RegKind::ExpandSz => {
            let units = units_of_le_bytes(bytes);
            let text = take_until_zero(&units);
            let r = from_utf16_lossy(&text);
            proof {
                if restorable(kind, bytes@) {
                    let t = choose|t: Seq<char>| no_nul(t) && bytes@ == #[trigger] sz_bytes(t);
                    lemma_sz_units(t);
                    lemma_utf16_decode(t);
                    assert(r@ == t);
                }
            }
            r
        },
        RegKind::MultiSz => {
            let units = units_of_le_bytes(bytes);
            let text = from_utf16_lossy(&units);
            let pieces = split_nul(&chars_of(text.as_str()));
            proof {
                if restorable(kind, bytes@) {
                    let v = choose|v: Seq<Seq<char>>|
                        multi_texts(v) && bytes@ == #[trigger] multi_sz_bytes_of(v);
                    let s = joined(v) + seq!['\0'];
                    lemma_joined_units(v);
                    lemma_utf16_concat(joined(v), seq!['\0']);
                    lemma_utf16_nul();
                    lemma_bytes_units_inverse(multi_units(v) + seq![0u16]);
                    assert(units@ == utf16_text(s));
                    lemma_utf16_decode(s);
                    assert(text@ == s);
                    lemma_pieces_joined(Seq::<char>::empty(), v);
                    assert(Seq::<char>::empty() + joined(v) + seq!['\0'] =~= s);
                    assert(strs(pieces@) == v);
                }
            }
            match strings_to_json(&pieces) {
                Some(t) => t,
                None => {
                    proof {
                        reveal_strlit("[]");
                        assert("[]"@ =~= seq!['[', ']']);
                    }
                    String::from_str("[]")
                },
            }
        },
        _ => base64_encode(bytes),
    }
}

fn append_units(units: &mut Vec<u16>, u: &Vec<u16>)
    ensures
        final(units)@ == old(units)@ + u@,
{
    let mut k: usize = 0;
    while k < u.len()
        invariant
            k <= u@.len(),
            units@ == old(units)@ + u@.subrange(0, k as int),
        decreases u.len() - k,
    {
        units.push(u[k]);
        k = k + 1;
    }
    assert(u@.subrange(0, u@.len() as int) =~= u@);
}

/// The UTF-16 units of strings, each string ended by a zero unit.
pub open spec fn multi_units(v: Seq<Seq<char>>) -> Seq<u16>
    decreases v.len(),
{
    if v.len() == 0 {
        Seq::empty()
    } else {
        multi_units(v.drop_last()) + utf16_text(v.last()) + seq![0u16]
    }
}

/// The bytes a snapshot text of `kind` stands for; `None` when the text is not
/// one (bad base64, a number out of range, a list that is not JSON).
pub open spec fn value_bytes(data: Seq<char>, kind: RegKind) -> Option<Seq<u8>> {
    match kind {
        RegKind::Dword => match parse_unsigned(data, 0xffff_ffff) {
            Some(v) => Some(u32_le(v as u32)),
            None => None,
        },
        RegKind::DwordBigEndian => match parse_unsigned(data, 0xffff_ffff) {
            Some(v) => Some(u32_be(v as u32)),
            None => None,
        },
        RegKind::Qword => match parse_unsigned(data, 0xffff_ffff_ffff_ffff) {
            Some(v) => Some(u64_le(v as u64)),
            None => None,
        },
        RegKind::Sz | RegKind::ExpandSz => Some(units_bytes(utf16_text(data) + seq![0u16])),
        RegKind::MultiSz => match json_strings_parsed(data) {
            Some(v) => Some(units_bytes(multi_units(v) + seq![0u16])),
            None => None,
        },
        _ => base64_value(data),
    }
}

/// The bytes of a registry value of `kind` from the text a snapshot keeps.
pub fn deserialize_registry_value(data: &str, kind: RegKind) -> (r: Option<Vec<u8>>)
    ensures
        match value_bytes(data@, kind) {
            Some(b) => r matches Some(v) && v@ == b,
            None => r is None,
        },
{
    match kind {
        RegKind::Dword => {
            let p = parse_unsigned_chars(&chars_of(data), 0xffff_ffff);
            match p {
                Some(v) => {
                    assert(v <= 0xffff_ffff);
                    Some(u32_le_bytes(v as u32))
                },
                None => None,
            }
        },
        RegKind::DwordBigEndian => {
            let p = parse_unsigned_chars(&chars_of(data), 0xffff_ffff);
            match p {
                Some(v) => {
                    assert(v <= 0xffff_ffff);
                    Some(u32_be_bytes(v as u32))
                },
                None => None,
            }
        },
        RegKind::Qword => match parse_unsigned_chars(&chars_of(data), 0xffff_ffff_ffff_ffff) {
            Some(v) => Some(u64_le_bytes(v)),
            None => None,
        },
        RegKind::Sz | RegKind::ExpandSz => {
            let mut units = encode_utf16(&chars_of(data));
            units.push(0);
            assert(units@ =~= utf16_text(data@) + seq![0u16]);
            Some(le_bytes_of_units(&units))
        },
        RegKind::MultiSz => multi_sz_bytes(data),
        _ => {
            let r = base64_decode(data);
            proof {
                if let Some(v) = &r {
                    lemma_base64_bytes(v@);
                    assert(base64_text(v@) == data@);
                }
            }
            r
        },
    }
}

#[verifier::loop_isolation(false)]
fn multi_sz_bytes(data: &str) -> (r: Option<Vec<u8>>)
    ensures
        match value_bytes(data@, RegKind::MultiSz) {
            Some(b) => r matches Some(v) && v@ == b,
            None => r is None,
        },
{
    match strings_from_json(data) {
            Some(strings) => {
                let mut units: Vec<u16> = Vec::new();
                let mut i: usize = 0;
                while i < strings.len()
                    invariant
                        i <= strings@.len(),
                        units@ == multi_units(strs(strings@).subrange(0, i as int)),
                    decreases strings.len() - i,
                {
                    let u = encode_utf16(&chars_of(strings[i].as_str()));
                    let ghost before = units@;
                    append_units(&mut units, &u);
                    let ghost mid = units@;
                    units.push(0);
                    proof {
                        assert(units@ =~= mid + seq![0u16]);
                        let sv = strs(strings@);
                        assert(sv.subrange(0, i + 1).drop_last() =~= sv.subrange(0, i as int));
                        assert(sv.subrange(0, i + 1).last() == strings@[i as int]@);
                        assert(u@.subrange(0, u@.len() as int) =~= u@);
                        assert(units@ =~= multi_units(sv.subrange(0, i + 1)));
                    }
                    i = i + 1;
                }
                proof {
                    assert(strs(strings@).subrange(0, strings@.len() as int) =~= strs(strings@));
                }
                let ghost pre = units@;
                units.push(0);
                assert(units@ =~= pre + seq![0u16]);
                Some(le_bytes_of_units(&units))
            },
            None => None,
    }
}

// ─── Snapshot records ─────────────────────────────────────────────────

/// The snapshot record of value `value_name` of key `key_path`, of `kind` with
/// `bytes`. Restoring the record writes the same kind and bytes back, for the kinds
/// a snapshot keeps by name and the bytes it reads back unchanged.
pub fn backup_record(key_path: &str, value_name: &str, kind: RegKind, bytes: &Vec<u8>) -> (r:
    RegistryValueBackup)
    ensures
        r.key_path@ == key_path@,
        r.value_name@ == value_name@,
        r.value_kind@ == kind_name_v(kind),
        r.data@ == value_text(kind, bytes@),
        named_kind(kind) && restorable(kind, bytes@) ==> record_value(r) == Some((kind, bytes@)),
{
    proof {
        if named_kind(kind) {
            lemma_kind_name_round_trip(kind);
        }
    }
    RegistryValueBackup {
        key_path: String::from_str(key_path),
        value_name: String::from_str(value_name),
        value_kind: String::from_str(kind_name(kind)),
        data: serialize_raw_value(kind, bytes),
    }
}

/// What restoring a snapshot record writes: the kind its `ValueKind` names and the
/// bytes its text stands for; `None` when the text stands for no bytes of that kind.
pub open spec fn record_value(r: RegistryValueBackup) -> Option<(RegKind, Seq<u8>)> {
    let kind = kind_of_name(r.value_kind@);
    match value_bytes(r.data@, kind) {
        Some(b) => Some((kind, b)),
        None => None,
    }
}

/// The kind and bytes to write back for a snapshot record.
pub fn restored_value(record: &RegistryValueBackup) -> (r: Option<(RegKind, Vec<u8>)>)
    ensures
        match record_value(*record) {
            Some((k, b)) => r matches Some((k2, v)) && k2 == k && v@ == b,
            None => r is None,
        },
{
    let kind = parse_value_kind(record.value_kind.as_str());
    match deserialize_registry_value(record.data.as_str(), kind) {
        Some(v) => Some((kind, v)),
        None => None,
    }
}


// ─── Which keys and values ────────────────────────────────────────────

/// The sign-in keys under `HKEY_CURRENT_USER`, each with the one value kept from it
/// (`None`: all its values).
pub fn registry_key_paths() -> (r: Vec<(&'static str, Option<&'static str>)>)
    ensures
        r@.len() == 4,
        r@[0].0@ == "Software\\Blizzard Entertainment\\Battle.net\\UnifiedAuth"@ && r@[0].1 is None,
        r@[1].0@ == "Software\\Blizzard Entertainment\\Battle.net\\Identity"@ && r@[1].1 is None,
        r@[2].0@ == "Software\\Blizzard Entertainment\\Battle.net\\EncryptionKey"@ && r@[2].1 is None,
        r@[3].0@ == "Software\\Blizzard Entertainment\\Battle.net\\Launch Options"@ && (r@[3].1 matches Some(
            f,
        ) && f@ == "URI_TOKEN"@),
{
    let mut r: Vec<(&'static str, Option<&'static str>)> = Vec::new();
    r.push(("Software\\Blizzard Entertainment\\Battle.net\\UnifiedAuth", None));
    r.push(("Software\\Blizzard Entertainment\\Battle.net\\Identity", None));
    r.push(("Software\\Blizzard Entertainment\\Battle.net\\EncryptionKey", None));
    r.push(("Software\\Blizzard Entertainment\\Battle.net\\Launch Options", Some("URI_TOKEN")));
    r
}

/// The value names kept from a key: all of them, or those equal to the filter
/// without regard to ASCII case, in order.
pub open spec fn selected_names(names: Seq<Seq<char>>, filter: Option<Seq<char>>) -> Seq<Seq<char>>
    decreases names.len(),
{
    if names.len() == 0 {
        Seq::empty()
    } else {
        let r = selected_names(names.drop_last(), filter);
        match filter {
            Some(f) => if eq_ignore_case(names.last(), f) {
                r.push(names.last())
            } else {
                r
            },
            None => r.push(names.last()),
        }
    }
}

/// The value names kept from a key with value-name filter `filter`.
pub fn select_value_names(names: &Vec<String>, filter: Option<&str>) -> (r: Vec<String>)
    ensures
        strs(r@) == selected_names(
            strs(names@),
            match filter {
                Some(f) => Some(f@),
                None => None,
            },
        ),
{
    let ghost nv = strs(names@);
    let ghost fv = match filter {
        Some(f) => Some(f@),
        None => None,
    };
    let mut out: Vec<String> = Vec::new();
    let mut i: usize = 0;
    while i < names.len()
        invariant
            i <= names@.len(),
            nv == strs(names@),
            fv == (match filter {
                Some(f) => Some(f@),
                None => None,
            }),
            strs(out@) == selected_names(nv.subrange(0, i as int), fv),
        decreases names.len() - i,
    {
        proof {
            assert(nv.subrange(0, i + 1).drop_last() =~= nv.subrange(0, i as int));
            assert(nv.subrange(0, i + 1).last() == names@[i as int]@);
        }
        let keep = match filter {
            Some(f) => chars_eq_ignore_case(&chars_of(names[i].as_str()), &chars_of(f)),
            None => true,
        };
        if keep {
            let ghost before = out@;
            out.push(names[i].clone());
            proof {
                assert(strs(out@) =~= strs(before).push(names@[i as int]@));
            }
        }
        i = i + 1;
    }
    assert(nv.subrange(0, nv.len() as int) =~= nv);
    out
}

// ─── Pruning backups ──────────────────────────────────────────────────

/// Backup `j` comes before backup `i` newest first: it was created later, or at the
/// same time and listed earlier (the order a stable sort by creation time, newest
/// first, gives).
pub open spec fn newer(times: Seq<i128>, j: int, i: int) -> bool {
    times[j] > times[i] || (times[j] == times[i] && j < i)
}

/// How many of the first `n` backups come before backup `i`.
pub open spec fn rank_upto(times: Seq<i128>, i: int, n: int) -> nat
    decreases n,
{
    if n <= 0 {
        0
    } else {
        rank_upto(times, i, n - 1) + if newer(times, n - 1, i) {
            1nat
        } else {
            0nat
        }
    }
}

/// The place of backup `i` newest first (0 for the newest).
pub open spec fn backup_rank(times: Seq<i128>, i: int) -> nat {
    rank_upto(times, i, times.len() as int)
}

/// Which backups are removed: all but the three newest. `created` gives each backup
/// directory's creation time.
pub fn backups_to_prune(created: &Vec<i128>) -> (r: Vec<bool>)
    ensures
        r@.len() == created@.len(),
        forall|i: int| 0 <= i < created@.len() ==> #[trigger] r@[i] == (backup_rank(created@, i) >= 3),
{
    let n = created.len();
    let mut r: Vec<bool> = Vec::new();
    let mut i: usize = 0;
    while i < n
        invariant
            n == created@.len(),
            i <= n,
            r@.len() == i,
            forall|k: int| 0 <= k < i ==> #[trigger] r@[k] == (backup_rank(created@, k) >= 3),
        decreases n - i,
    {
        let mut count: usize = 0;
        let mut j: usize = 0;
        while j < n
            invariant
                n == created@.len(),
                i < n,
                j <= n,
                count == rank_upto(created@, i as int, j as int),
                count <= j,
            decreases n - j,
        {
            if created[j] > created[i] || (created[j] == created[i] && j < i) {
                count = count + 1;
            }
            j = j + 1;
        }
        r.push(count >= 3);
        i = i + 1;
    }
    r
}

} // verus!
