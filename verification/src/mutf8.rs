//! The modified UTF-8 text codec used for every string field of the tag
//! format.
//!
//! The encoding works on the UTF-16 code units of a text: NUL is written as
//! the two bytes `0xC0 0x80`, other units below `0x80` as one byte, units
//! below `0x800` as two bytes and the rest as three bytes.  A character
//! outside the basic multilingual plane is written as its surrogate pair,
//! two adjacent three-byte groups.  Decoding first recovers the code-unit
//! sequence and then combines surrogate pairs, so that the result does not
//! depend on how the pair was produced.

use vstd::prelude::*;
use vstd::string::StrSliceExecFns;
use vstd::utf8::{char_is_scalar, char_u32_cast};

verus! {

/// Error returned when modified UTF-8 decoding fails.
#[derive(Debug, Clone)]
pub struct Mutf8Error(pub String);

// ---------------------------------------------------------------------------
// The UTF-16 view of a text
// ---------------------------------------------------------------------------

/// The UTF-16 code units of one character: one unit below `0x10000`,
/// otherwise a high/low surrogate pair.
pub open spec fn char_utf16(c: char) -> Seq<u16> {
    let v = c as u32;
    if v < 0x10000 {
        seq![v as u16]
    } else {
        seq![
            (0xD800 + (v - 0x10000) / 0x400) as u16,
            (0xDC00 + (v - 0x10000) % 0x400) as u16,
        ]
    }
}

/// The UTF-16 code units of a text, character by character.
pub open spec fn utf16_seq(s: Seq<char>) -> Seq<u16>
    decreases s.len(),
{
    if s.len() == 0 {
        Seq::empty()
    } else {
        char_utf16(s[0]) + utf16_seq(s.drop_first())
    }
}

// ---------------------------------------------------------------------------
// Code units to bytes
// ---------------------------------------------------------------------------

/// The modified-UTF-8 bytes of one UTF-16 code unit.
pub open spec fn unit_mutf8(u: u16) -> Seq<u8> {
    if u == 0 {
        seq![0xC0u8, 0x80u8]
    } else if u < 0x80 {
        seq![u as u8]
    } else if u < 0x800 {
        seq![(0xC0 + u / 0x40) as u8, (0x80 + u % 0x40) as u8]
    } else {
        seq![
            (0xE0 + u / 0x1000) as u8,
            (0x80 + (u / 0x40) % 0x40) as u8,
            (0x80 + u % 0x40) as u8,
        ]
    }
}

/// The modified-UTF-8 bytes of a code-unit sequence.
pub open spec fn encode_units(us: Seq<u16>) -> Seq<u8>
    decreases us.len(),
{
    if us.len() == 0 {
        Seq::empty()
    } else {
        unit_mutf8(us[0]) + encode_units(us.drop_first())
    }
}

/// What `encode_mutf8` produces for a text.
pub open spec fn mutf8_encode(s: Seq<char>) -> Seq<u8> {
    encode_units(utf16_seq(s))
}

// ---------------------------------------------------------------------------
// Concatenation lemmas
// ---------------------------------------------------------------------------

pub proof fn lemma_encode_units_concat(a: Seq<u16>, b: Seq<u16>)
    ensures
        encode_units(a + b) == encode_units(a) + encode_units(b),
    decreases a.len(),
{
    if a.len() == 0 {
        assert(a + b =~= b);
        assert(encode_units(a) + encode_units(b) =~= encode_units(b));
    } else {
        assert((a + b).drop_first() =~= a.drop_first() + b);
        lemma_encode_units_concat(a.drop_first(), b);
        assert(encode_units(a + b) =~= encode_units(a) + encode_units(b));
    }
}

pub proof fn lemma_utf16_seq_concat(a: Seq<char>, b: Seq<char>)
    ensures
        utf16_seq(a + b) == utf16_seq(a) + utf16_seq(b),
    decreases a.len(),
{
    if a.len() == 0 {
        assert(a + b =~= b);
        assert(utf16_seq(a) + utf16_seq(b) =~= utf16_seq(b));
    } else {
        assert((a + b).drop_first() =~= a.drop_first() + b);
        lemma_utf16_seq_concat(a.drop_first(), b);
        assert(utf16_seq(a + b) =~= utf16_seq(a) + utf16_seq(b));
    }
}

pub proof fn lemma_utf16_seq_singleton(c: char)
    ensures
        utf16_seq(seq![c]) == char_utf16(c),
{
    assert(seq![c].drop_first() =~= Seq::<char>::empty());
    assert(utf16_seq(Seq::<char>::empty()) =~= Seq::<u16>::empty());
    assert(utf16_seq(seq![c]) =~= char_utf16(c) + utf16_seq(Seq::<char>::empty()));
    assert(char_utf16(c) + Seq::<u16>::empty() =~= char_utf16(c));
}

pub proof fn lemma_encode_units_singleton(u: u16)
    ensures
        encode_units(seq![u]) == unit_mutf8(u),
{
    assert(seq![u].drop_first() =~= Seq::<u16>::empty());
    assert(encode_units(Seq::<u16>::empty()) =~= Seq::<u8>::empty());
    assert(encode_units(seq![u]) =~= unit_mutf8(u) + encode_units(Seq::<u16>::empty()));
    assert(unit_mutf8(u) + Seq::<u8>::empty() =~= unit_mutf8(u));
}

pub proof fn lemma_encode_units_pair(a: u16, b: u16)
    ensures
        encode_units(seq![a, b]) == unit_mutf8(a) + unit_mutf8(b),
{
    assert(seq![a, b] =~= seq![a] + seq![b]);
    lemma_encode_units_concat(seq![a], seq![b]);
    lemma_encode_units_singleton(a);
    lemma_encode_units_singleton(b);
}

/// Growing a text by one character appends that character's bytes.
pub proof fn lemma_mutf8_encode_snoc(s: Seq<char>, i: int)
    requires
        0 <= i < s.len(),
    ensures
        mutf8_encode(s.take(i + 1)) == mutf8_encode(s.take(i)) + encode_units(
            char_utf16(s[i]),
        ),
{
    assert(s.take(i + 1) =~= s.take(i) + seq![s[i]]);
    lemma_utf16_seq_concat(s.take(i), seq![s[i]]);
    lemma_utf16_seq_singleton(s[i]);
    lemma_encode_units_concat(utf16_seq(s.take(i)), char_utf16(s[i]));
}

// ---------------------------------------------------------------------------
// Bytes back to code units
// ---------------------------------------------------------------------------

pub open spec fn is_continuation(b: u8) -> bool {
    0x80 <= b <= 0xBF
}

/// Byte-level decoding: each one-, two- or three-byte group yields one
/// UTF-16 code unit.  `None` on a truncated group, a bad continuation byte
/// or a lead byte outside the three forms.
pub open spec fn decode_units(b: Seq<u8>) -> Option<Seq<u16>>
    decreases b.len(),
{
    if b.len() == 0 {
        Some(Seq::empty())
    } else if b[0] < 0x80 {
        match decode_units(b.skip(1)) {
            Some(t) => Some(seq![b[0] as u16] + t),
            None => None,
        }
    } else if 0xC0 <= b[0] <= 0xDF {
        if b.len() >= 2 && is_continuation(b[1]) {
            match decode_units(b.skip(2)) {
                Some(t) => Some(seq![((b[0] - 0xC0) * 0x40 + (b[1] - 0x80)) as u16] + t),
                None => None,
            }
        } else {
            None
        }
    } else if 0xE0 <= b[0] <= 0xEF {
        if b.len() >= 3 && is_continuation(b[1]) && is_continuation(b[2]) {
            match decode_units(b.skip(3)) {
                Some(t) => Some(
                    seq![((b[0] - 0xE0) * 0x1000 + (b[1] - 0x80) * 0x40 + (b[2] - 0x80)) as u16]
                        + t,
                ),
                None => None,
            }
        } else {
            None
        }
    } else {
        None
    }
}

pub open spec fn is_high_surrogate(u: u16) -> bool {
    0xD800 <= u <= 0xDBFF
}

pub open spec fn is_low_surrogate(u: u16) -> bool {
    0xDC00 <= u <= 0xDFFF
}

/// Code units to characters: a high/low surrogate pair becomes one
/// supplementary character; an unpaired surrogate is an error.
pub open spec fn units_to_chars(us: Seq<u16>) -> Option<Seq<char>>
    decreases us.len(),
{
    if us.len() == 0 {
        Some(Seq::empty())
    } else if is_high_surrogate(us[0]) {
        if us.len() >= 2 && is_low_surrogate(us[1]) {
            match units_to_chars(us.skip(2)) {
                Some(t) => Some(
                    seq![(0x10000 + (us[0] - 0xD800) * 0x400 + (us[1] - 0xDC00)) as char] + t,
                ),
                None => None,
            }
        } else {
            None
        }
    } else if is_low_surrogate(us[0]) {
        None
    } else {
        match units_to_chars(us.skip(1)) {
            Some(t) => Some(seq![us[0] as char] + t),
            None => None,
        }
    }
}

/// What `decode_mutf8` yields for a byte sequence, `None` meaning failure.
pub open spec fn mutf8_decode(b: Seq<u8>) -> Option<Seq<char>> {
    match decode_units(b) {
        Some(us) => units_to_chars(us),
        None => None,
    }
}

/// A byte sequence in the exact shape the encoder produces: every group is
/// the shortest form for its code unit, NUL always two bytes.
pub open spec fn canonical_mutf8(b: Seq<u8>) -> bool
    decreases b.len(),
{
    if b.len() == 0 {
        true
    } else if 1 <= b[0] <= 0x7F {
        canonical_mutf8(b.skip(1))
    } else if 0xC0 <= b[0] <= 0xDF {
        &&& b.len() >= 2
        &&& is_continuation(b[1])
        &&& {
            let u = (b[0] - 0xC0) * 0x40 + (b[1] - 0x80);
            (u == 0 || 0x80 <= u < 0x800) && canonical_mutf8(b.skip(2))
        }
    } else if 0xE0 <= b[0] <= 0xEF {
        &&& b.len() >= 3
        &&& is_continuation(b[1])
        &&& is_continuation(b[2])
        &&& {
            let u = (b[0] - 0xE0) * 0x1000 + (b[1] - 0x80) * 0x40 + (b[2] - 0x80);
            u >= 0x800 && canonical_mutf8(b.skip(3))
        }
    } else {
        false
    }
}

// ---------------------------------------------------------------------------
// Round-trip lemmas
// ---------------------------------------------------------------------------

/// The three-byte split of a code unit puts every piece in its range and
/// reassembles to the unit.
proof fn lemma_unit_split3(u: u16)
    requires
        u >= 0x800,
    ensures
        0 <= u / 0x1000 <= 0xF,
        0 <= (u / 0x40) % 0x40 < 0x40,
        0 <= u % 0x40 < 0x40,
        (u / 0x1000) * 0x1000 + ((u / 0x40) % 0x40) * 0x40 + (u % 0x40) == u,
{
    vstd::arithmetic::div_mod::lemma_fundamental_div_mod(u as int, 0x1000);
    vstd::arithmetic::div_mod::lemma_mod_division_less_than_divisor(u as int, 0x1000);
    vstd::arithmetic::div_mod::lemma_mod_division_less_than_divisor(u as int, 0x40);
    vstd::arithmetic::div_mod::lemma_mod_division_less_than_divisor((u / 0x40) as int, 0x40);
    vstd::arithmetic::div_mod::lemma_breakdown(u as int, 0x40, 0x40);
}

/// The two-byte split of a code unit below `0x800`.
proof fn lemma_unit_split2(u: u16)
    requires
        u < 0x800,
    ensures
        0 <= u / 0x40 <= 0x1F,
        0 <= u % 0x40 < 0x40,
        (u / 0x40) * 0x40 + (u % 0x40) == u,
        u >= 0x80 ==> u / 0x40 >= 2,
{
    vstd::arithmetic::div_mod::lemma_fundamental_div_mod(u as int, 0x40);
    vstd::arithmetic::div_mod::lemma_mod_division_less_than_divisor(u as int, 0x40);
}

/// Reassembling from given digits recovers the digits (two-byte case).
proof fn lemma_unit_join2(hi: int, lo: int)
    requires
        0 <= hi < 0x20,
        0 <= lo < 0x40,
    ensures
        (hi * 0x40 + lo) / 0x40 == hi,
        (hi * 0x40 + lo) % 0x40 == lo,
{
    vstd::arithmetic::div_mod::lemma_fundamental_div_mod_converse(hi * 0x40 + lo, 0x40, hi, lo);
}

/// Reassembling a surrogate pair's offset recovers its two halves.
proof fn lemma_pair_join(hi: int, lo: int)
    requires
        0 <= hi < 0x400,
        0 <= lo < 0x400,
    ensures
        (hi * 0x400 + lo) / 0x400 == hi,
        (hi * 0x400 + lo) % 0x400 == lo,
{
    vstd::arithmetic::div_mod::lemma_fundamental_div_mod_converse(hi * 0x400 + lo, 0x400, hi, lo);
}

/// Reassembling from given digits recovers the digits (three-byte case).
proof fn lemma_unit_join3(a: int, b: int, c: int)
    requires
        0 <= a < 0x10,
        0 <= b < 0x40,
        0 <= c < 0x40,
    ensures
        (a * 0x1000 + b * 0x40 + c) / 0x1000 == a,
        ((a * 0x1000 + b * 0x40 + c) / 0x40) % 0x40 == b,
        (a * 0x1000 + b * 0x40 + c) % 0x40 == c,
{
    let u = a * 0x1000 + b * 0x40 + c;
    vstd::arithmetic::div_mod::lemma_fundamental_div_mod_converse(u, 0x1000, a, b * 0x40 + c);
    vstd::arithmetic::div_mod::lemma_fundamental_div_mod_converse(u, 0x40, a * 0x40 + b, c);
    vstd::arithmetic::div_mod::lemma_fundamental_div_mod_converse(a * 0x40 + b, 0x40, a, b);
}

/// Decoding inverts encoding at the code-unit level.
pub proof fn lemma_decode_encode_units(us: Seq<u16>)
    ensures
        decode_units(encode_units(us)) == Some(us),
    decreases us.len(),
{
    if us.len() == 0 {
    } else {
        let u = us[0];
        let bs = unit_mutf8(u);
        let rest = encode_units(us.drop_first());
        let all = bs + rest;
        assert(encode_units(us) == all);
        lemma_decode_encode_units(us.drop_first());
        if u == 0 {
            assert(all[0] == 0xC0 && all[1] == 0x80);
            assert(all.skip(2) =~= rest);
            assert(seq![0u16] + us.drop_first() =~= us);
        } else if u < 0x80 {
            assert(all[0] == u as u8);
            assert(all.skip(1) =~= rest);
            assert(seq![u] + us.drop_first() =~= us);
        } else if u < 0x800 {
            lemma_unit_split2(u);
            assert(all[0] == (0xC0 + u / 0x40) as u8);
            assert(all[1] == (0x80 + u % 0x40) as u8);
            assert(0xC0 <= all[0] <= 0xDF);
            assert(is_continuation(all[1]));
            assert((all[0] - 0xC0) * 0x40 + (all[1] - 0x80) == u);
            assert(all.skip(2) =~= rest);
            assert(seq![u] + us.drop_first() =~= us);
        } else {
            lemma_unit_split3(u);
            assert(all[0] == (0xE0 + u / 0x1000) as u8);
            assert(all[1] == (0x80 + (u / 0x40) % 0x40) as u8);
            assert(all[2] == (0x80 + u % 0x40) as u8);
            assert(0xE0 <= all[0] <= 0xEF);
            assert(is_continuation(all[1]) && is_continuation(all[2]));
            assert((all[0] - 0xE0) * 0x1000 + (all[1] - 0x80) * 0x40 + (all[2] - 0x80) == u);
            assert(all.skip(3) =~= rest);
            assert(seq![u] + us.drop_first() =~= us);
        }
    }
}

/// The encoder only emits canonical byte groups.
pub proof fn lemma_encode_units_canonical(us: Seq<u16>)
    ensures
        canonical_mutf8(encode_units(us)),
    decreases us.len(),
{
    if us.len() == 0 {
    } else {
        let u = us[0];
        let bs = unit_mutf8(u);
        let rest = encode_units(us.drop_first());
        let all = bs + rest;
        lemma_encode_units_canonical(us.drop_first());
        if u == 0 {
            assert(all[0] == 0xC0 && all[1] == 0x80);
            assert(all.skip(2) =~= rest);
        } else if u < 0x80 {
            assert(all[0] == u as u8);
            assert(all.skip(1) =~= rest);
        } else if u < 0x800 {
            lemma_unit_split2(u);
            assert(all[0] == (0xC0 + u / 0x40) as u8);
            assert(all[1] == (0x80 + u % 0x40) as u8);
            assert((all[0] - 0xC0) * 0x40 + (all[1] - 0x80) == u);
            assert(all.skip(2) =~= rest);
        } else {
            lemma_unit_split3(u);
            assert(all[0] == (0xE0 + u / 0x1000) as u8);
            assert(all[1] == (0x80 + (u / 0x40) % 0x40) as u8);
            assert(all[2] == (0x80 + u % 0x40) as u8);
            assert((all[0] - 0xE0) * 0x1000 + (all[1] - 0x80) * 0x40 + (all[2] - 0x80) == u);
            assert(all.skip(3) =~= rest);
        }
    }
}

/// Pairing inverts the UTF-16 split of a text.
pub proof fn lemma_units_chars_encode(s: Seq<char>)
    ensures
        units_to_chars(utf16_seq(s)) == Some(s),
    decreases s.len(),
{
    if s.len() == 0 {
    } else {
        let c = s[0];
        let v = c as u32;
        char_is_scalar(c);
        char_u32_cast(c, v);
        let cu = char_utf16(c);
        let rest = utf16_seq(s.drop_first());
        let us = cu + rest;
        assert(utf16_seq(s) == us);
        lemma_units_chars_encode(s.drop_first());
        if v < 0x10000 {
            assert(us[0] == v as u16);
            assert(!(0xD800 <= v <= 0xDFFF));
            assert(us[0] as u32 == v);
            assert(!is_high_surrogate(us[0]) && !is_low_surrogate(us[0]));
            assert(us[0] as char == c);
            assert(us.skip(1) =~= rest);
            assert(seq![c] + s.drop_first() =~= s);
        } else {
            assert(v <= 0x10FFFF);
            vstd::arithmetic::div_mod::lemma_fundamental_div_mod(v as int - 0x10000, 0x400);
            vstd::arithmetic::div_mod::lemma_mod_division_less_than_divisor(v as int - 0x10000, 0x400);
            let hi = (0xD800 + (v - 0x10000) / 0x400) as u16;
            let lo = (0xDC00 + (v - 0x10000) % 0x400) as u16;
            assert(us[0] == hi && us[1] == lo);
            assert(is_high_surrogate(hi));
            assert(is_low_surrogate(lo));
            let cp = 0x10000 + (hi - 0xD800) * 0x400 + (lo - 0xDC00);
            assert(cp == v);
            assert(cp as char == c);
            assert(us.skip(2) =~= rest);
            assert(seq![c] + s.drop_first() =~= s);
        }
    }
}

/// Decoding a text's own encoding gives the text back.
pub proof fn lemma_mutf8_decode_encode(s: Seq<char>)
    ensures
        mutf8_decode(mutf8_encode(s)) == Some(s),
{
    lemma_decode_encode_units(utf16_seq(s));
    lemma_units_chars_encode(s);
}

/// The encoder only ever produces canonical byte sequences, so the
/// encode-after-decode law below covers everything it emits.
pub proof fn lemma_mutf8_encode_canonical(s: Seq<char>)
    ensures
        canonical_mutf8(mutf8_encode(s)),
{
    lemma_encode_units_canonical(utf16_seq(s));
}

/// A successful pairing determines the code units of its text.
pub proof fn lemma_chars_units(us: Seq<u16>, s: Seq<char>)
    requires
        units_to_chars(us) == Some(s),
    ensures
        utf16_seq(s) == us,
    decreases us.len(),
{
    if us.len() == 0 {
        assert(utf16_seq(s) =~= us);
    } else if is_high_surrogate(us[0]) {
        let t = units_to_chars(us.skip(2))->Some_0;
        lemma_chars_units(us.skip(2), t);
        let cp = 0x10000 + (us[0] - 0xD800) * 0x400 + (us[1] - 0xDC00);
        let c = cp as char;
        assert(s == seq![c] + t);
        assert(c as int == cp);
        assert(c as u32 == cp);
        lemma_pair_join(us[0] - 0xD800, us[1] - 0xDC00);
        assert((cp - 0x10000) / 0x400 == us[0] - 0xD800);
        assert((cp - 0x10000) % 0x400 == us[1] - 0xDC00);
        assert(char_utf16(c) =~= seq![us[0], us[1]]);
        lemma_utf16_seq_concat(seq![c], t);
        lemma_utf16_seq_singleton(c);
        assert(utf16_seq(s) =~= us);
    } else {
        let t = units_to_chars(us.skip(1))->Some_0;
        lemma_chars_units(us.skip(1), t);
        let c = us[0] as char;
        assert(s == seq![c] + t);
        assert(c as int == us[0] as int);
        assert(c as u32 == us[0] as u32);
        assert(char_utf16(c) =~= seq![us[0]]);
        lemma_utf16_seq_concat(seq![c], t);
        lemma_utf16_seq_singleton(c);
        assert(utf16_seq(s) =~= us);
    }
}

/// Canonical bytes decode at the unit level, and re-encoding gives them back.
pub proof fn lemma_canonical_decode(b: Seq<u8>)
    requires
        canonical_mutf8(b),
    ensures
        decode_units(b) is Some,
        encode_units(decode_units(b)->Some_0) == b,
    decreases b.len(),
{
    if b.len() == 0 {
        assert(encode_units(Seq::<u16>::empty()) =~= b);
    } else if 1 <= b[0] <= 0x7F {
        lemma_canonical_decode(b.skip(1));
        let t = decode_units(b.skip(1))->Some_0;
        let u = b[0] as u16;
        assert(decode_units(b) == Some(seq![u] + t));
        lemma_encode_units_concat(seq![u], t);
        lemma_encode_units_singleton(u);
        assert(unit_mutf8(u) =~= seq![b[0]]);
        assert(encode_units(seq![u] + t) =~= b) by {
            assert(seq![b[0]] + b.skip(1) =~= b);
        }
    } else if 0xC0 <= b[0] <= 0xDF {
        lemma_canonical_decode(b.skip(2));
        let t = decode_units(b.skip(2))->Some_0;
        let uv = (b[0] - 0xC0) * 0x40 + (b[1] - 0x80);
        let u = uv as u16;
        assert(decode_units(b) == Some(seq![u] + t));
        lemma_unit_join2(b[0] - 0xC0, b[1] - 0x80);
        assert(uv / 0x40 == b[0] - 0xC0 && uv % 0x40 == b[1] - 0x80);
        assert(unit_mutf8(u) =~= seq![b[0], b[1]]);
        lemma_encode_units_concat(seq![u], t);
        lemma_encode_units_singleton(u);
        assert(encode_units(seq![u] + t) =~= b) by {
            assert(seq![b[0], b[1]] + b.skip(2) =~= b);
        }
    } else {
        lemma_canonical_decode(b.skip(3));
        let t = decode_units(b.skip(3))->Some_0;
        let uv = (b[0] - 0xE0) * 0x1000 + (b[1] - 0x80) * 0x40 + (b[2] - 0x80);
        let u = uv as u16;
        assert(decode_units(b) == Some(seq![u] + t));
        lemma_unit_join3(b[0] - 0xE0, b[1] - 0x80, b[2] - 0x80);
        assert(unit_mutf8(u) =~= seq![b[0], b[1], b[2]]);
        lemma_encode_units_concat(seq![u], t);
        lemma_encode_units_singleton(u);
        assert(encode_units(seq![u] + t) =~= b) by {
            assert(seq![b[0], b[1], b[2]] + b.skip(3) =~= b);
        }
    }
}

/// Re-encoding a decoded text gives the original bytes back, for every
/// byte sequence in the encoder's own (canonical) shape.
pub proof fn lemma_mutf8_encode_decode(b: Seq<u8>, s: Seq<char>)
    requires
        canonical_mutf8(b),
        mutf8_decode(b) == Some(s),
    ensures
        mutf8_encode(s) == b,
{
    lemma_canonical_decode(b);
    let us = decode_units(b)->Some_0;
    lemma_chars_units(us, s);
}

// ---------------------------------------------------------------------------
// Executable encoder
// ---------------------------------------------------------------------------

/// Appends the modified-UTF-8 bytes of one UTF-16 code unit.
fn push_unit(out: &mut Vec<u8>, u: u16)
    ensures
        final(out)@ == old(out)@ + unit_mutf8(u),
{
    if u == 0 {
        out.push(0xC0);
        out.push(0x80);
    } else if u < 0x80 {
        out.push(u as u8);
    } else if u < 0x800 {
        out.push(0xC0 + (u / 0x40) as u8);
        out.push(0x80 + (u % 0x40) as u8);
    } else {
        out.push(0xE0 + (u / 0x1000) as u8);
        out.push(0x80 + ((u / 0x40) % 0x40) as u8);
        out.push(0x80 + (u % 0x40) as u8);
    }
    assert(final(out)@ =~= old(out)@ + unit_mutf8(u));
}

// ---------------------------------------------------------------------------
// Executable decoder
// ---------------------------------------------------------------------------

/// Relies on char::from_u32: `Some` exactly on Unicode scalar values
/// (below 0xD800, or 0xE000 up to 0x10FFFF), returning the character with
/// that value.
#[verifier::external_body]
fn char_from_u32(v: u32) -> (r: Option<char>)
    ensures
        (r matches Some(c) ==> c as u32 == v),
        r is Some <==> (v < 0xD800 || (0xE000 <= v && v < 0x110000)),
{
    char::from_u32(v)
}

/// Relies on String::push: appends one character to the string.
#[verifier::external_body]
fn push_char(s: &mut String, c: char)
    ensures
        final(s)@ == old(s)@.push(c),
{
    s.push(c);
}

/// Decodes modified UTF-8 into text, first recovering the UTF-16 code
/// units, then combining surrogate pairs.  Fails exactly where the byte
/// sequence is no modified UTF-8.
pub fn decode_mutf8(data: &[u8]) -> (r: Result<String, Mutf8Error>)
    ensures
        (r matches Ok(s) ==> mutf8_decode(data@) == Some(s@)),
        r is Err ==> mutf8_decode(data@) is None,
{
    let ghost whole = data@;
    let n = data.len();
    let mut units: Vec<u16> = Vec::new();
    let mut i: usize = 0;
    proof {
        assert(whole.skip(0) =~= whole);
        match decode_units(whole) {
            Some(t) => { assert(Seq::<u16>::empty() + t =~= t); },
            None => {},
        }
    }
    while i < n
        invariant
            n == whole.len(),
            whole == data@,
            i <= n,
            (match decode_units(whole.skip(i as int)) {
                Some(t) => decode_units(whole) == Some(units@ + t),
                None => decode_units(whole) is None,
            }),
        decreases n - i,
    {
        let ghost pre = whole.skip(i as int);
        let b0 = *vstd::slice::slice_index_get(data, i);
        assert(pre[0] == b0);
        if b0 < 0x80 {
            units.push(b0 as u16);
            i += 1;
            proof {
                assert(pre.skip(1) =~= whole.skip(i as int));
                match decode_units(whole.skip(i as int)) {
                    Some(t) => { assert(units@ + t =~= units@.drop_last() + (seq![b0 as u16] + t)); },
                    None => {},
                }
            }
        } else if 0xC0 <= b0 && b0 <= 0xDF {
            if n - i < 2 {
                return Err(Mutf8Error(String::from_str("unexpected end of 2-byte group")));
            }
            let b1 = *vstd::slice::slice_index_get(data, i + 1);
            assert(pre[1] == b1);
            if !(0x80 <= b1 && b1 <= 0xBF) {
                return Err(Mutf8Error(String::from_str("bad continuation in 2-byte group")));
            }
            let u: u16 = ((b0 - 0xC0) as u16) * 0x40 + ((b1 - 0x80) as u16);
            units.push(u);
            i += 2;
            proof {
                assert(pre.skip(2) =~= whole.skip(i as int));
                match decode_units(whole.skip(i as int)) {
                    Some(t) => { assert(units@ + t =~= units@.drop_last() + (seq![u] + t)); },
                    None => {},
                }
            }
        } else if 0xE0 <= b0 && b0 <= 0xEF {
            if n - i < 3 {
                return Err(Mutf8Error(String::from_str("unexpected end of 3-byte group")));
            }
            let b1 = *vstd::slice::slice_index_get(data, i + 1);
            let b2 = *vstd::slice::slice_index_get(data, i + 2);
            assert(pre[1] == b1 && pre[2] == b2);
            if !(0x80 <= b1 && b1 <= 0xBF) || !(0x80 <= b2 && b2 <= 0xBF) {
                return Err(Mutf8Error(String::from_str("bad continuation in 3-byte group")));
            }
            let u: u16 = ((b0 - 0xE0) as u16) * 0x1000 + ((b1 - 0x80) as u16) * 0x40 + ((b2
                - 0x80) as u16);
            units.push(u);
            i += 3;
            proof {
                assert(pre.skip(3) =~= whole.skip(i as int));
                match decode_units(whole.skip(i as int)) {
                    Some(t) => { assert(units@ + t =~= units@.drop_last() + (seq![u] + t)); },
                    None => {},
                }
            }
        } else {
            return Err(Mutf8Error(String::from_str("invalid lead byte")));
        }
    }
    proof {
        assert(whole.skip(n as int) =~= Seq::<u8>::empty());
        assert(units@ + Seq::<u16>::empty() =~= units@);
        assert(decode_units(whole) == Some(units@));
    }
    let m = units.len();
    let mut out = String::new();
    let mut j: usize = 0;
    proof {
        assert(units@.skip(0) =~= units@);
        match units_to_chars(units@) {
            Some(t) => { assert(Seq::<char>::empty() + t =~= t); },
            None => {},
        }
    }
    while j < m
        invariant
            m == units@.len(),
            whole == data@,
            decode_units(whole) == Some(units@),
            j <= m,
            (match units_to_chars(units@.skip(j as int)) {
                Some(t) => units_to_chars(units@) == Some(out@ + t),
                None => units_to_chars(units@) is None,
            }),
        decreases m - j,
    {
        let ghost pre = units@.skip(j as int);
        let u0 = units[j];
        assert(pre[0] == u0);
        if 0xD800 <= u0 && u0 <= 0xDBFF {
            if m - j < 2 {
                return Err(Mutf8Error(String::from_str("unpaired high surrogate")));
            }
            let u1 = units[j + 1];
            assert(pre[1] == u1);
            if !(0xDC00 <= u1 && u1 <= 0xDFFF) {
                return Err(Mutf8Error(String::from_str("unpaired high surrogate")));
            }
            let cp: u32 = 0x10000 + ((u0 - 0xD800) as u32) * 0x400 + ((u1 - 0xDC00) as u32);
            let c = match char_from_u32(cp) {
                Some(c) => c,
                None => {
                    return Err(Mutf8Error(String::from_str("invalid character")));
                },
            };
            proof {
                char_u32_cast(c, cp);
            }
            push_char(&mut out, c);
            j += 2;
            proof {
                assert(pre.skip(2) =~= units@.skip(j as int));
                match units_to_chars(units@.skip(j as int)) {
                    Some(t) => { assert(out@ + t =~= out@.drop_last() + (seq![cp as char] + t)); },
                    None => {},
                }
            }
        } else if 0xDC00 <= u0 && u0 <= 0xDFFF {
            return Err(Mutf8Error(String::from_str("unpaired low surrogate")));
        } else {
            let c = match char_from_u32(u0 as u32) {
                Some(c) => c,
                None => {
                    return Err(Mutf8Error(String::from_str("invalid character")));
                },
            };
            proof {
                char_u32_cast(c, u0 as u32);
                assert(u0 as char == c);
            }
            push_char(&mut out, c);
            j += 1;
            proof {
                assert(pre.skip(1) =~= units@.skip(j as int));
                match units_to_chars(units@.skip(j as int)) {
                    Some(t) => { assert(out@ + t =~= out@.drop_last() + (seq![u0 as char] + t)); },
                    None => {},
                }
            }
        }
    }
    proof {
        assert(units@.skip(m as int) =~= Seq::<u16>::empty());
        assert(out@ + Seq::<char>::empty() =~= out@);
    }
    Ok(out)
}

/// Encodes a text into modified UTF-8.  Never fails.
pub fn encode_mutf8(s: &str) -> (r: Vec<u8>)
    ensures
        r@ == mutf8_encode(s@),
{
    let n = s.unicode_len();
    let mut out: Vec<u8> = Vec::new();
    let mut i: usize = 0;
    while i < n
        invariant
            n == s@.len(),
            i <= n,
            out@ == mutf8_encode(s@.take(i as int)),
        decreases n - i,
    {
        let c = s.get_char(i);
        proof {
            char_is_scalar(c);
        }
        let v = c as u32;
        if v < 0x10000 {
            assert(char_utf16(s@[i as int]) =~= seq![v as u16]);
            push_unit(&mut out, v as u16);
            proof {
                lemma_encode_units_singleton(v as u16);
            }
        } else {
            let hi: u16 = 0xD800 + ((v - 0x10000) / 0x400) as u16;
            let lo: u16 = 0xDC00 + ((v - 0x10000) % 0x400) as u16;
            assert(char_utf16(s@[i as int]) =~= seq![hi, lo]);
            push_unit(&mut out, hi);
            push_unit(&mut out, lo);
            proof {
                lemma_encode_units_pair(hi, lo);
            }
        }
        proof {
            lemma_mutf8_encode_snoc(s@, i as int);
        }
        i += 1;
    }
    proof {
        assert(s@.take(n as int) =~= s@);
    }
    out
}

} // verus!
