//! Big-endian integer fields of the wire format, and the two's-complement
//! correspondence between signed values and their unsigned wire form.

use vstd::arithmetic::div_mod::{
    lemma_div_denominator, lemma_fundamental_div_mod, lemma_fundamental_div_mod_converse,
    lemma_mod_division_less_than_divisor,
};
use vstd::prelude::*;

verus! {

// ---------------------------------------------------------------------------
// Unsigned fields
// ---------------------------------------------------------------------------

/// The value of two big-endian bytes.
pub open spec fn val16(b0: u8, b1: u8) -> u16 {
    (b0 * 0x100 + b1) as u16
}

/// The value of four big-endian bytes.
pub open spec fn val32(b0: u8, b1: u8, b2: u8, b3: u8) -> u32 {
    (b0 * 0x1000000 + b1 * 0x10000 + b2 * 0x100 + b3) as u32
}

/// The value of eight big-endian bytes.
pub open spec fn val64(b: Seq<u8>) -> u64
    recommends
        b.len() == 8,
{
    (b[0] * 0x100000000000000 + b[1] * 0x1000000000000 + b[2] * 0x10000000000 + b[3] * 0x100000000
        + b[4] * 0x1000000 + b[5] * 0x10000 + b[6] * 0x100 + b[7]) as u64
}

/// The two big-endian bytes of a 16-bit value.
pub open spec fn be16(v: u16) -> Seq<u8> {
    seq![(v / 0x100) as u8, (v % 0x100) as u8]
}

/// The four big-endian bytes of a 32-bit value.
pub open spec fn be32(v: u32) -> Seq<u8> {
    seq![
        (v / 0x1000000) as u8,
        ((v / 0x10000) % 0x100) as u8,
        ((v / 0x100) % 0x100) as u8,
        (v % 0x100) as u8,
    ]
}

/// The eight big-endian bytes of a 64-bit value.
pub open spec fn be64(v: u64) -> Seq<u8> {
    seq![
        (v / 0x100000000000000) as u8,
        ((v / 0x1000000000000) % 0x100) as u8,
        ((v / 0x10000000000) % 0x100) as u8,
        ((v / 0x100000000) % 0x100) as u8,
        ((v / 0x1000000) % 0x100) as u8,
        ((v / 0x10000) % 0x100) as u8,
        ((v / 0x100) % 0x100) as u8,
        (v % 0x100) as u8,
    ]
}

/// One digit-extraction step: splitting off the low byte.
proof fn lemma_byte_step(v: int, p: int)
    requires
        v >= 0,
        p >= 1,
    ensures
        v / p == ((v / p) / 0x100) * 0x100 + (v / p) % 0x100,
        (v / p) / 0x100 == v / (p * 0x100),
        0 <= (v / p) % 0x100 < 0x100,
{
    vstd::arithmetic::div_mod::lemma_div_pos_is_pos(v, p);
    lemma_fundamental_div_mod(v / p, 0x100);
    lemma_mod_division_less_than_divisor(v / p, 0x100);
    lemma_div_denominator(v, p, 0x100);
}

/// Reading back the two bytes of a 16-bit value gives the value.
pub proof fn lemma_val16_be16(v: u16)
    ensures
        be16(v).len() == 2,
        val16(be16(v)[0], be16(v)[1]) == v,
{
    lemma_fundamental_div_mod(v as int, 0x100);
    lemma_mod_division_less_than_divisor(v as int, 0x100);
}

/// Reading back the four bytes of a 32-bit value gives the value.
pub proof fn lemma_val32_be32(v: u32)
    ensures
        be32(v).len() == 4,
        val32(be32(v)[0], be32(v)[1], be32(v)[2], be32(v)[3]) == v,
{
    lemma_fundamental_div_mod(v as int, 0x100);
    lemma_mod_division_less_than_divisor(v as int, 0x100);
    lemma_byte_step(v as int, 0x100);
    lemma_byte_step(v as int, 0x10000);
    lemma_mod_division_less_than_divisor(v as int / 0x1000000, 0x100);
}

/// Reading back the eight bytes of a 64-bit value gives the value.
pub proof fn lemma_val64_be64(v: u64)
    ensures
        be64(v).len() == 8,
        val64(be64(v)) == v,
{
    lemma_fundamental_div_mod(v as int, 0x100);
    lemma_mod_division_less_than_divisor(v as int, 0x100);
    lemma_byte_step(v as int, 0x100);
    lemma_byte_step(v as int, 0x10000);
    lemma_byte_step(v as int, 0x1000000);
    lemma_byte_step(v as int, 0x100000000);
    lemma_byte_step(v as int, 0x10000000000);
    lemma_byte_step(v as int, 0x1000000000000);
    lemma_mod_division_less_than_divisor(v as int / 0x100000000000000, 0x100);
}

// ---------------------------------------------------------------------------
// Signed values on the wire (two's complement)
// ---------------------------------------------------------------------------

/// The unsigned wire form of a signed byte.
pub open spec fn to_u8(v: i8) -> u8 {
    if v >= 0 {
        v as u8
    } else {
        (v + 0x100) as u8
    }
}

/// The signed value of a wire byte.
pub open spec fn to_i8(u: u8) -> i8 {
    if u < 0x80 {
        u as i8
    } else {
        (u - 0x100) as i8
    }
}

pub open spec fn to_u16(v: i16) -> u16 {
    if v >= 0 {
        v as u16
    } else {
        (v + 0x10000) as u16
    }
}

pub open spec fn to_i16(u: u16) -> i16 {
    if u < 0x8000 {
        u as i16
    } else {
        (u - 0x10000) as i16
    }
}

pub open spec fn to_u32(v: i32) -> u32 {
    if v >= 0 {
        v as u32
    } else {
        (v + 0x100000000) as u32
    }
}

pub open spec fn to_i32(u: u32) -> i32 {
    if u < 0x80000000 {
        u as i32
    } else {
        (u - 0x100000000) as i32
    }
}

pub open spec fn to_u64(v: i64) -> u64 {
    if v >= 0 {
        v as u64
    } else {
        (v + 0x10000000000000000) as u64
    }
}

pub open spec fn to_i64(u: u64) -> i64 {
    if u < 0x8000000000000000 {
        u as i64
    } else {
        (u - 0x10000000000000000) as i64
    }
}

// ---------------------------------------------------------------------------
// Executable conversions
// ---------------------------------------------------------------------------

pub fn i8_of_wire(u: u8) -> (r: i8)
    ensures
        r == to_i8(u),
{
    if u < 0x80 {
        u as i8
    } else {
        let w: i16 = u as i16 - 0x100;
        w as i8
    }
}

pub fn wire_of_i8(v: i8) -> (r: u8)
    ensures
        r == to_u8(v),
{
    if v >= 0 {
        v as u8
    } else {
        let w: i16 = v as i16 + 0x100;
        w as u8
    }
}

pub fn i16_of_wire(u: u16) -> (r: i16)
    ensures
        r == to_i16(u),
{
    if u < 0x8000 {
        u as i16
    } else {
        let w: i32 = u as i32 - 0x10000;
        w as i16
    }
}

pub fn wire_of_i16(v: i16) -> (r: u16)
    ensures
        r == to_u16(v),
{
    if v >= 0 {
        v as u16
    } else {
        let w: i32 = v as i32 + 0x10000;
        w as u16
    }
}

pub fn i32_of_wire(u: u32) -> (r: i32)
    ensures
        r == to_i32(u),
{
    if u < 0x80000000 {
        u as i32
    } else {
        let w: i64 = u as i64 - 0x100000000;
        w as i32
    }
}

pub fn wire_of_i32(v: i32) -> (r: u32)
    ensures
        r == to_u32(v),
{
    if v >= 0 {
        v as u32
    } else {
        let w: i64 = v as i64 + 0x100000000;
        w as u32
    }
}

pub fn i64_of_wire(u: u64) -> (r: i64)
    ensures
        r == to_i64(u),
{
    if u < 0x8000000000000000 {
        u as i64
    } else {
        let w: i128 = u as i128 - 0x10000000000000000;
        w as i64
    }
}

pub fn wire_of_i64(v: i64) -> (r: u64)
    ensures
        r == to_u64(v),
{
    if v >= 0 {
        v as u64
    } else {
        let w: i128 = v as i128 + 0x10000000000000000;
        w as u64
    }
}

// ---------------------------------------------------------------------------
// Executable big-endian emission
// ---------------------------------------------------------------------------

pub fn push_be16(out: &mut Vec<u8>, v: u16)
    ensures
        final(out)@ == old(out)@ + be16(v),
{
    proof {
        lemma_mod_division_less_than_divisor(v as int, 0x100);
        vstd::arithmetic::div_mod::lemma_div_pos_is_pos(v as int, 0x100);
        lemma_fundamental_div_mod(v as int, 0x100);
    }
    out.push((v / 0x100) as u8);
    out.push((v % 0x100) as u8);
    assert(final(out)@ =~= old(out)@ + be16(v));
}

pub fn push_be32(out: &mut Vec<u8>, v: u32)
    ensures
        final(out)@ == old(out)@ + be32(v),
{
    proof {
        lemma_fundamental_div_mod(v as int, 0x1000000);
        lemma_mod_division_less_than_divisor(v as int, 0x1000000);
        lemma_mod_division_less_than_divisor(v as int, 0x100);
        lemma_mod_division_less_than_divisor(v as int / 0x10000, 0x100);
        lemma_mod_division_less_than_divisor(v as int / 0x100, 0x100);
    }
    out.push((v / 0x1000000) as u8);
    out.push(((v / 0x10000) % 0x100) as u8);
    out.push(((v / 0x100) % 0x100) as u8);
    out.push((v % 0x100) as u8);
    assert(final(out)@ =~= old(out)@ + be32(v));
}

pub fn push_be64(out: &mut Vec<u8>, v: u64)
    ensures
        final(out)@ == old(out)@ + be64(v),
{
    proof {
        lemma_fundamental_div_mod(v as int, 0x100000000000000);
        lemma_mod_division_less_than_divisor(v as int, 0x100000000000000);
        lemma_mod_division_less_than_divisor(v as int, 0x100);
        lemma_mod_division_less_than_divisor(v as int / 0x1000000000000, 0x100);
        lemma_mod_division_less_than_divisor(v as int / 0x10000000000, 0x100);
        lemma_mod_division_less_than_divisor(v as int / 0x100000000, 0x100);
        lemma_mod_division_less_than_divisor(v as int / 0x1000000, 0x100);
        lemma_mod_division_less_than_divisor(v as int / 0x10000, 0x100);
        lemma_mod_division_less_than_divisor(v as int / 0x100, 0x100);
    }
    out.push((v / 0x100000000000000) as u8);
    out.push(((v / 0x1000000000000) % 0x100) as u8);
    out.push(((v / 0x10000000000) % 0x100) as u8);
    out.push(((v / 0x100000000) % 0x100) as u8);
    out.push(((v / 0x1000000) % 0x100) as u8);
    out.push(((v / 0x10000) % 0x100) as u8);
    out.push(((v / 0x100) % 0x100) as u8);
    out.push((v % 0x100) as u8);
    assert(final(out)@ =~= old(out)@ + be64(v));
}

// ---------------------------------------------------------------------------
// Executable big-endian reading
// ---------------------------------------------------------------------------

pub fn u16_of_bytes(b0: u8, b1: u8) -> (r: u16)
    ensures
        r == val16(b0, b1),
{
    (b0 as u16) * 0x100 + (b1 as u16)
}

pub fn u32_of_bytes(b0: u8, b1: u8, b2: u8, b3: u8) -> (r: u32)
    ensures
        r == val32(b0, b1, b2, b3),
{
    (b0 as u32) * 0x1000000 + (b1 as u32) * 0x10000 + (b2 as u32) * 0x100 + (b3 as u32)
}

} // verus!
