//! The recursive-descent parser for the tag wire format.
//!
//! The grammar is written down once as a specification parser over byte
//! sequences (`spec_parse_payload` and friends); the executable parser is
//! proved to return exactly what the specification parser says, error for
//! error.  Parsing is defensive: every length field is checked against the
//! remaining input before anything is read or allocated, a negative or
//! implausibly large element count is rejected, and nesting deeper than a
//! caller-given budget fails with a distinct error instead of exhausting
//! the stack.

use crate::be::{to_i16, to_i32, to_i64, to_i8, val16, val32, val64};
use crate::mutf8::{decode_mutf8, mutf8_decode};
use crate::tag::{entries_values, tags_values, NbtTag, TagValue};
use vstd::prelude::*;

verus! {

broadcast use vstd::std_specs::vec::group_vec_axioms, vstd::seq::group_seq_axioms;

/// Errors of the tag parser.
#[derive(Debug, Clone, Copy, PartialEq, Eq)]
pub enum ParseError {
    /// The input ended before a field could be fully read, or a count
    /// claims more data than the input holds.
    UnexpectedEof,
    /// An unknown tag type identifier was encountered.
    InvalidTag(u8),
    /// A string field is not well-formed modified UTF-8.
    InvalidString,
    /// The document nests deeper than the parser's depth budget.
    DepthExceeded,
}

/// The default nesting budget of the whole-document entry points.
pub const NBT_MAX_DEPTH: u32 = 512;

/// A cursor over a byte slice.
pub struct ByteReader<'a> {
    /// The whole input.
    pub data: &'a [u8],
    /// How many bytes have been consumed.
    pub pos: usize,
}

impl<'a> ByteReader<'a> {
    /// The cursor never points past the end.
    pub open spec fn wf(self) -> bool {
        self.pos <= self.data@.len()
    }

    /// The bytes not yet consumed.
    pub open spec fn remaining(self) -> Seq<u8> {
        self.data@.skip(self.pos as int)
    }

    pub fn new(data: &'a [u8]) -> (r: Self)
        ensures
            r.data@ == data@,
            r.pos == 0,
            r.wf(),
            r.remaining() == data@,
    {
        let r = ByteReader { data, pos: 0 };
        proof {
            assert(data@.skip(0) =~= data@);
        }
        r
    }

    /// True when everything has been consumed.
    pub fn is_empty(&self) -> (r: bool)
        requires
            self.wf(),
        ensures
            r == (self.remaining().len() == 0),
    {
        self.pos == self.data.len()
    }

    /// How many bytes are left.
    pub fn remaining_len(&self) -> (r: usize)
        requires
            self.wf(),
        ensures
            r == self.remaining().len(),
    {
        self.data.len() - self.pos
    }

    pub fn read_u8(&mut self) -> (r: Result<u8, ParseError>)
        requires
            old(self).wf(),
        ensures
            final(self).wf(),
            final(self).data@ == old(self).data@,
            match r {
                Ok(v) => old(self).remaining().len() >= 1 && v == old(self).remaining()[0]
                    && final(self).pos == old(self).pos + 1,
                Err(e) => e == ParseError::UnexpectedEof && old(self).remaining().len() < 1
                    && *final(self) == *old(self),
            },
    {
        if self.pos >= self.data.len() {
            return Err(ParseError::UnexpectedEof);
        }
        let b = *vstd::slice::slice_index_get(self.data, self.pos);
        self.pos = self.pos + 1;
        Ok(b)
    }

    pub fn read_i8(&mut self) -> (r: Result<i8, ParseError>)
        requires
            old(self).wf(),
        ensures
            final(self).wf(),
            final(self).data@ == old(self).data@,
            match r {
                Ok(v) => old(self).remaining().len() >= 1 && v == to_i8(
                    old(self).remaining()[0],
                ) && final(self).pos == old(self).pos + 1,
                Err(e) => e == ParseError::UnexpectedEof && old(self).remaining().len() < 1
                    && *final(self) == *old(self),
            },
    {
        match self.read_u8() {
            Ok(b) => Ok(crate::be::i8_of_wire(b)),
            Err(e) => Err(e),
        }
    }

    pub fn read_u16(&mut self) -> (r: Result<u16, ParseError>)
        requires
            old(self).wf(),
        ensures
            final(self).wf(),
            final(self).data@ == old(self).data@,
            match r {
                Ok(v) => old(self).remaining().len() >= 2 && v == val16(
                    old(self).remaining()[0],
                    old(self).remaining()[1],
                ) && final(self).pos == old(self).pos + 2,
                Err(e) => e == ParseError::UnexpectedEof && old(self).remaining().len() < 2
                    && *final(self) == *old(self),
            },
    {
        if self.data.len() - self.pos < 2 {
            return Err(ParseError::UnexpectedEof);
        }
        let b0 = *vstd::slice::slice_index_get(self.data, self.pos);
        let b1 = *vstd::slice::slice_index_get(self.data, self.pos + 1);
        self.pos = self.pos + 2;
        Ok(crate::be::u16_of_bytes(b0, b1))
    }

    pub fn read_i16(&mut self) -> (r: Result<i16, ParseError>)
        requires
            old(self).wf(),
        ensures
            final(self).wf(),
            final(self).data@ == old(self).data@,
            match r {
                Ok(v) => old(self).remaining().len() >= 2 && v == to_i16(
                    val16(old(self).remaining()[0], old(self).remaining()[1]),
                ) && final(self).pos == old(self).pos + 2,
                Err(e) => e == ParseError::UnexpectedEof && old(self).remaining().len() < 2
                    && *final(self) == *old(self),
            },
    {
        match self.read_u16() {
            Ok(v) => Ok(crate::be::i16_of_wire(v)),
            Err(e) => Err(e),
        }
    }

    pub fn read_u32(&mut self) -> (r: Result<u32, ParseError>)
        requires
            old(self).wf(),
        ensures
            final(self).wf(),
            final(self).data@ == old(self).data@,
            match r {
                Ok(v) => old(self).remaining().len() >= 4 && v == val32(
                    old(self).remaining()[0],
                    old(self).remaining()[1],
                    old(self).remaining()[2],
                    old(self).remaining()[3],
                ) && final(self).pos == old(self).pos + 4,
                Err(e) => e == ParseError::UnexpectedEof && old(self).remaining().len() < 4
                    && *final(self) == *old(self),
            },
    {
        if self.data.len() - self.pos < 4 {
            return Err(ParseError::UnexpectedEof);
        }
        let b0 = *vstd::slice::slice_index_get(self.data, self.pos);
        let b1 = *vstd::slice::slice_index_get(self.data, self.pos + 1);
        let b2 = *vstd::slice::slice_index_get(self.data, self.pos + 2);
        let b3 = *vstd::slice::slice_index_get(self.data, self.pos + 3);
        self.pos = self.pos + 4;
        Ok(crate::be::u32_of_bytes(b0, b1, b2, b3))
    }

    pub fn read_i32(&mut self) -> (r: Result<i32, ParseError>)
        requires
            old(self).wf(),
        ensures
            final(self).wf(),
            final(self).data@ == old(self).data@,
            match r {
                Ok(v) => old(self).remaining().len() >= 4 && v == to_i32(
                    val32(
                        old(self).remaining()[0],
                        old(self).remaining()[1],
                        old(self).remaining()[2],
                        old(self).remaining()[3],
                    ),
                ) && final(self).pos == old(self).pos + 4,
                Err(e) => e == ParseError::UnexpectedEof && old(self).remaining().len() < 4
                    && *final(self) == *old(self),
            },
    {
        match self.read_u32() {
            Ok(v) => Ok(crate::be::i32_of_wire(v)),
            Err(e) => Err(e),
        }
    }

    pub fn read_u64(&mut self) -> (r: Result<u64, ParseError>)
        requires
            old(self).wf(),
        ensures
            final(self).wf(),
            final(self).data@ == old(self).data@,
            match r {
                Ok(v) => old(self).remaining().len() >= 8 && v == val64(
                    old(self).remaining().take(8),
                ) && final(self).pos == old(self).pos + 8,
                Err(e) => e == ParseError::UnexpectedEof && old(self).remaining().len() < 8
                    && *final(self) == *old(self),
            },
    {
        if self.data.len() - self.pos < 8 {
            return Err(ParseError::UnexpectedEof);
        }
        let b0 = *vstd::slice::slice_index_get(self.data, self.pos);
        let b1 = *vstd::slice::slice_index_get(self.data, self.pos + 1);
        let b2 = *vstd::slice::slice_index_get(self.data, self.pos + 2);
        let b3 = *vstd::slice::slice_index_get(self.data, self.pos + 3);
        let b4 = *vstd::slice::slice_index_get(self.data, self.pos + 4);
        let b5 = *vstd::slice::slice_index_get(self.data, self.pos + 5);
        let b6 = *vstd::slice::slice_index_get(self.data, self.pos + 6);
        let b7 = *vstd::slice::slice_index_get(self.data, self.pos + 7);
        self.pos = self.pos + 8;
        let hi = crate::be::u32_of_bytes(b0, b1, b2, b3);
        let lo = crate::be::u32_of_bytes(b4, b5, b6, b7);
        let v = (hi as u64) * 0x100000000 + (lo as u64);
        proof {
            let b = old(self).remaining().take(8);
            assert(b[0] == b0 && b[1] == b1 && b[2] == b2 && b[3] == b3);
            assert(b[4] == b4 && b[5] == b5 && b[6] == b6 && b[7] == b7);
            assert(v == val64(b));
        }
        Ok(v)
    }

    pub fn read_i64(&mut self) -> (r: Result<i64, ParseError>)
        requires
            old(self).wf(),
        ensures
            final(self).wf(),
            final(self).data@ == old(self).data@,
            match r {
                Ok(v) => old(self).remaining().len() >= 8 && v == to_i64(
                    val64(old(self).remaining().take(8)),
                ) && final(self).pos == old(self).pos + 8,
                Err(e) => e == ParseError::UnexpectedEof && old(self).remaining().len() < 8
                    && *final(self) == *old(self),
            },
    {
        match self.read_u64() {
            Ok(v) => Ok(crate::be::i64_of_wire(v)),
            Err(e) => Err(e),
        }
    }

    /// Borrows the next `len` bytes and advances past them.
    pub fn read_bytes(&mut self, len: usize) -> (r: Result<&'a [u8], ParseError>)
        requires
            old(self).wf(),
        ensures
            final(self).wf(),
            final(self).data@ == old(self).data@,
            match r {
                Ok(s) => old(self).remaining().len() >= len && s@ == old(self).remaining().take(
                    len as int,
                ) && final(self).pos == old(self).pos + len,
                Err(e) => e == ParseError::UnexpectedEof && old(self).remaining().len() < len
                    && *final(self) == *old(self),
            },
    {
        if self.data.len() - self.pos < len {
            return Err(ParseError::UnexpectedEof);
        }
        let s = vstd::slice::slice_subrange(self.data, self.pos, self.pos + len);
        self.pos = self.pos + len;
        proof {
            assert(s@ =~= old(self).remaining().take(len as int));
        }
        Ok(s)
    }
}

// ---------------------------------------------------------------------------
// The specification parser
// ---------------------------------------------------------------------------

/// One length-prefixed text, read from the front of `b`: the text and how
/// many bytes it occupies.
pub open spec fn spec_parse_str(b: Seq<u8>) -> Result<(Seq<char>, int), ParseError> {
    if b.len() < 2 {
        Err(ParseError::UnexpectedEof)
    } else {
        let n = val16(b[0], b[1]) as int;
        if b.len() < 2 + n {
            Err(ParseError::UnexpectedEof)
        } else {
            match mutf8_decode(b.subrange(2, 2 + n)) {
                Some(s) => Ok((s, 2 + n)),
                None => Err(ParseError::InvalidString),
            }
        }
    }
}

/// The 32-bit elements encoded back to back in `bs`.
pub open spec fn ints_of(bs: Seq<u8>) -> Seq<i32> {
    Seq::new(
        bs.len() / 4,
        |i: int| to_i32(val32(bs[4 * i], bs[4 * i + 1], bs[4 * i + 2], bs[4 * i + 3])),
    )
}

/// The 64-bit elements encoded back to back in `bs`.
pub open spec fn longs_of(bs: Seq<u8>) -> Seq<i64> {
    Seq::new(bs.len() / 8, |i: int| to_i64(val64(bs.subrange(8 * i, 8 * i + 8))))
}

/// One tag payload, read from the front of `b` with the given type
/// identifier and nesting budget: the value and how many bytes it
/// occupies.  Everything the parser accepts or refuses is decided here.
pub open spec fn spec_parse_payload(b: Seq<u8>, id: u8, depth: nat) -> Result<
    (TagValue, int),
    ParseError,
>
    decreases depth, b.len(), 0int,
{
    if id == 0 {
        Ok((TagValue::End, 0))
    } else if id == 1 {
        if b.len() < 1 {
            Err(ParseError::UnexpectedEof)
        } else {
            Ok((TagValue::Byte(to_i8(b[0])), 1))
        }
    } else if id == 2 {
        if b.len() < 2 {
            Err(ParseError::UnexpectedEof)
        } else {
            Ok((TagValue::Short(to_i16(val16(b[0], b[1]))), 2))
        }
    } else if id == 3 {
        if b.len() < 4 {
            Err(ParseError::UnexpectedEof)
        } else {
            Ok((TagValue::Int(to_i32(val32(b[0], b[1], b[2], b[3]))), 4))
        }
    } else if id == 4 {
        if b.len() < 8 {
            Err(ParseError::UnexpectedEof)
        } else {
            Ok((TagValue::Long(to_i64(val64(b.take(8)))), 8))
        }
    } else if id == 5 {
        if b.len() < 4 {
            Err(ParseError::UnexpectedEof)
        } else {
            Ok((TagValue::Float(val32(b[0], b[1], b[2], b[3])), 4))
        }
    } else if id == 6 {
        if b.len() < 8 {
            Err(ParseError::UnexpectedEof)
        } else {
            Ok((TagValue::Double(val64(b.take(8))), 8))
        }
    } else if id == 7 {
        if b.len() < 4 {
            Err(ParseError::UnexpectedEof)
        } else {
            let n = to_i32(val32(b[0], b[1], b[2], b[3])) as int;
            if n < 0 || b.len() - 4 < n {
                Err(ParseError::UnexpectedEof)
            } else {
                Ok((TagValue::ByteArray(b.subrange(4, 4 + n)), 4 + n))
            }
        }
    } else if id == 8 {
        match spec_parse_str(b) {
            Ok((s, c)) => Ok((TagValue::Str(s), c)),
            Err(e) => Err(e),
        }
    } else if id == 9 {
        if depth == 0 {
            Err(ParseError::DepthExceeded)
        } else if b.len() < 5 {
            Err(ParseError::UnexpectedEof)
        } else {
            let et = b[0];
            let n = to_i32(val32(b[1], b[2], b[3], b[4])) as int;
            if n < 0 || b.len() - 5 < n {
                Err(ParseError::UnexpectedEof)
            } else if et == 0 && n > 0 {
                Err(ParseError::InvalidTag(0))
            } else {
                match spec_parse_list(b.skip(5), et, n as nat, (depth - 1) as nat) {
                    Ok((elems, c)) => Ok((TagValue::List(elems), 5 + c)),
                    Err(e) => Err(e),
                }
            }
        }
    } else if id == 10 {
        if depth == 0 {
            Err(ParseError::DepthExceeded)
        } else {
            match spec_parse_compound(b, (depth - 1) as nat) {
                Ok((entries, c)) => Ok((TagValue::Compound(entries), c)),
                Err(e) => Err(e),
            }
        }
    } else if id == 11 {
        if b.len() < 4 {
            Err(ParseError::UnexpectedEof)
        } else {
            let n = to_i32(val32(b[0], b[1], b[2], b[3])) as int;
            if n < 0 || b.len() - 4 < 4 * n {
                Err(ParseError::UnexpectedEof)
            } else {
                Ok((TagValue::IntArray(ints_of(b.subrange(4, 4 + 4 * n))), 4 + 4 * n))
            }
        }
    } else if id == 12 {
        if b.len() < 4 {
            Err(ParseError::UnexpectedEof)
        } else {
            let n = to_i32(val32(b[0], b[1], b[2], b[3])) as int;
            if n < 0 || b.len() - 4 < 8 * n {
                Err(ParseError::UnexpectedEof)
            } else {
                Ok((TagValue::LongArray(longs_of(b.subrange(4, 4 + 8 * n))), 4 + 8 * n))
            }
        }
    } else {
        Err(ParseError::InvalidTag(id))
    }
}

/// `n` payloads of one element type, back to back.
pub open spec fn spec_parse_list(b: Seq<u8>, et: u8, n: nat, depth: nat) -> Result<
    (Seq<TagValue>, int),
    ParseError,
>
    decreases depth, b.len(), n + 1,
{
    if n == 0 {
        Ok((Seq::empty(), 0))
    } else {
        match spec_parse_payload(b, et, depth) {
            Ok((t, c)) => {
                let rest_input = if 0 <= c <= b.len() {
                    b.skip(c)
                } else {
                    Seq::empty()
                };
                match spec_parse_list(rest_input, et, (n - 1) as nat, depth) {
                    Ok((rest, c2)) => Ok((seq![t] + rest, c + c2)),
                    Err(e) => Err(e),
                }
            },
            Err(e) => Err(e),
        }
    }
}

/// Compound entries up to and including the closing zero byte.
pub open spec fn spec_parse_compound(b: Seq<u8>, depth: nat) -> Result<
    (Seq<(Seq<char>, TagValue)>, int),
    ParseError,
>
    decreases depth, b.len(), 0int,
{
    if b.len() < 1 {
        Err(ParseError::UnexpectedEof)
    } else if b[0] == 0 {
        Ok((Seq::empty(), 1))
    } else {
        let tt = b[0];
        match spec_parse_str(b.skip(1)) {
            Ok((name, c1)) => match spec_parse_payload(b.skip(1 + c1), tt, depth) {
                Ok((t, c2)) => {
                    let rest_input = if 1 <= 1 + c1 + c2 <= b.len() {
                        b.skip(1 + c1 + c2)
                    } else {
                        Seq::empty()
                    };
                    match spec_parse_compound(rest_input, depth) {
                        Ok((rest, c3)) => Ok((seq![(name, t)] + rest, 1 + c1 + c2 + c3)),
                        Err(e) => Err(e),
                    }
                },
                Err(e) => Err(e),
            },
            Err(e) => Err(e),
        }
    }
}

/// A whole document: a zero lead byte is the empty document; otherwise a
/// type identifier, a name and a payload.
pub open spec fn spec_parse_named(b: Seq<u8>, depth: nat) -> Result<
    ((Seq<char>, TagValue), int),
    ParseError,
> {
    if b.len() < 1 {
        Err(ParseError::UnexpectedEof)
    } else if b[0] == 0 {
        Ok(((Seq::empty(), TagValue::End), 1))
    } else {
        match spec_parse_str(b.skip(1)) {
            Ok((name, c1)) => match spec_parse_payload(b.skip(1 + c1), b[0], depth) {
                Ok((t, c2)) => Ok(((name, t), 1 + c1 + c2)),
                Err(e) => Err(e),
            },
            Err(e) => Err(e),
        }
    }
}

// ---------------------------------------------------------------------------
// The specification parser consumes at most its input
// ---------------------------------------------------------------------------

pub proof fn lemma_payload_consumed(b: Seq<u8>, id: u8, depth: nat)
    ensures
        spec_parse_payload(b, id, depth) matches Ok(p) ==> 0 <= p.1 <= b.len(),
    decreases depth, b.len(), 0int,
{
    if id == 9 {
        if depth > 0 && b.len() >= 5 {
            let et = b[0];
            let n = to_i32(val32(b[1], b[2], b[3], b[4])) as int;
            if 0 <= n <= b.len() - 5 && !(et == 0 && n > 0) {
                lemma_list_consumed(b.skip(5), et, n as nat, (depth - 1) as nat);
            }
        }
    } else if id == 10 {
        if depth > 0 {
            lemma_compound_consumed(b, (depth - 1) as nat);
        }
    }
}

pub proof fn lemma_list_consumed(b: Seq<u8>, et: u8, n: nat, depth: nat)
    ensures
        spec_parse_list(b, et, n, depth) matches Ok(p) ==> 0 <= p.1 <= b.len(),
    decreases depth, b.len(), n + 1,
{
    if n > 0 {
        match spec_parse_payload(b, et, depth) {
            Ok((t, c)) => {
                lemma_payload_consumed(b, et, depth);
                assert(0 <= c <= b.len());
                lemma_list_consumed(b.skip(c), et, (n - 1) as nat, depth);
            },
            Err(_) => {},
        }
    }
}

pub proof fn lemma_compound_consumed(b: Seq<u8>, depth: nat)
    ensures
        spec_parse_compound(b, depth) matches Ok(p) ==> 1 <= p.1 <= b.len(),
    decreases depth, b.len(), 0int,
{
    if b.len() >= 1 && b[0] != 0 {
        match spec_parse_str(b.skip(1)) {
            Ok((name, c1)) => {
                assert(2 <= c1 <= b.len() - 1);
                match spec_parse_payload(b.skip(1 + c1), b[0], depth) {
                    Ok((t, c2)) => {
                        lemma_payload_consumed(b.skip(1 + c1), b[0], depth);
                        assert(0 <= c2 <= b.len() - 1 - c1);
                        lemma_compound_consumed(b.skip(1 + c1 + c2), depth);
                    },
                    Err(_) => {},
                }
            },
            Err(_) => {},
        }
    }
}

pub proof fn lemma_named_consumed(b: Seq<u8>, depth: nat)
    ensures
        spec_parse_named(b, depth) matches Ok(p) ==> 1 <= p.1 <= b.len(),
{
    if b.len() >= 1 && b[0] != 0 {
        match spec_parse_str(b.skip(1)) {
            Ok((name, c1)) => {
                lemma_payload_consumed(b.skip(1 + c1), b[0], depth);
            },
            Err(_) => {},
        }
    }
}

/// Parses a length-prefixed modified-UTF-8 text.
pub fn parse_nbt_string(reader: &mut ByteReader) -> (r: Result<String, ParseError>)
    requires
        old(reader).wf(),
    ensures
        final(reader).wf(),
        final(reader).data@ == old(reader).data@,
        final(reader).pos >= old(reader).pos,
        match r {
            Ok(s) => spec_parse_str(old(reader).remaining()) == Ok::<_, ParseError>(
                (s@, final(reader).pos - old(reader).pos),
            ),
            Err(e) => spec_parse_str(old(reader).remaining()) == Err::<(Seq<char>, int), _>(e),
        },
{
    let ghost b = old(reader).remaining();
    let len = match reader.read_u16() {
        Ok(v) => v,
        Err(e) => {
            return Err(e);
        },
    };
    let bytes = match reader.read_bytes(len as usize) {
        Ok(s) => s,
        Err(e) => {
            proof {
                assert(reader.remaining() =~= b.skip(2));
            }
            return Err(e);
        },
    };
    proof {
        assert(bytes@ =~= b.subrange(2, 2 + len as int));
    }
    match decode_mutf8(bytes) {
        Ok(s) => Ok(s),
        Err(_) => Err(ParseError::InvalidString),
    }
}


// ---------------------------------------------------------------------------
// The executable parser
// ---------------------------------------------------------------------------

/// Reads a byte-array payload: 32-bit count, then that many raw bytes.
fn parse_byte_array(reader: &mut ByteReader) -> (r: Result<NbtTag, ParseError>)
    requires
        old(reader).wf(),
    ensures
        final(reader).wf(),
        final(reader).data@ == old(reader).data@,
        final(reader).pos >= old(reader).pos,
        match r {
            Ok(tag) => spec_parse_payload(old(reader).remaining(), 7, 0) == Ok::<_, ParseError>(
                (tag@, final(reader).pos - old(reader).pos),
            ),
            Err(e) => spec_parse_payload(old(reader).remaining(), 7, 0) == Err::<
                (TagValue, int),
                _,
            >(e),
        },
{
    let ghost b = old(reader).remaining();
    let n = match reader.read_i32() {
        Ok(v) => v,
        Err(e) => {
            return Err(e);
        },
    };
    if n < 0 {
        return Err(ParseError::UnexpectedEof);
    }
    let bytes = match reader.read_bytes(n as usize) {
        Ok(s) => s,
        Err(e) => {
            proof {
                assert(reader.remaining() =~= b.skip(4));
            }
            return Err(e);
        },
    };
    let v = vstd::slice::slice_to_vec(bytes);
    proof {
        assert(v@ =~= b.subrange(4, 4 + n as int));
    }
    Ok(NbtTag::ByteArray(v))
}

/// Reads an integer-array payload: 32-bit count, then four bytes per
/// element.
fn parse_int_array(reader: &mut ByteReader) -> (r: Result<NbtTag, ParseError>)
    requires
        old(reader).wf(),
    ensures
        final(reader).wf(),
        final(reader).data@ == old(reader).data@,
        final(reader).pos >= old(reader).pos,
        match r {
            Ok(tag) => spec_parse_payload(old(reader).remaining(), 11, 0) == Ok::<_, ParseError>(
                (tag@, final(reader).pos - old(reader).pos),
            ),
            Err(e) => spec_parse_payload(old(reader).remaining(), 11, 0) == Err::<
                (TagValue, int),
                _,
            >(e),
        },
{
    let ghost b = old(reader).remaining();
    let n = match reader.read_i32() {
        Ok(v) => v,
        Err(e) => {
            return Err(e);
        },
    };
    if n < 0 {
        return Err(ParseError::UnexpectedEof);
    }
    let rem = reader.remaining_len();
    if (n as u64) * 4 > (rem as u64) {
        proof {
            assert(reader.remaining() =~= b.skip(4));
        }
        return Err(ParseError::UnexpectedEof);
    }
    let ghost sub = b.subrange(4, 4 + 4 * n as int);
    let ghost pos4 = reader.pos as int;
    let mut out: Vec<i32> = Vec::new();
    let count = n as usize;
    let mut k: usize = 0;
    proof {
        assert(sub.len() == 4 * n as int);
    }
    while k < count
        invariant
            reader.wf(),
            reader.data@ == old(reader).data@,
            count == (n as int),
            n >= 0,
            k <= count,
            out@.len() == k,
            reader.pos == pos4 + 4 * k,
            pos4 + 4 * n as int <= reader.data@.len(),
            sub == old(reader).remaining().subrange(4, 4 + 4 * n as int),
            sub.len() == (4 * n as int),
            b == old(reader).remaining(),
            pos4 == old(reader).pos + 4,
            forall|i: int| 0 <= i < k ==> out@[i] == ints_of(sub)[i],
        decreases count - k,
    {
        let ghost rem_here = reader.remaining();
        let v = match reader.read_i32() {
            Ok(v) => v,
            Err(e) => {
                proof {
                    assert(reader.remaining().len() >= 4) by {
                        assert(reader.data@.len() - reader.pos >= 4 * (n as int - k as int));
                    }
                }
                assert(false);
                return Err(e);
            },
        };
        proof {
            assert(rem_here[0] == sub[4 * k as int]) by {
                assert(rem_here[0] == b[pos4 - pos4 + 4 + 4 * k as int]);
            }
            assert(rem_here[1] == sub[4 * k as int + 1]);
            assert(rem_here[2] == sub[4 * k as int + 2]);
            assert(rem_here[3] == sub[4 * k as int + 3]);
            assert(ints_of(sub)[k as int] == to_i32(
                val32(
                    sub[4 * k as int],
                    sub[4 * k as int + 1],
                    sub[4 * k as int + 2],
                    sub[4 * k as int + 3],
                ),
            ));
        }
        out.push(v);
        k += 1;
    }
    proof {
        assert(out@ =~= ints_of(sub));
    }
    Ok(NbtTag::IntArray(out))
}

/// Reads a long-array payload: 32-bit count, then eight bytes per element.
fn parse_long_array(reader: &mut ByteReader) -> (r: Result<NbtTag, ParseError>)
    requires
        old(reader).wf(),
    ensures
        final(reader).wf(),
        final(reader).data@ == old(reader).data@,
        final(reader).pos >= old(reader).pos,
        match r {
            Ok(tag) => spec_parse_payload(old(reader).remaining(), 12, 0) == Ok::<_, ParseError>(
                (tag@, final(reader).pos - old(reader).pos),
            ),
            Err(e) => spec_parse_payload(old(reader).remaining(), 12, 0) == Err::<
                (TagValue, int),
                _,
            >(e),
        },
{
    let ghost b = old(reader).remaining();
    let n = match reader.read_i32() {
        Ok(v) => v,
        Err(e) => {
            return Err(e);
        },
    };
    if n < 0 {
        return Err(ParseError::UnexpectedEof);
    }
    let rem = reader.remaining_len();
    if (n as u64) * 8 > (rem as u64) {
        proof {
            assert(reader.remaining() =~= b.skip(4));
        }
        return Err(ParseError::UnexpectedEof);
    }
    let ghost sub = b.subrange(4, 4 + 8 * n as int);
    let ghost pos4 = reader.pos as int;
    let mut out: Vec<i64> = Vec::new();
    let count = n as usize;
    let mut k: usize = 0;
    proof {
        assert(sub.len() == 8 * n as int);
    }
    while k < count
        invariant
            reader.wf(),
            reader.data@ == old(reader).data@,
            count == (n as int),
            n >= 0,
            k <= count,
            out@.len() == k,
            reader.pos == pos4 + 8 * k,
            pos4 + 8 * n as int <= reader.data@.len(),
            sub == old(reader).remaining().subrange(4, 4 + 8 * n as int),
            sub.len() == (8 * n as int),
            b == old(reader).remaining(),
            pos4 == old(reader).pos + 4,
            forall|i: int| 0 <= i < k ==> out@[i] == longs_of(sub)[i],
        decreases count - k,
    {
        let ghost rem_here = reader.remaining();
        let v = match reader.read_i64() {
            Ok(v) => v,
            Err(e) => {
                proof {
                    assert(reader.remaining().len() >= 8) by {
                        assert(reader.data@.len() - reader.pos >= 8 * (n as int - k as int));
                    }
                }
                assert(false);
                return Err(e);
            },
        };
        proof {
            assert(rem_here.take(8) =~= sub.subrange(8 * k as int, 8 * k as int + 8));
            assert(longs_of(sub)[k as int] == to_i64(
                val64(sub.subrange(8 * k as int, 8 * k as int + 8)),
            ));
        }
        out.push(v);
        k += 1;
    }
    proof {
        assert(out@ =~= longs_of(sub));
    }
    Ok(NbtTag::LongArray(out))
}


/// Parses one tag payload with an explicit nesting budget.  Returns
/// exactly what the specification parser returns on the unread input.
#[verifier::rlimit(100)]
#[verifier::spinoff_prover]
pub fn parse_tag_payload_at(reader: &mut ByteReader, type_id: u8, depth: u32) -> (r: Result<
    NbtTag,
    ParseError,
>)
    requires
        old(reader).wf(),
    ensures
        final(reader).wf(),
        final(reader).data@ == old(reader).data@,
        final(reader).pos >= old(reader).pos,
        match r {
            Ok(tag) => spec_parse_payload(old(reader).remaining(), type_id, depth as nat)
                == Ok::<_, ParseError>((tag@, final(reader).pos - old(reader).pos)),
            Err(e) => spec_parse_payload(old(reader).remaining(), type_id, depth as nat)
                == Err::<(TagValue, int), _>(e),
        },
    decreases depth,
{
    let ghost b = old(reader).remaining();
    if type_id == 0 {
        Ok(NbtTag::End)
    } else if type_id == 1 {
        match reader.read_i8() {
            Ok(v) => Ok(NbtTag::Byte(v)),
            Err(e) => Err(e),
        }
    } else if type_id == 2 {
        match reader.read_i16() {
            Ok(v) => Ok(NbtTag::Short(v)),
            Err(e) => Err(e),
        }
    } else if type_id == 3 {
        match reader.read_i32() {
            Ok(v) => Ok(NbtTag::Int(v)),
            Err(e) => Err(e),
        }
    } else if type_id == 4 {
        match reader.read_i64() {
            Ok(v) => Ok(NbtTag::Long(v)),
            Err(e) => Err(e),
        }
    } else if type_id == 5 {
        match reader.read_u32() {
            Ok(v) => Ok(NbtTag::Float(v)),
            Err(e) => Err(e),
        }
    } else if type_id == 6 {
        match reader.read_u64() {
            Ok(v) => Ok(NbtTag::Double(v)),
            Err(e) => Err(e),
        }
    } else if type_id == 7 {
        let r = parse_byte_array(reader);
        proof {
            assert(spec_parse_payload(b, 7, depth as nat) == spec_parse_payload(b, 7, 0));
        }
        r
    } else if type_id == 8 {
        match parse_nbt_string(reader) {
            Ok(s) => Ok(NbtTag::String(s)),
            Err(e) => Err(e),
        }
    } else if type_id == 9 {
        parse_list_payload(reader, depth)
    } else if type_id == 10 {
        parse_compound_payload(reader, depth)
    } else if type_id == 11 {
        let r = parse_int_array(reader);
        proof {
            assert(spec_parse_payload(b, 11, depth as nat) == spec_parse_payload(b, 11, 0));
        }
        r
    } else if type_id == 12 {
        let r = parse_long_array(reader);
        proof {
            assert(spec_parse_payload(b, 12, depth as nat) == spec_parse_payload(b, 12, 0));
        }
        r
    } else {
        Err(ParseError::InvalidTag(type_id))
    }
}

/// Reads a list payload: element type, 32-bit count, then that many
/// payloads of the element type, each parsed with one budget level less.
#[verifier::rlimit(100)]
#[verifier::spinoff_prover]
fn parse_list_payload(reader: &mut ByteReader, depth: u32) -> (r: Result<NbtTag, ParseError>)
    requires
        old(reader).wf(),
    ensures
        final(reader).wf(),
        final(reader).data@ == old(reader).data@,
        final(reader).pos >= old(reader).pos,
        match r {
            Ok(tag) => spec_parse_payload(old(reader).remaining(), 9, depth as nat) == Ok::<
                _,
                ParseError,
            >((tag@, final(reader).pos - old(reader).pos)),
            Err(e) => spec_parse_payload(old(reader).remaining(), 9, depth as nat) == Err::<
                (TagValue, int),
                _,
            >(e),
        },
    decreases depth, 0int,
{
    let ghost b = old(reader).remaining();
    if depth == 0 {
        return Err(ParseError::DepthExceeded);
    }
    let et = match reader.read_u8() {
        Ok(v) => v,
        Err(e) => {
            return Err(e);
        },
    };
    let n = match reader.read_i32() {
        Ok(v) => v,
        Err(e) => {
            proof {
                assert(reader.remaining() =~= b.skip(1));
            }
            return Err(e);
        },
    };
    proof {
        assert(b.skip(1)[0] == b[1] && b.skip(1)[1] == b[2] && b.skip(1)[2] == b[3] && b.skip(1)[3]
            == b[4]);
    }
    if n < 0 {
        return Err(ParseError::UnexpectedEof);
    }
    let rem = reader.remaining_len();
    if (n as usize) > rem {
        return Err(ParseError::UnexpectedEof);
    }
    if et == 0 && n > 0 {
        return Err(ParseError::InvalidTag(0));
    }
    let ghost d1 = (depth - 1) as nat;
    let ghost b5 = b.skip(5);
    let ghost pos5 = reader.pos as int;
    proof {
        assert(b5 =~= reader.remaining());
    }
    let count = n as usize;
    let mut elems: Vec<NbtTag> = Vec::new();
    let mut k: usize = 0;
    proof {
        match spec_parse_list(b5, et, n as nat, d1) {
            Ok(p) => {
                assert(tags_values(elems@) + p.0 =~= p.0);
            },
            Err(_) => {},
        }
    }
    while k < count
        invariant
            reader.wf(),
            reader.data@ == old(reader).data@,
            count == (n as int),
            n >= 0,
            k <= count,
            d1 == (depth - 1) as nat,
            depth >= 1,
            b == old(reader).remaining(),
            b.len() >= 5,
            et == b[0],
            (n as int) == to_i32(val32(b[1], b[2], b[3], b[4])) as int,
            (n as int) <= b.len() - 5,
            !(et == 0 && n > 0),
            b5 == b.skip(5),
            pos5 == old(reader).pos + 5,
            reader.pos >= pos5,
            (match spec_parse_list(reader.remaining(), et, (n as int - k as int) as nat, d1) {
                Ok(p) => spec_parse_list(b5, et, n as nat, d1) == Ok::<_, ParseError>(
                    (tags_values(elems@) + p.0, (reader.pos - pos5) + p.1),
                ),
                Err(e) => spec_parse_list(b5, et, n as nat, d1) == Err::<
                    (Seq<TagValue>, int),
                    _,
                >(e),
            }),
        decreases count - k,
    {
        let ghost rem_here = reader.remaining();
        let ghost pos_before = reader.pos as int;
        let ghost m = (n as int - k as int) as nat;
        match parse_tag_payload_at(reader, et, depth - 1) {
            Ok(t) => {
                proof {
                    let c = reader.pos - pos_before;
                    assert(spec_parse_payload(rem_here, et, d1) == Ok::<_, ParseError>((t@, c)));
                    assert(0 <= c <= rem_here.len());
                    assert(rem_here.skip(c) =~= reader.remaining());
                    assert(tags_values(elems@.push(t)) =~= tags_values(elems@).push(t@));
                    match spec_parse_list(reader.remaining(), et, (m - 1) as nat, d1) {
                        Ok(p2) => {
                            assert(tags_values(elems@).push(t@) + p2.0 =~= tags_values(elems@) + (
                            seq![t@] + p2.0));
                        },
                        Err(_) => {},
                    }
                }
                elems.push(t);
                k += 1;
            },
            Err(e) => {
                proof {
                    assert(spec_parse_payload(rem_here, et, d1) == Err::<(TagValue, int), _>(e));
                    assert(spec_parse_list(rem_here, et, m, d1) == Err::<
                        (Seq<TagValue>, int),
                        _,
                    >(e));
                }
                return Err(e);
            },
        }
    }
    proof {
        assert(reader.remaining() =~= reader.data@.skip(reader.pos as int));
        assert(spec_parse_list(reader.remaining(), et, 0, d1) == Ok::<_, ParseError>(
            (Seq::<TagValue>::empty(), 0int),
        ));
        match spec_parse_list(b5, et, n as nat, d1) {
            Ok(p) => {
                assert(tags_values(elems@) + Seq::<TagValue>::empty() =~= tags_values(elems@));
            },
            Err(_) => {},
        }
        crate::tag::lemma_list_value(elems);
    }
    Ok(NbtTag::List(elems))
}


/// Reads a compound payload: entries of type byte, name and payload, up
/// to and including the closing zero byte, each payload parsed with one
/// budget level less.
#[verifier::rlimit(100)]
#[verifier::spinoff_prover]
fn parse_compound_payload(reader: &mut ByteReader, depth: u32) -> (r: Result<NbtTag, ParseError>)
    requires
        old(reader).wf(),
    ensures
        final(reader).wf(),
        final(reader).data@ == old(reader).data@,
        final(reader).pos >= old(reader).pos,
        match r {
            Ok(tag) => spec_parse_payload(old(reader).remaining(), 10, depth as nat) == Ok::<
                _,
                ParseError,
            >((tag@, final(reader).pos - old(reader).pos)),
            Err(e) => spec_parse_payload(old(reader).remaining(), 10, depth as nat) == Err::<
                (TagValue, int),
                _,
            >(e),
        },
    decreases depth, 0int,
{
    let ghost b = old(reader).remaining();
    if depth == 0 {
        return Err(ParseError::DepthExceeded);
    }
    let ghost d1 = (depth - 1) as nat;
    let mut entries: Vec<(String, NbtTag)> = Vec::new();
    let mut done = false;
    proof {
        match spec_parse_compound(b, d1) {
            Ok(p) => {
                assert(entries_values(entries@) + p.0 =~= p.0);
            },
            Err(_) => {},
        }
    }
    while !done
        invariant
            reader.wf(),
            reader.data@ == old(reader).data@,
            depth >= 1,
            d1 == (depth - 1) as nat,
            b == old(reader).remaining(),
            reader.pos >= old(reader).pos,
            (!done ==> (match spec_parse_compound(reader.remaining(), d1) {
                Ok(p) => spec_parse_compound(b, d1) == Ok::<_, ParseError>(
                    (entries_values(entries@) + p.0, (reader.pos - old(reader).pos) + p.1),
                ),
                Err(e) => spec_parse_compound(b, d1) == Err::<
                    (Seq<(Seq<char>, TagValue)>, int),
                    _,
                >(e),
            })),
            (done ==> spec_parse_compound(b, d1) == Ok::<_, ParseError>(
                (entries_values(entries@), reader.pos - old(reader).pos),
            )),
        decreases
                reader.data@.len() - reader.pos + (if done {
                    0int
                } else {
                    1int
                }),
    {
        let ghost rem_here = reader.remaining();
        let ghost pos_here = reader.pos as int;
        let tt = match reader.read_u8() {
            Ok(v) => v,
            Err(e) => {
                return Err(e);
            },
        };
        if tt == 0 {
            proof {
                assert(rem_here[0] == 0);
                assert(spec_parse_compound(rem_here, d1) == Ok::<_, ParseError>(
                    (Seq::<(Seq<char>, TagValue)>::empty(), 1int),
                ));
                assert(entries_values(entries@) + Seq::<(Seq<char>, TagValue)>::empty()
                    =~= entries_values(entries@));
            }
            done = true;
        } else {
            proof {
                assert(reader.remaining() =~= rem_here.skip(1));
            }
            let name = match parse_nbt_string(reader) {
                Ok(s) => s,
                Err(e) => {
                    return Err(e);
                },
            };
            let ghost c1 = reader.pos - pos_here - 1;
            proof {
                assert(spec_parse_str(rem_here.skip(1)) == Ok::<_, ParseError>((name@, c1)));
                assert(reader.remaining() =~= rem_here.skip(1 + c1));
            }
            let t = match parse_tag_payload_at(reader, tt, depth - 1) {
                Ok(t) => t,
                Err(e) => {
                    return Err(e);
                },
            };
            proof {
                let c2 = reader.pos - pos_here - 1 - c1;
                assert(spec_parse_payload(rem_here.skip(1 + c1), tt, d1) == Ok::<_, ParseError>(
                    (t@, c2),
                ));
                assert(1 <= 1 + c1 + c2 <= rem_here.len());
                assert(rem_here.skip(1 + c1 + c2) =~= reader.remaining());
                assert(entries_values(entries@.push((name, t))) =~= entries_values(
                    entries@,
                ).push((name@, t@)));
                match spec_parse_compound(reader.remaining(), d1) {
                    Ok(p2) => {
                        assert(entries_values(entries@).push((name@, t@)) + p2.0
                            =~= entries_values(entries@) + (seq![(name@, t@)] + p2.0));
                    },
                    Err(_) => {},
                }
            }
            entries.push((name, t));
        }
    }
    proof {
        crate::tag::lemma_compound_value(entries);
    }
    Ok(NbtTag::Compound(entries))
}

/// Parses one tag payload with the default nesting budget.
pub fn parse_tag_payload(reader: &mut ByteReader, type_id: u8) -> (r: Result<NbtTag, ParseError>)
    requires
        old(reader).wf(),
    ensures
        final(reader).wf(),
        final(reader).data@ == old(reader).data@,
        final(reader).pos >= old(reader).pos,
        match r {
            Ok(tag) => spec_parse_payload(old(reader).remaining(), type_id, NBT_MAX_DEPTH as nat)
                == Ok::<_, ParseError>((tag@, final(reader).pos - old(reader).pos)),
            Err(e) => spec_parse_payload(old(reader).remaining(), type_id, NBT_MAX_DEPTH as nat)
                == Err::<(TagValue, int), _>(e),
        },
{
    parse_tag_payload_at(reader, type_id, NBT_MAX_DEPTH)
}

/// Parses a whole document: name and tag.  A zero lead byte yields the
/// empty document without reading further; afterwards the cursor stands
/// just past the document, so concatenated documents can be read by
/// repeated calls.
pub fn parse_named_tag(reader: &mut ByteReader) -> (r: Result<(String, NbtTag), ParseError>)
    requires
        old(reader).wf(),
    ensures
        final(reader).wf(),
        final(reader).data@ == old(reader).data@,
        final(reader).pos >= old(reader).pos,
        match r {
            Ok(p) => spec_parse_named(old(reader).remaining(), NBT_MAX_DEPTH as nat) == Ok::<
                _,
                ParseError,
            >(((p.0@, p.1@), final(reader).pos - old(reader).pos)),
            Err(e) => spec_parse_named(old(reader).remaining(), NBT_MAX_DEPTH as nat) == Err::<
                ((Seq<char>, TagValue), int),
                _,
            >(e),
        },
{
    let ghost b = old(reader).remaining();
    let tag_type = match reader.read_u8() {
        Ok(v) => v,
        Err(e) => {
            return Err(e);
        },
    };
    if tag_type == 0 {
        let name = String::new();
        return Ok((name, NbtTag::End));
    }
    proof {
        assert(reader.remaining() =~= b.skip(1));
    }
    let name = match parse_nbt_string(reader) {
        Ok(s) => s,
        Err(e) => {
            return Err(e);
        },
    };
    let ghost c1 = reader.pos - old(reader).pos - 1;
    proof {
        assert(spec_parse_str(b.skip(1)) == Ok::<_, ParseError>((name@, c1)));
        assert(reader.remaining() =~= b.skip(1 + c1));
    }
    let tag = match parse_tag_payload_at(reader, tag_type, NBT_MAX_DEPTH) {
        Ok(t) => t,
        Err(e) => {
            return Err(e);
        },
    };
    Ok((name, tag))
}

} // verus!
