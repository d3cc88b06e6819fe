//! The codec's round trip: reading back what the writer produced gives
//! the original document.
//!
//! The statement holds for every tree whose lists are homogeneous, whose
//! texts and element counts fit the wire format's length fields, whose
//! nesting fits the parser's depth budget, and which carries no `End`
//! value below the root; each of these is a boundary of the format
//! itself, not of the proof.

use crate::be::{
    be16, be32, be64, lemma_val16_be16, lemma_val32_be32, lemma_val64_be64, to_i32, to_u16,
    to_u32, to_u64, to_u8, val16, val32,
};
use crate::encode::{
    compound_bytes, entry_bytes, ints_bytes, list_bytes, longs_bytes, named_bytes,
    named_sizes_ok, payload_bytes, str_wire,
};
use crate::mutf8::{lemma_mutf8_decode_encode, mutf8_encode};
use crate::parse::{
    ints_of, longs_of, spec_parse_compound, spec_parse_list, spec_parse_named,
    spec_parse_payload, spec_parse_str, ParseError,
};
use crate::tag::{
    all_type, compound_depth, depth_of, entries_homogeneous, entries_no_end, entries_sizes_ok,
    homogeneous, list_depth, no_inner_end, seq_homogeneous, seq_no_end, seq_sizes_ok, sizes_ok,
    str_len_ok, type_id, TagValue,
};
use vstd::prelude::*;

verus! {

broadcast use vstd::seq::group_seq_axioms;

// ---------------------------------------------------------------------------
// Lengths of wire forms
// ---------------------------------------------------------------------------

/// A payload other than `End` occupies at least one byte.
pub proof fn lemma_payload_min(t: TagValue)
    ensures
        !(t is End) ==> payload_bytes(t).len() >= 1,
        t is End ==> payload_bytes(t).len() == 0,
{
}

/// A list body is at least as long as its element count, when no element
/// is an `End`.
pub proof fn lemma_list_bytes_min(elems: Seq<TagValue>)
    requires
        seq_no_end(elems),
    ensures
        list_bytes(elems).len() >= elems.len(),
    decreases elems,
{
    if elems.len() > 0 {
        lemma_payload_min(elems[0]);
        lemma_list_bytes_min(elems.drop_first());
    }
}

/// An integer array body is four bytes per element.
pub proof fn lemma_ints_bytes_len(v: Seq<i32>)
    ensures
        ints_bytes(v).len() == 4 * v.len(),
    decreases v,
{
    if v.len() > 0 {
        lemma_ints_bytes_len(v.drop_first());
    }
}

/// A long array body is eight bytes per element.
pub proof fn lemma_longs_bytes_len(v: Seq<i64>)
    ensures
        longs_bytes(v).len() == 8 * v.len(),
    decreases v,
{
    if v.len() > 0 {
        lemma_longs_bytes_len(v.drop_first());
    }
}

/// The bytes of element `i` of an integer array body.
pub proof fn lemma_ints_bytes_index(v: Seq<i32>, i: int)
    requires
        0 <= i < v.len(),
    ensures
        ints_bytes(v).subrange(4 * i, 4 * i + 4) == be32(to_u32(v[i])),
    decreases i,
{
    lemma_ints_bytes_len(v);
    lemma_ints_bytes_len(v.drop_first());
    if i == 0 {
        assert(ints_bytes(v).subrange(0, 4) =~= be32(to_u32(v[0])));
    } else {
        lemma_ints_bytes_index(v.drop_first(), i - 1);
        assert(v.drop_first()[i - 1] == v[i]);
        assert(ints_bytes(v).subrange(4 * i, 4 * i + 4) =~= ints_bytes(
            v.drop_first(),
        ).subrange(4 * (i - 1), 4 * (i - 1) + 4));
    }
}

/// The bytes of element `i` of a long array body.
pub proof fn lemma_longs_bytes_index(v: Seq<i64>, i: int)
    requires
        0 <= i < v.len(),
    ensures
        longs_bytes(v).subrange(8 * i, 8 * i + 8) == be64(to_u64(v[i])),
    decreases i,
{
    lemma_longs_bytes_len(v);
    lemma_longs_bytes_len(v.drop_first());
    if i == 0 {
        assert(longs_bytes(v).subrange(0, 8) =~= be64(to_u64(v[0])));
    } else {
        lemma_longs_bytes_index(v.drop_first(), i - 1);
        assert(v.drop_first()[i - 1] == v[i]);
        assert(longs_bytes(v).subrange(8 * i, 8 * i + 8) =~= longs_bytes(
            v.drop_first(),
        ).subrange(8 * (i - 1), 8 * (i - 1) + 8));
    }
}

/// Reading back an integer array body gives the elements.
pub proof fn lemma_ints_of_bytes(v: Seq<i32>)
    ensures
        ints_of(ints_bytes(v)) == v,
{
    lemma_ints_bytes_len(v);
    let bs = ints_bytes(v);
    assert forall|i: int| 0 <= i < v.len() implies ints_of(bs)[i] == v[i] by {
        lemma_ints_bytes_index(v, i);
        let sub = bs.subrange(4 * i, 4 * i + 4);
        assert(bs[4 * i] == sub[0] && bs[4 * i + 1] == sub[1] && bs[4 * i + 2] == sub[2] && bs[4
            * i + 3] == sub[3]);
        lemma_val32_be32(to_u32(v[i]));
    }
    assert(ints_of(bs) =~= v);
}

/// Reading back a long array body gives the elements.
pub proof fn lemma_longs_of_bytes(v: Seq<i64>)
    ensures
        longs_of(longs_bytes(v)) == v,
{
    lemma_longs_bytes_len(v);
    let bs = longs_bytes(v);
    assert forall|i: int| 0 <= i < v.len() implies longs_of(bs)[i] == v[i] by {
        lemma_longs_bytes_index(v, i);
        lemma_val64_be64(to_u64(v[i]));
    }
    assert(longs_of(bs) =~= v);
}

// ---------------------------------------------------------------------------
// Reading back a text field
// ---------------------------------------------------------------------------

/// Reading back a length-prefixed text gives the text, whatever follows.
pub proof fn lemma_rt_str(s: Seq<char>, rest: Seq<u8>)
    requires
        str_len_ok(s),
    ensures
        spec_parse_str(str_wire(s) + rest) == Ok::<_, ParseError>(
            (s, str_wire(s).len() as int),
        ),
{
    let m = mutf8_encode(s).len() as int;
    let b = str_wire(s) + rest;
    lemma_val16_be16(m as u16);
    assert(b[0] == be16(m as u16)[0] && b[1] == be16(m as u16)[1]);
    assert(val16(b[0], b[1]) == m as u16);
    assert(b.subrange(2, 2 + m) =~= mutf8_encode(s));
    lemma_mutf8_decode_encode(s);
}


// ---------------------------------------------------------------------------
// Reading back a payload
// ---------------------------------------------------------------------------

/// Reading back an encoded payload gives the value and consumes exactly
/// its bytes, whatever follows them.
#[verifier::rlimit(100)]
#[verifier::spinoff_prover]
pub proof fn lemma_rt_payload(t: TagValue, rest: Seq<u8>, depth: nat)
    requires
        sizes_ok(t),
        homogeneous(t),
        no_inner_end(t),
        depth_of(t) <= depth,
    ensures
        spec_parse_payload(payload_bytes(t) + rest, type_id(t), depth) == Ok::<_, ParseError>(
            (t, payload_bytes(t).len() as int),
        ),
    decreases t,
{
    let b = payload_bytes(t) + rest;
    match t {
        TagValue::End => {
            assert(payload_bytes(t) =~= Seq::<u8>::empty());
        },
        TagValue::Byte(v) => {
            assert(b[0] == to_u8(v));
        },
        TagValue::Short(v) => {
            lemma_val16_be16(to_u16(v));
            assert(b[0] == be16(to_u16(v))[0] && b[1] == be16(to_u16(v))[1]);
        },
        TagValue::Int(v) => {
            lemma_val32_be32(to_u32(v));
            assert(b[0] == be32(to_u32(v))[0] && b[1] == be32(to_u32(v))[1] && b[2] == be32(
                to_u32(v),
            )[2] && b[3] == be32(to_u32(v))[3]);
        },
        TagValue::Long(v) => {
            lemma_val64_be64(to_u64(v));
            assert(b.take(8) =~= be64(to_u64(v)));
        },
        TagValue::Float(v) => {
            lemma_val32_be32(v);
            assert(b[0] == be32(v)[0] && b[1] == be32(v)[1] && b[2] == be32(v)[2] && b[3]
                == be32(v)[3]);
        },
        TagValue::Double(v) => {
            lemma_val64_be64(v);
            assert(b.take(8) =~= be64(v));
        },
        TagValue::ByteArray(v) => {
            let n = v.len() as int;
            lemma_val32_be32(n as u32);
            assert(b[0] == be32(n as u32)[0] && b[1] == be32(n as u32)[1] && b[2] == be32(
                n as u32,
            )[2] && b[3] == be32(n as u32)[3]);
            assert(to_i32(val32(b[0], b[1], b[2], b[3])) == n);
            assert(b.subrange(4, 4 + n) =~= v);
        },
        TagValue::Str(s) => {
            lemma_rt_str(s, rest);
            assert(str_wire(s) + rest =~= b);
        },
        TagValue::List(elems) => {
            let n = elems.len() as int;
            let et = if n == 0 { 0u8 } else { type_id(elems[0]) };
            let body = list_bytes(elems);
            assert(payload_bytes(t) =~= seq![et] + be32(n as u32) + body);
            assert(b[0] == et);
            lemma_val32_be32(n as u32);
            assert(b[1] == be32(n as u32)[0] && b[2] == be32(n as u32)[1] && b[3] == be32(
                n as u32,
            )[2] && b[4] == be32(n as u32)[3]);
            assert(to_i32(val32(b[1], b[2], b[3], b[4])) == n);
            lemma_list_bytes_min(elems);
            assert(b.len() - 5 >= n);
            assert(depth >= 1);
            if n > 0 {
                assert(!(elems[0] is End));
                assert(et != 0);
            }
            assert(b.skip(5) =~= body + rest);
            lemma_rt_list(elems, et, rest, (depth - 1) as nat);
        },
        TagValue::Compound(entries) => {
            assert(depth >= 1);
            assert(payload_bytes(t) =~= compound_bytes(entries) + seq![0u8]);
            assert(b =~= compound_bytes(entries) + (seq![0u8] + rest));
            lemma_rt_compound(entries, seq![0u8] + rest, (depth - 1) as nat);
        },
        TagValue::IntArray(v) => {
            let n = v.len() as int;
            lemma_ints_bytes_len(v);
            lemma_val32_be32(n as u32);
            assert(b[0] == be32(n as u32)[0] && b[1] == be32(n as u32)[1] && b[2] == be32(
                n as u32,
            )[2] && b[3] == be32(n as u32)[3]);
            assert(to_i32(val32(b[0], b[1], b[2], b[3])) == n);
            assert(b.subrange(4, 4 + 4 * n) =~= ints_bytes(v));
            lemma_ints_of_bytes(v);
        },
        TagValue::LongArray(v) => {
            let n = v.len() as int;
            lemma_longs_bytes_len(v);
            lemma_val32_be32(n as u32);
            assert(b[0] == be32(n as u32)[0] && b[1] == be32(n as u32)[1] && b[2] == be32(
                n as u32,
            )[2] && b[3] == be32(n as u32)[3]);
            assert(to_i32(val32(b[0], b[1], b[2], b[3])) == n);
            assert(b.subrange(4, 4 + 8 * n) =~= longs_bytes(v));
            lemma_longs_of_bytes(v);
        },
    }
}

/// Reading back an encoded run of list elements gives the elements.
#[verifier::rlimit(100)]
#[verifier::spinoff_prover]
pub proof fn lemma_rt_list(elems: Seq<TagValue>, et: u8, rest: Seq<u8>, depth: nat)
    requires
        seq_sizes_ok(elems),
        seq_homogeneous(elems),
        seq_no_end(elems),
        elems.len() == 0 || all_type(elems, type_id(elems[0])),
        elems.len() == 0 || et == type_id(elems[0]),
        list_depth(elems) <= depth,
    ensures
        spec_parse_list(list_bytes(elems) + rest, et, elems.len() as nat, depth) == Ok::<
            _,
            ParseError,
        >((elems, list_bytes(elems).len() as int)),
    decreases elems,
{
    if elems.len() == 0 {
        assert(list_bytes(elems) =~= Seq::<u8>::empty());
        assert(elems =~= Seq::<TagValue>::empty());
    } else {
        let e0 = elems[0];
        let tail = elems.drop_first();
        let b = list_bytes(elems) + rest;
        assert(b =~= payload_bytes(e0) + (list_bytes(tail) + rest));
        lemma_rt_payload(e0, list_bytes(tail) + rest, depth);
        let c0 = payload_bytes(e0).len() as int;
        assert(spec_parse_payload(b, et, depth) == Ok::<_, ParseError>((e0, c0)));
        assert(0 <= c0 <= b.len());
        assert(b.skip(c0) =~= list_bytes(tail) + rest);
        if tail.len() > 0 {
            assert(type_id(tail[0]) == type_id(e0)) by {
                assert(tail[0] == elems[1]);
            }
            assert(all_type(tail, type_id(tail[0]))) by {
                assert(forall|i: int|
                    0 <= i < tail.len() ==> #[trigger] tail[i] == elems[i + 1]);
            }
        }
        lemma_rt_list(tail, et, rest, depth);
        assert(spec_parse_list(b.skip(c0), et, (elems.len() - 1) as nat, depth) == Ok::<
            _,
            ParseError,
        >((tail, list_bytes(tail).len() as int)));
        assert(list_bytes(elems).len() == c0 + list_bytes(tail).len());
        assert(spec_parse_list(b, et, elems.len() as nat, depth) == Ok::<_, ParseError>(
            (seq![e0] + tail, c0 + list_bytes(tail).len() as int),
        ));
        assert(seq![e0] + tail =~= elems);
    }
}

/// Reading back encoded compound entries gives the entries and stops at
/// the closing marker.
#[verifier::rlimit(100)]
#[verifier::spinoff_prover]
pub proof fn lemma_rt_compound(
    entries: Seq<(Seq<char>, TagValue)>,
    after: Seq<u8>,
    depth: nat,
)
    requires
        entries_sizes_ok(entries),
        entries_homogeneous(entries),
        entries_no_end(entries),
        compound_depth(entries) <= depth,
        after.len() >= 1,
        after[0] == 0,
    ensures
        spec_parse_compound(compound_bytes(entries) + after, depth) == Ok::<_, ParseError>(
            (entries, compound_bytes(entries).len() as int + 1),
        ),
    decreases entries,
{
    let b = compound_bytes(entries) + after;
    if entries.len() == 0 {
        assert(compound_bytes(entries) =~= Seq::<u8>::empty());
        assert(entries =~= Seq::<(Seq<char>, TagValue)>::empty());
        assert(b[0] == 0);
        assert(b =~= after);
    } else {
        let e0 = entries[0];
        let tail = entries.drop_first();
        let tt = type_id(e0.1);
        assert(entry_bytes(e0) =~= seq![tt] + str_wire(e0.0) + payload_bytes(e0.1));
        assert(b =~= seq![tt] + str_wire(e0.0) + payload_bytes(e0.1) + (compound_bytes(tail)
            + after));
        assert(b[0] == tt);
        assert(tt != 0);
        let c1 = str_wire(e0.0).len() as int;
        assert(b.skip(1) =~= str_wire(e0.0) + (payload_bytes(e0.1) + (compound_bytes(tail)
            + after)));
        lemma_rt_str(e0.0, payload_bytes(e0.1) + (compound_bytes(tail) + after));
        assert(spec_parse_str(b.skip(1)) == Ok::<_, ParseError>((e0.0, c1)));
        let c2 = payload_bytes(e0.1).len() as int;
        assert(b.skip(1 + c1) =~= payload_bytes(e0.1) + (compound_bytes(tail) + after));
        assert(depth_of(e0.1) <= depth) by {
            assert(compound_depth(entries) >= depth_of(e0.1));
        }
        lemma_rt_payload(e0.1, compound_bytes(tail) + after, depth);
        assert(spec_parse_payload(b.skip(1 + c1), tt, depth) == Ok::<_, ParseError>(
            (e0.1, c2),
        ));
        assert(1 <= 1 + c1 + c2 <= b.len());
        assert(b.skip(1 + c1 + c2) =~= compound_bytes(tail) + after);
        lemma_rt_compound(tail, after, depth);
        assert(spec_parse_compound(b.skip(1 + c1 + c2), depth) == Ok::<_, ParseError>(
            (tail, compound_bytes(tail).len() as int + 1),
        ));
        assert(compound_bytes(entries).len() == entry_bytes(e0).len() + compound_bytes(
            tail,
        ).len());
        assert(entry_bytes(e0).len() == 1 + c1 + c2);
        assert(spec_parse_compound(b, depth) == Ok::<_, ParseError>(
            (seq![(e0.0, e0.1)] + tail, 1 + c1 + c2 + (compound_bytes(tail).len() as int + 1)),
        ));
        assert(seq![(e0.0, e0.1)] + tail =~= entries);
        assert(seq![(e0.0, e0.1)][0] == e0);
    }
}

// ---------------------------------------------------------------------------
// The document round trip
// ---------------------------------------------------------------------------

/// Reading back a written document gives its name and tag and consumes
/// exactly its bytes: the codec's round trip, for every tree whose lists
/// are homogeneous, whose texts and counts fit their length fields, whose
/// nesting fits the depth budget, and which carries no `End` value below
/// the root.  The empty document carries no name of its own.
#[verifier::rlimit(100)]
#[verifier::spinoff_prover]
pub proof fn lemma_document_round_trip(name: Seq<char>, t: TagValue, rest: Seq<u8>, depth: nat)
    requires
        named_sizes_ok(name, t),
        homogeneous(t),
        no_inner_end(t),
        depth_of(t) <= depth,
        t is End ==> name.len() == 0,
    ensures
        spec_parse_named(named_bytes(name, t) + rest, depth) == Ok::<_, ParseError>(
            ((name, t), named_bytes(name, t).len() as int),
        ),
{
    let b = named_bytes(name, t) + rest;
    if t is End {
        assert(named_bytes(name, t) =~= seq![0u8]);
        assert(b[0] == 0);
        assert(name =~= Seq::<char>::empty());
    } else {
        let tid = type_id(t);
        assert(named_bytes(name, t) =~= seq![tid] + str_wire(name) + payload_bytes(t));
        assert(b[0] == tid);
        assert(tid != 0);
        let c1 = str_wire(name).len() as int;
        assert(b.skip(1) =~= str_wire(name) + (payload_bytes(t) + rest));
        lemma_rt_str(name, payload_bytes(t) + rest);
        assert(b.skip(1 + c1) =~= payload_bytes(t) + rest);
        lemma_rt_payload(t, rest, depth);
    }
}


// ---------------------------------------------------------------------------
// Truncation safety
// ---------------------------------------------------------------------------

/// A successfully parsed payload of nonzero type consumes at least one
/// byte, and a list consumes at least one byte per element.
proof fn lemma_payload_consumed_min(b: Seq<u8>, id: u8, depth: nat)
    ensures
        id != 0 ==> (spec_parse_payload(b, id, depth) matches Ok(p) ==> p.1 >= 1),
{
    if id == 9 {
        if depth > 0 && b.len() >= 5 {
            let n = to_i32(val32(b[1], b[2], b[3], b[4])) as int;
            if 0 <= n <= b.len() - 5 && !(b[0] == 0 && n > 0) {
                crate::parse::lemma_list_consumed(b.skip(5), b[0], n as nat, (depth - 1) as nat);
            }
        }
    } else if id == 10 {
        if depth > 0 {
            crate::parse::lemma_compound_consumed(b, (depth - 1) as nat);
        }
    }
}

/// A successfully parsed run of elements of nonzero type consumes at
/// least one byte per element.
proof fn lemma_list_consumed_min(b: Seq<u8>, et: u8, n: nat, depth: nat)
    requires
        et != 0,
    ensures
        spec_parse_list(b, et, n, depth) matches Ok(p) ==> p.1 >= n,
    decreases depth, b.len(), n + 1,
{
    if n > 0 {
        match spec_parse_payload(b, et, depth) {
            Ok((t, c)) => {
                lemma_payload_consumed_min(b, et, depth);
                crate::parse::lemma_payload_consumed(b, et, depth);
                lemma_list_consumed_min(b.skip(c), et, (n - 1) as nat, depth);
            },
            Err(_) => {},
        }
    }
}

/// Parsing a text field never looks past what it consumes.
proof fn lemma_str_stable(b: Seq<u8>, k: int)
    requires
        spec_parse_str(b) is Ok,
        spec_parse_str(b)->Ok_0.1 <= k <= b.len(),
    ensures
        spec_parse_str(b.take(k)) == spec_parse_str(b),
{
    let n = val16(b[0], b[1]) as int;
    assert(2 + n <= k <= b.len());
    assert(b.take(k)[0] == b[0] && b.take(k)[1] == b[1]);
    assert(b.take(k).subrange(2, 2 + n) =~= b.subrange(2, 2 + n));
}

/// A text field cut short fails with the end-of-input error.
proof fn lemma_str_truncate(b: Seq<u8>, k: int)
    requires
        spec_parse_str(b) is Ok,
        0 <= k < spec_parse_str(b)->Ok_0.1,
    ensures
        spec_parse_str(b.take(k)) == Err::<(Seq<char>, int), _>(ParseError::UnexpectedEof),
{
    if k >= 2 {
        assert(b.take(k)[0] == b[0] && b.take(k)[1] == b[1]);
    }
}

/// Parsing a payload never looks past what it consumes.
#[verifier::rlimit(100)]
#[verifier::spinoff_prover]
proof fn lemma_payload_stable(b: Seq<u8>, id: u8, depth: nat, k: int)
    requires
        spec_parse_payload(b, id, depth) is Ok,
        spec_parse_payload(b, id, depth)->Ok_0.1 <= k <= b.len(),
    ensures
        spec_parse_payload(b.take(k), id, depth) == spec_parse_payload(b, id, depth),
    decreases depth, b.len(), 0int,
{
    let t = b.take(k);
    crate::parse::lemma_payload_consumed(b, id, depth);
    let c = spec_parse_payload(b, id, depth)->Ok_0.1;
    if id == 0 {
    } else if 1 <= id <= 6 {
        assert(forall|i: int| 0 <= i < k ==> t[i] == b[i]);
        if id == 4 || id == 6 {
            assert(t.take(8) =~= b.take(8));
        }
    } else if id == 7 {
        let n = to_i32(val32(b[0], b[1], b[2], b[3])) as int;
        assert(t[0] == b[0] && t[1] == b[1] && t[2] == b[2] && t[3] == b[3]);
        assert(t.subrange(4, 4 + n) =~= b.subrange(4, 4 + n));
    } else if id == 8 {
        lemma_str_stable(b, k);
    } else if id == 9 {
        let et = b[0];
        let n = to_i32(val32(b[1], b[2], b[3], b[4])) as int;
        let d1 = (depth - 1) as nat;
        let inner = spec_parse_list(b.skip(5), et, n as nat, d1);
        crate::parse::lemma_list_consumed(b.skip(5), et, n as nat, d1);
        if et != 0 {
            lemma_list_consumed_min(b.skip(5), et, n as nat, d1);
        }
        assert(k >= 5);
        assert(t[0] == b[0] && t[1] == b[1] && t[2] == b[2] && t[3] == b[3] && t[4] == b[4]);
        assert(n <= t.len() - 5) by {
            assert(inner->Ok_0.1 >= n || n == 0);
        }
        assert(t.skip(5) =~= b.skip(5).take(k - 5));
        lemma_list_stable(b.skip(5), et, n as nat, d1, k - 5);
    } else if id == 10 {
        let d1 = (depth - 1) as nat;
        crate::parse::lemma_compound_consumed(b, d1);
        lemma_compound_stable(b, d1, k);
    } else if id == 11 {
        let n = to_i32(val32(b[0], b[1], b[2], b[3])) as int;
        assert(t[0] == b[0] && t[1] == b[1] && t[2] == b[2] && t[3] == b[3]);
        assert(t.subrange(4, 4 + 4 * n) =~= b.subrange(4, 4 + 4 * n));
    } else if id == 12 {
        let n = to_i32(val32(b[0], b[1], b[2], b[3])) as int;
        assert(t[0] == b[0] && t[1] == b[1] && t[2] == b[2] && t[3] == b[3]);
        assert(t.subrange(4, 4 + 8 * n) =~= b.subrange(4, 4 + 8 * n));
    }
}

/// Parsing a run of elements never looks past what it consumes.
#[verifier::rlimit(100)]
#[verifier::spinoff_prover]
proof fn lemma_list_stable(b: Seq<u8>, et: u8, n: nat, depth: nat, k: int)
    requires
        spec_parse_list(b, et, n, depth) is Ok,
        spec_parse_list(b, et, n, depth)->Ok_0.1 <= k <= b.len(),
    ensures
        spec_parse_list(b.take(k), et, n, depth) == spec_parse_list(b, et, n, depth),
    decreases depth, b.len(), n + 1,
{
    crate::parse::lemma_list_consumed(b, et, n, depth);
    if n > 0 {
        let p0 = spec_parse_payload(b, et, depth)->Ok_0;
        let c0 = p0.1;
        crate::parse::lemma_payload_consumed(b, et, depth);
        crate::parse::lemma_list_consumed(b.skip(c0), et, (n - 1) as nat, depth);
        lemma_payload_stable(b, et, depth, k);
        assert(b.take(k).skip(c0) =~= b.skip(c0).take(k - c0));
        lemma_list_stable(b.skip(c0), et, (n - 1) as nat, depth, k - c0);
    }
}

/// Parsing compound entries never looks past what it consumes.
#[verifier::rlimit(100)]
#[verifier::spinoff_prover]
proof fn lemma_compound_stable(b: Seq<u8>, depth: nat, k: int)
    requires
        spec_parse_compound(b, depth) is Ok,
        spec_parse_compound(b, depth)->Ok_0.1 <= k <= b.len(),
    ensures
        spec_parse_compound(b.take(k), depth) == spec_parse_compound(b, depth),
    decreases depth, b.len(), 0int,
{
    let t = b.take(k);
    crate::parse::lemma_compound_consumed(b, depth);
    assert(t[0] == b[0]);
    if b[0] != 0 {
        let ps = spec_parse_str(b.skip(1))->Ok_0;
        let c1 = ps.1;
        let pp = spec_parse_payload(b.skip(1 + c1), b[0], depth)->Ok_0;
        let c2 = pp.1;
        crate::parse::lemma_payload_consumed(b.skip(1 + c1), b[0], depth);
        crate::parse::lemma_compound_consumed(b.skip(1 + c1 + c2), depth);
        assert(t.skip(1) =~= b.skip(1).take(k - 1));
        lemma_str_stable(b.skip(1), k - 1);
        assert(t.skip(1 + c1) =~= b.skip(1 + c1).take(k - 1 - c1));
        lemma_payload_stable(b.skip(1 + c1), b[0], depth, k - 1 - c1);
        assert(t.skip(1 + c1 + c2) =~= b.skip(1 + c1 + c2).take(k - 1 - c1 - c2));
        lemma_compound_stable(b.skip(1 + c1 + c2), depth, k - 1 - c1 - c2);
    }
}

/// A payload cut short fails with the end-of-input error.
#[verifier::rlimit(100)]
#[verifier::spinoff_prover]
proof fn lemma_payload_truncate(b: Seq<u8>, id: u8, depth: nat, k: int)
    requires
        spec_parse_payload(b, id, depth) is Ok,
        0 <= k < spec_parse_payload(b, id, depth)->Ok_0.1,
    ensures
        spec_parse_payload(b.take(k), id, depth) == Err::<(TagValue, int), _>(
            ParseError::UnexpectedEof,
        ),
    decreases depth, b.len(), 0int,
{
    crate::parse::lemma_payload_consumed(b, id, depth);
    let t = b.take(k);
    let c = spec_parse_payload(b, id, depth)->Ok_0.1;
    assert forall|i: int| 0 <= i < k implies t[i] == b[i] by {}
    if id == 0 {
    } else if 1 <= id <= 6 {
    } else if id == 7 {
        let n = to_i32(val32(b[0], b[1], b[2], b[3])) as int;
        if k >= 4 {
            assert(t.len() - 4 < n);
        }
    } else if id == 8 {
        lemma_str_truncate(b, k);
    } else if id == 9 {
        let et = b[0];
        let n = to_i32(val32(b[1], b[2], b[3], b[4])) as int;
        let d1 = (depth - 1) as nat;
        if k >= 5 {
            let inner = spec_parse_list(b.skip(5), et, n as nat, d1);
            crate::parse::lemma_list_consumed(b.skip(5), et, n as nat, d1);
            assert(t.skip(5) =~= b.skip(5).take(k - 5));
            if n <= k - 5 {
                lemma_list_truncate(b.skip(5), et, n as nat, d1, k - 5);
            }
        }
    } else if id == 10 {
        let d1 = (depth - 1) as nat;
        crate::parse::lemma_compound_consumed(b, d1);
        lemma_compound_truncate(b, d1, k);
    } else if id == 11 {
        let n = to_i32(val32(b[0], b[1], b[2], b[3])) as int;
        if k >= 4 {
            assert(t.len() - 4 < 4 * n);
        }
    } else if id == 12 {
        let n = to_i32(val32(b[0], b[1], b[2], b[3])) as int;
        if k >= 4 {
            assert(t.len() - 4 < 8 * n);
        }
    }
}

/// A run of elements cut short fails with the end-of-input error.
#[verifier::rlimit(100)]
#[verifier::spinoff_prover]
proof fn lemma_list_truncate(b: Seq<u8>, et: u8, n: nat, depth: nat, k: int)
    requires
        spec_parse_list(b, et, n, depth) is Ok,
        0 <= k < spec_parse_list(b, et, n, depth)->Ok_0.1,
    ensures
        spec_parse_list(b.take(k), et, n, depth) == Err::<(Seq<TagValue>, int), _>(
            ParseError::UnexpectedEof,
        ),
    decreases depth, b.len(), n + 1,
{
    crate::parse::lemma_list_consumed(b, et, n, depth);
    let p0 = spec_parse_payload(b, et, depth)->Ok_0;
    let c0 = p0.1;
    crate::parse::lemma_payload_consumed(b, et, depth);
    crate::parse::lemma_list_consumed(b.skip(c0), et, (n - 1) as nat, depth);
    if k < c0 {
        lemma_payload_truncate(b, et, depth, k);
    } else {
        lemma_payload_stable(b, et, depth, k);
        assert(b.take(k).skip(c0) =~= b.skip(c0).take(k - c0));
        lemma_list_truncate(b.skip(c0), et, (n - 1) as nat, depth, k - c0);
    }
}

/// Compound entries cut short fail with the end-of-input error.
#[verifier::rlimit(100)]
#[verifier::spinoff_prover]
proof fn lemma_compound_truncate(b: Seq<u8>, depth: nat, k: int)
    requires
        spec_parse_compound(b, depth) is Ok,
        0 <= k < spec_parse_compound(b, depth)->Ok_0.1,
    ensures
        spec_parse_compound(b.take(k), depth) == Err::<(Seq<(Seq<char>, TagValue)>, int), _>(
            ParseError::UnexpectedEof,
        ),
    decreases depth, b.len(), 0int,
{
    let t = b.take(k);
    crate::parse::lemma_compound_consumed(b, depth);
    if k == 0 {
    } else {
        assert(t[0] == b[0]);
        if b[0] != 0 {
            let ps = spec_parse_str(b.skip(1))->Ok_0;
            let c1 = ps.1;
            assert(t.skip(1) =~= b.skip(1).take(k - 1));
            let pp = spec_parse_payload(b.skip(1 + c1), b[0], depth)->Ok_0;
            let c2 = pp.1;
            crate::parse::lemma_payload_consumed(b.skip(1 + c1), b[0], depth);
            crate::parse::lemma_compound_consumed(b.skip(1 + c1 + c2), depth);
            if k - 1 < c1 {
                lemma_str_truncate(b.skip(1), k - 1);
            } else {
                lemma_str_stable(b.skip(1), k - 1);
                assert(t.skip(1 + c1) =~= b.skip(1 + c1).take(k - 1 - c1));
                if k - 1 - c1 < c2 {
                    lemma_payload_truncate(b.skip(1 + c1), b[0], depth, k - 1 - c1);
                } else {
                    lemma_payload_stable(b.skip(1 + c1), b[0], depth, k - 1 - c1);
                    assert(t.skip(1 + c1 + c2) =~= b.skip(1 + c1 + c2).take(k - 1 - c1 - c2));
                    lemma_compound_truncate(b.skip(1 + c1 + c2), depth, k - 1 - c1 - c2);
                }
            }
        }
    }
}

/// Truncation safety: a byte sequence that parses as a whole document,
/// cut at any earlier point, fails with the end-of-input error — never
/// another error, and never a bogus success.
#[verifier::rlimit(100)]
#[verifier::spinoff_prover]
pub proof fn lemma_truncation_safety(b: Seq<u8>, depth: nat, k: int)
    requires
        spec_parse_named(b, depth) is Ok,
        0 <= k < spec_parse_named(b, depth)->Ok_0.1,
    ensures
        spec_parse_named(b.take(k), depth) == Err::<((Seq<char>, TagValue), int), _>(
            ParseError::UnexpectedEof,
        ),
{
    crate::parse::lemma_named_consumed(b, depth);
    let t = b.take(k);
    if k > 0 {
        assert(t[0] == b[0]);
        if b[0] != 0 {
            let ps = spec_parse_str(b.skip(1))->Ok_0;
            let c1 = ps.1;
            let pp = spec_parse_payload(b.skip(1 + c1), b[0], depth)->Ok_0;
            let c2 = pp.1;
            crate::parse::lemma_payload_consumed(b.skip(1 + c1), b[0], depth);
            assert(t.skip(1) =~= b.skip(1).take(k - 1));
            if k - 1 < c1 {
                lemma_str_truncate(b.skip(1), k - 1);
            } else {
                lemma_str_stable(b.skip(1), k - 1);
                assert(t.skip(1 + c1) =~= b.skip(1 + c1).take(k - 1 - c1));
                lemma_payload_truncate(b.skip(1 + c1), b[0], depth, k - 1 - c1);
            }
        }
    }
}

} // verus!
