//! The wire form of a tag tree, and the encoder that produces it.
//!
//! `payload_bytes` is the single source of truth for the byte layout; the
//! executable writer is proved to append exactly those bytes.  The writer
//! fails exactly on trees whose texts or element counts do not fit the
//! format's length fields; it does not check list homogeneity, mirroring
//! the format's convention that a list's element type is taken from its
//! first element.

use crate::be::{be16, be32, be64, push_be16, push_be32, push_be64, to_u16, to_u32, to_u64};
use crate::mutf8::{encode_mutf8, mutf8_encode};
use crate::tag::{
    entries_values, lemma_compound_value, lemma_entries_sizes_ok_iff, lemma_list_value,
    lemma_seq_sizes_ok_iff, sizes_ok, str_len_ok, tags_values, type_id, NbtTag, TagValue,
};
use vstd::prelude::*;

verus! {

broadcast use vstd::std_specs::vec::group_vec_axioms, vstd::seq::group_seq_axioms;

/// Error returned when a tag tree does not fit the wire format's length
/// fields: a text longer than the 16-bit string length, or an element
/// count beyond the 32-bit signed count.
#[derive(Debug, Clone, Copy, PartialEq, Eq)]
pub enum EncodeError {
    /// A text or an element count exceeds its wire length field.
    TooLarge,
}

// ---------------------------------------------------------------------------
// The wire form, as specification
// ---------------------------------------------------------------------------

/// A length-prefixed text: 16-bit byte count, then modified UTF-8.
pub open spec fn str_wire(s: Seq<char>) -> Seq<u8>
    recommends
        str_len_ok(s),
{
    be16(mutf8_encode(s).len() as u16) + mutf8_encode(s)
}

/// The byte of a signed wire byte value.
pub open spec fn byte_wire(v: i8) -> Seq<u8> {
    seq![crate::be::to_u8(v)]
}

/// The payload of one tag, without its type identifier or name.
pub open spec fn payload_bytes(t: TagValue) -> Seq<u8>
    decreases t,
{
    match t {
        TagValue::End => Seq::empty(),
        TagValue::Byte(v) => byte_wire(v),
        TagValue::Short(v) => be16(to_u16(v)),
        TagValue::Int(v) => be32(to_u32(v)),
        TagValue::Long(v) => be64(to_u64(v)),
        TagValue::Float(v) => be32(v),
        TagValue::Double(v) => be64(v),
        TagValue::ByteArray(v) => be32(v.len() as u32) + v,
        TagValue::Str(s) => str_wire(s),
        TagValue::List(elems) => {
            let et = if elems.len() == 0 {
                0u8
            } else {
                type_id(elems[0])
            };
            seq![et] + be32(elems.len() as u32) + list_bytes(elems)
        },
        TagValue::Compound(entries) => compound_bytes(entries) + seq![0u8],
        TagValue::IntArray(v) => be32(v.len() as u32) + ints_bytes(v),
        TagValue::LongArray(v) => be32(v.len() as u32) + longs_bytes(v),
    }
}

/// The payloads of a list's elements, back to back.
pub open spec fn list_bytes(elems: Seq<TagValue>) -> Seq<u8>
    decreases elems,
{
    if elems.len() == 0 {
        Seq::empty()
    } else {
        payload_bytes(elems[0]) + list_bytes(elems.drop_first())
    }
}

/// One compound entry: type identifier, name, payload.
pub open spec fn entry_bytes(e: (Seq<char>, TagValue)) -> Seq<u8>
    decreases e,
{
    seq![type_id(e.1)] + str_wire(e.0) + payload_bytes(e.1)
}

/// A compound's entries, back to back, without the closing marker.
pub open spec fn compound_bytes(entries: Seq<(Seq<char>, TagValue)>) -> Seq<u8>
    decreases entries,
{
    if entries.len() == 0 {
        Seq::empty()
    } else {
        entry_bytes(entries[0]) + compound_bytes(entries.drop_first())
    }
}

/// The elements of an integer array, each four big-endian bytes.
pub open spec fn ints_bytes(v: Seq<i32>) -> Seq<u8>
    decreases v,
{
    if v.len() == 0 {
        Seq::empty()
    } else {
        be32(to_u32(v[0])) + ints_bytes(v.drop_first())
    }
}

/// The elements of a long array, each eight big-endian bytes.
pub open spec fn longs_bytes(v: Seq<i64>) -> Seq<u8>
    decreases v,
{
    if v.len() == 0 {
        Seq::empty()
    } else {
        be64(to_u64(v[0])) + longs_bytes(v.drop_first())
    }
}

/// A whole document: a zero byte for the empty document, otherwise the
/// type identifier, the name, and the payload.
pub open spec fn named_bytes(name: Seq<char>, t: TagValue) -> Seq<u8> {
    if t is End {
        seq![0u8]
    } else {
        seq![type_id(t)] + str_wire(name) + payload_bytes(t)
    }
}

/// When the document writer succeeds: always for the empty document,
/// otherwise exactly when name and tree fit the length fields.
pub open spec fn named_sizes_ok(name: Seq<char>, t: TagValue) -> bool {
    t is End || (str_len_ok(name) && sizes_ok(t))
}

// ---------------------------------------------------------------------------
// Stepping lemmas
// ---------------------------------------------------------------------------

pub proof fn lemma_list_bytes_snoc(elems: Seq<TagValue>, i: int)
    requires
        0 <= i < elems.len(),
    ensures
        list_bytes(elems.take(i + 1)) == list_bytes(elems.take(i)) + payload_bytes(elems[i]),
    decreases i,
{
    let a = elems.take(i + 1);
    let b = elems.take(i);
    if i == 0 {
        assert(a.drop_first() =~= Seq::<TagValue>::empty());
        assert(list_bytes(b) =~= Seq::<u8>::empty());
        assert(list_bytes(a) =~= payload_bytes(elems[0]) + list_bytes(Seq::<TagValue>::empty()));
        assert(payload_bytes(elems[0]) + Seq::<u8>::empty() =~= payload_bytes(elems[0]));
    } else {
        lemma_list_bytes_snoc(elems.drop_first(), i - 1);
        assert(a.drop_first() =~= elems.drop_first().take(i));
        assert(b.drop_first() =~= elems.drop_first().take(i - 1));
        assert(elems.drop_first()[i - 1] == elems[i]);
        assert(list_bytes(a) =~= list_bytes(b) + payload_bytes(elems[i]));
    }
}

pub proof fn lemma_compound_bytes_snoc(entries: Seq<(Seq<char>, TagValue)>, i: int)
    requires
        0 <= i < entries.len(),
    ensures
        compound_bytes(entries.take(i + 1)) == compound_bytes(entries.take(i)) + entry_bytes(
            entries[i],
        ),
    decreases i,
{
    let a = entries.take(i + 1);
    let b = entries.take(i);
    if i == 0 {
        assert(a.drop_first() =~= Seq::<(Seq<char>, TagValue)>::empty());
        assert(compound_bytes(b) =~= Seq::<u8>::empty());
        assert(compound_bytes(a) =~= entry_bytes(entries[0]) + compound_bytes(
            Seq::<(Seq<char>, TagValue)>::empty(),
        ));
        assert(entry_bytes(entries[0]) + Seq::<u8>::empty() =~= entry_bytes(entries[0]));
    } else {
        lemma_compound_bytes_snoc(entries.drop_first(), i - 1);
        assert(a.drop_first() =~= entries.drop_first().take(i));
        assert(b.drop_first() =~= entries.drop_first().take(i - 1));
        assert(entries.drop_first()[i - 1] == entries[i]);
        assert(compound_bytes(a) =~= compound_bytes(b) + entry_bytes(entries[i]));
    }
}

pub proof fn lemma_ints_bytes_snoc(v: Seq<i32>, i: int)
    requires
        0 <= i < v.len(),
    ensures
        ints_bytes(v.take(i + 1)) == ints_bytes(v.take(i)) + be32(to_u32(v[i])),
    decreases i,
{
    let a = v.take(i + 1);
    let b = v.take(i);
    if i == 0 {
        assert(a.drop_first() =~= Seq::<i32>::empty());
        assert(ints_bytes(b) =~= Seq::<u8>::empty());
        assert(ints_bytes(a) =~= be32(to_u32(v[0])) + ints_bytes(Seq::<i32>::empty()));
        assert(be32(to_u32(v[0])) + Seq::<u8>::empty() =~= be32(to_u32(v[0])));
    } else {
        lemma_ints_bytes_snoc(v.drop_first(), i - 1);
        assert(a.drop_first() =~= v.drop_first().take(i));
        assert(b.drop_first() =~= v.drop_first().take(i - 1));
        assert(v.drop_first()[i - 1] == v[i]);
        assert(ints_bytes(a) =~= ints_bytes(b) + be32(to_u32(v[i])));
    }
}

pub proof fn lemma_longs_bytes_snoc(v: Seq<i64>, i: int)
    requires
        0 <= i < v.len(),
    ensures
        longs_bytes(v.take(i + 1)) == longs_bytes(v.take(i)) + be64(to_u64(v[i])),
    decreases i,
{
    let a = v.take(i + 1);
    let b = v.take(i);
    if i == 0 {
        assert(a.drop_first() =~= Seq::<i64>::empty());
        assert(longs_bytes(b) =~= Seq::<u8>::empty());
        assert(longs_bytes(a) =~= be64(to_u64(v[0])) + longs_bytes(Seq::<i64>::empty()));
        assert(be64(to_u64(v[0])) + Seq::<u8>::empty() =~= be64(to_u64(v[0])));
    } else {
        lemma_longs_bytes_snoc(v.drop_first(), i - 1);
        assert(a.drop_first() =~= v.drop_first().take(i));
        assert(b.drop_first() =~= v.drop_first().take(i - 1));
        assert(v.drop_first()[i - 1] == v[i]);
        assert(longs_bytes(a) =~= longs_bytes(b) + be64(to_u64(v[i])));
    }
}

// ---------------------------------------------------------------------------
// The executable writer
// ---------------------------------------------------------------------------

/// Writes a length-prefixed modified-UTF-8 text.  Fails exactly when the
/// encoded text exceeds the 16-bit length field.
pub fn write_nbt_string(out: &mut Vec<u8>, s: &str) -> (r: Result<(), EncodeError>)
    ensures
        r is Ok <==> str_len_ok(s@),
        r is Ok ==> final(out)@ == old(out)@ + str_wire(s@),
        r is Err ==> final(out)@ == old(out)@,
{
    let mut bytes = encode_mutf8(s);
    if bytes.len() > 0xFFFF {
        return Err(EncodeError::TooLarge);
    }
    push_be16(out, bytes.len() as u16);
    out.append(&mut bytes);
    assert(final(out)@ =~= old(out)@ + str_wire(s@));
    Ok(())
}


/// Writes a 32-bit count followed by raw bytes.
fn write_bytes_field(out: &mut Vec<u8>, v: &Vec<u8>)
    requires
        v@.len() <= 0x7FFFFFFF,
    ensures
        final(out)@ == old(out)@ + be32(v@.len() as u32) + v@,
{
    push_be32(out, v.len() as u32);
    let ghost base = out@;
    let n = v.len();
    let mut j: usize = 0;
    proof {
        assert(base + v@.take(0) =~= base);
    }
    while j < n
        invariant
            n == v@.len(),
            j <= n,
            out@ == base + v@.take(j as int),
        decreases n - j,
    {
        out.push(v[j]);
        proof {
            assert(base + v@.take(j as int) + seq![v@[j as int]] =~= base + v@.take(j as int + 1));
        }
        j += 1;
    }
    proof {
        assert(v@.take(n as int) =~= v@);
        assert(out@ =~= old(out)@ + be32(v@.len() as u32) + v@);
    }
}

/// Writes a 32-bit count followed by four big-endian bytes per element.
fn write_ints_field(out: &mut Vec<u8>, v: &Vec<i32>)
    requires
        v@.len() <= 0x7FFFFFFF,
    ensures
        final(out)@ == old(out)@ + be32(v@.len() as u32) + ints_bytes(v@),
{
    push_be32(out, v.len() as u32);
    let ghost base = out@;
    let n = v.len();
    let mut j: usize = 0;
    proof {
        assert(base + ints_bytes(v@.take(0)) =~= base);
    }
    while j < n
        invariant
            n == v@.len(),
            j <= n,
            out@ == base + ints_bytes(v@.take(j as int)),
        decreases n - j,
    {
        push_be32(out, crate::be::wire_of_i32(v[j]));
        proof {
            lemma_ints_bytes_snoc(v@, j as int);
            assert(base + ints_bytes(v@.take(j as int)) + be32(to_u32(v@[j as int])) =~= base
                + ints_bytes(v@.take(j as int + 1)));
        }
        j += 1;
    }
    proof {
        assert(v@.take(n as int) =~= v@);
        assert(out@ =~= old(out)@ + be32(v@.len() as u32) + ints_bytes(v@));
    }
}

/// Writes a 32-bit count followed by eight big-endian bytes per element.
fn write_longs_field(out: &mut Vec<u8>, v: &Vec<i64>)
    requires
        v@.len() <= 0x7FFFFFFF,
    ensures
        final(out)@ == old(out)@ + be32(v@.len() as u32) + longs_bytes(v@),
{
    push_be32(out, v.len() as u32);
    let ghost base = out@;
    let n = v.len();
    let mut j: usize = 0;
    proof {
        assert(base + longs_bytes(v@.take(0)) =~= base);
    }
    while j < n
        invariant
            n == v@.len(),
            j <= n,
            out@ == base + longs_bytes(v@.take(j as int)),
        decreases n - j,
    {
        push_be64(out, crate::be::wire_of_i64(v[j]));
        proof {
            lemma_longs_bytes_snoc(v@, j as int);
            assert(base + longs_bytes(v@.take(j as int)) + be64(to_u64(v@[j as int])) =~= base
                + longs_bytes(v@.take(j as int + 1)));
        }
        j += 1;
    }
    proof {
        assert(v@.take(n as int) =~= v@);
        assert(out@ =~= old(out)@ + be32(v@.len() as u32) + longs_bytes(v@));
    }
}

/// Writes the payload of one tag, without its type identifier or name.
/// Fails exactly when some text or element count in the tree does not fit
/// its length field.
#[verifier::spinoff_prover]
#[verifier::rlimit(100)]
pub fn write_tag_payload(out: &mut Vec<u8>, tag: &NbtTag) -> (r: Result<(), EncodeError>)
    ensures
        r is Ok <==> sizes_ok(tag@),
        r is Ok ==> final(out)@ == old(out)@ + payload_bytes(tag@),
    decreases *tag,
{
    match tag {
        NbtTag::End => {
            assert(final(out)@ =~= old(out)@ + payload_bytes(tag@));
            Ok(())
        },
        NbtTag::Byte(v) => {
            out.push(crate::be::wire_of_i8(*v));
            assert(final(out)@ =~= old(out)@ + payload_bytes(tag@));
            Ok(())
        },
        NbtTag::Short(v) => {
            push_be16(out, crate::be::wire_of_i16(*v));
            Ok(())
        },
        NbtTag::Int(v) => {
            push_be32(out, crate::be::wire_of_i32(*v));
            Ok(())
        },
        NbtTag::Long(v) => {
            push_be64(out, crate::be::wire_of_i64(*v));
            Ok(())
        },
        NbtTag::Float(v) => {
            push_be32(out, *v);
            Ok(())
        },
        NbtTag::Double(v) => {
            push_be64(out, *v);
            Ok(())
        },
        NbtTag::ByteArray(v) => {
            if v.len() > 0x7FFFFFFF {
                return Err(EncodeError::TooLarge);
            }
            write_bytes_field(out, v);
            assert(final(out)@ =~= old(out)@ + payload_bytes(tag@));
            Ok(())
        },
        NbtTag::String(s) => {
            match write_nbt_string(out, s.as_str()) {
                Ok(u) => Ok(u),
                Err(e) => Err(e),
            }
        },
        NbtTag::List(v) => {
            proof {
                lemma_list_value(*v);
                assert(decreases_to!(*tag => *v));
            }
            match write_list(out, v) {
                Ok(_) => {
                    assert(sizes_ok(tag@));
                    Ok(())
                },
                Err(e) => {
                    assert(!sizes_ok(tag@));
                    Err(e)
                },
            }
        },
        NbtTag::Compound(v) => {
            proof {
                lemma_compound_value(*v);
                assert(decreases_to!(*tag => *v));
            }
            match write_compound(out, v) {
                Ok(_) => {
                    assert(sizes_ok(tag@));
                    Ok(())
                },
                Err(e) => {
                    assert(!sizes_ok(tag@));
                    Err(e)
                },
            }
        },
        NbtTag::IntArray(v) => {
            if v.len() > 0x7FFFFFFF {
                return Err(EncodeError::TooLarge);
            }
            write_ints_field(out, v);
            assert(final(out)@ =~= old(out)@ + payload_bytes(tag@));
            Ok(())
        },
        NbtTag::LongArray(v) => {
            if v.len() > 0x7FFFFFFF {
                return Err(EncodeError::TooLarge);
            }
            write_longs_field(out, v);
            assert(final(out)@ =~= old(out)@ + payload_bytes(tag@));
            Ok(())
        },
    }
}


/// Writes a list payload: element type, 32-bit count, then each element's
/// payload.  An empty list is written with element type zero.
#[verifier::rlimit(50)]
fn write_list(out: &mut Vec<u8>, v: &Vec<NbtTag>) -> (r: Result<(), EncodeError>)
    ensures
        r is Ok <==> sizes_ok(TagValue::List(tags_values(v@))),
        r is Ok ==> final(out)@ == old(out)@ + payload_bytes(TagValue::List(tags_values(v@))),
    decreases *v,
{
    let ghost elems = tags_values(v@);
    if v.len() > 0x7FFFFFFF {
        return Err(EncodeError::TooLarge);
    }
    let et: u8 = if v.len() == 0 {
        0
    } else {
        proof {
            assert(elems[0] == v@[0].value());
        }
        v[0].get_type_id()
    };
    out.push(et);
    push_be32(out, v.len() as u32);
    let ghost base = out@;
    let n = v.len();
    let mut j: usize = 0;
    proof {
        assert(base + list_bytes(elems.take(0)) =~= base);
    }
    while j < n
        invariant
            n == v@.len(),
            elems == tags_values(v@),
            j <= n,
            out@ == base + list_bytes(elems.take(j as int)),
            forall|k: int| 0 <= k < j ==> sizes_ok(#[trigger] elems[k]),
        decreases n - j,
    {
        proof {
            assert(elems[j as int] == v@[j as int].value());
            assert(decreases_to!(*v => v@));
            assert(decreases_to!(v@ => v@[j as int]));
        }
        match write_tag_payload(out, &v[j]) {
            Ok(_) => {},
            Err(e) => {
                assert(!sizes_ok(elems[j as int]));
                proof {
                    lemma_seq_sizes_ok_iff(elems);
                }
                assert(!sizes_ok(TagValue::List(elems)));
                return Err(e);
            },
        }
        proof {
            lemma_list_bytes_snoc(elems, j as int);
            assert(base + list_bytes(elems.take(j as int)) + payload_bytes(elems[j as int]) =~=
                base + list_bytes(elems.take(j as int + 1)));
        }
        j += 1;
    }
    proof {
        assert(elems.take(n as int) =~= elems);
        assert(old(out)@ + payload_bytes(TagValue::List(elems)) =~= base + list_bytes(elems));
        lemma_seq_sizes_ok_iff(elems);
        assert(sizes_ok(TagValue::List(elems)));
    }
    Ok(())
}

/// Writes a compound payload: for each entry its type identifier, name and
/// payload, closed by a zero byte.
#[verifier::rlimit(50)]
fn write_compound(out: &mut Vec<u8>, v: &Vec<(String, NbtTag)>) -> (r: Result<(), EncodeError>)
    ensures
        r is Ok <==> sizes_ok(TagValue::Compound(entries_values(v@))),
        r is Ok ==> final(out)@ == old(out)@ + payload_bytes(
            TagValue::Compound(entries_values(v@)),
        ),
    decreases *v,
{
    let ghost entries = entries_values(v@);
    proof {
        assert(entries.len() == v@.len());
    }
    let ghost base = out@;
    let n = v.len();
    let mut j: usize = 0;
    proof {
        assert(base + compound_bytes(entries.take(0)) =~= base);
    }
    while j < n
        invariant
            n == v@.len(),
            entries == entries_values(v@),
            j <= n,
            out@ == base + compound_bytes(entries.take(j as int)),
            forall|k: int|
                0 <= k < j ==> str_len_ok(#[trigger] entries[k].0) && sizes_ok(entries[k].1),
        decreases n - j,
    {
        let ghost mid = out@;
        proof {
            assert(entries.len() == v@.len());
            assert(entries[j as int] == (v@[j as int].0@, v@[j as int].1.value()));
            assert(decreases_to!(*v => v@));
            assert(decreases_to!(v@ => v@[j as int]));
            assert(decreases_to!(v@[j as int] => v@[j as int].1));
        }
        let entry = &v[j];
        out.push(entry.1.get_type_id());
        match write_nbt_string(out, entry.0.as_str()) {
            Ok(_) => {},
            Err(e) => {
                assert(!str_len_ok(entries[j as int].0));
                proof {
                    lemma_entries_sizes_ok_iff(entries);
                }
                assert(!sizes_ok(TagValue::Compound(entries)));
                return Err(e);
            },
        }
        match write_tag_payload(out, &entry.1) {
            Ok(_) => {},
            Err(e) => {
                assert(!sizes_ok(entries[j as int].1));
                proof {
                    assert(entries[j as int].0 == v@[j as int].0@);
                    lemma_entries_sizes_ok_iff(entries);
                }
                assert(!sizes_ok(TagValue::Compound(entries)));
                return Err(e);
            },
        }
        proof {
            assert(str_len_ok(entries[j as int].0));
            assert(sizes_ok(entries[j as int].1));
            lemma_compound_bytes_snoc(entries, j as int);
            assert(out@ =~= mid + entry_bytes(entries[j as int]));
            assert(mid + entry_bytes(entries[j as int]) =~= base + compound_bytes(
                entries.take(j as int + 1),
            ));
        }
        j += 1;
    }
    out.push(0);
    proof {
        assert(entries.take(n as int) =~= entries);
        assert(old(out)@ + payload_bytes(TagValue::Compound(entries)) =~= base + compound_bytes(
            entries,
        ) + seq![0u8]);
        lemma_entries_sizes_ok_iff(entries);
        assert(sizes_ok(TagValue::Compound(entries)));
    }
    Ok(())
}

/// Writes a whole document: a single zero byte for the empty document,
/// otherwise type identifier, name and payload.
pub fn write_named_tag(out: &mut Vec<u8>, name: &str, tag: &NbtTag) -> (r: Result<
    (),
    EncodeError,
>)
    ensures
        r is Ok <==> named_sizes_ok(name@, tag@),
        r is Ok ==> final(out)@ == old(out)@ + named_bytes(name@, tag@),
{
    if tag.get_type_id() == 0 {
        out.push(0);
        assert(final(out)@ =~= old(out)@ + named_bytes(name@, tag@));
        return Ok(());
    }
    out.push(tag.get_type_id());
    match write_nbt_string(out, name) {
        Ok(_) => {},
        Err(e) => {
            return Err(e);
        },
    }
    match write_tag_payload(out, tag) {
        Ok(_) => {},
        Err(e) => {
            return Err(e);
        },
    }
    assert(final(out)@ =~= old(out)@ + named_bytes(name@, tag@));
    Ok(())
}

} // verus!
