//! The tag tree: a closed sum of thirteen variants, each with a numeric
//! type identifier that is serialized on the wire.
//!
//! Floating-point payloads are carried as their IEEE-754 bit patterns
//! (`u32` / `u64`), which is exactly how they stand on the wire: the codec
//! never interprets them as numbers.  A compound is an ordered sequence of
//! named entries; the order is load-bearing for byte-exact round trips, and
//! two compounds with the same entries in different order are different
//! values here.

use crate::mutf8::mutf8_encode;
use vstd::prelude::*;

verus! {

broadcast use vstd::std_specs::vec::group_vec_axioms, vstd::seq::group_seq_axioms;

/// The ghost value of a tag tree: sequences and texts in place of vectors
/// and strings.
pub enum TagValue {
    End,
    Byte(i8),
    Short(i16),
    Int(i32),
    Long(i64),
    Float(u32),
    Double(u64),
    ByteArray(Seq<u8>),
    Str(Seq<char>),
    List(Seq<TagValue>),
    Compound(Seq<(Seq<char>, TagValue)>),
    IntArray(Seq<i32>),
    LongArray(Seq<i64>),
}

/// One node of a tag tree.
#[derive(Debug, PartialEq)]
pub enum NbtTag {
    /// Marker closing a `Compound`; also the empty document's payload.
    End,
    /// A single signed byte.
    Byte(i8),
    /// A 16-bit signed integer.
    Short(i16),
    /// A 32-bit signed integer.
    Int(i32),
    /// A 64-bit signed integer.
    Long(i64),
    /// The bit pattern of a 32-bit IEEE-754 number.
    Float(u32),
    /// The bit pattern of a 64-bit IEEE-754 number.
    Double(u64),
    /// An array of bytes.
    ByteArray(Vec<u8>),
    /// A text, stored as modified UTF-8 on the wire.
    String(String),
    /// A list of tags that are meant to share one variant.
    List(Vec<NbtTag>),
    /// An ordered run of named entries, closed by an `End` marker on the
    /// wire.
    Compound(Vec<(String, NbtTag)>),
    /// An array of 32-bit signed integers.
    IntArray(Vec<i32>),
    /// An array of 64-bit signed integers.
    LongArray(Vec<i64>),
}

impl NbtTag {
    /// The ghost tag tree this node stands for.
    pub open spec fn value(self) -> TagValue
        decreases self,
    {
        match self {
            NbtTag::End => TagValue::End,
            NbtTag::Byte(v) => TagValue::Byte(v),
            NbtTag::Short(v) => TagValue::Short(v),
            NbtTag::Int(v) => TagValue::Int(v),
            NbtTag::Long(v) => TagValue::Long(v),
            NbtTag::Float(v) => TagValue::Float(v),
            NbtTag::Double(v) => TagValue::Double(v),
            NbtTag::ByteArray(v) => TagValue::ByteArray(v@),
            NbtTag::String(s) => TagValue::Str(s@),
            NbtTag::List(v) => TagValue::List(
                Seq::new(
                    v@.len(),
                    |i: int|
                        if 0 <= i < v@.len() {
                            v@[i].value()
                        } else {
                            TagValue::End
                        },
                ),
            ),
            NbtTag::Compound(v) => TagValue::Compound(
                Seq::new(
                    v@.len(),
                    |i: int|
                        if 0 <= i < v@.len() {
                            (v@[i].0@, v@[i].1.value())
                        } else {
                            (Seq::empty(), TagValue::End)
                        },
                ),
            ),
            NbtTag::IntArray(v) => TagValue::IntArray(v@),
            NbtTag::LongArray(v) => TagValue::LongArray(v@),
        }
    }
}

/// The ghost values of a run of tags.
pub open spec fn tags_values(v: Seq<NbtTag>) -> Seq<TagValue> {
    Seq::new(
        v.len(),
        |i: int|
            if 0 <= i < v.len() {
                v[i].value()
            } else {
                TagValue::End
            },
    )
}

/// The ghost values of a run of named entries.
pub open spec fn entries_values(v: Seq<(String, NbtTag)>) -> Seq<(Seq<char>, TagValue)> {
    Seq::new(
        v.len(),
        |i: int|
            if 0 <= i < v.len() {
                (v[i].0@, v[i].1.value())
            } else {
                (Seq::<char>::empty(), TagValue::End)
            },
    )
}

/// The two forms of a list's ghost value agree.
pub broadcast proof fn lemma_list_value(v: Vec<NbtTag>)
    ensures
        (#[trigger] NbtTag::List(v).value()) == TagValue::List(tags_values(v@)),
{
    assert(NbtTag::List(v).value() =~= TagValue::List(tags_values(v@))) by {
        assert(NbtTag::List(v).value()->List_0 =~= tags_values(v@));
    }
}

/// The two forms of a compound's ghost value agree.
pub broadcast proof fn lemma_compound_value(v: Vec<(String, NbtTag)>)
    ensures
        (#[trigger] NbtTag::Compound(v).value()) == TagValue::Compound(entries_values(v@)),
{
    assert(NbtTag::Compound(v).value() =~= TagValue::Compound(entries_values(v@))) by {
        assert(NbtTag::Compound(v).value()->Compound_0 =~= entries_values(v@));
    }
}

impl View for NbtTag {
    type V = TagValue;

    open spec fn view(&self) -> TagValue {
        self.value()
    }
}

/// The type identifier written on the wire for each variant.
pub open spec fn type_id(t: TagValue) -> u8 {
    match t {
        TagValue::End => 0,
        TagValue::Byte(_) => 1,
        TagValue::Short(_) => 2,
        TagValue::Int(_) => 3,
        TagValue::Long(_) => 4,
        TagValue::Float(_) => 5,
        TagValue::Double(_) => 6,
        TagValue::ByteArray(_) => 7,
        TagValue::Str(_) => 8,
        TagValue::List(_) => 9,
        TagValue::Compound(_) => 10,
        TagValue::IntArray(_) => 11,
        TagValue::LongArray(_) => 12,
    }
}

impl NbtTag {
    /// Returns the tag's wire type identifier.
    pub fn get_type_id(&self) -> (r: u8)
        ensures
            r == type_id(self@),
    {
        match self {
            NbtTag::End => 0,
            NbtTag::Byte(_) => 1,
            NbtTag::Short(_) => 2,
            NbtTag::Int(_) => 3,
            NbtTag::Long(_) => 4,
            NbtTag::Float(_) => 5,
            NbtTag::Double(_) => 6,
            NbtTag::ByteArray(_) => 7,
            NbtTag::String(_) => 8,
            NbtTag::List(_) => 9,
            NbtTag::Compound(_) => 10,
            NbtTag::IntArray(_) => 11,
            NbtTag::LongArray(_) => 12,
        }
    }
}

/// A text short enough for its length-prefixed wire form.
pub open spec fn str_len_ok(s: Seq<char>) -> bool {
    mutf8_encode(s).len() <= 0xFFFF
}

/// Every text and every element count in the tree fits its wire field.
/// The encoder succeeds exactly on such trees.
pub open spec fn sizes_ok(t: TagValue) -> bool
    decreases t,
{
    match t {
        TagValue::ByteArray(v) => v.len() <= 0x7FFFFFFF,
        TagValue::Str(s) => str_len_ok(s),
        TagValue::List(elems) => elems.len() <= 0x7FFFFFFF && seq_sizes_ok(elems),
        TagValue::Compound(entries) => entries_sizes_ok(entries),
        TagValue::IntArray(v) => v.len() <= 0x7FFFFFFF,
        TagValue::LongArray(v) => v.len() <= 0x7FFFFFFF,
        _ => true,
    }
}

pub open spec fn seq_sizes_ok(elems: Seq<TagValue>) -> bool
    decreases elems,
{
    elems.len() == 0 || (sizes_ok(elems[0]) && seq_sizes_ok(elems.drop_first()))
}

pub open spec fn entries_sizes_ok(entries: Seq<(Seq<char>, TagValue)>) -> bool
    decreases entries,
{
    entries.len() == 0 || (str_len_ok(entries[0].0) && sizes_ok(entries[0].1)
        && entries_sizes_ok(entries.drop_first()))
}

/// `seq_sizes_ok` says that every element satisfies `sizes_ok`.
pub proof fn lemma_seq_sizes_ok_iff(elems: Seq<TagValue>)
    ensures
        seq_sizes_ok(elems) <==> (forall|i: int|
            0 <= i < elems.len() ==> sizes_ok(#[trigger] elems[i])),
    decreases elems.len(),
{
    if elems.len() == 0 {
    } else {
        let rest = elems.drop_first();
        lemma_seq_sizes_ok_iff(rest);
        if seq_sizes_ok(elems) {
            assert forall|i: int| 0 <= i < elems.len() implies sizes_ok(
                #[trigger] elems[i],
            ) by {
                if i >= 1 {
                    assert(elems[i] == rest[i - 1]);
                    assert(sizes_ok(rest[i - 1]));
                }
            }
        }
        if forall|i: int| 0 <= i < elems.len() ==> sizes_ok(#[trigger] elems[i]) {
            assert forall|i: int| 0 <= i < rest.len() implies sizes_ok(#[trigger] rest[i]) by {
                assert(rest[i] == elems[i + 1]);
                assert(sizes_ok(elems[i + 1]));
            }
            assert(sizes_ok(elems[0]));
        }
    }
}

/// `entries_sizes_ok` says that every entry's name and value fit.
pub proof fn lemma_entries_sizes_ok_iff(entries: Seq<(Seq<char>, TagValue)>)
    ensures
        entries_sizes_ok(entries) <==> (forall|i: int|
            0 <= i < entries.len() ==> str_len_ok(#[trigger] entries[i].0) && sizes_ok(
                entries[i].1,
            )),
    decreases entries.len(),
{
    if entries.len() == 0 {
    } else {
        let rest = entries.drop_first();
        lemma_entries_sizes_ok_iff(rest);
        if entries_sizes_ok(entries) {
            assert(str_len_ok(entries[0].0));
            assert(sizes_ok(entries[0].1));
            assert(entries_sizes_ok(rest));
            assert(forall|i: int|
                0 <= i < rest.len() ==> str_len_ok(#[trigger] rest[i].0) && sizes_ok(
                    rest[i].1,
                ));
            assert forall|i: int| 0 <= i < entries.len() implies str_len_ok(
                #[trigger] entries[i].0,
            ) && sizes_ok(entries[i].1) by {
                if i >= 1 {
                    assert(entries[i] == rest[i - 1]);
                    assert(str_len_ok(rest[i - 1].0) && sizes_ok(rest[i - 1].1));
                }
            }
        }
        if forall|i: int|
            0 <= i < entries.len() ==> str_len_ok(#[trigger] entries[i].0) && sizes_ok(
                entries[i].1,
            ) {
            assert forall|i: int| 0 <= i < rest.len() implies str_len_ok(#[trigger] rest[i].0)
                && sizes_ok(rest[i].1) by {
                assert(rest[i] == entries[i + 1]);
                assert(str_len_ok(entries[i + 1].0) && sizes_ok(entries[i + 1].1));
            }
            assert(str_len_ok(entries[0].0) && sizes_ok(entries[0].1));
        }
    }
}

/// All elements carry the given type identifier.  This is not recursive,
/// so it can be stated as a quantifier.
pub open spec fn all_type(elems: Seq<TagValue>, et: u8) -> bool {
    forall|i: int| 0 <= i < elems.len() ==> type_id(#[trigger] elems[i]) == et
}

/// Every list's elements share the first element's variant, throughout the
/// tree.  The encoder does not check this; a heterogeneous list is a caller
/// error that only shows when the bytes are read back.
pub open spec fn homogeneous(t: TagValue) -> bool
    decreases t,
{
    match t {
        TagValue::List(elems) => (elems.len() == 0 || all_type(elems, type_id(elems[0])))
            && seq_homogeneous(elems),
        TagValue::Compound(entries) => entries_homogeneous(entries),
        _ => true,
    }
}

pub open spec fn seq_homogeneous(elems: Seq<TagValue>) -> bool
    decreases elems,
{
    elems.len() == 0 || (homogeneous(elems[0]) && seq_homogeneous(elems.drop_first()))
}

pub open spec fn entries_homogeneous(entries: Seq<(Seq<char>, TagValue)>) -> bool
    decreases entries,
{
    entries.len() == 0 || (homogeneous(entries[0].1) && entries_homogeneous(
        entries.drop_first(),
    ))
}

/// `seq_homogeneous` says that every element is homogeneous.
pub proof fn lemma_seq_homogeneous_iff(elems: Seq<TagValue>)
    ensures
        seq_homogeneous(elems) <==> (forall|i: int|
            0 <= i < elems.len() ==> homogeneous(#[trigger] elems[i])),
    decreases elems.len(),
{
    if elems.len() == 0 {
    } else {
        let rest = elems.drop_first();
        lemma_seq_homogeneous_iff(rest);
        if seq_homogeneous(elems) {
            assert forall|i: int| 0 <= i < elems.len() implies homogeneous(
                #[trigger] elems[i],
            ) by {
                if i >= 1 {
                    assert(elems[i] == rest[i - 1]);
                    assert(homogeneous(rest[i - 1]));
                }
            }
        }
        if forall|i: int| 0 <= i < elems.len() ==> homogeneous(#[trigger] elems[i]) {
            assert forall|i: int| 0 <= i < rest.len() implies homogeneous(
                #[trigger] rest[i],
            ) by {
                assert(rest[i] == elems[i + 1]);
                assert(homogeneous(elems[i + 1]));
            }
            assert(homogeneous(elems[0]));
        }
    }
}

/// `entries_homogeneous` says that every entry's value is homogeneous.
pub proof fn lemma_entries_homogeneous_iff(entries: Seq<(Seq<char>, TagValue)>)
    ensures
        entries_homogeneous(entries) <==> (forall|i: int|
            0 <= i < entries.len() ==> homogeneous(#[trigger] entries[i].1)),
    decreases entries.len(),
{
    if entries.len() == 0 {
    } else {
        let rest = entries.drop_first();
        lemma_entries_homogeneous_iff(rest);
        if entries_homogeneous(entries) {
            assert forall|i: int| 0 <= i < entries.len() implies homogeneous(
                #[trigger] entries[i].1,
            ) by {
                if i >= 1 {
                    assert(entries[i] == rest[i - 1]);
                    assert(homogeneous(rest[i - 1].1));
                }
            }
        }
        if forall|i: int| 0 <= i < entries.len() ==> homogeneous(#[trigger] entries[i].1) {
            assert forall|i: int| 0 <= i < rest.len() implies homogeneous(
                #[trigger] rest[i].1,
            ) by {
                assert(rest[i] == entries[i + 1]);
                assert(homogeneous(entries[i + 1].1));
            }
            assert(homogeneous(entries[0].1));
        }
    }
}

/// No `End` value sits below the root: an `End` inside a list would force
/// element type zero, and an `End` entry value would write the compound's
/// closing marker early.  Both are caller errors the reader cannot undo.
pub open spec fn no_inner_end(t: TagValue) -> bool
    decreases t,
{
    match t {
        TagValue::List(elems) => seq_no_end(elems),
        TagValue::Compound(entries) => entries_no_end(entries),
        _ => true,
    }
}

pub open spec fn seq_no_end(elems: Seq<TagValue>) -> bool
    decreases elems,
{
    elems.len() == 0 || (!(elems[0] is End) && no_inner_end(elems[0]) && seq_no_end(
        elems.drop_first(),
    ))
}

pub open spec fn entries_no_end(entries: Seq<(Seq<char>, TagValue)>) -> bool
    decreases entries,
{
    entries.len() == 0 || (!(entries[0].1 is End) && no_inner_end(entries[0].1)
        && entries_no_end(entries.drop_first()))
}

/// Nesting depth of the tree: each list or compound level counts one.
pub open spec fn depth_of(t: TagValue) -> nat
    decreases t,
{
    match t {
        TagValue::List(elems) => 1 + list_depth(elems),
        TagValue::Compound(entries) => 1 + compound_depth(entries),
        _ => 0,
    }
}

pub open spec fn list_depth(elems: Seq<TagValue>) -> nat
    decreases elems,
{
    if elems.len() == 0 {
        0
    } else {
        let d0 = depth_of(elems[0]);
        let dr = list_depth(elems.drop_first());
        if d0 >= dr {
            d0
        } else {
            dr
        }
    }
}

pub open spec fn compound_depth(entries: Seq<(Seq<char>, TagValue)>) -> nat
    decreases entries,
{
    if entries.len() == 0 {
        0
    } else {
        let d0 = depth_of(entries[0].1);
        let dr = compound_depth(entries.drop_first());
        if d0 >= dr {
            d0
        } else {
            dr
        }
    }
}

} // verus!
