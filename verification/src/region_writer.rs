//! Writing a container file.
//!
//! The writer lays chunks out in caller order, each compressed with zlib
//! and padded to a sector boundary, data sectors starting right after the
//! two header sectors; the header tables are produced last.  The whole
//! output is pinned down by `spec_region_file`, a function of the chunk
//! list alone (through the named compression function), so a reader of
//! the contract can follow every byte.

use crate::be::{be32, push_be32};
use crate::encode::{named_bytes, named_sizes_ok, write_named_tag, EncodeError};
use crate::region::{slot_spec, ChunkLocation};
use crate::tag::{NbtTag, TagValue};
use crate::zlib::{zlib_compress, zlib_deflate, zlib_inflate};
use vstd::pervasive::VecAdditionalExecFns;
use vstd::prelude::*;

verus! {

broadcast use vstd::std_specs::vec::group_vec_axioms, vstd::seq::group_seq_axioms;

/// Errors of the container writer.
#[derive(Debug, Clone, Copy, PartialEq, Eq)]
pub enum WriteError {
    /// A chunk's document does not fit the tag format's length fields.
    Encode(EncodeError),
    /// A chunk's compressed record does not fit the one-byte sector
    /// count.
    ChunkTooLarge,
    /// The chunks together overrun the three-byte sector offset.
    RegionFull,
}

/// The ghost value of a chunk list.
pub open spec fn chunks_values(v: Seq<(i32, i32, String, NbtTag)>) -> Seq<
    (int, int, Seq<char>, TagValue),
> {
    Seq::new(
        v.len(),
        |i: int|
            if 0 <= i < v.len() {
                (v[i].0 as int, v[i].1 as int, v[i].2@, v[i].3.value())
            } else {
                (0int, 0int, Seq::<char>::empty(), TagValue::End)
            },
    )
}

/// Sectors needed by a record whose compressed payload has `len` bytes:
/// four length bytes, one compression byte, the payload, rounded up.
pub open spec fn sectors_for(len: int) -> int {
    (len + 5 + 4095) / 4096
}

/// One chunk record: length field (payload plus compression byte),
/// compression byte for zlib, the compressed payload, zero padding to the
/// sector boundary.
pub open spec fn record_for(comp: Seq<u8>) -> Seq<u8> {
    be32((comp.len() + 1) as u32) + seq![2u8] + comp + Seq::new(
        (sectors_for(comp.len() as int) * 4096 - (comp.len() + 5)) as nat,
        |i: int| 0u8,
    )
}

/// The four header bytes of one location record.
pub open spec fn loc_entry_bytes(l: ChunkLocation) -> Seq<u8> {
    seq![
        ((l.offset / 0x10000) % 0x100) as u8,
        ((l.offset / 0x100) % 0x100) as u8,
        (l.offset % 0x100) as u8,
        l.sector_count,
    ]
}

/// The first header sector: the location records back to back.
pub open spec fn loc_table(locs: Seq<ChunkLocation>) -> Seq<u8>
    decreases locs.len(),
{
    if locs.len() == 0 {
        Seq::empty()
    } else {
        loc_entry_bytes(locs[0]) + loc_table(locs.drop_first())
    }
}

/// The empty location table.
pub open spec fn init_locs() -> Seq<ChunkLocation> {
    Seq::new(1024, |i: int| ChunkLocation { offset: 0, sector_count: 0 })
}

/// Lays the chunks out one after the other: threading the location
/// table, the next free sector and the data bytes, or failing as the
/// writer does.
#[verifier::opaque]
pub open spec fn spec_build(
    items: Seq<(int, int, Seq<char>, TagValue)>,
    locs: Seq<ChunkLocation>,
    sector: int,
    body: Seq<u8>,
) -> Result<(Seq<ChunkLocation>, int, Seq<u8>), WriteError>
    decreases items.len(),
{
    if items.len() == 0 {
        Ok((locs, sector, body))
    } else {
        let it = items[0];
        if !named_sizes_ok(it.2, it.3) {
            Err(WriteError::Encode(EncodeError::TooLarge))
        } else {
            let comp = zlib_deflate(named_bytes(it.2, it.3));
            let sc = sectors_for(comp.len() as int);
            if sc > 255 {
                Err(WriteError::ChunkTooLarge)
            } else if sector > 0xFFFFFF {
                Err(WriteError::RegionFull)
            } else {
                spec_build(
                    items.drop_first(),
                    locs.update(
                        slot_spec(it.0, it.1),
                        ChunkLocation { offset: sector as u32, sector_count: sc as u8 },
                    ),
                    sector + sc,
                    body + record_for(comp),
                )
            }
        }
    }
}

/// The whole file the writer produces for a chunk list: location table,
/// zero timestamps, then the data sectors.
pub open spec fn spec_region_file(items: Seq<(int, int, Seq<char>, TagValue)>) -> Result<
    Seq<u8>,
    WriteError,
> {
    match spec_build(items, init_locs(), 2, Seq::empty()) {
        Ok((locs, sector, body)) => Ok(
            loc_table(locs) + Seq::new(4096, |i: int| 0u8) + body,
        ),
        Err(e) => Err(e),
    }
}


/// One step of the layout: a chunk that fits moves the build state
/// forward.
proof fn lemma_build_step(
    pre: Seq<(int, int, Seq<char>, TagValue)>,
    locs: Seq<ChunkLocation>,
    sector: int,
    body: Seq<u8>,
)
    requires
        pre.len() > 0,
        named_sizes_ok(pre[0].2, pre[0].3),
        sectors_for(zlib_deflate(named_bytes(pre[0].2, pre[0].3)).len() as int) <= 255,
        2 <= sector <= 0xFFFFFF,
    ensures
        spec_build(pre, locs, sector, body) == spec_build(
            pre.drop_first(),
            locs.update(
                slot_spec(pre[0].0, pre[0].1),
                ChunkLocation {
                    offset: sector as u32,
                    sector_count: sectors_for(
                        zlib_deflate(named_bytes(pre[0].2, pre[0].3)).len() as int,
                    ) as u8,
                },
            ),
            sector + sectors_for(zlib_deflate(named_bytes(pre[0].2, pre[0].3)).len() as int),
            body + record_for(zlib_deflate(named_bytes(pre[0].2, pre[0].3))),
        ),
{
    reveal(spec_build);
}

/// A chunk that does not fit fails the layout with the writer's error.
proof fn lemma_build_err(
    pre: Seq<(int, int, Seq<char>, TagValue)>,
    locs: Seq<ChunkLocation>,
    sector: int,
    body: Seq<u8>,
)
    requires
        pre.len() > 0,
    ensures
        !named_sizes_ok(pre[0].2, pre[0].3) ==> spec_build(pre, locs, sector, body) == Err::<
            (Seq<ChunkLocation>, int, Seq<u8>),
            _,
        >(WriteError::Encode(EncodeError::TooLarge)),
        (named_sizes_ok(pre[0].2, pre[0].3) && sectors_for(
            zlib_deflate(named_bytes(pre[0].2, pre[0].3)).len() as int,
        ) > 255) ==> spec_build(pre, locs, sector, body) == Err::<
            (Seq<ChunkLocation>, int, Seq<u8>),
            _,
        >(WriteError::ChunkTooLarge),
        (named_sizes_ok(pre[0].2, pre[0].3) && sectors_for(
            zlib_deflate(named_bytes(pre[0].2, pre[0].3)).len() as int,
        ) <= 255 && sector > 0xFFFFFF) ==> spec_build(pre, locs, sector, body) == Err::<
            (Seq<ChunkLocation>, int, Seq<u8>),
            _,
        >(WriteError::RegionFull),
{
    reveal(spec_build);
}

/// An empty chunk list leaves the build state as it stands.
proof fn lemma_build_done(locs: Seq<ChunkLocation>, sector: int, body: Seq<u8>)
    ensures
        spec_build(Seq::<(int, int, Seq<char>, TagValue)>::empty(), locs, sector, body) == Ok::<
            _,
            WriteError,
        >((locs, sector, body)),
{
    reveal(spec_build);
}

/// Accumulates a container file in memory.
pub struct RegionWriter {
    data: Vec<u8>,
}

impl RegionWriter {
    /// The bytes written so far.
    pub closed spec fn buffer(self) -> Seq<u8> {
        self.data@
    }

    /// A writer with nothing written yet.
    pub fn new() -> (r: RegionWriter)
        ensures
            r.buffer() == Seq::<u8>::empty(),
    {
        RegionWriter { data: Vec::new() }
    }

    /// Hands the finished file over.
    pub fn into_data(self) -> (r: Vec<u8>)
        ensures
            r@ == self.buffer(),
    {
        self.data
    }

    /// Writes all chunks, in the given order, then the header tables.
    /// On success the writer holds exactly the file `spec_region_file`
    /// describes; each error comes exactly where that description fails.
    #[verifier::rlimit(100)]
    #[verifier::spinoff_prover]
    pub fn write_all_chunks(&mut self, chunks: &Vec<(i32, i32, String, NbtTag)>) -> (r: Result<
        (),
        WriteError,
    >)
        ensures
            match r {
                Ok(_) => spec_region_file(chunks_values(chunks@)) == Ok::<_, WriteError>(
                    final(self).buffer(),
                ) && (forall|j: int|
                    0 <= j < chunks@.len() ==> #[trigger] zlib_inflate(
                        zlib_deflate(named_bytes(chunks@[j].2@, chunks@[j].3.value())),
                    ) == Some(named_bytes(chunks@[j].2@, chunks@[j].3.value()))),
                Err(e) => spec_region_file(chunks_values(chunks@)) == Err::<Seq<u8>, _>(e),
            },
    {
        let ghost items = chunks_values(chunks@);
        let mut locs: Vec<ChunkLocation> = empty_locations();
        let mut body: Vec<u8> = Vec::new();
        let mut sector: u32 = 2;
        let mut k: usize = 0;
        let n = chunks.len();
        proof {
            assert(items.skip(0) =~= items);
        }
        while k < n
            invariant
                n == chunks@.len(),
                k <= n,
                items == chunks_values(chunks@),
                locs@.len() == 1024,
                2 <= sector <= 0x10000FE,
                (spec_build(items.skip(k as int), locs@, sector as int, body@) == spec_build(
                    items,
                    init_locs(),
                    2,
                    Seq::<u8>::empty(),
                )),
                forall|j: int|
                    0 <= j < k ==> #[trigger] zlib_inflate(
                        zlib_deflate(named_bytes(chunks@[j].2@, chunks@[j].3.value())),
                    ) == Some(named_bytes(chunks@[j].2@, chunks@[j].3.value())),
            decreases n - k,
        {
            let ghost pre_items = items.skip(k as int);
            proof {
                assert(pre_items[0] == items[k as int]);
                assert(items[k as int] == (
                    chunks@[k as int].0 as int,
                    chunks@[k as int].1 as int,
                    chunks@[k as int].2@,
                    chunks@[k as int].3.value(),
                ));
                assert(pre_items.drop_first() =~= items.skip(k as int + 1));
            }
            let chunk = &chunks[k];
            let ghost locs_pre = locs@;
            let ghost body_pre = body@;
            let ghost sector_pre = sector as int;
            match write_one_chunk(&mut body, &mut locs, sector, chunk) {
                Ok(ns) => {
                    proof {
                        lemma_build_step(pre_items, locs_pre, sector_pre, body_pre);
                    }
                    sector = ns;
                },
                Err(e) => {
                    proof {
                        lemma_build_err(pre_items, locs_pre, sector_pre, body_pre);
                    }
                    return Err(e);
                },
            }
            k += 1;
        }
        proof {
            assert(items.skip(n as int) =~= Seq::<(int, int, Seq<char>, TagValue)>::empty());
            lemma_build_done(locs@, sector as int, body@);
        }
        let mut out = build_header(&locs);
        let mut body_moved = body;
        let ghost body_view = body_moved@;
        out.append(&mut body_moved);
        self.data = out;
        proof {
            assert(final(self).buffer() =~= loc_table(locs@) + Seq::new(4096, |q: int| 0u8)
                + body_view);
        }
        Ok(())
    }
}


/// Encodes, compresses and lays out one chunk: appends its record to the
/// body, points its slot at the current sector, and returns the next free
/// sector.
#[verifier::rlimit(100)]
#[verifier::spinoff_prover]
fn write_one_chunk(
    body: &mut Vec<u8>,
    locs: &mut Vec<ChunkLocation>,
    sector: u32,
    chunk: &(i32, i32, String, NbtTag),
) -> (r: Result<u32, WriteError>)
    requires
        old(locs)@.len() == 1024,
        2 <= sector,
    ensures
        final(locs)@.len() == 1024,
        match r {
            Ok(ns) => {
                let comp = zlib_deflate(named_bytes(chunk.2@, chunk.3.value()));
                &&& named_sizes_ok(chunk.2@, chunk.3.value())
                &&& sectors_for(comp.len() as int) <= 255
                &&& sector <= 0xFFFFFF
                &&& final(locs)@ == old(locs)@.update(
                    slot_spec(chunk.0 as int, chunk.1 as int),
                    ChunkLocation {
                        offset: sector,
                        sector_count: sectors_for(comp.len() as int) as u8,
                    },
                )
                &&& final(body)@ == old(body)@ + record_for(comp)
                &&& ns == sector + sectors_for(comp.len() as int)
                &&& zlib_inflate(comp) == Some(named_bytes(chunk.2@, chunk.3.value()))
            },
            Err(e) => {
                let comp = zlib_deflate(named_bytes(chunk.2@, chunk.3.value()));
                ||| (!named_sizes_ok(chunk.2@, chunk.3.value()) && e == WriteError::Encode(
                    EncodeError::TooLarge,
                ))
                ||| (named_sizes_ok(chunk.2@, chunk.3.value()) && sectors_for(comp.len() as int)
                    > 255 && e == WriteError::ChunkTooLarge)
                ||| (named_sizes_ok(chunk.2@, chunk.3.value()) && sectors_for(comp.len() as int)
                    <= 255 && sector > 0xFFFFFF && e == WriteError::RegionFull)
            },
        },
{
    let ghost name_v = chunk.2@;
    let ghost tag_v = chunk.3.value();
    let mut raw: Vec<u8> = Vec::new();
    match write_named_tag(&mut raw, chunk.2.as_str(), &chunk.3) {
        Ok(_) => {},
        Err(e) => {
            assert(e == EncodeError::TooLarge);
            return Err(WriteError::Encode(e));
        },
    }
    proof {
        assert(Seq::<u8>::empty() + named_bytes(name_v, tag_v) =~= named_bytes(name_v, tag_v));
        assert(raw@ == named_bytes(name_v, tag_v));
    }
    let comp = zlib_compress(raw.as_slice());
    proof {
        assert(comp@ == zlib_deflate(named_bytes(name_v, tag_v)));
        lemma_sectors_check(comp@.len() as int);
    }
    if comp.len() > 1044475 {
        return Err(WriteError::ChunkTooLarge);
    }
    if sector > 0xFFFFFF {
        return Err(WriteError::RegionFull);
    }
    let slot = crate::region::coordinate_to_slot(chunk.0, chunk.1);
    let sc = append_record(body, comp);
    locs.set(slot, ChunkLocation { offset: sector, sector_count: sc as u8 });
    Ok(sector + sc as u32)
}

/// The fresh location table: 1024 absent chunks.
fn empty_locations() -> (r: Vec<ChunkLocation>)
    ensures
        r@ == init_locs(),
        r@.len() == 1024,
{
    let mut locs: Vec<ChunkLocation> = Vec::new();
    let mut i: usize = 0;
    while i < 1024
        invariant
            i <= 1024,
            locs@.len() == i,
            forall|s: int| 0 <= s < i ==> #[trigger] locs@[s] == init_locs()[s],
        decreases 1024 - i,
    {
        locs.push(ChunkLocation { offset: 0, sector_count: 0 });
        i += 1;
    }
    proof {
        assert(locs@ =~= init_locs());
    }
    locs
}

/// The sector count claimed in the header exceeds 255 exactly when the
/// compressed payload is longer than this bound allows.
proof fn lemma_sectors_check(len: int)
    requires
        len >= 0,
    ensures
        sectors_for(len) > 255 <==> len > 1044475,
        len <= 1044475 ==> 1 <= sectors_for(len) <= 255,
        sectors_for(len) * 4096 >= len + 5,
{
    vstd::arithmetic::div_mod::lemma_fundamental_div_mod(len + 5 + 4095, 4096);
    vstd::arithmetic::div_mod::lemma_mod_division_less_than_divisor(len + 5 + 4095, 4096);
}

/// Appends one chunk record and says how many sectors it fills.
#[verifier::rlimit(50)]
fn append_record(body: &mut Vec<u8>, comp: Vec<u8>) -> (sc: usize)
    requires
        comp@.len() <= 1044475,
    ensures
        sc == sectors_for(comp@.len() as int),
        1 <= sc <= 255,
        final(body)@ == old(body)@ + record_for(comp@),
{
    proof {
        lemma_sectors_check(comp@.len() as int);
    }
    let total_len = comp.len() + 1;
    let sectors_needed = (total_len + 4 + 4095) / 4096;
    let ghost body_pre = body@;
    push_be32(body, total_len as u32);
    body.push(2);
    let mut comp_moved = comp;
    let ghost comp_view = comp_moved@;
    body.append(&mut comp_moved);
    let record_end = sectors_needed * 4096;
    let written = total_len + 4;
    let mut p: usize = written;
    while p < record_end
        invariant
            p <= record_end,
            written <= p,
            record_end == sectors_for(comp_view.len() as int) * 4096,
            record_end <= 255 * 4096,
            written == comp_view.len() + 5,
            body@ == body_pre + be32((comp_view.len() + 1) as u32) + seq![2u8] + comp_view
                + Seq::new((p - written) as nat, |q: int| 0u8),
        decreases record_end - p,
    {
        body.push(0);
        proof {
            assert(body_pre + be32((comp_view.len() + 1) as u32) + seq![2u8] + comp_view
                + Seq::new((p - written) as nat, |q: int| 0u8) + seq![0u8] =~= body_pre + be32(
                (comp_view.len() + 1) as u32,
            ) + seq![2u8] + comp_view + Seq::new((p + 1 - written) as nat, |q: int| 0u8));
        }
        p += 1;
    }
    proof {
        assert(body@ =~= body_pre + record_for(comp_view));
    }
    sectors_needed
}

/// The two header sectors: the location table, then zero timestamps.
#[verifier::rlimit(50)]
fn build_header(locs: &Vec<ChunkLocation>) -> (out: Vec<u8>)
    requires
        locs@.len() == 1024,
    ensures
        out@ == loc_table(locs@) + Seq::new(4096, |q: int| 0u8),
{
    let mut out: Vec<u8> = Vec::new();
    let mut t: usize = 0;
    while t < 1024
        invariant
            t <= 1024,
            locs@.len() == 1024,
            out@ == loc_table(locs@.take(t as int)),
        decreases 1024 - t,
    {
        let l = locs[t];
        push_be_loc(&mut out, l);
        proof {
            lemma_loc_table_snoc(locs@, t as int);
        }
        t += 1;
    }
    proof {
        assert(locs@.take(1024) =~= locs@);
    }
    let mut z: usize = 0;
    let ghost out_locs = out@;
    while z < 4096
        invariant
            z <= 4096,
            out@ == out_locs + Seq::new(z as nat, |q: int| 0u8),
            out_locs == loc_table(locs@),
        decreases 4096 - z,
    {
        out.push(0);
        proof {
            assert(out_locs + Seq::new(z as nat, |q: int| 0u8) + seq![0u8] =~= out_locs + Seq::new(
                z as nat + 1,
                |q: int| 0u8,
            ));
        }
        z += 1;
    }
    out
}

/// Appends one location record's four header bytes.
fn push_be_loc(out: &mut Vec<u8>, l: ChunkLocation)
    ensures
        final(out)@ == old(out)@ + loc_entry_bytes(l),
{
    proof {
        vstd::arithmetic::div_mod::lemma_mod_division_less_than_divisor(l.offset as int, 0x100);
        vstd::arithmetic::div_mod::lemma_mod_division_less_than_divisor(
            l.offset as int / 0x10000,
            0x100,
        );
        vstd::arithmetic::div_mod::lemma_mod_division_less_than_divisor(
            l.offset as int / 0x100,
            0x100,
        );
    }
    out.push(((l.offset / 0x10000) % 0x100) as u8);
    out.push(((l.offset / 0x100) % 0x100) as u8);
    out.push((l.offset % 0x100) as u8);
    out.push(l.sector_count);
    assert(final(out)@ =~= old(out)@ + loc_entry_bytes(l));
}

/// Growing the table by one location appends that location's bytes.
pub proof fn lemma_loc_table_snoc(locs: Seq<ChunkLocation>, i: int)
    requires
        0 <= i < locs.len(),
    ensures
        loc_table(locs.take(i + 1)) == loc_table(locs.take(i)) + loc_entry_bytes(locs[i]),
    decreases i,
{
    let a = locs.take(i + 1);
    let b = locs.take(i);
    if i == 0 {
        assert(a.drop_first() =~= Seq::<ChunkLocation>::empty());
        assert(loc_table(b) =~= Seq::<u8>::empty());
        assert(loc_table(a) =~= loc_entry_bytes(locs[0]) + loc_table(
            Seq::<ChunkLocation>::empty(),
        ));
        assert(loc_entry_bytes(locs[0]) + Seq::<u8>::empty() =~= loc_entry_bytes(locs[0]));
    } else {
        lemma_loc_table_snoc(locs.drop_first(), i - 1);
        assert(a.drop_first() =~= locs.drop_first().take(i));
        assert(b.drop_first() =~= locs.drop_first().take(i - 1));
        assert(locs.drop_first()[i - 1] == locs[i]);
        assert(loc_table(a) =~= loc_table(b) + loc_entry_bytes(locs[i]));
    }
}


// ---------------------------------------------------------------------------
// Absent chunks stay absent
// ---------------------------------------------------------------------------

/// The location table is four bytes per slot.
pub proof fn lemma_loc_table_len(locs: Seq<ChunkLocation>)
    ensures
        loc_table(locs).len() == 4 * locs.len(),
    decreases locs,
{
    if locs.len() > 0 {
        lemma_loc_table_len(locs.drop_first());
    }
}

/// The four table bytes of slot `s`.
pub proof fn lemma_loc_table_index(locs: Seq<ChunkLocation>, s: int)
    requires
        0 <= s < locs.len(),
    ensures
        loc_table(locs).subrange(4 * s, 4 * s + 4) == loc_entry_bytes(locs[s]),
    decreases s,
{
    lemma_loc_table_len(locs);
    lemma_loc_table_len(locs.drop_first());
    if s == 0 {
        assert(loc_table(locs).subrange(0, 4) =~= loc_entry_bytes(locs[0]));
    } else {
        lemma_loc_table_index(locs.drop_first(), s - 1);
        assert(locs.drop_first()[s - 1] == locs[s]);
        assert(loc_table(locs).subrange(4 * s, 4 * s + 4) =~= loc_table(
            locs.drop_first(),
        ).subrange(4 * (s - 1), 4 * (s - 1) + 4));
    }
}

/// The layout never touches a slot that no chunk maps to.
#[verifier::rlimit(100)]
#[verifier::spinoff_prover]
proof fn lemma_build_untouched(
    items: Seq<(int, int, Seq<char>, TagValue)>,
    locs: Seq<ChunkLocation>,
    sector: int,
    body: Seq<u8>,
    s: int,
)
    requires
        locs.len() == 1024,
        0 <= s < locs.len(),
        forall|i: int|
            0 <= i < items.len() ==> slot_spec(#[trigger] items[i].0, items[i].1) != s,
    ensures
        spec_build(items, locs, sector, body) matches Ok(res) ==> res.0.len() == locs.len()
            && res.0[s] == locs[s],
    decreases items.len(),
{
    reveal(spec_build);
    if items.len() > 0 {
        let it = items[0];
        if named_sizes_ok(it.2, it.3) {
            let comp = zlib_deflate(named_bytes(it.2, it.3));
            let sc = sectors_for(comp.len() as int);
            if sc <= 255 && sector <= 0xFFFFFF {
                let locs2 = locs.update(
                    slot_spec(it.0, it.1),
                    ChunkLocation { offset: sector as u32, sector_count: sc as u8 },
                );
                assert(slot_spec(items[0].0, items[0].1) != s);
                lemma_slot_bounds(it.0, it.1);
                assert(locs2[s] == locs[s]);
                assert forall|i: int| 0 <= i < items.drop_first().len() implies slot_spec(
                    #[trigger] items.drop_first()[i].0,
                    items.drop_first()[i].1,
                ) != s by {
                    assert(items.drop_first()[i] == items[i + 1]);
                    assert(slot_spec(items[i + 1].0, items[i + 1].1) != s);
                }
                lemma_build_untouched(items.drop_first(), locs2, sector + sc, body + record_for(
                    comp,
                ), s);
            }
        }
    }
}

/// A coordinate's slot is one of the 1024 header slots.
pub proof fn lemma_slot_bounds(x: int, z: int)
    ensures
        0 <= slot_spec(x, z) < 1024,
{
    vstd::arithmetic::div_mod::lemma_mod_division_less_than_divisor(x, 32);
    vstd::arithmetic::div_mod::lemma_mod_division_less_than_divisor(z, 32);
}

/// A chunk at a coordinate never written before the write stays absent in
/// the output: looking it up yields `None`, not an error.
pub proof fn lemma_absent_chunk(
    chunks: Seq<(int, int, Seq<char>, TagValue)>,
    file: Seq<u8>,
    x: int,
    z: int,
)
    requires
        spec_region_file(chunks) == Ok::<_, WriteError>(file),
        forall|i: int|
            0 <= i < chunks.len() ==> slot_spec(#[trigger] chunks[i].0, chunks[i].1)
                != slot_spec(x, z),
    ensures
        file.len() >= 8192,
        crate::region::spec_chunk_data(file, slot_spec(x, z)) == Ok::<
            Option<Seq<u8>>,
            crate::region::RegionError,
        >(None),
{
    let s = slot_spec(x, z);
    lemma_slot_bounds(x, z);
    let built = spec_build(chunks, init_locs(), 2, Seq::empty());
    assert(init_locs().len() == 1024);
    lemma_build_untouched(chunks, init_locs(), 2, Seq::empty(), s);
    let locs = built->Ok_0.0;
    assert(locs[s] == init_locs()[s]);
    assert(locs[s] == ChunkLocation { offset: 0, sector_count: 0 });
    lemma_loc_table_len(locs);
    lemma_loc_table_index(locs, s);
    let entry = loc_entry_bytes(locs[s]);
    assert(entry[0] == 0 && entry[1] == 0 && entry[2] == 0 && entry[3] == 0);
    assert(file[4 * s] == 0 && file[4 * s + 1] == 0 && file[4 * s + 2] == 0) by {
        assert(file[4 * s] == loc_table(locs).subrange(4 * s, 4 * s + 4)[0]);
        assert(file[4 * s + 1] == loc_table(locs).subrange(4 * s, 4 * s + 4)[1]);
        assert(file[4 * s + 2] == loc_table(locs).subrange(4 * s, 4 * s + 4)[2]);
    }
    assert(crate::region::location_spec(file, s).offset == 0);
}


// ---------------------------------------------------------------------------
// A written chunk is read back exactly
// ---------------------------------------------------------------------------

/// Writing one chunk and looking its coordinate up in the written file
/// yields exactly that name and tag, provided the document respects the
/// codec's own boundaries (homogeneous lists, no `End` below the root,
/// nesting within the reader's budget).
#[verifier::rlimit(100)]
#[verifier::spinoff_prover]
pub proof fn lemma_single_chunk_read_back(
    x: int,
    z: int,
    name: Seq<char>,
    t: TagValue,
    file: Seq<u8>,
)
    requires
        spec_region_file(seq![(x, z, name, t)]) == Ok::<_, WriteError>(file),
        zlib_inflate(zlib_deflate(named_bytes(name, t))) == Some(named_bytes(name, t)),
        crate::tag::homogeneous(t),
        crate::tag::no_inner_end(t),
        crate::tag::depth_of(t) <= crate::parse::NBT_MAX_DEPTH,
        t is End ==> name.len() == 0,
    ensures
        crate::region::spec_chunk_tag(file, slot_spec(x, z)) == Ok::<
            Option<(Seq<char>, TagValue)>,
            crate::region::RegionError,
        >(Some((name, t))),
{
    reveal(spec_build);
    let items = seq![(x, z, name, t)];
    assert(items[0] == (x, z, name, t));
    assert(items.drop_first() =~= Seq::<(int, int, Seq<char>, TagValue)>::empty());
    assert(named_sizes_ok(name, t));
    let comp = zlib_deflate(named_bytes(name, t));
    let sc = sectors_for(comp.len() as int);
    lemma_sectors_check(comp.len() as int);
    let slot = slot_spec(x, z);
    lemma_slot_bounds(x, z);
    let locs = init_locs().update(slot, ChunkLocation { offset: 2, sector_count: sc as u8 });
    let record = record_for(comp);
    assert(sc <= 255) by {
        if sc > 255 {
            assert(spec_build(items, init_locs(), 2, Seq::empty()) == Err::<
                (Seq<ChunkLocation>, int, Seq<u8>),
                _,
            >(WriteError::ChunkTooLarge));
        }
    }
    lemma_build_done(locs, 2 + sc, Seq::<u8>::empty() + record);
    assert(spec_build(items, init_locs(), 2, Seq::empty()) == Ok::<_, WriteError>(
        (locs, 2 + sc, Seq::<u8>::empty() + record),
    ));
    assert(Seq::<u8>::empty() + record =~= record);
    assert(file =~= loc_table(locs) + Seq::new(4096, |q: int| 0u8) + record);
    lemma_loc_table_len(locs);
    lemma_loc_table_index(locs, slot);
    assert(locs[slot] == ChunkLocation { offset: 2, sector_count: sc as u8 });
    let entry = loc_entry_bytes(locs[slot]);
    assert(entry[0] == 0 && entry[1] == 0 && entry[2] == 2);
    assert(file[4 * slot] == 0 && file[4 * slot + 1] == 0 && file[4 * slot + 2] == 2) by {
        assert(file[4 * slot] == loc_table(locs).subrange(4 * slot, 4 * slot + 4)[0]);
        assert(file[4 * slot + 1] == loc_table(locs).subrange(4 * slot, 4 * slot + 4)[1]);
        assert(file[4 * slot + 2] == loc_table(locs).subrange(4 * slot, 4 * slot + 4)[2]);
    }
    assert(crate::region::location_spec(file, slot).offset == 2);
    let start: int = 8192;
    assert(record.len() == sc * 4096);
    assert(file.len() == 8192 + sc * 4096);
    assert(comp.len() + 5 <= sc * 4096);
    let lenf = (comp.len() + 1) as u32;
    crate::be::lemma_val32_be32(lenf);
    assert forall|i: int| 0 <= i < record.len() implies file[start + i] == record[i] by {}
    assert(file[start] == crate::be::be32(lenf)[0] && file[start + 1] == crate::be::be32(
        lenf,
    )[1] && file[start + 2] == crate::be::be32(lenf)[2] && file[start + 3] == crate::be::be32(
        lenf,
    )[3]) by {
        assert(record[0] == crate::be::be32(lenf)[0]);
        assert(record[1] == crate::be::be32(lenf)[1]);
        assert(record[2] == crate::be::be32(lenf)[2]);
        assert(record[3] == crate::be::be32(lenf)[3]);
    }
    assert(crate::be::val32(file[start], file[start + 1], file[start + 2], file[start + 3])
        == lenf);
    assert(file[start + 4] == 2) by {
        assert(record[4] == 2);
    }
    let payload = file.subrange(start + 5, start + 4 + lenf as int);
    assert(payload =~= comp) by {
        assert(forall|i: int|
            0 <= i < comp.len() ==> record[5 + i] == #[trigger] comp[i]);
    }
    assert(crate::region::spec_chunk_data(file, slot) == Ok::<
        Option<Seq<u8>>,
        crate::region::RegionError,
    >(Some(named_bytes(name, t))));
    assert(named_bytes(name, t) + Seq::<u8>::empty() =~= named_bytes(name, t));
    crate::roundtrip::lemma_document_round_trip(
        name,
        t,
        Seq::empty(),
        crate::parse::NBT_MAX_DEPTH as nat,
    );
}

} // verus!
