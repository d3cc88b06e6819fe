//! Reading the sector-addressed container format.
//!
//! A container file holds up to 1024 independently compressed documents
//! ("chunks"), addressed by a 32-by-32 coordinate grid.  The first 4096
//! bytes are 1024 four-byte locations (three-byte sector offset, one-byte
//! sector count); the next 4096 bytes are 1024 four-byte timestamps; data
//! sectors follow.  A zero offset, or a zero length field, means the
//! chunk is absent — a success, never an error.

use crate::be::val32;
use crate::parse::{parse_named_tag, spec_parse_named, ByteReader, ParseError, NBT_MAX_DEPTH};
use crate::tag::{NbtTag, TagValue};
use crate::zlib::{gzip_decompress, gzip_inflate, zlib_decompress, zlib_inflate};
use vstd::prelude::*;

verus! {

broadcast use vstd::std_specs::vec::group_vec_axioms, vstd::seq::group_seq_axioms;

/// The size of one sector, in bytes.
pub const SECTOR_SIZE: usize = 4096;

/// Where a chunk sits in the file: its first sector and how many sectors
/// it occupies.  A zero offset means the chunk is absent.
#[derive(Debug, Clone, Copy, PartialEq, Eq, Structural)]
pub struct ChunkLocation {
    /// First sector of the chunk, counted from the start of the file.
    pub offset: u32,
    /// Number of sectors allocated to the chunk.
    pub sector_count: u8,
}

/// The two header sectors, parsed: 1024 locations and 1024 timestamps.
#[derive(Debug)]
pub struct RegionHeader {
    /// Locations for the chunks of the 32-by-32 grid, by slot.
    pub locations: Vec<ChunkLocation>,
    /// Last-modification timestamps, by slot.
    pub timestamps: Vec<u32>,
}

/// How a chunk's payload is compressed on disk.
#[derive(Debug, Clone, Copy, PartialEq, Eq, Structural)]
pub enum CompressionType {
    /// Gzip (wire byte 1).
    Gzip,
    /// Zlib (wire byte 2).
    Zlib,
    /// No compression (wire byte 3).
    Plain,
}

impl CompressionType {
    /// The byte written on disk for this compression type.
    pub fn to_byte(&self) -> (r: u8)
        ensures
            (*self is Gzip ==> r == 1) && (*self is Zlib ==> r == 2) && (*self is Plain ==> r
                == 3),
    {
        match self {
            CompressionType::Gzip => 1,
            CompressionType::Zlib => 2,
            CompressionType::Plain => 3,
        }
    }

    /// Reads a compression type from its disk byte; any other byte is an
    /// error carrying that byte.
    pub fn from_byte(value: u8) -> (r: Result<CompressionType, u8>)
        ensures
            match r {
                Ok(c) => (value == 1 ==> c is Gzip) && (value == 2 ==> c is Zlib) && (value == 3
                    ==> c is Plain) && (1 <= value <= 3),
                Err(b) => b == value && !(1 <= value <= 3),
            },
    {
        match value {
            1 => Ok(CompressionType::Gzip),
            2 => Ok(CompressionType::Zlib),
            3 => Ok(CompressionType::Plain),
            _ => Err(value),
        }
    }
}

/// Errors of the container layer.  Chunk absence is not among them: an
/// absent chunk is `Ok(None)`.
#[derive(Debug, Clone, Copy, PartialEq, Eq)]
pub enum RegionError {
    /// The file is too small for its headers, or a length or offset
    /// field points outside the file.
    InvalidContainer,
    /// The compression-type byte of a chunk record is unknown; carries
    /// that byte.
    InvalidCompressionType(u8),
    /// The compressed payload is not a well-formed stream.
    Decompress,
    /// The decompressed payload is not a well-formed document.
    Parse(ParseError),
}

// ---------------------------------------------------------------------------
// Coordinates and header fields
// ---------------------------------------------------------------------------

/// The header slot of a coordinate pair: both axes wrap modulo 32, with
/// floor semantics, so that negative coordinates wrap from the top.
pub open spec fn slot_spec(x: int, z: int) -> int {
    (z % 32) * 32 + (x % 32)
}

/// One coordinate wrapped into 0..32.
fn wrap32(x: i32) -> (r: usize)
    ensures
        r == (x as int) % 32,
        r < 32,
{
    if x >= 0 {
        (x % 32) as usize
    } else {
        let neg: i64 = -(x as i64);
        let m: i64 = neg % 32;
        proof {
            let q = neg as int / 32;
            vstd::arithmetic::div_mod::lemma_fundamental_div_mod(neg as int, 32);
            vstd::arithmetic::div_mod::lemma_mod_division_less_than_divisor(neg as int, 32);
            if m == 0 {
                vstd::arithmetic::div_mod::lemma_fundamental_div_mod_converse(
                    x as int,
                    32,
                    -q,
                    0,
                );
            } else {
                vstd::arithmetic::div_mod::lemma_fundamental_div_mod_converse(
                    x as int,
                    32,
                    -q - 1,
                    32 - m,
                );
            }
        }
        if m == 0 {
            0
        } else {
            (32 - m) as usize
        }
    }
}

/// Maps chunk coordinates to their header slot.
pub fn coordinate_to_slot(x: i32, z: i32) -> (r: usize)
    ensures
        r == slot_spec(x as int, z as int),
        r < 1024,
{
    let rx = wrap32(x);
    let rz = wrap32(z);
    rz * 32 + rx
}

/// The location record of a slot, read from the first header sector.
pub open spec fn location_spec(d: Seq<u8>, slot: int) -> ChunkLocation
    recommends
        d.len() >= 8192,
        0 <= slot < 1024,
{
    ChunkLocation {
        offset: (d[4 * slot] * 0x10000 + d[4 * slot + 1] * 0x100 + d[4 * slot + 2]) as u32,
        sector_count: d[4 * slot + 3],
    }
}

/// The timestamp of a slot, read from the second header sector.
pub open spec fn timestamp_spec(d: Seq<u8>, slot: int) -> u32
    recommends
        d.len() >= 8192,
        0 <= slot < 1024,
{
    val32(d[4096 + 4 * slot], d[4096 + 4 * slot + 1], d[4096 + 4 * slot + 2], d[4096 + 4 * slot
        + 3])
}

// ---------------------------------------------------------------------------
// Reading chunks
// ---------------------------------------------------------------------------

/// What looking up a chunk's decompressed bytes yields on a container
/// file: absent, the payload, or an error.
pub open spec fn spec_chunk_data(d: Seq<u8>, slot: int) -> Result<Option<Seq<u8>>, RegionError>
    recommends
        d.len() >= 8192,
        0 <= slot < 1024,
{
    let loc = location_spec(d, slot);
    if loc.offset == 0 {
        Ok(None)
    } else {
        let start = loc.offset as int * 4096;
        if start + 5 > d.len() {
            Err(RegionError::InvalidContainer)
        } else {
            let len = val32(d[start], d[start + 1], d[start + 2], d[start + 3]) as int;
            if len < 1 {
                Ok(None)
            } else if start + 4 + len > d.len() {
                Err(RegionError::InvalidContainer)
            } else {
                let ct = d[start + 4];
                let payload = d.subrange(start + 5, start + 4 + len);
                if ct == 1 {
                    match gzip_inflate(payload) {
                        Some(p) => Ok(Some(p)),
                        None => Err(RegionError::Decompress),
                    }
                } else if ct == 2 {
                    match zlib_inflate(payload) {
                        Some(p) => Ok(Some(p)),
                        None => Err(RegionError::Decompress),
                    }
                } else if ct == 3 {
                    Ok(Some(payload))
                } else {
                    Err(RegionError::InvalidCompressionType(ct))
                }
            }
        }
    }
}

/// What looking up and parsing a chunk's document yields.
pub open spec fn spec_chunk_tag(d: Seq<u8>, slot: int) -> Result<
    Option<(Seq<char>, TagValue)>,
    RegionError,
>
    recommends
        d.len() >= 8192,
        0 <= slot < 1024,
{
    match spec_chunk_data(d, slot) {
        Ok(None) => Ok(None),
        Ok(Some(p)) => match spec_parse_named(p, NBT_MAX_DEPTH as nat) {
            Ok(r) => Ok(Some(r.0)),
            Err(e) => Err(RegionError::Parse(e)),
        },
        Err(e) => Err(e),
    }
}

/// A container file held in memory, with its header sectors parsed.
pub struct Region {
    data: Vec<u8>,
    header: RegionHeader,
}

impl Region {
    /// The file's bytes.
    pub closed spec fn bytes(self) -> Seq<u8> {
        self.data@
    }

    /// The header tables mirror the first two sectors.
    pub closed spec fn wf(self) -> bool {
        &&& self.data@.len() >= 8192
        &&& self.header.locations@.len() == 1024
        &&& self.header.timestamps@.len() == 1024
        &&& forall|s: int|
            0 <= s < 1024 ==> #[trigger] self.header.locations@[s] == location_spec(
                self.data@,
                s,
            )
        &&& forall|s: int|
            0 <= s < 1024 ==> #[trigger] self.header.timestamps@[s] == timestamp_spec(
                self.data@,
                s,
            )
    }

    /// Opens a container over its bytes, parsing both header sectors
    /// eagerly.  Fails exactly when the file cannot hold the two header
    /// sectors.
    pub fn new(data: Vec<u8>) -> (r: Result<Region, RegionError>)
        ensures
            match r {
                Ok(rg) => data@.len() >= 8192 && rg.wf() && rg.bytes() == data@,
                Err(e) => e == RegionError::InvalidContainer && data@.len() < 8192,
            },
    {
        if data.len() < 2 * SECTOR_SIZE {
            return Err(RegionError::InvalidContainer);
        }
        let mut locations: Vec<ChunkLocation> = Vec::new();
        let mut i: usize = 0;
        while i < 1024
            invariant
                data@.len() >= 8192,
                i <= 1024,
                locations@.len() == i,
                forall|s: int|
                    0 <= s < i ==> #[trigger] locations@[s] == location_spec(data@, s),
            decreases 1024 - i,
        {
            let b0 = data[4 * i];
            let b1 = data[4 * i + 1];
            let b2 = data[4 * i + 2];
            let b3 = data[4 * i + 3];
            let offset: u32 = (b0 as u32) * 0x10000 + (b1 as u32) * 0x100 + (b2 as u32);
            locations.push(ChunkLocation { offset, sector_count: b3 });
            i += 1;
        }
        let mut timestamps: Vec<u32> = Vec::new();
        let mut j: usize = 0;
        while j < 1024
            invariant
                data@.len() >= 8192,
                j <= 1024,
                timestamps@.len() == j,
                forall|s: int|
                    0 <= s < j ==> #[trigger] timestamps@[s] == timestamp_spec(data@, s),
            decreases 1024 - j,
        {
            let b0 = data[4096 + 4 * j];
            let b1 = data[4096 + 4 * j + 1];
            let b2 = data[4096 + 4 * j + 2];
            let b3 = data[4096 + 4 * j + 3];
            timestamps.push(crate::be::u32_of_bytes(b0, b1, b2, b3));
            j += 1;
        }
        Ok(Region { data, header: RegionHeader { locations, timestamps } })
    }

    /// The location record of a coordinate's slot.
    pub fn location_at(&self, x: i32, z: i32) -> (r: ChunkLocation)
        requires
            self.wf(),
        ensures
            r == location_spec(self.bytes(), slot_spec(x as int, z as int)),
    {
        let slot = coordinate_to_slot(x, z);
        self.header.locations[slot]
    }

    /// The timestamp of a coordinate's slot.
    pub fn timestamp_at(&self, x: i32, z: i32) -> (r: u32)
        requires
            self.wf(),
        ensures
            r == timestamp_spec(self.bytes(), slot_spec(x as int, z as int)),
    {
        let slot = coordinate_to_slot(x, z);
        self.header.timestamps[slot]
    }

    /// The decompressed bytes of the chunk at the given coordinates;
    /// `None` when the chunk is absent.  Coordinates wrap modulo 32.
    pub fn get_chunk_data(&self, x: i32, z: i32) -> (r: Result<Option<Vec<u8>>, RegionError>)
        requires
            self.wf(),
        ensures
            match r {
                Ok(Some(v)) => spec_chunk_data(self.bytes(), slot_spec(x as int, z as int))
                    == Ok::<_, RegionError>(Some(v@)),
                Ok(None) => spec_chunk_data(self.bytes(), slot_spec(x as int, z as int)) == Ok::<
                    Option<Seq<u8>>,
                    RegionError,
                >(None),
                Err(e) => spec_chunk_data(self.bytes(), slot_spec(x as int, z as int)) == Err::<
                    Option<Seq<u8>>,
                    _,
                >(e),
            },
    {
        let slot = coordinate_to_slot(x, z);
        let location = self.header.locations[slot];
        if location.offset == 0 {
            return Ok(None);
        }
        let start64: u64 = (location.offset as u64) * 4096;
        if start64 + 5 > self.data.len() as u64 {
            return Err(RegionError::InvalidContainer);
        }
        let start = start64 as usize;
        let len_field = crate::be::u32_of_bytes(
            self.data[start],
            self.data[start + 1],
            self.data[start + 2],
            self.data[start + 3],
        );
        if len_field < 1 {
            return Ok(None);
        }
        if (len_field as u64) > (self.data.len() - start - 4) as u64 {
            return Err(RegionError::InvalidContainer);
        }
        let len = len_field as usize;
        let ct = self.data[start + 4];
        let payload = vstd::slice::slice_subrange(
            self.data.as_slice(),
            start + 5,
            start + 4 + len,
        );
        proof {
            assert(payload@ =~= self.bytes().subrange(
                start as int + 5,
                start as int + 4 + len as int,
            ));
        }
        if ct == 1 {
            match gzip_decompress(payload) {
                Some(v) => Ok(Some(v)),
                None => Err(RegionError::Decompress),
            }
        } else if ct == 2 {
            match zlib_decompress(payload) {
                Some(v) => Ok(Some(v)),
                None => Err(RegionError::Decompress),
            }
        } else if ct == 3 {
            Ok(Some(vstd::slice::slice_to_vec(payload)))
        } else {
            Err(RegionError::InvalidCompressionType(ct))
        }
    }

    /// The parsed document of the chunk at the given coordinates; `None`
    /// when the chunk is absent.  A present but malformed chunk is an
    /// error, never `None`.
    pub fn get_chunk_nbt(&self, x: i32, z: i32) -> (r: Result<
        Option<(String, NbtTag)>,
        RegionError,
    >)
        requires
            self.wf(),
        ensures
            match r {
                Ok(Some(p)) => spec_chunk_tag(self.bytes(), slot_spec(x as int, z as int))
                    == Ok::<_, RegionError>(Some((p.0@, p.1@))),
                Ok(None) => spec_chunk_tag(self.bytes(), slot_spec(x as int, z as int)) == Ok::<
                    Option<(Seq<char>, TagValue)>,
                    RegionError,
                >(None),
                Err(e) => spec_chunk_tag(self.bytes(), slot_spec(x as int, z as int)) == Err::<
                    Option<(Seq<char>, TagValue)>,
                    _,
                >(e),
            },
    {
        let data = match self.get_chunk_data(x, z) {
            Ok(Some(v)) => v,
            Ok(None) => {
                return Ok(None);
            },
            Err(e) => {
                return Err(e);
            },
        };
        let mut reader = ByteReader::new(data.as_slice());
        match parse_named_tag(&mut reader) {
            Ok(p) => Ok(Some(p)),
            Err(e) => Err(RegionError::Parse(e)),
        }
    }
}

} // verus!
