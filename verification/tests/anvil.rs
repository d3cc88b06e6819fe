use anvil_nbt::encode::write_named_tag;
use anvil_nbt::region::{coordinate_to_slot, CompressionType, Region, RegionError, SECTOR_SIZE};
use anvil_nbt::region_writer::RegionWriter;
use anvil_nbt::tag::NbtTag;
use std::io::{Read, Write};

#[test]
fn test_complex_nbt_round_trip_gzip() {
    let mut root_map: Vec<(String, NbtTag)> = Vec::new();

    root_map.push(("byte".to_string(), NbtTag::Byte(127)));
    root_map.push(("short".to_string(), NbtTag::Short(32767)));
    root_map.push(("int".to_string(), NbtTag::Int(2147483647)));

    let list = vec![
        NbtTag::String("A".to_string()),
        NbtTag::String("B".to_string()),
        NbtTag::String("C".to_string()),
    ];
    root_map.push(("list".to_string(), NbtTag::List(list)));

    root_map.push(("intArray".to_string(), NbtTag::IntArray(vec![1, 2, 3])));

    let mut nested: Vec<(String, NbtTag)> = Vec::new();
    nested.push(("key".to_string(), NbtTag::String("value".to_string())));
    root_map.push(("nested".to_string(), NbtTag::Compound(nested)));

    let root = NbtTag::Compound(root_map);

    let mut raw_buf = Vec::new();
    write_named_tag(&mut raw_buf, "Level", &root).expect("Failed to encode");

    let mut gzipped = Vec::new();
    let mut encoder = flate2::write::GzEncoder::new(&mut gzipped, flate2::Compression::default());
    encoder.write_all(&raw_buf).expect("Failed to gzip");
    encoder.finish().expect("Failed to finish gzip");

    let mut decoder = flate2::read::GzDecoder::new(&gzipped[..]);
    let mut unzipped = Vec::new();
    decoder
        .read_to_end(&mut unzipped)
        .expect("Failed to gunzip");
    assert_eq!(unzipped, raw_buf);

    let mut reader = anvil_nbt::parse::ByteReader::new(&unzipped);
    let (name, decoded) = anvil_nbt::parse::parse_named_tag(&mut reader).expect("Failed to decode");

    assert_eq!(name, "Level");
    assert_eq!(decoded, root);
}

#[test]
fn test_anvil_round_trip() {
    let mut chunks: Vec<(i32, i32, String, NbtTag)> = Vec::new();
    let mut map: Vec<(String, NbtTag)> = Vec::new();
    map.push(("Data".to_string(), NbtTag::Int(123)));
    chunks.push((0, 0, "Chunk".to_string(), NbtTag::Compound(map)));

    let mut writer = RegionWriter::new();
    writer.write_all_chunks(&chunks).unwrap();
    let bytes = writer.into_data();

    let region = Region::new(bytes).unwrap();
    let (name, tag) = region.get_chunk_nbt(0, 0).unwrap().unwrap();
    assert_eq!(name, "Chunk");
    if let NbtTag::Compound(m) = tag {
        assert_eq!(m.len(), 1);
        assert_eq!(m[0].0, "Data");
        assert_eq!(m[0].1, NbtTag::Int(123));
    } else {
        panic!("Not a compound");
    }
}

#[test]
fn test_absent_chunk_is_none() {
    let mut chunks: Vec<(i32, i32, String, NbtTag)> = Vec::new();
    let mut map: Vec<(String, NbtTag)> = Vec::new();
    map.push(("Data".to_string(), NbtTag::Int(123)));
    chunks.push((0, 0, "Chunk".to_string(), NbtTag::Compound(map)));

    let mut writer = RegionWriter::new();
    writer.write_all_chunks(&chunks).unwrap();
    let region = Region::new(writer.into_data()).unwrap();
    assert!(region.get_chunk_nbt(5, 5).unwrap().is_none());
    assert!(region.get_chunk_data(5, 5).unwrap().is_none());
}

#[test]
fn test_coordinate_wrap() {
    assert_eq!(coordinate_to_slot(-1, -1), coordinate_to_slot(31, 31));
    assert_eq!(coordinate_to_slot(-1, -1), 31 * 32 + 31);
    assert_eq!(coordinate_to_slot(0, 0), 0);
    assert_eq!(coordinate_to_slot(33, 1), 1 * 32 + 1);
    assert_eq!(coordinate_to_slot(-32, -64), 0);
}

#[test]
fn test_region_too_small() {
    let r = Region::new(vec![0u8; 100]);
    assert_eq!(r.err(), Some(RegionError::InvalidContainer));
}

fn region_with_record(record: &[u8]) -> Vec<u8> {
    // One chunk at slot 0: offset sector 2, one sector long.
    let mut bytes = vec![0u8; 3 * SECTOR_SIZE];
    bytes[0] = 0;
    bytes[1] = 0;
    bytes[2] = 2;
    bytes[3] = 1;
    bytes[2 * SECTOR_SIZE..2 * SECTOR_SIZE + record.len()].copy_from_slice(record);
    bytes
}

#[test]
fn test_unknown_compression_type() {
    // Length 2: one compression byte (9, unknown) and one payload byte.
    let record = [0, 0, 0, 2, 9, 42];
    let region = Region::new(region_with_record(&record)).unwrap();
    let r = region.get_chunk_data(0, 0);
    assert_eq!(r, Err(RegionError::InvalidCompressionType(9)));
}

#[test]
fn test_corrupt_zlib_stream() {
    let record = [0, 0, 0, 4, 2, 1, 2, 3];
    let region = Region::new(region_with_record(&record)).unwrap();
    let r = region.get_chunk_data(0, 0);
    assert_eq!(r, Err(RegionError::Decompress));
}

#[test]
fn test_uncompressed_chunk_passthrough() {
    // Compression type 3: payload handed through unchanged.
    let mut doc = Vec::new();
    write_named_tag(&mut doc, "N", &NbtTag::Byte(7)).unwrap();
    let mut record = vec![0, 0, 0, (doc.len() + 1) as u8, 3];
    record.extend_from_slice(&doc);
    let region = Region::new(region_with_record(&record)).unwrap();
    let data = region.get_chunk_data(0, 0).unwrap().unwrap();
    assert_eq!(data, doc);
    let (name, tag) = region.get_chunk_nbt(0, 0).unwrap().unwrap();
    assert_eq!(name, "N");
    assert_eq!(tag, NbtTag::Byte(7));
}

#[test]
fn test_gzip_chunk() {
    // Compression type 1: payload gzipped by flate2 in this test.
    let mut doc = Vec::new();
    write_named_tag(&mut doc, "G", &NbtTag::Int(-5)).unwrap();
    let mut gz = Vec::new();
    let mut encoder = flate2::write::GzEncoder::new(&mut gz, flate2::Compression::default());
    encoder.write_all(&doc).unwrap();
    encoder.finish().unwrap();
    let mut record = vec![0, 0, 0, (gz.len() + 1) as u8, 1];
    record.extend_from_slice(&gz);
    let region = Region::new(region_with_record(&record)).unwrap();
    let data = region.get_chunk_data(0, 0).unwrap().unwrap();
    assert_eq!(data, doc);
    let (name, tag) = region.get_chunk_nbt(0, 0).unwrap().unwrap();
    assert_eq!(name, "G");
    assert_eq!(tag, NbtTag::Int(-5));
}

#[test]
fn test_written_chunk_is_zlib_compressed() {
    // The stored payload must be a genuine zlib stream of the document,
    // not the raw bytes.
    let mut chunks: Vec<(i32, i32, String, NbtTag)> = Vec::new();
    let mut map: Vec<(String, NbtTag)> = Vec::new();
    map.push(("K".to_string(), NbtTag::String("VVVVVVVVVVVVVVVV".to_string())));
    chunks.push((3, 4, "C".to_string(), NbtTag::Compound(map)));
    let mut writer = RegionWriter::new();
    writer.write_all_chunks(&chunks).unwrap();
    let bytes = writer.into_data();

    let slot = coordinate_to_slot(3, 4);
    let offset = ((bytes[4 * slot] as usize) << 16)
        | ((bytes[4 * slot + 1] as usize) << 8)
        | (bytes[4 * slot + 2] as usize);
    assert_eq!(offset, 2);
    let start = offset * SECTOR_SIZE;
    let len = u32::from_be_bytes([
        bytes[start],
        bytes[start + 1],
        bytes[start + 2],
        bytes[start + 3],
    ]) as usize;
    assert_eq!(bytes[start + 4], 2);
    let payload = &bytes[start + 5..start + 4 + len];

    let mut map2: Vec<(String, NbtTag)> = Vec::new();
    map2.push(("K".to_string(), NbtTag::String("VVVVVVVVVVVVVVVV".to_string())));
    let mut doc = Vec::new();
    write_named_tag(&mut doc, "C", &NbtTag::Compound(map2)).unwrap();
    assert_ne!(payload, &doc[..]);
    let mut decoder = flate2::read::ZlibDecoder::new(payload);
    let mut out = Vec::new();
    decoder.read_to_end(&mut out).unwrap();
    assert_eq!(out, doc);
}

#[test]
fn test_compression_type_bytes() {
    assert_eq!(CompressionType::Gzip.to_byte(), 1);
    assert_eq!(CompressionType::Zlib.to_byte(), 2);
    assert_eq!(CompressionType::Plain.to_byte(), 3);
    assert_eq!(CompressionType::from_byte(2), Ok(CompressionType::Zlib));
    assert_eq!(CompressionType::from_byte(7), Err(7));
}

#[test]
fn test_writer_output_shape() {
    let chunks: Vec<(i32, i32, String, NbtTag)> = Vec::new();
    let mut writer = RegionWriter::new();
    writer.write_all_chunks(&chunks).unwrap();
    let bytes = writer.into_data();
    assert_eq!(bytes.len(), 2 * SECTOR_SIZE);
    assert!(bytes.iter().all(|&b| b == 0));
}

#[test]
fn test_header_accessors() {
    let record = [0, 0, 0, 2, 3, 0];
    let region = Region::new(region_with_record(&record)).unwrap();
    let loc = region.location_at(0, 0);
    assert_eq!(loc.offset, 2);
    assert_eq!(loc.sector_count, 1);
    assert_eq!(region.timestamp_at(0, 0), 0);
    let absent = region.location_at(7, 7);
    assert_eq!(absent.offset, 0);
    assert_eq!(absent.sector_count, 0);
}
