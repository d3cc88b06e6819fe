use anvil_nbt::encode::{write_named_tag, write_nbt_string, write_tag_payload, EncodeError};
use anvil_nbt::mutf8::{decode_mutf8, encode_mutf8};
use anvil_nbt::parse::{
    parse_named_tag, parse_nbt_string, parse_tag_payload, ByteReader, ParseError,
};
use anvil_nbt::tag::NbtTag;

#[test]
fn test_parse_string() {
    let data = vec![0, 3, b'h', b'i', b'!'];
    let mut reader = ByteReader::new(&data);
    let s = parse_nbt_string(&mut reader).unwrap();
    assert_eq!(s, "hi!");
    assert!(reader.is_empty());
}

#[test]
fn test_parse_byte() {
    let data = vec![42];
    let mut reader = ByteReader::new(&data);
    let tag = parse_tag_payload(&mut reader, 1).unwrap();
    if let NbtTag::Byte(v) = tag {
        assert_eq!(v, 42);
    } else {
        panic!("Wrong tag type");
    }
}

#[test]
fn test_write_string() {
    let mut buf = Vec::new();
    write_nbt_string(&mut buf, "hi!").unwrap();
    assert_eq!(buf, vec![0, 3, b'h', b'i', b'!']);
}

#[test]
fn test_round_trip_compound() {
    let mut map: Vec<(String, NbtTag)> = Vec::new();
    map.push(("byte".to_string(), NbtTag::Byte(42)));
    map.push(("string".to_string(), NbtTag::String("val".to_string())));
    let root = NbtTag::Compound(map);

    let mut buf = Vec::new();
    write_named_tag(&mut buf, "root", &root).unwrap();

    let mut reader = ByteReader::new(&buf);
    let (name, decoded) = parse_named_tag(&mut reader).unwrap();

    assert_eq!(name, "root");
    assert_eq!(decoded, root);
}

#[test]
fn test_named_byte_document() {
    let data = vec![0x01, 0x00, 0x04, b'n', b'a', b'm', b'e', 0x7F];
    let mut reader = ByteReader::new(&data);
    let (name, tag) = parse_named_tag(&mut reader).unwrap();
    assert_eq!(name, "name");
    assert_eq!(tag, NbtTag::Byte(127));
    assert!(reader.is_empty());
}

#[test]
fn test_decode_embedded_nul() {
    let s = decode_mutf8(&[0xC0, 0x80]).unwrap();
    assert_eq!(s.len(), 1);
    assert_eq!(s.chars().next().unwrap(), '\u{0}');
}

#[test]
fn test_encode_supplementary_character() {
    let bytes = encode_mutf8("\u{1F600}");
    assert_eq!(bytes.len(), 6);
    assert_eq!(bytes, vec![0xED, 0xA0, 0xBD, 0xED, 0xB8, 0x80]);
}

#[test]
fn test_text_round_trip_decode_encode() {
    let original = "hello \u{0} world \u{1F600} caf\u{e9}";
    let bytes = encode_mutf8(original);
    let back = decode_mutf8(&bytes).unwrap();
    assert_eq!(back, original);
}

#[test]
fn test_text_round_trip_encode_decode() {
    // A canonical modified-UTF-8 sequence: ASCII, a two-byte NUL, a
    // two-byte e-acute and a six-byte surrogate pair.
    let bytes = vec![
        b'a', 0xC0, 0x80, 0xC3, 0xA9, 0xED, 0xA0, 0xBD, 0xED, 0xB8, 0x80,
    ];
    let text = decode_mutf8(&bytes).unwrap();
    let back = encode_mutf8(&text);
    assert_eq!(back, bytes);
}

#[test]
fn test_decode_rejects_truncated_group() {
    assert!(decode_mutf8(&[0xC3]).is_err());
    assert!(decode_mutf8(&[0xE1, 0x80]).is_err());
}

#[test]
fn test_decode_rejects_bad_continuation() {
    assert!(decode_mutf8(&[0xC3, 0x28]).is_err());
}

#[test]
fn test_decode_rejects_unpaired_surrogate() {
    // A lone high surrogate (U+D83D) with nothing after it.
    assert!(decode_mutf8(&[0xED, 0xA0, 0xBD]).is_err());
}

#[test]
fn test_invalid_tag_id() {
    let data = vec![0x7F];
    let mut reader = ByteReader::new(&data);
    let r = parse_tag_payload(&mut reader, 13);
    assert_eq!(r, Err(ParseError::InvalidTag(13)));
}

#[test]
fn test_invalid_tag_id_in_document() {
    let data = vec![13, 0x00, 0x00, 0x7F];
    let mut reader = ByteReader::new(&data);
    let r = parse_named_tag(&mut reader);
    assert!(matches!(r, Err(ParseError::InvalidTag(13))));
}

#[test]
fn test_truncation_fails_with_eof() {
    let mut map: Vec<(String, NbtTag)> = Vec::new();
    map.push(("ints".to_string(), NbtTag::IntArray(vec![1, 2, 3])));
    map.push(("text".to_string(), NbtTag::String("value".to_string())));
    let root = NbtTag::Compound(map);
    let mut buf = Vec::new();
    write_named_tag(&mut buf, "root", &root).unwrap();
    for cut in 0..buf.len() {
        let mut reader = ByteReader::new(&buf[..cut]);
        let r = parse_named_tag(&mut reader);
        assert_eq!(r, Err(ParseError::UnexpectedEof), "cut at {}", cut);
    }
}

#[test]
fn test_invalid_string_in_document() {
    // Length 1 string whose byte is a bare continuation byte.
    let data = vec![0x08, 0x00, 0x01, 0x80];
    let mut reader = ByteReader::new(&data);
    let r = parse_named_tag(&mut reader);
    assert_eq!(r, Err(ParseError::InvalidString));
}

#[test]
fn test_depth_limit() {
    // 600 nested lists, each of length one, deeper than the budget.
    let mut data = Vec::new();
    for _ in 0..600 {
        data.extend_from_slice(&[0x09, 0x00, 0x00, 0x00, 0x01]);
    }
    data.push(0x01);
    data.push(0x2A);
    let mut reader = ByteReader::new(&data);
    let r = parse_tag_payload(&mut reader, 9);
    assert_eq!(r, Err(ParseError::DepthExceeded));
}

#[test]
fn test_negative_count_rejected() {
    // A byte array claiming a negative element count.
    let data = vec![0xFF, 0xFF, 0xFF, 0xFF, 0x00];
    let mut reader = ByteReader::new(&data);
    let r = parse_tag_payload(&mut reader, 7);
    assert_eq!(r, Err(ParseError::UnexpectedEof));
}

#[test]
fn test_oversize_list_count_rejected() {
    // A list of bytes claiming far more elements than there are bytes.
    let data = vec![0x01, 0x7F, 0xFF, 0xFF, 0xFF, 0x2A];
    let mut reader = ByteReader::new(&data);
    let r = parse_tag_payload(&mut reader, 9);
    assert_eq!(r, Err(ParseError::UnexpectedEof));
}

#[test]
fn test_string_too_long_to_encode() {
    let long = "a".repeat(70000);
    let mut buf = Vec::new();
    let r = write_nbt_string(&mut buf, &long);
    assert_eq!(r, Err(EncodeError::TooLarge));
}

#[test]
fn test_empty_document() {
    let mut buf = Vec::new();
    write_named_tag(&mut buf, "", &NbtTag::End).unwrap();
    assert_eq!(buf, vec![0x00]);
    let mut reader = ByteReader::new(&buf);
    let (name, tag) = parse_named_tag(&mut reader).unwrap();
    assert_eq!(name, "");
    assert_eq!(tag, NbtTag::End);
}

#[test]
fn test_all_scalar_payloads_round_trip() {
    let mut map: Vec<(String, NbtTag)> = Vec::new();
    map.push(("b".to_string(), NbtTag::Byte(-1)));
    map.push(("s".to_string(), NbtTag::Short(-32768)));
    map.push(("i".to_string(), NbtTag::Int(-2147483648)));
    map.push(("l".to_string(), NbtTag::Long(-9223372036854775808)));
    map.push(("f".to_string(), NbtTag::Float(1.5f32.to_bits())));
    map.push(("d".to_string(), NbtTag::Double(2.25f64.to_bits())));
    map.push(("ba".to_string(), NbtTag::ByteArray(vec![0, 255, 128])));
    map.push(("la".to_string(), NbtTag::LongArray(vec![-1, 0, 1])));
    map.push(("empty_list".to_string(), NbtTag::List(vec![])));
    let root = NbtTag::Compound(map);
    let mut buf = Vec::new();
    write_named_tag(&mut buf, "root", &root).unwrap();
    let mut reader = ByteReader::new(&buf);
    let (name, decoded) = parse_named_tag(&mut reader).unwrap();
    assert_eq!(name, "root");
    assert_eq!(decoded, root);
    assert!(reader.is_empty());
}

#[test]
fn test_short_wire_form() {
    let mut buf = Vec::new();
    write_tag_payload(&mut buf, &NbtTag::Short(-2)).unwrap();
    assert_eq!(buf, vec![0xFF, 0xFE]);
    let mut buf2 = Vec::new();
    write_tag_payload(&mut buf2, &NbtTag::Int(305419896)).unwrap();
    assert_eq!(buf2, vec![0x12, 0x34, 0x56, 0x78]);
}
