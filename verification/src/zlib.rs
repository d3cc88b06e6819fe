//! The compression boundary of the container format.
//!
//! Compression itself is outside the verified logic: the two stream
//! formats are named here as functions of the input bytes, and the
//! wrappers below carry flate2's behaviour as their contracts.

use vstd::prelude::*;

verus! {

/// What zlib decompression yields for a byte sequence, `None` meaning the
/// bytes are not a well-formed zlib stream.
pub uninterp spec fn zlib_inflate(b: Seq<u8>) -> Option<Seq<u8>>;

/// What gzip decompression yields for a byte sequence.
pub uninterp spec fn gzip_inflate(b: Seq<u8>) -> Option<Seq<u8>>;

/// What zlib compression at the default level yields for a byte sequence.
pub uninterp spec fn zlib_deflate(b: Seq<u8>) -> Seq<u8>;

/// Relies on flate2's read::ZlibDecoder over a byte slice: the outcome
/// depends on the input bytes alone, and reading fails exactly when the
/// bytes are not a zlib stream.
#[verifier::external_body]
pub fn zlib_decompress(data: &[u8]) -> (r: Option<Vec<u8>>)
    ensures
        match r {
            Some(v) => zlib_inflate(data@) == Some(v@),
            None => zlib_inflate(data@) is None,
        },
{
    let mut decoder = flate2::read::ZlibDecoder::new(data);
    let mut out = Vec::new();
    match std::io::Read::read_to_end(&mut decoder, &mut out) {
        Ok(_) => Some(out),
        Err(_) => None,
    }
}

/// Relies on flate2's read::GzDecoder over a byte slice, as above.
#[verifier::external_body]
pub fn gzip_decompress(data: &[u8]) -> (r: Option<Vec<u8>>)
    ensures
        match r {
            Some(v) => gzip_inflate(data@) == Some(v@),
            None => gzip_inflate(data@) is None,
        },
{
    let mut decoder = flate2::read::GzDecoder::new(data);
    let mut out = Vec::new();
    match std::io::Read::read_to_end(&mut decoder, &mut out) {
        Ok(_) => Some(out),
        Err(_) => None,
    }
}

/// Relies on flate2's write::ZlibEncoder into a `Vec`, which never fails
/// (the sink's writes cannot fail), is a function of the input bytes at
/// the default level, and produces a stream whose decompression yields
/// the input back.
#[verifier::external_body]
pub fn zlib_compress(data: &[u8]) -> (r: Vec<u8>)
    ensures
        r@ == zlib_deflate(data@),
        zlib_inflate(r@) == Some(data@),
{
    let mut encoder = flate2::write::ZlibEncoder::new(
        Vec::new(),
        flate2::Compression::default(),
    );
    std::io::Write::write_all(&mut encoder, data).unwrap();
    encoder.finish().unwrap()
}

} // verus!
