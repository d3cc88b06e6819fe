//! Parsing and encoding of the NBT binary tag format and of the Anvil
//! (`.mca`) container format, with machine-checked contracts.
//!
//! The crate is organised bottom up: big-endian integer fields (`be`),
//! the modified UTF-8 text codec (`mutf8`), the tag tree itself (`tag`),
//! its recursive parser (`parse`) and encoder (`encode`), and the
//! sector-addressed container format (`region`, `region_writer`) whose
//! per-chunk compression is carried by flate2 behind the `zlib`
//! boundary.  `roundtrip` holds the crate-wide laws: reading back a
//! written document yields the document, and a truncated document fails
//! with the end-of-input error.

pub mod be;
pub mod encode;
pub mod mutf8;
pub mod parse;
pub mod region;
pub mod region_writer;
pub mod roundtrip;
pub mod tag;
pub mod zlib;
