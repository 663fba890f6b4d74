//! Reading, editing and writing the chunk stream of a PNG file.
//!
//! A PNG file is an eight-byte signature followed by chunks. Each chunk is
//! framed as a big-endian length, a four-letter type tag, the payload and a
//! CRC-32 of tag and payload. This crate parses such a stream into a
//! [`png::Png`], lets chunks be appended, looked up and removed by tag, and
//! serializes the result again.
//!
//! Every function carries a contract that Verus proves of its body. The
//! wire format is defined once, as mathematical functions on byte sequences,
//! in [`wire`]; reader and writer are specified against it, and the laws
//! that tie them together (what was written reads back, what was read
//! writes back) are proved there.
//!
//! Two things are taken on trust, both in [`chunk`]: that what
//! `crc32fast::hash` returns depends on the bytes alone, and that
//! `String::from_utf8_lossy` returns valid UTF-8 as the text it encodes.
//! The checksum itself is not defined in this crate; contracts speak of it
//! as [`chunk::crc32`].
//!
//! The crate does no file access. [`source::ByteSource`] and
//! [`writer::PngWriter`] work on bytes in memory, and [`commands`] holds the
//! operations of the command line as functions from file contents to file
//! contents.
pub mod chunk;
pub mod chunk_type;
pub mod commands;
pub mod png;
pub mod reader;
pub mod source;
pub mod type_list;
pub mod wire;
pub mod writer;
