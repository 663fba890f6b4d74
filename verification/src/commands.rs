//! The four operations on a file, from bytes to bytes.
//!
//! Each takes the contents of a PNG file and, where it changes the file,
//! returns the new contents. Opening, reading and writing files is left to
//! the caller.
use std::str::FromStr;
use vstd::prelude::*;
use vstd::utf8::encode_utf8;
use crate::chunk::{
    crc32, first_four, owned_text, tag_error, utf8_lossy, Chunk, ChunkType, ChunkView,
    FormatError,
};
use crate::png::{lemma_filter_push, not_of_type, of_type, ref_views, Png};
use crate::type_list::{is_type_list, texts};
use crate::reader::PngReader;
use crate::source::ByteSource;
use crate::wire::{
    chunk_bytes, lemma_parsed_png_wf, lemma_png_bytes_of_parsed, lemma_round_trip,
    lemma_stream_bytes_push, parse_png, png_bytes,
};
use crate::writer::PngWriter;

verus! {

/// Why an operation on a file failed.
#[derive(Debug, PartialEq, Eq, Structural)]
pub enum CommandError {
    /// The input is not a PNG chunk stream.
    Decode(FormatError),
    /// The chunk type asked for is not a valid tag.
    InvalidChunkType(FormatError),
    /// The message has more bytes than the length field of a chunk can
    /// count.
    MessageTooLong,
}

/// The chunk that `encode` makes of a type tag and a message.
pub open spec fn message_chunk(type_: Seq<u8>, message: Seq<char>) -> ChunkView {
    let data = encode_utf8(message);
    ChunkView { length: data.len() as u32, type_, data, crc: crc32(type_ + data) }
}

/// What `encode` returns.
pub open spec fn encoded(input: Seq<u8>, chunk_type: Seq<char>, message: Seq<char>) -> Result<
    Seq<u8>,
    CommandError,
> {
    let type_ = first_four(encode_utf8(chunk_type));
    match parse_png(input) {
        Err(e) => Err(CommandError::Decode(e)),
        Ok(chunks) => match tag_error(type_) {
            Some(e) => Err(CommandError::InvalidChunkType(e)),
            None => if encode_utf8(message).len() > u32::MAX {
                Err(CommandError::MessageTooLong)
            } else {
                Ok(png_bytes(chunks.push(message_chunk(type_, message))))
            },
        },
    }
}

/// The payloads of `chunks` as text.
pub open spec fn messages(chunks: Seq<ChunkView>) -> Seq<Seq<char>> {
    chunks.map_values(|c: ChunkView| utf8_lossy(c.data))
}

/// What `decode` returns.
pub open spec fn decoded(input: Seq<u8>, chunk_type: Seq<char>) -> Result<
    Seq<Seq<char>>,
    CommandError,
> {
    match parse_png(input) {
        Err(e) => Err(CommandError::Decode(e)),
        Ok(chunks) => Ok(messages(chunks.filter(of_type(encode_utf8(chunk_type))))),
    }
}

/// What `remove` returns: the new file and the number of chunks removed.
pub open spec fn removed(input: Seq<u8>, chunk_type: Seq<char>) -> Result<
    (Seq<u8>, nat),
    CommandError,
> {
    match parse_png(input) {
        Err(e) => Err(CommandError::Decode(e)),
        Ok(chunks) => {
            let kept = chunks.filter(not_of_type(encode_utf8(chunk_type)));
            Ok((png_bytes(kept), (chunks.len() - kept.len()) as nat))
        },
    }
}

/// Where `encode` succeeds, the new file is the old file, byte for byte,
/// with the new chunk after it, and it reads as the old document with the
/// new chunk at its end.
pub proof fn lemma_encode_appends(input: Seq<u8>, chunk_type: Seq<char>, message: Seq<char>)
    requires
        encoded(input, chunk_type, message) is Ok,
    ensures
        ({
            let chunk = message_chunk(first_four(encode_utf8(chunk_type)), message);
            let output = encoded(input, chunk_type, message)->Ok_0;
            &&& output == input + chunk_bytes(chunk)
            &&& parse_png(output) == Ok::<Seq<ChunkView>, FormatError>(
                parse_png(input)->Ok_0.push(chunk),
            )
        }),
{
    let chunks = parse_png(input)->Ok_0;
    let chunk = message_chunk(first_four(encode_utf8(chunk_type)), message);
    let all = chunks.push(chunk);
    lemma_parsed_png_wf(input);
    lemma_png_bytes_of_parsed(input);
    lemma_stream_bytes_push(chunks, chunk);
    assert(png_bytes(all) =~= input + chunk_bytes(chunk));
    lemma_round_trip(all);
}

/// After `encode`, `decode` with the same four-byte type finds what it
/// found before and, after that, the message as the decoder reads it.
pub proof fn lemma_decode_after_encode(
    input: Seq<u8>,
    chunk_type: Seq<char>,
    message: Seq<char>,
)
    requires
        encoded(input, chunk_type, message) is Ok,
        encode_utf8(chunk_type).len() == 4,
    ensures
        decoded(encoded(input, chunk_type, message)->Ok_0, chunk_type) == Ok::<
            Seq<Seq<char>>,
            CommandError,
        >(decoded(input, chunk_type)->Ok_0.push(utf8_lossy(encode_utf8(message)))),
{
    let type_ = encode_utf8(chunk_type);
    assert(first_four(type_) =~= type_);
    let chunks = parse_png(input)->Ok_0;
    let chunk = message_chunk(type_, message);
    lemma_encode_appends(input, chunk_type, message);
    lemma_filter_push(chunks, chunk, of_type(type_));
    let found = chunks.filter(of_type(type_));
    assert(messages(found.push(chunk)) =~= messages(found).push(utf8_lossy(chunk.data)));
}

/// After `encode`, `remove` with the same four-byte type gives the file
/// that it would have made of the old file, and counts one chunk more.
pub proof fn lemma_remove_after_encode(
    input: Seq<u8>,
    chunk_type: Seq<char>,
    message: Seq<char>,
)
    requires
        encoded(input, chunk_type, message) is Ok,
        encode_utf8(chunk_type).len() == 4,
    ensures
        removed(encoded(input, chunk_type, message)->Ok_0, chunk_type) == Ok::<
            (Seq<u8>, nat),
            CommandError,
        >((removed(input, chunk_type)->Ok_0.0, removed(input, chunk_type)->Ok_0.1 + 1)),
{
    let type_ = encode_utf8(chunk_type);
    assert(first_four(type_) =~= type_);
    let chunks = parse_png(input)->Ok_0;
    let chunk = message_chunk(type_, message);
    lemma_encode_appends(input, chunk_type, message);
    lemma_filter_push(chunks, chunk, not_of_type(type_));
    chunks.lemma_filter_len(not_of_type(type_));
}

/// Where a file holds no chunk of a type, `remove` returns the file
/// unchanged and counts 0.
pub proof fn lemma_remove_absent(input: Seq<u8>, chunk_type: Seq<char>)
    requires
        decoded(input, chunk_type) == Ok::<Seq<Seq<char>>, CommandError>(Seq::empty()),
    ensures
        removed(input, chunk_type) == Ok::<(Seq<u8>, nat), CommandError>((input, 0)),
{
    let type_ = encode_utf8(chunk_type);
    let chunks = parse_png(input)->Ok_0;
    assert(chunks.filter(of_type(type_)).len() == messages(chunks.filter(of_type(type_))).len());
    lemma_filter_none(chunks, type_);
    lemma_png_bytes_of_parsed(input);
}

/// Where no chunk has a type, all chunks have another.
proof fn lemma_filter_none(chunks: Seq<ChunkView>, type_: Seq<u8>)
    requires
        chunks.filter(of_type(type_)).len() == 0,
    ensures
        chunks.filter(not_of_type(type_)) == chunks,
    decreases chunks.len(),
{
    if chunks.len() == 0 {
        reveal(Seq::filter);
        assert(chunks.filter(not_of_type(type_)) =~= chunks);
    } else {
        let front = chunks.drop_last();
        let last = chunks.last();
        assert(chunks =~= front.push(last));
        lemma_filter_push(front, last, of_type(type_));
        lemma_filter_push(front, last, not_of_type(type_));
        lemma_filter_none(front, type_);
    }
}

/// Reads a whole file.
fn read(input: &[u8]) -> (r: Result<Png, CommandError>)
    ensures
        match parse_png(input@) {
            Ok(chunks) => r is Ok && r->Ok_0@ == chunks,
            Err(e) => r is Err && r->Err_0 == CommandError::Decode(e),
        },
{
    match PngReader::new(ByteSource::new(input)).read_png() {
        Ok(png) => Ok(png),
        Err(e) => Err(CommandError::Decode(e)),
    }
}

/// Writes a whole file.
fn write(png: Png) -> (bytes: Vec<u8>)
    ensures
        bytes@ == png_bytes(png@),
{
    let mut writer = PngWriter::new(Vec::new());
    writer.write_png(png);
    let bytes = writer.into_inner();
    assert(bytes@ =~= png_bytes(png@));
    bytes
}

/// Appends a chunk of type `chunk_type` that holds `message` to the file
/// `input` and returns the new file.
///
/// The input is read first: if it is malformed, that is the error, whatever
/// the chunk type.
pub fn encode(input: &[u8], chunk_type: &str, message: &str) -> (r: Result<Vec<u8>, CommandError>)
    ensures
        match encoded(input@, chunk_type@, message@) {
            Ok(bytes) => r is Ok && r->Ok_0@ == bytes,
            Err(e) => r is Err && r->Err_0 == e,
        },
{
    let mut png = read(input)?;

    let chunk_type = match ChunkType::from_str(chunk_type) {
        Ok(chunk_type) => chunk_type,
        Err(e) => {
            return Err(CommandError::InvalidChunkType(e));
        },
    };
    let data = message.as_bytes_vec();
    if data.len() > u32::MAX as usize {
        return Err(CommandError::MessageTooLong);
    }
    let chunk = Chunk::new(chunk_type, data);
    png.append_chunk(chunk);

    Ok(write(png))
}

/// The messages that the chunks of type `chunk_type` in the file `input`
/// hold, in file order.
pub fn decode(input: &[u8], chunk_type: &str) -> (r: Result<Vec<String>, CommandError>)
    ensures
        match decoded(input@, chunk_type@) {
            Ok(found) => r is Ok && texts(r->Ok_0@) == found,
            Err(e) => r is Err && r->Err_0 == e,
        },
{
    let png = read(input)?;

    let chunks = png.chunks_by_type(chunk_type.as_bytes());
    let mut found: Vec<String> = Vec::new();
    let mut i: usize = 0;
    while i < chunks.len()
        invariant
            i <= chunks@.len(),
            texts(found@) == messages(ref_views(chunks@).take(i as int)),
        decreases chunks@.len() - i,
    {
        let ghost before = texts(found@);
        found.push(owned_text(chunks[i].message()));
        assert(texts(found@) =~= before.push(utf8_lossy(chunks@[i as int]@.data)));
        assert(messages(ref_views(chunks@).take(i + 1)) =~= before.push(
            utf8_lossy(chunks@[i as int]@.data),
        ));
        i += 1;
    }
    assert(ref_views(chunks@).take(i as int) =~= ref_views(chunks@));
    Ok(found)
}

/// Removes every chunk of type `chunk_type` from the file `input`.
/// Returns the new file and the number of chunks removed, which may be 0.
pub fn remove(input: &[u8], chunk_type: &str) -> (r: Result<(Vec<u8>, usize), CommandError>)
    ensures
        match removed(input@, chunk_type@) {
            Ok((bytes, count)) => r is Ok && r->Ok_0.0@ == bytes && r->Ok_0.1 == count,
            Err(e) => r is Err && r->Err_0 == e,
        },
{
    let mut png = read(input)?;

    let count = png.remove_all(chunk_type.as_bytes());

    Ok((write(png), count))
}

/// The chunk types that occur in the file `input`, as text: sorted, each
/// one once.
pub fn list_types(input: &[u8]) -> (r: Result<Vec<String>, CommandError>)
    ensures
        match parse_png(input@) {
            Ok(chunks) => r is Ok && is_type_list(texts(r->Ok_0@), chunks),
            Err(e) => r is Err && r->Err_0 == CommandError::Decode(e),
        },
{
    let png = read(input)?;

    let names = png.chunk_types();
    let mut owned: Vec<String> = Vec::new();
    for name in iter: names
        invariant
            texts(owned@) == texts(iter.seq()).take(iter.index() as int),
    {
        let ghost before = texts(owned@);
        owned.push(owned_text(name));
        assert(texts(owned@) =~= before.push(name@));
        assert(texts(iter.seq()).take(iter.index() + 1) =~= before.push(name@));
    }
    assert(texts(owned@) =~= texts(names@));
    Ok(owned)
}

} // verus!
