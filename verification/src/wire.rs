//! The wire format, as functions on byte sequences.
//!
//! ```text
//! signature: 8 bytes = 89 50 4E 47 0D 0A 1A 0A
//! chunk*:    length:4  type:4  data:length bytes  crc:4
//! ```
//!
//! All integers are big-endian. [`stream_bytes`] says what a sequence of
//! chunks looks like on the wire and [`parse_png`] says what a byte sequence
//! means; the executable reader and writer are specified against them.
use vstd::prelude::*;
use crate::chunk::{tag_error, ChunkView, FormatError};

verus! {

/// The eight bytes every PNG file starts with.
pub open spec fn signature() -> Seq<u8> {
    seq![137u8, 80u8, 78u8, 71u8, 13u8, 10u8, 26u8, 10u8]
}

/// The four bytes of `x`, most significant first.
pub open spec fn be_bytes(x: u32) -> Seq<u8> {
    seq![
        (x / 0x100_0000) as u8,
        (x / 0x1_0000 % 0x100) as u8,
        (x / 0x100 % 0x100) as u8,
        (x % 0x100) as u8,
    ]
}

/// The number whose big-endian bytes are the first four bytes of `b`.
pub open spec fn be_value(b: Seq<u8>) -> u32 {
    (b[0] * 0x100_0000 + b[1] * 0x1_0000 + b[2] * 0x100 + b[3]) as u32
}

/// One chunk on the wire.
pub open spec fn chunk_bytes(c: ChunkView) -> Seq<u8> {
    be_bytes(c.length) + c.type_ + c.data + be_bytes(c.crc)
}

/// A sequence of chunks on the wire, one after the other.
pub open spec fn stream_bytes(chunks: Seq<ChunkView>) -> Seq<u8>
    decreases chunks.len(),
{
    if chunks.len() == 0 {
        Seq::empty()
    } else {
        chunk_bytes(chunks.first()) + stream_bytes(chunks.drop_first())
    }
}

/// A whole file: the signature, then the chunks.
pub open spec fn png_bytes(chunks: Seq<ChunkView>) -> Seq<u8> {
    signature() + stream_bytes(chunks)
}

/// Splits the first chunk off `bytes`.
///
/// The header (length and type) is read first, then the type is checked,
/// and only then are payload and checksum looked for: a bad type is reported
/// even when the payload is cut short.
pub open spec fn parse_chunk(bytes: Seq<u8>) -> Result<(ChunkView, Seq<u8>), FormatError> {
    if bytes.len() < 8 {
        Err(FormatError::UnexpectedEof)
    } else {
        let length = be_value(bytes.subrange(0, 4));
        let type_ = bytes.subrange(4, 8);
        match tag_error(type_) {
            Some(e) => Err(e),
            None => if bytes.len() < 12 + length {
                Err(FormatError::UnexpectedEof)
            } else {
                Ok(
                    (
                        ChunkView {
                            length,
                            type_,
                            data: bytes.subrange(8, 8 + length),
                            crc: be_value(bytes.subrange(8 + length, 12 + length)),
                        },
                        bytes.skip(12 + length),
                    ),
                )
            },
        }
    }
}

/// Puts `head` in front of a parse result.
pub open spec fn prepend(head: Seq<ChunkView>, tail: Result<Seq<ChunkView>, FormatError>) -> Result<
    Seq<ChunkView>,
    FormatError,
> {
    match tail {
        Ok(chunks) => Ok(head + chunks),
        Err(e) => Err(e),
    }
}

/// Splits `bytes` into chunks until nothing is left. The first error ends
/// the parse and is the result.
#[verifier::opaque]
pub open spec fn parse_chunks(bytes: Seq<u8>) -> Result<Seq<ChunkView>, FormatError>
    decreases bytes.len(),
{
    if bytes.len() == 0 {
        Ok(Seq::empty())
    } else {
        match parse_chunk(bytes) {
            Err(e) => Err(e),
            Ok((chunk, rest)) => prepend(seq![chunk], parse_chunks(rest)),
        }
    }
}

/// Reads a whole file: eight bytes that must be the signature, then chunks
/// to the end.
pub open spec fn parse_png(bytes: Seq<u8>) -> Result<Seq<ChunkView>, FormatError> {
    if bytes.len() < 8 {
        Err(FormatError::UnexpectedEof)
    } else if bytes.subrange(0, 8) != signature() {
        Err(FormatError::InvalidHeader)
    } else {
        parse_chunks(bytes.skip(8))
    }
}

/// Decodes a big-endian number from four bytes.
pub fn u32_from_be(bytes: [u8; 4]) -> (x: u32)
    ensures
        x == be_value(bytes@),
{
    let b0: u32 = bytes[0] as u32;
    let b1: u32 = bytes[1] as u32;
    let b2: u32 = bytes[2] as u32;
    let b3: u32 = bytes[3] as u32;
    b0 * 0x100_0000 + b1 * 0x1_0000 + b2 * 0x100 + b3
}

/// Encodes a number as four big-endian bytes.
pub fn u32_to_be(x: u32) -> (bytes: [u8; 4])
    ensures
        bytes@ == be_bytes(x),
{
    let bytes = [
        (x / 0x100_0000) as u8,
        (x / 0x1_0000 % 0x100) as u8,
        (x / 0x100 % 0x100) as u8,
        (x % 0x100) as u8,
    ];
    assert(bytes@ =~= be_bytes(x));
    bytes
}

/// The bytes of two chunk sequences laid end to end are the bytes of the
/// joined sequence.
pub proof fn lemma_stream_bytes_concat(a: Seq<ChunkView>, b: Seq<ChunkView>)
    ensures
        stream_bytes(a + b) == stream_bytes(a) + stream_bytes(b),
    decreases a.len(),
{
    if a.len() == 0 {
        assert(a + b =~= b);
        assert(stream_bytes(a) + stream_bytes(b) =~= stream_bytes(b));
    } else {
        lemma_stream_bytes_concat(a.drop_first(), b);
        assert((a + b).drop_first() =~= a.drop_first() + b);
        assert((a + b).first() == a.first());
        assert(stream_bytes(a + b) =~= stream_bytes(a) + stream_bytes(b));
    }
}

/// The bytes of a sequence of one chunk are the bytes of the chunk.
pub proof fn lemma_stream_bytes_one(chunk: ChunkView)
    ensures
        stream_bytes(seq![chunk]) == chunk_bytes(chunk),
{
    assert(seq![chunk].drop_first() =~= Seq::<ChunkView>::empty());
    assert(stream_bytes(Seq::<ChunkView>::empty()) =~= Seq::<u8>::empty());
    assert(stream_bytes(seq![chunk]) =~= chunk_bytes(chunk));
}

/// The bytes of a sequence with one more chunk at its end.
pub proof fn lemma_stream_bytes_push(chunks: Seq<ChunkView>, last: ChunkView)
    ensures
        stream_bytes(chunks.push(last)) == stream_bytes(chunks) + chunk_bytes(last),
{
    lemma_stream_bytes_concat(chunks, seq![last]);
    lemma_stream_bytes_one(last);
    assert(chunks.push(last) =~= chunks + seq![last]);
}

/// Every chunk of `chunks` is well formed.
pub open spec fn all_wf(chunks: Seq<ChunkView>) -> bool {
    forall|i: int| 0 <= i < chunks.len() ==> (#[trigger] chunks[i]).wf()
}

/// A well-formed chunk on the wire, followed by anything, parses as that
/// chunk and leaves what followed.
pub proof fn lemma_parse_chunk_bytes(chunk: ChunkView, tail: Seq<u8>)
    requires
        chunk.wf(),
    ensures
        parse_chunk(chunk_bytes(chunk) + tail) == Ok::<(ChunkView, Seq<u8>), FormatError>(
            (chunk, tail),
        ),
{
    let bytes = chunk_bytes(chunk) + tail;
    let length = chunk.length;
    lemma_be_value_of_bytes(chunk.length);
    lemma_be_value_of_bytes(chunk.crc);
    assert(bytes.subrange(0, 4) =~= be_bytes(chunk.length));
    assert(bytes.subrange(4, 8) =~= chunk.type_);
    assert(bytes.subrange(8, 8 + length) =~= chunk.data);
    assert(bytes.subrange(8 + length, 12 + length) =~= be_bytes(chunk.crc));
    assert(bytes.skip(12 + length) =~= tail);
}

/// A well-formed chunk on the wire, followed by anything, parses as that
/// chunk in front of what the rest parses as.
proof fn lemma_parse_chunks_step(first: ChunkView, rest: Seq<u8>)
    requires
        first.wf(),
    ensures
        parse_chunks(chunk_bytes(first) + rest) == prepend(seq![first], parse_chunks(rest)),
{
    reveal(parse_chunks);
    lemma_parse_chunk_bytes(first, rest);
    assert((chunk_bytes(first) + rest).len() > 0);
}

/// Well-formed chunks on the wire, followed by anything, parse as those
/// chunks followed by what the rest parses as.
pub proof fn lemma_parse_stream(chunks: Seq<ChunkView>, tail: Seq<u8>)
    requires
        all_wf(chunks),
    ensures
        parse_chunks(stream_bytes(chunks) + tail) == prepend(chunks, parse_chunks(tail)),
    decreases chunks.len(),
{
    if chunks.len() == 0 {
        assert(stream_bytes(chunks) + tail =~= tail);
        if let Ok(parsed) = parse_chunks(tail) {
            assert(chunks + parsed =~= parsed);
        }
    } else {
        let first = chunks.first();
        let rest = chunks.drop_first();
        let after = stream_bytes(rest) + tail;
        assert(all_wf(rest)) by {
            assert forall|i: int| 0 <= i < rest.len() implies (#[trigger] rest[i]).wf() by {
                assert(rest[i] == chunks[i + 1]);
            }
        }
        lemma_parse_stream(rest, tail);
        lemma_parse_chunks_step(first, after);
        assert(stream_bytes(chunks) + tail == chunk_bytes(first) + after) by {
            lemma_concat_assoc(chunk_bytes(first), stream_bytes(rest), tail);
        }
        if let Ok(parsed) = parse_chunks(tail) {
            assert(seq![first] + (rest + parsed) =~= chunks + parsed);
        }
    }
}

/// Concatenation is associative.
proof fn lemma_concat_assoc(a: Seq<u8>, b: Seq<u8>, c: Seq<u8>)
    ensures
        (a + b) + c == a + (b + c),
{
    assert((a + b) + c =~= a + (b + c));
}

/// Reading what was written gives the document back: the same chunks, with
/// the same type, data and checksum, in the same order.
pub proof fn lemma_round_trip(chunks: Seq<ChunkView>)
    requires
        all_wf(chunks),
    ensures
        parse_png(png_bytes(chunks)) == Ok::<Seq<ChunkView>, FormatError>(chunks),
{
    let bytes = png_bytes(chunks);
    assert(bytes.subrange(0, 8) =~= signature());
    assert(bytes.skip(8) =~= stream_bytes(chunks) + Seq::<u8>::empty());
    lemma_parse_stream(chunks, Seq::<u8>::empty());
    assert(parse_chunks(Seq::<u8>::empty()) == Ok::<Seq<ChunkView>, FormatError>(Seq::empty())) by {
        reveal(parse_chunks);
    }
    assert(chunks + Seq::<ChunkView>::empty() =~= chunks);
}

/// The chunk that is split off a byte sequence, written again and
/// followed by the rest, is that byte sequence.
pub proof fn lemma_chunk_bytes_of_parsed(bytes: Seq<u8>)
    requires
        parse_chunk(bytes) is Ok,
    ensures
        chunk_bytes(parse_chunk(bytes)->Ok_0.0) + parse_chunk(bytes)->Ok_0.1 == bytes,
        parse_chunk(bytes)->Ok_0.0.wf(),
        parse_chunk(bytes)->Ok_0.1.len() < bytes.len(),
{
    let (chunk, rest) = parse_chunk(bytes)->Ok_0;
    lemma_be_bytes_of_value(bytes.subrange(0, 4));
    lemma_be_bytes_of_value(bytes.subrange(8 + chunk.length, 12 + chunk.length));
    assert(chunk_bytes(chunk) + rest =~= bytes);
}

/// Writing what was read gives the bytes that were read: a file that
/// parses has no byte that the document does not account for.
pub proof fn lemma_stream_bytes_of_parsed(bytes: Seq<u8>)
    requires
        parse_chunks(bytes) is Ok,
    ensures
        stream_bytes(parse_chunks(bytes)->Ok_0) == bytes,
    decreases bytes.len(),
{
    reveal(parse_chunks);
    if bytes.len() == 0 {
        assert(stream_bytes(Seq::<ChunkView>::empty()) =~= bytes);
    } else {
        let (chunk, rest) = parse_chunk(bytes)->Ok_0;
        let tail = parse_chunks(rest)->Ok_0;
        lemma_chunk_bytes_of_parsed(bytes);
        lemma_stream_bytes_of_parsed(rest);
        lemma_stream_bytes_concat(seq![chunk], tail);
        lemma_stream_bytes_one(chunk);
    }
}

/// Writing the document that was read from a file gives the file back,
/// byte for byte.
pub proof fn lemma_png_bytes_of_parsed(bytes: Seq<u8>)
    requires
        parse_png(bytes) is Ok,
    ensures
        png_bytes(parse_png(bytes)->Ok_0) == bytes,
{
    lemma_stream_bytes_of_parsed(bytes.skip(8));
    assert(signature() + bytes.skip(8) =~= bytes);
}

/// Every chunk that parsing yields is well formed.
pub proof fn lemma_parsed_chunks_wf(bytes: Seq<u8>)
    requires
        parse_chunks(bytes) is Ok,
    ensures
        all_wf(parse_chunks(bytes)->Ok_0),
    decreases bytes.len(),
{
    reveal(parse_chunks);
    if bytes.len() > 0 {
        let (chunk, rest) = parse_chunk(bytes)->Ok_0;
        let tail = parse_chunks(rest)->Ok_0;
        lemma_parsed_chunks_wf(rest);
        assert forall|i: int| 0 <= i < (seq![chunk] + tail).len() implies (#[trigger] (seq![chunk]
            + tail)[i]).wf() by {
            if i > 0 {
                assert((seq![chunk] + tail)[i] == tail[i - 1]);
            }
        }
    }
}

/// Every chunk of a document that was read is well formed.
pub proof fn lemma_parsed_png_wf(bytes: Seq<u8>)
    requires
        parse_png(bytes) is Ok,
    ensures
        all_wf(parse_png(bytes)->Ok_0),
{
    lemma_parsed_chunks_wf(bytes.skip(8));
}

/// A file whose first eight bytes differ from the signature in any place
/// is rejected with `InvalidHeader`.
pub proof fn lemma_altered_signature(bytes: Seq<u8>, i: int)
    requires
        bytes.len() >= 8,
        0 <= i < 8,
        bytes[i] != signature()[i],
    ensures
        parse_png(bytes) == Err::<Seq<ChunkView>, FormatError>(FormatError::InvalidHeader),
{
    assert(bytes.subrange(0, 8)[i] == bytes[i]);
}

/// The signature alone is a document without chunks.
pub proof fn lemma_signature_alone()
    ensures
        parse_png(signature()) == Ok::<Seq<ChunkView>, FormatError>(Seq::empty()),
{
    reveal(parse_chunks);
    assert(signature().subrange(0, 8) =~= signature());
    assert(signature().skip(8) =~= Seq::<u8>::empty());
}

/// An error is final: where the bytes after some well-formed chunks fail
/// to parse, the whole file fails with the same error, and no document
/// comes of the chunks before.
pub proof fn lemma_error_is_final(before: Seq<ChunkView>, rest: Seq<u8>)
    requires
        all_wf(before),
        parse_chunks(rest) is Err,
    ensures
        parse_png(png_bytes(before) + rest) == Err::<Seq<ChunkView>, FormatError>(
            parse_chunks(rest)->Err_0,
        ),
{
    let file = png_bytes(before) + rest;
    assert(file.subrange(0, 8) =~= signature());
    assert(file.skip(8) =~= stream_bytes(before) + rest);
    lemma_parse_stream(before, rest);
}

/// A chunk that declares more payload than the bytes after its header
/// hold ends the parse with `UnexpectedEof`, wherever in the file it
/// stands, unless its type is there and is no valid tag: a bad type is
/// reported first.
pub proof fn lemma_truncated_chunk(before: Seq<ChunkView>, bytes: Seq<u8>)
    requires
        all_wf(before),
        bytes.len() >= 4,
        bytes.len() >= 8 ==> tag_error(bytes.subrange(4, 8)) is None,
        be_value(bytes.subrange(0, 4)) > bytes.len() - 8,
    ensures
        parse_chunk(bytes) == Err::<(ChunkView, Seq<u8>), FormatError>(
            FormatError::UnexpectedEof,
        ),
        parse_png(png_bytes(before) + bytes) == Err::<Seq<ChunkView>, FormatError>(
            FormatError::UnexpectedEof,
        ),
{
    assert(parse_chunks(bytes) == Err::<Seq<ChunkView>, FormatError>(FormatError::UnexpectedEof))
        by {
        reveal(parse_chunks);
    }
    lemma_error_is_final(before, bytes);
}

/// Encoding a number and decoding the bytes gives the number back.
pub proof fn lemma_be_value_of_bytes(x: u32)
    ensures
        be_value(be_bytes(x)) == x,
        be_bytes(x).len() == 4,
{
}

/// Decoding four bytes and encoding the number gives the bytes back.
pub proof fn lemma_be_bytes_of_value(b: Seq<u8>)
    requires
        b.len() == 4,
    ensures
        be_bytes(be_value(b)) == b,
{
    let v = b[0] * 0x100_0000 + b[1] * 0x1_0000 + b[2] * 0x100 + b[3];
    assert(v / 0x100_0000 == b[0]);
    assert(v / 0x1_0000 == b[0] * 0x100 + b[1]);
    assert(v / 0x100 == b[0] * 0x1_0000 + b[1] * 0x100 + b[2]);
    assert(be_bytes(be_value(b)) =~= b);
}

} // verus!
