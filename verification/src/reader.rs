//! Reading a chunk stream from a byte source.
use vstd::prelude::*;
use vstd::slice::slice_subrange;
use crate::chunk::{lemma_of_view, Chunk, ChunkType, ChunkView, FormatError};
use crate::chunk_type::bytes_equal;
use crate::png::{lemma_header_is_signature, views, Png};
use crate::source::ByteSource;
use crate::wire::{parse_chunk, parse_chunks, parse_png, prepend, signature, u32_from_be};

verus! {

/// Copies a slice of four bytes into an array.
fn four(bytes: &[u8]) -> (array: [u8; 4])
    requires
        bytes@.len() == 4,
    ensures
        array@ == bytes@,
{
    let array = [bytes[0], bytes[1], bytes[2], bytes[3]];
    assert(array@ =~= bytes@);
    array
}

/// Reads a PNG file from a [`ByteSource`].
///
/// The reader is *streaming* until a look-ahead after the signature or
/// after a chunk shows that no byte is left; from then on it is
/// *exhausted*.
pub struct PngReader<'a> {
    reader: ByteSource<'a>,
    eof: bool,
}

impl<'a> PngReader<'a> {
    /// The bytes that the reader has not consumed yet.
    pub closed spec fn remaining(&self) -> Seq<u8> {
        self.reader.remaining()
    }

    /// Whether the reader has seen the end of its source.
    pub closed spec fn exhausted(&self) -> bool {
        self.eof
    }

    /// A streaming reader at the start of `reader`.
    pub fn new(reader: ByteSource<'a>) -> (r: Self)
        ensures
            r.remaining() == reader.remaining(),
            !r.exhausted(),
    {
        PngReader { reader, eof: false }
    }

    /// Looks ahead without consuming and notes whether the source is at
    /// its end.
    fn check_eof(&mut self)
        ensures
            final(self).remaining() == old(self).remaining(),
            final(self).exhausted() == (old(self).remaining().len() == 0),
    {
        self.eof = self.reader.fill_buf().is_empty();
    }

    /// Reads one chunk and looks ahead for the next.
    #[verifier::loop_isolation(false)]
    fn next_chunk(&mut self) -> (r: Result<Chunk, FormatError>)
        ensures
            match parse_chunk(old(self).remaining()) {
                Ok((chunk, rest)) => {
                    &&& r is Ok
                    &&& r.unwrap()@ == chunk
                    &&& final(self).remaining() == rest
                    &&& final(self).exhausted() == (rest.len() == 0)
                },
                Err(e) => r is Err && r->Err_0 == e,
            },
    {
        let ghost start = self.reader.remaining();
        let length = match self.reader.read_exact(4) {
            Some(bytes) => {
                assert(bytes@ =~= start.subrange(0, 4));
                u32_from_be(four(bytes))
            },
            None => {
                return Err(FormatError::UnexpectedEof);
            },
        };

        let chunk_type = match self.reader.read_exact(4) {
            Some(bytes) => {
                assert(bytes@ =~= start.subrange(4, 8));
                four(bytes)
            },
            None => {
                return Err(FormatError::UnexpectedEof);
            },
        };
        proof {
            lemma_of_view(chunk_type);
        }
        let chunk_type = ChunkType::try_from(chunk_type)?;

        let ghost body = self.reader.remaining();
        assert(body =~= start.skip(8));
        let mut left_to_read = length as usize;
        let mut data: Vec<u8> = Vec::new();

        while left_to_read > 0
            invariant
                data@.len() + left_to_read == length,
                data@.len() <= body.len(),
                data@ == body.take(data@.len() as int),
                self.reader.remaining() == body.skip(data@.len() as int),
            decreases left_to_read,
        {
            let buf = self.reader.fill_buf();
            if buf.is_empty() {
                return Err(FormatError::UnexpectedEof);
            }
            let to_read = if left_to_read <= buf.len() { left_to_read } else { buf.len() };
            data.extend_from_slice(slice_subrange(buf, 0, to_read));
            self.reader.consume(to_read);
            left_to_read -= to_read;
            assert(data@ =~= body.take(data@.len() as int));
            assert(self.reader.remaining() =~= body.skip(data@.len() as int));
        }

        assert(data@ =~= start.subrange(8, 8 + length));
        let crc = match self.reader.read_exact(4) {
            Some(bytes) => {
                assert(bytes@ =~= start.subrange(8 + length, 12 + length));
                u32_from_be(four(bytes))
            },
            None => {
                return Err(FormatError::UnexpectedEof);
            },
        };
        assert(self.reader.remaining() =~= start.skip(12 + length));

        self.check_eof();

        Ok(Chunk { length, type_: chunk_type, data, crc })
    }

    /// Reads the whole source: the signature, then chunks until the source
    /// is exhausted. The first error ends the read and no document is
    /// returned.
    #[verifier::loop_isolation(false)]
    pub fn read_png(self) -> (r: Result<Png, FormatError>)
        ensures
            match parse_png(self.remaining()) {
                Ok(chunks) => r is Ok && r.unwrap()@ == chunks,
                Err(e) => r is Err && r->Err_0 == e,
            },
    {
        let mut this = self;
        let ghost start = this.reader.remaining();
        proof {
            reveal(parse_chunks);
        }
        let header = match this.reader.read_exact(8) {
            Some(bytes) => bytes,
            None => {
                return Err(FormatError::UnexpectedEof);
            },
        };
        assert(header@ =~= start.subrange(0, 8));
        proof {
            lemma_header_is_signature();
        }
        if !bytes_equal(header, Png::HEADER.as_slice()) {
            return Err(FormatError::InvalidHeader);
        }
        let mut chunks: Vec<Chunk> = Vec::new();
        this.check_eof();
        assert(views(chunks@) =~= Seq::<ChunkView>::empty());

        while !this.eof
            invariant
                this.eof == (this.reader.remaining().len() == 0),
                parse_png(start) == prepend(views(chunks@), parse_chunks(this.reader.remaining())),
            decreases this.reader.remaining().len(),
        {
            let ghost head = views(chunks@);
            let chunk = this.next_chunk()?;
            chunks.push(chunk);
            assert(views(chunks@) =~= head + seq![chunk@]);
            proof {
                if let Ok(tail) = parse_chunks(this.reader.remaining()) {
                    assert(head + (seq![chunk@] + tail) =~= (head + seq![chunk@]) + tail);
                }
            }
        }
        assert(views(chunks@) + Seq::<ChunkView>::empty() =~= views(chunks@));
        Ok(Png::from_chunks(chunks))
    }
}

} // verus!
