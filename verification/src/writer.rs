//! Writing a chunk stream to a byte sink.
use vstd::prelude::*;
use crate::chunk::{Chunk, ChunkView};
use crate::png::{lemma_header_is_signature, views, Png};
use crate::wire::{
    chunk_bytes, lemma_stream_bytes_push, png_bytes, signature, stream_bytes, u32_to_be,
};

verus! {

/// Serializes documents into a byte buffer.
pub struct PngWriter {
    writer: Vec<u8>,
}

impl View for PngWriter {
    type V = Seq<u8>;

    /// Everything that the sink holds.
    closed spec fn view(&self) -> Seq<u8> {
        self.writer@
    }
}

impl PngWriter {
    /// A writer that appends to `writer`.
    pub fn new(writer: Vec<u8>) -> (w: Self)
        ensures
            w@ == writer@,
    {
        PngWriter { writer }
    }

    /// Appends one chunk: length, type, data, checksum.
    fn write_chunk(&mut self, chunk: Chunk)
        ensures
            final(self)@ == old(self)@ + chunk_bytes(chunk@),
    {
        let length = u32_to_be(chunk.length);
        self.writer.extend_from_slice(length.as_slice());
        self.writer.extend_from_slice(chunk.type_.as_bytes());
        self.writer.extend_from_slice(chunk.data.as_slice());
        let crc = u32_to_be(chunk.crc);
        self.writer.extend_from_slice(crc.as_slice());
        assert(self@ =~= old(self)@ + chunk_bytes(chunk@));
    }

    /// Appends a whole file: the signature, then every chunk of `png` in
    /// order.
    pub fn write_png(&mut self, png: Png)
        ensures
            final(self)@ == old(self)@ + png_bytes(png@),
    {
        proof {
            lemma_header_is_signature();
        }
        self.writer.extend_from_slice(Png::HEADER.as_slice());

        let chunks = png.into_chunks();
        assert(views(chunks@).take(0) =~= Seq::<ChunkView>::empty());
        for chunk in iter: chunks
            invariant
                views(iter.seq()) == png@,
                self@ == old(self)@ + signature() + stream_bytes(
                    png@.take(iter.index() as int),
                ),
        {
            let ghost done = png@.take(iter.index() as int);
            self.write_chunk(chunk);
            proof {
                lemma_stream_bytes_push(done, chunk@);
                assert(png@.take(iter.index() + 1) =~= done.push(chunk@));
            }
        }
        assert(png@.take(png@.len() as int) =~= png@);
        assert(old(self)@ + signature() + stream_bytes(png@) =~= old(self)@ + png_bytes(png@));
    }

    /// Gives the sink back.
    pub fn into_inner(self) -> (bytes: Vec<u8>)
        ensures
            bytes@ == self@,
    {
        self.writer
    }
}

} // verus!
