use pnmsg::chunk::{Chunk, ChunkType};
use pnmsg::png::Png;
use pnmsg::reader::PngReader;
use pnmsg::source::ByteSource;
use pnmsg::writer::PngWriter;

fn chunk(tag: &[u8; 4], data: &[u8]) -> Chunk {
    Chunk::new(ChunkType::try_from(*tag).unwrap(), data.to_vec())
}

fn write(png: Png) -> Vec<u8> {
    let mut writer = PngWriter::new(Vec::new());
    writer.write_png(png);
    writer.into_inner()
}

fn triples(chunks: &[Chunk]) -> Vec<(Vec<u8>, Vec<u8>, u32)> {
    chunks.iter().map(|c| (c.type_.as_bytes().to_vec(), c.data.clone(), c.crc)).collect()
}

#[test]
fn empty_document_is_the_signature() {
    assert_eq!(write(Png::from_chunks(Vec::new())), vec![137, 80, 78, 71, 13, 10, 26, 10]);
}

#[test]
fn chunk_layout_on_the_wire() {
    let bytes = write(Png::from_chunks(vec![chunk(b"IEND", b"")]));
    assert_eq!(
        bytes,
        vec![
            0x89, 0x50, 0x4e, 0x47, 0x0d, 0x0a, 0x1a, 0x0a, // signature
            0, 0, 0, 0, // length
            b'I', b'E', b'N', b'D', // type
            0xae, 0x42, 0x60, 0x82, // checksum
        ]
    );
}

#[test]
fn length_type_data_checksum_in_that_order() {
    let bytes = write(Png::from_chunks(vec![chunk(
        b"RuSt",
        b"This is where your secret message will be!",
    )]));
    assert_eq!(bytes.len(), 8 + 4 + 4 + 42 + 4);
    assert_eq!(&bytes[8..12], &[0, 0, 0, 42]);
    assert_eq!(&bytes[12..16], b"RuSt");
    assert_eq!(&bytes[16..58], b"This is where your secret message will be!");
    assert_eq!(&bytes[58..62], &2882656334u32.to_be_bytes());
}

#[test]
fn chunks_are_written_in_order() {
    let bytes = write(Png::from_chunks(vec![chunk(b"ruSt", b"a"), chunk(b"tEXt", b"bc")]));
    assert_eq!(&bytes[8..12], &[0, 0, 0, 1]);
    assert_eq!(&bytes[12..16], b"ruSt");
    assert_eq!(bytes[16], b'a');
    assert_eq!(&bytes[21..25], &[0, 0, 0, 2]);
    assert_eq!(&bytes[25..29], b"tEXt");
    assert_eq!(&bytes[29..31], b"bc");
    assert_eq!(bytes.len(), 35);
}

#[test]
fn fields_are_written_as_they_stand() {
    let mut odd = chunk(b"ruSt", b"abc");
    odd.crc = 0x0102_0304;
    let bytes = write(Png::from_chunks(vec![odd]));
    assert_eq!(&bytes[19..23], &[1, 2, 3, 4]);
}

#[test]
fn writer_appends_to_what_the_sink_holds() {
    let mut writer = PngWriter::new(b"before".to_vec());
    writer.write_png(Png::from_chunks(Vec::new()));
    writer.write_png(Png::from_chunks(vec![chunk(b"IEND", b"")]));
    let bytes = writer.into_inner();
    assert_eq!(&bytes[..6], b"before");
    assert_eq!(&bytes[6..14], &Png::HEADER);
    assert_eq!(&bytes[14..22], &Png::HEADER);
    assert_eq!(bytes.len(), 6 + 8 + 8 + 12);
}

#[test]
fn reading_what_was_written_gives_the_document_back() {
    let long: Vec<u8> = (0..70_000u32).map(|i| (i * 7 % 256) as u8).collect();
    let make = || {
        vec![
            chunk(b"IHDR", b"0123456789abc"),
            chunk(b"IDAT", &long),
            chunk(b"ruSt", b"hello"),
            chunk(b"ruSt", b""),
            chunk(b"tEXt", &[0xff, 0x00, 0x80]),
            chunk(b"IEND", b""),
        ]
    };
    let expected = triples(&make());
    let bytes = write(Png::from_chunks(make()));
    let back = PngReader::new(ByteSource::new(&bytes)).read_png().unwrap().into_chunks();
    assert_eq!(triples(&back), expected);
    for c in &back {
        assert_eq!(c.length as usize, c.data.len());
    }

    // And once more: writing what was read gives the same bytes.
    assert_eq!(write(Png::from_chunks(back)), bytes);
}

#[test]
fn round_trip_of_the_empty_document() {
    let bytes = write(Png::from_chunks(Vec::new()));
    let back = PngReader::new(ByteSource::new(&bytes)).read_png().unwrap();
    assert!(back.into_chunks().is_empty());
}
