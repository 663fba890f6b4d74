use pnmsg::chunk::{Chunk, ChunkType};
use pnmsg::png::Png;

fn chunk(tag: &[u8; 4], data: &[u8]) -> Chunk {
    Chunk::new(ChunkType::try_from(*tag).unwrap(), data.to_vec())
}

fn sample() -> Png {
    Png::from_chunks(vec![
        chunk(b"IHDR", b"header"),
        chunk(b"ruSt", b"one"),
        chunk(b"IDAT", b"pixels"),
        chunk(b"ruSt", b"two"),
        chunk(b"tEXt", b"note"),
        chunk(b"IEND", b""),
    ])
}

fn summary(chunks: &[Chunk]) -> Vec<(Vec<u8>, Vec<u8>)> {
    chunks.iter().map(|c| (c.type_.as_bytes().to_vec(), c.data.clone())).collect()
}

fn pair(tag: &[u8; 4], data: &[u8]) -> (Vec<u8>, Vec<u8>) {
    (tag.to_vec(), data.to_vec())
}

#[test]
fn header_is_the_png_signature() {
    assert_eq!(Png::HEADER, [137, 80, 78, 71, 13, 10, 26, 10]);
    assert_eq!(&Png::HEADER[1..4], b"PNG");
}

#[test]
fn from_chunks_keeps_the_order() {
    let chunks = sample().into_chunks();
    assert_eq!(
        summary(&chunks),
        vec![
            pair(b"IHDR", b"header"),
            pair(b"ruSt", b"one"),
            pair(b"IDAT", b"pixels"),
            pair(b"ruSt", b"two"),
            pair(b"tEXt", b"note"),
            pair(b"IEND", b""),
        ]
    );
}

#[test]
fn empty_document() {
    let mut png = Png::from_chunks(Vec::new());
    assert!(png.chunk_types().is_empty());
    assert!(png.chunks_by_type(b"IEND").is_empty());
    assert!(png.chunk_by_type(b"IEND").is_none());
    assert_eq!(png.remove_all(b"IEND"), 0);
    assert!(png.into_chunks().is_empty());
}

#[test]
fn append_adds_at_the_end() {
    let mut png = sample();
    png.append_chunk(chunk(b"ruSt", b"three"));
    let chunks = png.into_chunks();
    assert_eq!(chunks.len(), 7);
    assert_eq!(summary(&chunks)[6], pair(b"ruSt", b"three"));
    assert_eq!(summary(&chunks)[5], pair(b"IEND", b""));
}

#[test]
fn remove_all_counts_and_keeps_the_rest_in_order() {
    let mut png = sample();
    assert_eq!(png.remove_all(b"ruSt"), 2);
    assert_eq!(
        summary(&png.into_chunks()),
        vec![
            pair(b"IHDR", b"header"),
            pair(b"IDAT", b"pixels"),
            pair(b"tEXt", b"note"),
            pair(b"IEND", b""),
        ]
    );
}

#[test]
fn remove_all_twice_removes_nothing_more() {
    let mut png = sample();
    assert_eq!(png.remove_all(b"ruSt"), 2);
    assert_eq!(png.remove_all(b"ruSt"), 0);
    assert_eq!(
        summary(&png.into_chunks()),
        vec![
            pair(b"IHDR", b"header"),
            pair(b"IDAT", b"pixels"),
            pair(b"tEXt", b"note"),
            pair(b"IEND", b""),
        ]
    );
}

#[test]
fn remove_all_of_an_absent_type_is_no_error() {
    let mut png = sample();
    assert_eq!(png.remove_all(b"zTXt"), 0);
    assert_eq!(png.remove_all(b""), 0);
    assert_eq!(png.remove_all(b"ruS"), 0);
    assert_eq!(png.remove_all(b"ruStx"), 0);
    assert_eq!(png.remove_all(b"RUST"), 0);
    assert_eq!(png.into_chunks().len(), 6);
}

#[test]
fn remove_all_can_empty_a_document() {
    let mut png = Png::from_chunks(vec![chunk(b"ruSt", b"a"), chunk(b"ruSt", b"b")]);
    assert_eq!(png.remove_all(b"ruSt"), 2);
    assert!(png.into_chunks().is_empty());
}

#[test]
fn chunks_by_type_finds_all_in_file_order() {
    let png = sample();
    let found = png.chunks_by_type(b"ruSt");
    assert_eq!(found.len(), 2);
    assert_eq!(found[0].data, b"one");
    assert_eq!(found[1].data, b"two");
    assert_eq!(png.chunks_by_type(b"IEND").len(), 1);
    assert!(png.chunks_by_type(b"rust").is_empty());
    assert!(png.chunks_by_type(b"ruStruSt").is_empty());
}

#[test]
fn chunk_by_type_finds_the_last() {
    let png = sample();
    assert_eq!(png.chunk_by_type(b"ruSt").unwrap().data, b"two");
    assert_eq!(png.chunk_by_type(b"IHDR").unwrap().data, b"header");
    assert!(png.chunk_by_type(b"zTXt").is_none());
}

#[test]
fn chunk_by_type_after_two_appends_finds_the_second() {
    let mut png = sample();
    png.append_chunk(chunk(b"teSt", b"first"));
    png.append_chunk(chunk(b"teSt", b"second"));
    assert_eq!(png.chunk_by_type(b"teSt").unwrap().data, b"second");

    let mut png = Png::from_chunks(Vec::new());
    png.append_chunk(chunk(b"teSt", b"first"));
    png.append_chunk(chunk(b"teSt", b"second"));
    assert_eq!(png.chunk_by_type(b"teSt").unwrap().data, b"second");
}

#[test]
fn chunk_types_are_sorted_and_listed_once() {
    assert_eq!(sample().chunk_types(), vec!["IDAT", "IEND", "IHDR", "ruSt", "tEXt"]);
}

#[test]
fn chunk_types_order_upper_case_before_lower_case() {
    let png = Png::from_chunks(vec![
        chunk(b"zzZz", b""),
        chunk(b"aaAa", b""),
        chunk(b"ZZZZ", b""),
        chunk(b"AAAA", b""),
        chunk(b"AAAB", b""),
        chunk(b"AAAa", b""),
        chunk(b"AaAA", b""),
        chunk(b"aaAa", b""),
        chunk(b"AAAA", b""),
    ]);
    let names = png.chunk_types();
    assert_eq!(names, vec!["AAAA", "AAAB", "AAAa", "AaAA", "ZZZZ", "aaAa", "zzZz"]);
    let mut sorted = names.clone();
    sorted.sort();
    sorted.dedup();
    assert_eq!(names, sorted);
}

#[test]
fn chunk_types_of_one_type() {
    let png = Png::from_chunks(vec![chunk(b"ruSt", b"a"), chunk(b"ruSt", b"b")]);
    assert_eq!(png.chunk_types(), vec!["ruSt"]);
}
