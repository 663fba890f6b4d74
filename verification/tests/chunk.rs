use pnmsg::chunk::{Chunk, ChunkType, FormatError};
use std::str::FromStr;

#[test]
fn errors_when_parsing_invalid_chunk() {
    let cases = [
        (b"Rust", FormatError::Reserved),
        (b"RuS7", FormatError::InvalidChunkType),
    ];

    for (input, expected) in cases {
        assert_eq!(
            expected,
            TryInto::<ChunkType>::try_into(*input).unwrap_err()
        );
    }
}

#[test]
fn new_chunk() {
    let chunk_type: ChunkType = TryFrom::try_from(*b"RuSt").unwrap();
    let data = b"This is where your secret message will be!".to_vec();
    let chunk = Chunk::new(chunk_type, data);
    assert_eq!(chunk.length, 42);
    assert_eq!(chunk.crc, 2882656334);
}

#[test]
fn valid_tag_round_trips_through_its_bytes() {
    for tag in [*b"RuSt", *b"IHDR", *b"IEND", *b"tEXt", *b"zzZz", *b"AAAA", *b"bLOb"] {
        let chunk_type = ChunkType::try_from(tag).unwrap();
        assert_eq!(chunk_type.as_bytes(), &tag[..]);
    }
}

#[test]
fn every_letter_is_accepted_in_every_place() {
    let letters = b"ABCDEFGHIJKLMNOPQRSTUVWXYZabcdefghijklmnopqrstuvwxyz";
    for &l in letters.iter() {
        for place in 0..4 {
            let mut tag = *b"RuSt";
            tag[place] = l;
            let made = ChunkType::try_from(tag);
            if place == 2 && l.is_ascii_lowercase() {
                assert_eq!(made.unwrap_err(), FormatError::Reserved);
            } else {
                assert_eq!(made.unwrap().as_bytes(), &tag[..]);
            }
        }
    }
}

#[test]
fn bytes_next_to_the_letters_are_rejected() {
    for b in [0u8, b'0', b'9', b'@', b'[', b'`', b'{', 0x7f, 0x80, 0xff, b' '] {
        for place in 0..4 {
            let mut tag = *b"RuSt";
            tag[place] = b;
            assert_eq!(ChunkType::try_from(tag).unwrap_err(), FormatError::InvalidChunkType);
        }
    }
}

#[test]
fn a_bad_letter_outranks_the_reserved_bit() {
    assert_eq!(ChunkType::try_from(*b"Rus7").unwrap_err(), FormatError::InvalidChunkType);
    assert_eq!(ChunkType::try_from(*b"1ust").unwrap_err(), FormatError::InvalidChunkType);
}

#[test]
fn flags_follow_the_case_of_each_letter() {
    let t = ChunkType::try_from(*b"RuSt").unwrap();
    assert!(t.is_critical());
    assert!(!t.is_public());
    assert!(!t.reserved_set());
    assert!(t.safe_to_copy());

    let t = ChunkType::try_from(*b"rUST").unwrap();
    assert!(!t.is_critical());
    assert!(t.is_public());
    assert!(!t.reserved_set());
    assert!(!t.safe_to_copy());
}

#[test]
fn tag_from_text_takes_the_first_four_bytes() {
    assert_eq!(ChunkType::from_str("RuSt").unwrap().as_bytes(), b"RuSt");
    assert_eq!("ruSt".parse::<ChunkType>().unwrap().as_bytes(), b"ruSt");
    assert_eq!(ChunkType::from_str("RuStAndMore").unwrap().as_bytes(), b"RuSt");
    assert_eq!(ChunkType::from_str("RuSt1234").unwrap().as_bytes(), b"RuSt");
}

#[test]
fn tag_from_short_text_fails() {
    assert_eq!(ChunkType::from_str("").unwrap_err(), FormatError::InvalidChunkType);
    assert_eq!(ChunkType::from_str("R").unwrap_err(), FormatError::InvalidChunkType);
    assert_eq!(ChunkType::from_str("RuS").unwrap_err(), FormatError::InvalidChunkType);
    assert_eq!("Rus".parse::<ChunkType>().unwrap_err(), FormatError::InvalidChunkType);
}

#[test]
fn tag_from_text_reports_each_error() {
    assert_eq!(ChunkType::from_str("Rust").unwrap_err(), FormatError::Reserved);
    assert_eq!(ChunkType::from_str("Ru5t").unwrap_err(), FormatError::InvalidChunkType);
    assert_eq!(ChunkType::from_str("R\u{e9}S").unwrap_err(), FormatError::InvalidChunkType);
    assert_eq!("Rust".parse::<ChunkType>().unwrap_err(), FormatError::Reserved);
}

#[test]
fn tags_are_equal_when_their_bytes_are() {
    let a = ChunkType::try_from(*b"RuSt").unwrap();
    let b = ChunkType::from_str("RuSt").unwrap();
    let c = ChunkType::try_from(*b"ruSt").unwrap();
    assert_eq!(a, b);
    assert_ne!(a, c);
    assert!(a == b);
    assert!(a != c);
}

#[test]
fn tag_text_is_its_four_letters() {
    assert_eq!(ChunkType::try_from(*b"RuSt").unwrap().to_string(), "RuSt");
    assert_eq!(ChunkType::try_from(*b"IEND").unwrap().to_string(), "IEND");
}

#[test]
fn chunk_keeps_type_and_data() {
    let chunk = Chunk::new(ChunkType::try_from(*b"RuSt").unwrap(), vec![1, 2, 3, 0xff]);
    assert_eq!(chunk.length, 4);
    assert_eq!(chunk.type_.as_bytes(), b"RuSt");
    assert_eq!(chunk.data, vec![1, 2, 3, 0xff]);
}

#[test]
fn checksum_covers_type_and_data() {
    // The checksum of the end chunk of every PNG file: type IEND, no data.
    let end = Chunk::new(ChunkType::try_from(*b"IEND").unwrap(), Vec::new());
    assert_eq!(end.length, 0);
    assert_eq!(end.crc, 0xae42_6082);


    let a = Chunk::new(ChunkType::try_from(*b"RuSt").unwrap(), b"abc".to_vec());
    let b = Chunk::new(ChunkType::try_from(*b"RuSt").unwrap(), b"abd".to_vec());
    let c = Chunk::new(ChunkType::try_from(*b"ruSt").unwrap(), b"abc".to_vec());
    assert_eq!(a.crc, crc32fast::hash(b"RuStabc"));
    assert_ne!(a.crc, b.crc);
    assert_ne!(a.crc, c.crc);
}

#[test]
fn checksum_does_not_cover_the_length() {
    let chunk = Chunk::new(ChunkType::try_from(*b"tEXt").unwrap(), b"hello".to_vec());
    assert_eq!(chunk.crc, crc32fast::hash(b"tEXthello"));
    assert_ne!(chunk.crc, crc32fast::hash(b"\0\0\0\x05tEXthello"));
}

#[test]
fn message_of_text() {
    let data = "gr\u{fc}\u{df}e".as_bytes().to_vec();
    let chunk = Chunk::new(ChunkType::try_from(*b"ruSt").unwrap(), data);
    assert_eq!(chunk.message(), "gr\u{fc}\u{df}e");
    let empty = Chunk::new(ChunkType::try_from(*b"ruSt").unwrap(), Vec::new());
    assert_eq!(empty.message(), "");
}

#[test]
fn message_of_bytes_that_are_not_text() {
    let chunk = Chunk::new(ChunkType::try_from(*b"ruSt").unwrap(), vec![b'a', 0xff, b'b']);
    assert_eq!(chunk.message(), "a\u{fffd}b");
    let chunk = Chunk::new(ChunkType::try_from(*b"ruSt").unwrap(), vec![0xc3]);
    assert_eq!(chunk.message(), "\u{fffd}");
}

#[test]
fn fresh_chunk_has_a_matching_checksum() {
    let chunk = Chunk::new(ChunkType::try_from(*b"ruSt").unwrap(), b"hello".to_vec());
    assert!(chunk.crc_matches());
    let empty = Chunk::new(ChunkType::try_from(*b"IEND").unwrap(), Vec::new());
    assert!(empty.crc_matches());
}

#[test]
fn altered_chunk_has_no_matching_checksum() {
    let mut chunk = Chunk::new(ChunkType::try_from(*b"ruSt").unwrap(), b"hello".to_vec());
    chunk.data[0] = b'j';
    assert!(!chunk.crc_matches());
    chunk.data[0] = b'h';
    assert!(chunk.crc_matches());
    chunk.crc ^= 1;
    assert!(!chunk.crc_matches());
    chunk.crc ^= 1;
    chunk.type_ = ChunkType::try_from(*b"ruST").unwrap();
    assert!(!chunk.crc_matches());
}
