//! Chunks and their validated type tags.
//!
//! A [`ChunkType`] can only be made of four ASCII letters with the reserved
//! bit clear, so every chunk has a type that may stand in a file. A
//! [`Chunk`] made by [`Chunk::new`] has a length field that agrees with its
//! data and a checksum that agrees with type and data; its fields are
//! public, and a chunk read from a file holds the checksum that the file
//! gave.
use std::borrow::Cow;
use std::str::FromStr;
use vstd::prelude::*;
use vstd::std_specs::cmp::PartialEqSpecImpl;
use vstd::std_specs::convert::TryFromSpecImpl;
use vstd::utf8::{decode_utf8, encode_utf8, valid_utf8};
use crate::chunk_type::{
    bytes_are_well_formed, bytes_equal, case_bit_set, lemma_ascii_is_utf8,
    lemma_letters_are_ascii, tag_text, valid_tag, well_formed_tag, CASE_BIT,
};
use crate::wire::{be_value, u32_from_be};

verus! {

/// Why a byte stream is not a PNG chunk stream.
#[derive(Debug, PartialEq, Eq, Structural)]
pub enum FormatError {
    /// The reserved bit of a chunk type is set.
    Reserved,
    /// A chunk type is not four ASCII letters.
    InvalidChunkType,
    /// The stream ends inside the signature or inside a chunk.
    UnexpectedEof,
    /// The stream does not start with the PNG signature.
    InvalidHeader,
}

/// What construction of a tag from `tag` yields: the error, if any.
pub open spec fn tag_error(tag: Seq<u8>) -> Option<FormatError> {
    if !well_formed_tag(tag) {
        Some(FormatError::InvalidChunkType)
    } else if case_bit_set(tag[2]) {
        Some(FormatError::Reserved)
    } else {
        None
    }
}

/// The first four bytes of `bytes`, with zeros where `bytes` is shorter.
pub open spec fn first_four(bytes: Seq<u8>) -> Seq<u8> {
    Seq::new(4, |i: int| if i < bytes.len() { bytes[i] } else { 0u8 })
}

/// What construction of a tag from four bytes yields.
pub open spec fn checked_tag(bytes: [u8; 4]) -> Result<ChunkType, FormatError> {
    match tag_error(bytes@) {
        Some(e) => Err(e),
        None => Ok(ChunkType::of(bytes)),
    }
}

/// A validated chunk type: four ASCII letters with the reserved bit clear.
#[derive(Debug)]
pub struct ChunkType([u8; 4]);

impl View for ChunkType {
    type V = Seq<u8>;

    closed spec fn view(&self) -> Seq<u8> {
        self.0@
    }
}

impl ChunkType {
    #[verifier::type_invariant]
    spec fn inv(self) -> bool {
        valid_tag(self.0@)
    }

    /// The tag that holds `bytes`.
    pub closed spec fn of(bytes: [u8; 4]) -> Self {
        ChunkType(bytes)
    }

    /// The four letters of the tag.
    pub fn as_bytes(&self) -> (r: &[u8])
        ensures
            r@ == self@,
            valid_tag(self@),
    {
        proof {
            use_type_invariant(self);
        }
        self.0.as_slice()
    }

    /// A critical chunk has an upper-case first letter.
    pub fn is_critical(&self) -> (r: bool)
        ensures
            r == !case_bit_set(self@[0]),
            valid_tag(self@),
    {
        proof {
            use_type_invariant(self);
        }
        self.0[0] & CASE_BIT == 0
    }

    /// A public chunk, one defined by the PNG standard, has an upper-case
    /// second letter.
    pub fn is_public(&self) -> (r: bool)
        ensures
            r == !case_bit_set(self@[1]),
            valid_tag(self@),
    {
        proof {
            use_type_invariant(self);
        }
        self.0[1] & CASE_BIT == 0
    }

    /// Whether the reserved bit, the case bit of the third letter, is set.
    /// It never is in a tag that was constructed.
    pub fn reserved_set(&self) -> (r: bool)
        ensures
            r == case_bit_set(self@[2]),
            !r,
            valid_tag(self@),
    {
        proof {
            use_type_invariant(self);
        }
        self.0[2] & CASE_BIT != 0
    }

    /// A chunk of a type unknown to an editor may be copied to the edited
    /// file when the fourth letter is lower case.
    pub fn safe_to_copy(&self) -> (r: bool)
        ensures
            r == case_bit_set(self@[3]),
            valid_tag(self@),
    {
        proof {
            use_type_invariant(self);
        }
        self.0[3] & CASE_BIT != 0
    }

    /// The tag as a number: its four bytes read big-endian. Tags are
    /// ordered as text exactly as their numbers are.
    pub(crate) fn key(&self) -> (key: u32)
        ensures
            key == be_value(self@),
            valid_tag(self@),
    {
        proof {
            use_type_invariant(self);
        }
        u32_from_be(self.0)
    }

    /// The tag as text: its four letters.
    pub fn to_string(&self) -> (text: String)
        ensures
            text@ == tag_text(self@),
            valid_tag(self@),
    {
        proof {
            use_type_invariant(self);
            lemma_letters_are_ascii(self@);
            lemma_ascii_is_utf8(self@);
        }
        owned_text(lossy_text(self.0.as_slice()))
    }
}

impl PartialEq for ChunkType {
    /// Two tags are equal when their four bytes are.
    fn eq(&self, other: &Self) -> (r: bool) {
        bytes_equal(self.0.as_slice(), other.0.as_slice())
    }
}

impl Eq for ChunkType {

}

impl PartialEqSpecImpl for ChunkType {
    open spec fn obeys_eq_spec() -> bool {
        true
    }

    open spec fn eq_spec(&self, other: &Self) -> bool {
        self@ == other@
    }
}

impl FromStr for ChunkType {
    type Err = FormatError;

    /// Makes a tag from the first four bytes of `s`. Where `s` has fewer
    /// than four bytes the missing ones count as zero, so such a string is
    /// never a tag.
    fn from_str(s: &str) -> (r: Result<Self, FormatError>)
        ensures
            match tag_error(first_four(encode_utf8(s@))) {
                Some(e) => r is Err && r->Err_0 == e,
                None => r is Ok && r->Ok_0@ == first_four(encode_utf8(s@)),
            },
    {
        let text = s.as_bytes();
        let mut bytes = [0u8; 4];
        let mut i: usize = 0;
        while i < 4 && i < text.len()
            invariant
                i <= 4,
                i <= text@.len(),
                forall|j: int| 0 <= j < i ==> bytes@[j] == text@[j],
                forall|j: int| i <= j < 4 ==> bytes@[j] == 0,
            decreases 4 - i,
        {
            bytes[i] = text[i];
            i += 1;
        }
        assert(bytes@ =~= first_four(encode_utf8(s@)));
        proof {
            lemma_of_view(bytes);
        }
        ChunkType::try_from(bytes)
    }
}

impl TryFrom<[u8; 4]> for ChunkType {
    type Error = FormatError;

    /// Checks `value`: a byte that is no letter is reported first, then a
    /// reserved bit that is set.
    fn try_from(value: [u8; 4]) -> (r: Result<Self, FormatError>) {
        if !bytes_are_well_formed(value.as_slice()) {
            return Err(FormatError::InvalidChunkType);
        }
        if value[2] & CASE_BIT != 0 {
            return Err(FormatError::Reserved);
        }
        Ok(ChunkType(value))
    }
}

impl TryFromSpecImpl<[u8; 4]> for ChunkType {
    open spec fn obeys_try_from_spec() -> bool {
        true
    }

    open spec fn try_from_spec(value: [u8; 4]) -> Result<Self, FormatError> {
        checked_tag(value)
    }
}

/// The tag that holds `bytes` has exactly those bytes.
pub proof fn lemma_of_view(bytes: [u8; 4])
    ensures
        ChunkType::of(bytes)@ == bytes@,
{
}

/// Construction from four bytes succeeds exactly on valid tags, and the tag
/// it yields gives the same four bytes back; on other input it fails, with
/// `InvalidChunkType` unless all four bytes are letters.
pub proof fn lemma_try_from_round_trip(bytes: [u8; 4])
    ensures
        valid_tag(bytes@) <==> checked_tag(bytes) is Ok,
        valid_tag(bytes@) ==> checked_tag(bytes).unwrap()@ == bytes@,
        !well_formed_tag(bytes@) ==> checked_tag(bytes) == Err::<ChunkType, FormatError>(
            FormatError::InvalidChunkType,
        ),
        well_formed_tag(bytes@) && !valid_tag(bytes@) ==> checked_tag(bytes) == Err::<
            ChunkType,
            FormatError,
        >(FormatError::Reserved),
{
}

/// One framed unit of a PNG file.
#[derive(Debug)]
pub struct Chunk {
    /// Length of `data`; the other fields are not counted.
    pub length: u32,
    pub type_: ChunkType,
    pub data: Vec<u8>,
    /// Cyclic redundancy check over the type and the data, not the length.
    pub crc: u32,
}

/// The mathematical content of a [`Chunk`].
pub struct ChunkView {
    pub length: u32,
    pub type_: Seq<u8>,
    pub data: Seq<u8>,
    pub crc: u32,
}

impl ChunkView {
    /// The length field agrees with the payload and the type is a valid tag.
    pub open spec fn wf(self) -> bool {
        &&& self.length == self.data.len()
        &&& valid_tag(self.type_)
    }

    /// The checksum field is the checksum of type and data.
    pub open spec fn crc_matches(self) -> bool {
        self.crc == crc32(self.type_ + self.data)
    }
}

impl View for Chunk {
    type V = ChunkView;

    open spec fn view(&self) -> ChunkView {
        ChunkView { length: self.length, type_: self.type_@, data: self.data@, crc: self.crc }
    }
}

/// The CRC-32/IEEE checksum of `bytes`: what `crc32fast::hash` returns for
/// them. Nothing in this crate says how it is computed.
pub uninterp spec fn crc32(bytes: Seq<u8>) -> u32;

/// Assumed of `crc32fast::hash`, not proved: what it returns depends on
/// the bytes of the slice alone. Its documentation calls the result the
/// CRC32 (IEEE) hash of the slice.
pub assume_specification[ crc32fast::hash ](buf: &[u8]) -> (crc: u32)
    ensures
        crc == crc32(buf@),
;

/// The text that `String::from_utf8_lossy` makes of `bytes`.
pub uninterp spec fn utf8_lossy(bytes: Seq<u8>) -> Seq<char>;

/// Calls `String::from_utf8_lossy`.
///
/// Assumed of it, not proved: the text depends on the bytes alone, and
/// bytes that are valid UTF-8 give the text that they encode. What it puts
/// in place of bytes that are not UTF-8 (U+FFFD, the replacement
/// character) is not stated here.
#[verifier::external_body]
pub(crate) fn lossy_text(bytes: &[u8]) -> (text: Cow<'_, str>)
    ensures
        text@ == utf8_lossy(bytes@),
        valid_utf8(bytes@) ==> text@ == decode_utf8(bytes@),
{
    String::from_utf8_lossy(bytes)
}

/// The text as a string of its own.
pub(crate) fn owned_text(text: Cow<'_, str>) -> (owned: String)
    ensures
        owned@ == text@,
{
    match text {
        Cow::Borrowed(borrowed) => borrowed.to_owned(),
        Cow::Owned(owned) => owned,
    }
}

/// The checksum of a chunk: over its type and its data, in that order.
fn checksum(type_: &ChunkType, data: &[u8]) -> (crc: u32)
    ensures
        crc == crc32(type_@ + data@),
{
    let mut covered: Vec<u8> = Vec::new();
    covered.extend_from_slice(type_.as_bytes());
    covered.extend_from_slice(data);
    assert(covered@ =~= type_@ + data@);
    crc32fast::hash(covered.as_slice())
}

impl Chunk {
    /// Frames `data` as a chunk of type `type_` and computes its checksum.
    pub fn new(type_: ChunkType, data: Vec<u8>) -> (chunk: Self)
        requires
            data@.len() <= u32::MAX,
        ensures
            chunk@ == (ChunkView {
                length: data@.len() as u32,
                type_: type_@,
                data: data@,
                crc: crc32(type_@ + data@),
            }),
            chunk@.wf(),
            chunk@.crc_matches(),
    {
        proof {
            use_type_invariant(&type_);
        }
        let crc = checksum(&type_, data.as_slice());

        Chunk { length: data.len() as u32, type_, data, crc }
    }

    /// Whether the stored checksum is the checksum of type and data. It is
    /// in a chunk made by [`Chunk::new`]; a chunk that was read from a file
    /// holds whatever the file said.
    pub fn crc_matches(&self) -> (r: bool)
        ensures
            r == self@.crc_matches(),
    {
        checksum(&self.type_, self.data.as_slice()) == self.crc
    }

    /// The payload as text. Bytes that are not UTF-8 are replaced, so this
    /// never fails.
    pub fn message(&self) -> (text: Cow<'_, str>)
        ensures
            text@ == utf8_lossy(self@.data),
            valid_utf8(self@.data) ==> text@ == decode_utf8(self@.data),
    {
        lossy_text(self.data.as_slice())
    }
}

} // verus!
