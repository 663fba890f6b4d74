//! Four-letter chunk type tags, as raw bytes.
//!
//! The case of each letter of a tag is a flag. Bit 5 of a byte tells upper
//! case (clear) from lower case (set), so the flags are read with bit tests
//! and stay meaningful for tags this crate has never heard of.
use vstd::prelude::*;
use vstd::slice::slice_to_vec;
use vstd::std_specs::cmp::PartialEqSpecImpl;
use vstd::std_specs::convert::TryFromSpecImpl;
use vstd::utf8::{
    decode_utf8, encode_utf8, encode_utf8_decode_utf8, encode_utf8_valid_utf8, is_ascii_chars,
    is_ascii_chars_encode_utf8, valid_utf8,
};
use crate::chunk::{lossy_text, owned_text, tag_error, utf8_lossy, FormatError};

verus! {

/// The bit that tells a lower-case ASCII letter from an upper-case one.
pub const CASE_BIT: u8 = 0x20;

/// `true` for the bytes `A..=Z` and `a..=z`.
pub open spec fn is_letter(b: u8) -> bool {
    (0x41 <= b <= 0x5a) || (0x61 <= b <= 0x7a)
}

/// `true` when bit 5 of `b` is set.
pub open spec fn case_bit_set(b: u8) -> bool {
    b & CASE_BIT != 0
}

/// A tag is well formed when it is exactly four ASCII letters.
pub open spec fn well_formed_tag(tag: Seq<u8>) -> bool {
    &&& tag.len() == 4
    &&& forall|i: int| 0 <= i < 4 ==> is_letter(#[trigger] tag[i])
}

/// A tag is valid when it is well formed and its reserved bit, the case bit
/// of the third letter, is clear.
pub open spec fn valid_tag(tag: Seq<u8>) -> bool {
    &&& well_formed_tag(tag)
    &&& !case_bit_set(tag[2])
}

/// The text that shows a byte string of ASCII: one character per byte.
pub open spec fn tag_text(tag: Seq<u8>) -> Seq<char> {
    Seq::new(tag.len(), |i: int| tag[i] as char)
}

/// A string of ASCII bytes is valid UTF-8 and decodes to one character per
/// byte.
pub proof fn lemma_ascii_is_utf8(bytes: Seq<u8>)
    requires
        forall|i: int| 0 <= i < bytes.len() ==> bytes[i] < 0x80,
    ensures
        valid_utf8(bytes),
        decode_utf8(bytes) == tag_text(bytes),
        encode_utf8(tag_text(bytes)) == bytes,
{
    let text = tag_text(bytes);
    assert(is_ascii_chars(text));
    is_ascii_chars_encode_utf8(text);
    assert(encode_utf8(text) =~= bytes);
    encode_utf8_valid_utf8(text);
    encode_utf8_decode_utf8(text);
}

/// The bytes of a well-formed tag are ASCII.
pub proof fn lemma_letters_are_ascii(tag: Seq<u8>)
    requires
        well_formed_tag(tag),
    ensures
        forall|i: int| 0 <= i < tag.len() ==> tag[i] < 0x80,
{
}

/// Tests one byte for being an ASCII letter.
pub fn byte_is_letter(b: u8) -> (r: bool)
    ensures
        r == is_letter(b),
{
    (0x41 <= b && b <= 0x5a) || (0x61 <= b && b <= 0x7a)
}

/// Tests a byte string for being four ASCII letters.
pub fn bytes_are_well_formed(bytes: &[u8]) -> (r: bool)
    ensures
        r == well_formed_tag(bytes@),
{
    if bytes.len() != 4 {
        return false;
    }
    let mut i: usize = 0;
    while i < 4
        invariant
            i <= 4,
            bytes@.len() == 4,
            forall|j: int| 0 <= j < i ==> is_letter(#[trigger] bytes@[j]),
        decreases 4 - i,
    {
        if !byte_is_letter(bytes[i]) {
            return false;
        }
        i += 1;
    }
    true
}

/// Compares two byte strings.
pub fn bytes_equal(a: &[u8], b: &[u8]) -> (r: bool)
    ensures
        r == (a@ == b@),
{
    if a.len() != b.len() {
        return false;
    }
    let mut i: usize = 0;
    while i < a.len()
        invariant
            i <= a@.len(),
            a@.len() == b@.len(),
            forall|j: int| 0 <= j < i ==> a@[j] == b@[j],
        decreases a@.len() - i,
    {
        if a[i] != b[i] {
            return false;
        }
        i += 1;
    }
    assert(a@ =~= b@);
    true
}

/// A borrowed, unchecked chunk type tag.
///
/// Any byte string can be wrapped; [`ChunkType::is_valid`] tells whether it
/// is a tag that may appear in a file.
#[derive(Debug)]
pub struct ChunkType<'a> {
    bytes: &'a [u8],
}

impl<'a> View for ChunkType<'a> {
    type V = Seq<u8>;

    closed spec fn view(&self) -> Seq<u8> {
        self.bytes@
    }
}

impl<'a> ChunkType<'a> {
    /// The tag that wraps `bytes`.
    pub closed spec fn of(bytes: &'a [u8]) -> Self {
        ChunkType { bytes }
    }

    /// Wraps `bytes` without looking at them.
    pub fn new(bytes: &'a [u8]) -> (r: Self)
        ensures
            r == Self::of(bytes),
            r@ == bytes@,
    {
        ChunkType { bytes }
    }

    /// A critical chunk has an upper-case first letter.
    pub fn is_critical(&self) -> (r: bool)
        requires
            self@.len() > 0,
        ensures
            r == !case_bit_set(self@[0]),
    {
        self.bytes[0] & CASE_BIT == 0
    }

    /// A public chunk has an upper-case second letter.
    pub fn is_public(&self) -> (r: bool)
        requires
            self@.len() > 1,
        ensures
            r == !case_bit_set(self@[1]),
    {
        self.bytes[1] & CASE_BIT == 0
    }

    /// The reserved bit is set when the third letter is lower case.
    pub fn is_reserved_set(&self) -> (r: bool)
        requires
            self@.len() > 2,
        ensures
            r == case_bit_set(self@[2]),
    {
        self.bytes[2] & CASE_BIT != 0
    }

    /// A chunk is safe to copy when its fourth letter is lower case.
    pub fn is_safe_to_copy(&self) -> (r: bool)
        requires
            self@.len() > 3,
        ensures
            r == case_bit_set(self@[3]),
    {
        self.bytes[3] & CASE_BIT != 0
    }

    /// Four ASCII letters with the reserved bit clear.
    pub fn is_valid(&self) -> (r: bool)
        ensures
            r == valid_tag(self@),
    {
        bytes_are_well_formed(self.bytes) && !self.is_reserved_set()
    }

    /// A copy of the wrapped bytes.
    pub fn bytes(&self) -> (r: Vec<u8>)
        ensures
            r@ == self@,
    {
        slice_to_vec(self.bytes)
    }

    /// The tag as text. A well-formed tag reads as its four letters; bytes
    /// that are not UTF-8 are replaced.
    pub fn to_string(&self) -> (text: String)
        ensures
            text@ == utf8_lossy(self@),
            well_formed_tag(self@) ==> text@ == tag_text(self@),
    {
        proof {
            if well_formed_tag(self@) {
                lemma_letters_are_ascii(self@);
                lemma_ascii_is_utf8(self@);
            }
        }
        owned_text(lossy_text(self.bytes))
    }
}

/// The tag that wraps `bytes` has those bytes.
pub proof fn lemma_of_view(bytes: &[u8])
    ensures
        ChunkType::of(bytes)@ == bytes@,
{
}

/// What checking a byte string for being a tag yields.
pub open spec fn checked_ref<'a>(bytes: &'a [u8]) -> Result<ChunkType<'a>, FormatError> {
    match tag_error(bytes@) {
        Some(e) => Err(e),
        None => Ok(ChunkType::of(bytes)),
    }
}

impl<'a> TryFrom<&'a [u8]> for ChunkType<'a> {
    type Error = FormatError;

    /// Wraps `bytes` if they are a valid tag.
    fn try_from(bytes: &'a [u8]) -> (r: Result<Self, FormatError>) {
        if !bytes_are_well_formed(bytes) {
            return Err(FormatError::InvalidChunkType);
        }
        let chunk_type = ChunkType::new(bytes);
        if chunk_type.is_reserved_set() {
            return Err(FormatError::Reserved);
        }
        Ok(chunk_type)
    }
}

impl<'a> TryFromSpecImpl<&'a [u8]> for ChunkType<'a> {
    open spec fn obeys_try_from_spec() -> bool {
        true
    }

    open spec fn try_from_spec(bytes: &'a [u8]) -> Result<Self, FormatError> {
        checked_ref(bytes)
    }
}

impl<'a, 'b> PartialEq<&'b str> for ChunkType<'a> {
    /// A tag equals a string when its bytes are the bytes of the string.
    fn eq(&self, other: &&'b str) -> (r: bool) {
        bytes_equal(self.bytes, other.as_bytes())
    }
}

impl<'a, 'b> PartialEqSpecImpl<&'b str> for ChunkType<'a> {
    open spec fn obeys_eq_spec() -> bool {
        true
    }

    open spec fn eq_spec(&self, other: &&'b str) -> bool {
        self@ == encode_utf8(other@)
    }
}

} // verus!
