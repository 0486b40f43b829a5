use vstd::prelude::*;
use vstd::utf8::{
    decode_utf8, encode_utf8, encode_utf8_decode_utf8, encode_utf8_valid_utf8,
    is_ascii_chars, is_ascii_chars_encode_utf8, valid_utf8,
};
use crate::error::{CodecError, TagFault};
use vstd::string::StringSliceAdditionalSpecFns;
use vstd::std_specs::convert::TryFromSpecImpl;
use std::str::FromStr;

verus! {

/// Size of a chunk tag in bytes.
pub const TAG_SIZE: usize = 4;

/// An ASCII letter, upper or lower case.
pub open spec fn is_alpha(b: u8) -> bool {
    (65 <= b && b <= 90) || (97 <= b && b <= 122)
}

/// Every byte of `s` is an ASCII letter.
pub open spec fn all_alpha(s: Seq<u8>) -> bool {
    forall|i: int| 0 <= i < s.len() ==> #[trigger] is_alpha(s[i])
}

/// Bit 5 of a byte (the ASCII lower-case bit).
pub open spec fn bit5(b: u8) -> bool {
    (b >> 5u8) & 1u8 == 1u8
}

/// Bit 5 is clear exactly when the shifted, masked byte is zero.
pub proof fn lemma_bit5_clear(b: u8)
    ensures
        ((b >> 5u8) & 1u8 == 0u8) == !bit5(b),
{
    assert(((b >> 5u8) & 1u8 == 0u8) == !((b >> 5u8) & 1u8 == 1u8)) by (bit_vector);
}

/// The outcome of reading a tag from its bytes: the tag's bytes, or the fault.
pub open spec fn parse_tag_spec(b: Seq<u8>) -> Result<Seq<u8>, CodecError> {
    if b.len() != 4 {
        Err(CodecError::FormatError(TagFault::NotFourBytes))
    } else if !all_alpha(b) {
        Err(CodecError::FormatError(TagFault::NotAsciiAlphabetic))
    } else {
        Ok(b)
    }
}

/// What `String::from_utf8_lossy` makes of a byte sequence.
pub uninterp spec fn lossy_utf8(b: Seq<u8>) -> Seq<char>;

/// Relies on std's `String::from_utf8_lossy`: the text depends on the bytes
/// alone, and valid UTF-8 is decoded as it is.
#[verifier::external_body]
pub(crate) fn lossy_string(b: &[u8]) -> (r: String)
    ensures
        r@ == lossy_utf8(b@),
        valid_utf8(b@) ==> r@ == decode_utf8(b@),
{
    String::from_utf8_lossy(b).into_owned()
}

/// A chunk's four-byte type identifier. Any four bytes make a tag; whether
/// they form a well-formed one is reported by `is_valid`.
#[derive(Debug, Clone, Copy, PartialEq, Eq)]
pub struct ChunkType {
    content: [u8; 4],
}

impl View for ChunkType {
    type V = Seq<u8>;

    closed spec fn view(&self) -> Seq<u8> {
        self.content@
    }
}

impl ChunkType {
    /// A tag always has four bytes.
    pub proof fn lemma_len(self)
        ensures
            self@.len() == 4,
    {
    }

    /// The tag made of the given bytes.
    pub fn new(content: &[u8; 4]) -> (r: Self)
        ensures
            r@ == content@,
    {
        ChunkType { content: *content }
    }

    /// Is `x` an ASCII letter?
    pub fn is_valid_byte(x: &u8) -> (r: bool)
        ensures
            r == is_alpha(*x),
    {
        (65u8 <= *x && *x <= 90u8) || (97u8 <= *x && *x <= 122u8)
    }

    /// Are all bytes of `x` ASCII letters?
    pub fn is_valid_chunk_type(x: &[u8]) -> (r: bool)
        ensures
            r == all_alpha(x@),
    {
        let mut i: usize = 0;
        while i < x.len()
            invariant
                i <= x@.len(),
                all_alpha(x@.subrange(0, i as int)),
            decreases x@.len() - i,
        {
            if !Self::is_valid_byte(&x[i]) {
                assert(!is_alpha(x@[i as int]));
                return false;
            }
            assert(x@.subrange(0, i as int + 1) =~= x@.subrange(0, i as int).push(x@[i as int]));
            i = i + 1;
        }
        assert(x@.subrange(0, i as int) =~= x@);
        true
    }

    /// The tag made of four bytes that must all be ASCII letters.
    pub fn try_from_bytes(x: &[u8; 4]) -> (r: Result<Self, CodecError>)
        ensures
            match parse_tag_spec(x@) {
                Ok(b) => r matches Ok(t) && t@ == b,
                Err(e) => r == Err::<Self, CodecError>(e),
            },
    {
        if Self::is_valid_chunk_type(x) {
            Ok(Self::new(x))
        } else {
            Err(CodecError::FormatError(TagFault::NotAsciiAlphabetic))
        }
    }

    /// The tag spelt by a string of exactly four ASCII letters.
    pub fn try_from_str(x: &str) -> (r: Result<Self, CodecError>)
        ensures
            match parse_tag_spec(x.spec_bytes()) {
                Ok(b) => r matches Ok(t) && t@ == b,
                Err(e) => r == Err::<Self, CodecError>(e),
            },
    {
        if x.len() == TAG_SIZE {
            let b = x.as_bytes();
            let arr: [u8; 4] = [b[0], b[1], b[2], b[3]];
            assert(arr@ =~= x.spec_bytes());
            Self::try_from_bytes(&arr)
        } else {
            Err(CodecError::FormatError(TagFault::NotFourBytes))
        }
    }

    /// The tag's bytes read as text, with invalid UTF-8 replaced.
    pub fn to_string(&self) -> (r: String)
        ensures
            r@ == lossy_utf8(self@),
            all_alpha(self@) ==> r@ == ascii_text(self@),
    {
        proof {
            if all_alpha(self@) {
                lemma_ascii_text(self@);
            }
        }
        lossy_string(&self.content)
    }
}

/// The characters whose codes are the given bytes.
pub open spec fn ascii_text(b: Seq<u8>) -> Seq<char> {
    Seq::new(b.len(), |i: int| b[i] as char)
}

/// Bytes that are ASCII letters are valid UTF-8: they decode to the
/// characters of the same codes, and those encode back to the bytes.
pub proof fn lemma_ascii_text(b: Seq<u8>)
    requires
        all_alpha(b),
    ensures
        valid_utf8(b),
        decode_utf8(b) == ascii_text(b),
        encode_utf8(ascii_text(b)) == b,
{
    let chars = ascii_text(b);
    assert forall|i: int| 0 <= i < chars.len() implies '\0' <= #[trigger] chars[i] <= '\u{7f}' by {
        assert(is_alpha(b[i]));
    }
    assert(is_ascii_chars(chars));
    is_ascii_chars_encode_utf8(chars);
    assert(encode_utf8(chars) =~= b);
    encode_utf8_valid_utf8(chars);
    encode_utf8_decode_utf8(chars);
}

/// The queries that a chunk tag answers.
pub trait IChunkType {
    fn bytes(&self) -> [u8; 4];

    fn is_valid(&self) -> bool;

    fn is_critical(&self) -> bool;

    fn is_public(&self) -> bool;

    fn is_reserved_bit_valid(&self) -> bool;

    fn is_safe_to_copy(&self) -> bool;
}

impl ChunkType {
    /// All four bytes are ASCII letters and the reserved bit is clear.
    pub open spec fn is_valid_spec(self) -> bool {
        all_alpha(self@) && !bit5(self@[2])
    }
}

impl IChunkType for ChunkType {
    /// The tag's four bytes.
    fn bytes(&self) -> (r: [u8; 4])
        ensures
            r@ == self@,
    {
        self.content
    }

    /// Letters only, and the reserved bit (bit 5 of the third byte) clear.
    fn is_valid(&self) -> (r: bool)
        ensures
            r == self.is_valid_spec(),
    {
        Self::is_valid_chunk_type(&self.content) && self.is_reserved_bit_valid()
    }

    /// Bit 5 of the first byte is clear.
    fn is_critical(&self) -> (r: bool)
        ensures
            r == !bit5(self@[0]),
    {
        proof {
            lemma_bit5_clear(self@[0]);
        }
        self.content[0] >> 5u8 & 1u8 == 0u8
    }

    /// Bit 5 of the second byte is clear.
    fn is_public(&self) -> (r: bool)
        ensures
            r == !bit5(self@[1]),
    {
        proof {
            lemma_bit5_clear(self@[1]);
        }
        self.content[1] >> 5u8 & 1u8 == 0u8
    }

    /// Bit 5 of the third byte is clear.
    fn is_reserved_bit_valid(&self) -> (r: bool)
        ensures
            r == !bit5(self@[2]),
    {
        proof {
            lemma_bit5_clear(self@[2]);
        }
        self.content[2] >> 5u8 & 1u8 == 0u8
    }

    /// Bit 5 of the fourth byte is set.
    fn is_safe_to_copy(&self) -> (r: bool)
        ensures
            r == bit5(self@[3]),
    {
        self.content[3] >> 5u8 & 1u8 == 1u8
    }
}

impl TryFrom<[u8; 4]> for ChunkType {
    type Error = CodecError;

    /// Any four bytes make a tag; validity is a separate question.
    fn try_from(value: [u8; 4]) -> (r: Result<Self, Self::Error>)
        ensures
            r matches Ok(t) && t@ == value@,
    {
        Ok(ChunkType { content: value })
    }
}

impl TryFromSpecImpl<[u8; 4]> for ChunkType {
    open spec fn obeys_try_from_spec() -> bool {
        true
    }

    closed spec fn try_from_spec(v: [u8; 4]) -> Result<Self, CodecError> {
        Ok(ChunkType { content: v })
    }
}

impl FromStr for ChunkType {
    type Err = CodecError;

    /// The tag spelt by a string of exactly four ASCII letters.
    fn from_str(s: &str) -> (r: Result<Self, Self::Err>)
        ensures
            match parse_tag_spec(s.spec_bytes()) {
                Ok(b) => r matches Ok(t) && t@ == b,
                Err(e) => r == Err::<Self, CodecError>(e),
            },
    {
        Self::try_from_str(s)
    }
}

/// Reading back the text of a valid tag gives the same tag: the text
/// encodes to the tag's bytes, which `try_from_str` accepts.
pub proof fn lemma_tag_text_round_trip(t: ChunkType)
    requires
        t.is_valid_spec(),
    ensures
        parse_tag_spec(encode_utf8(ascii_text(t@))) == Ok::<Seq<u8>, CodecError>(t@),
{
    t.lemma_len();
    lemma_ascii_text(t@);
}

} // verus!
