use pngme::chunk_type::{ChunkType, IChunkType};
use pngme::error::{CodecError, TagFault};
use std::convert::TryFrom;
use std::str::FromStr;

#[test]
pub fn test_chunk_type_from_bytes() {
    let expected = [82, 117, 83, 116];
    let actual = ChunkType::try_from([82, 117, 83, 116]).unwrap();

    assert_eq!(expected, actual.bytes());
}

#[test]
pub fn test_chunk_type_from_str() {
    let expected = ChunkType::try_from([82, 117, 83, 116]).unwrap();
    let actual = ChunkType::from_str("RuSt").unwrap();
    assert_eq!(expected, actual);
}

#[test]
pub fn test_chunk_type_is_critical() {
    let chunk = ChunkType::from_str("RuSt").unwrap();
    assert!(chunk.is_critical());
}

#[test]
pub fn test_chunk_type_is_not_critical() {
    let chunk = ChunkType::from_str("ruSt").unwrap();
    assert!(!chunk.is_critical());
}

#[test]
pub fn test_chunk_type_is_public() {
    let chunk = ChunkType::from_str("RUSt").unwrap();
    assert!(chunk.is_public());
}

#[test]
pub fn test_chunk_type_is_not_public() {
    let chunk = ChunkType::from_str("RuSt").unwrap();
    assert!(!chunk.is_public());
}

#[test]
pub fn test_chunk_type_is_reserved_bit_valid() {
    let chunk = ChunkType::from_str("RuSt").unwrap();
    assert!(chunk.is_reserved_bit_valid());
}

#[test]
pub fn test_chunk_type_is_reserved_bit_invalid() {
    let chunk = ChunkType::from_str("Rust").unwrap();
    assert!(!chunk.is_reserved_bit_valid());
}

#[test]
pub fn test_chunk_type_is_safe_to_copy() {
    let chunk = ChunkType::from_str("RuSt").unwrap();
    assert!(chunk.is_safe_to_copy());
}

#[test]
pub fn test_chunk_type_is_unsafe_to_copy() {
    let chunk = ChunkType::from_str("RuST").unwrap();
    assert!(!chunk.is_safe_to_copy());
}

#[test]
pub fn test_valid_chunk_is_valid() {
    let chunk = ChunkType::from_str("RuSt").unwrap();
    assert!(chunk.is_valid());
}

#[test]
pub fn test_invalid_chunk_is_valid() {
    let chunk = ChunkType::from_str("Rust").unwrap();
    assert!(!chunk.is_valid());

    let chunk = ChunkType::from_str("Ru1t");
    assert!(chunk.is_err());
}

#[test]
pub fn test_chunk_type_string() {
    let chunk = ChunkType::from_str("RuSt").unwrap();
    assert_eq!(&chunk.to_string(), "RuSt");
}

#[test]
pub fn test_chunk_type_trait_impls() {
    let chunk_type_1: ChunkType = TryFrom::try_from([82, 117, 83, 116]).unwrap();
    let chunk_type_2: ChunkType = FromStr::from_str("RuSt").unwrap();
    let _chunk_string = chunk_type_1.to_string();
    let _are_chunks_equal = chunk_type_1 == chunk_type_2;
}

#[test]
fn tag_text_reads_back_as_the_same_tag() {
    for text in ["RuSt", "IHDR", "teXt", "abcd", "ZZZZ"] {
        let tag = ChunkType::try_from_str(text).unwrap();
        let again = ChunkType::try_from_str(&tag.to_string()).unwrap();
        assert_eq!(again, tag);
        assert_eq!(again.bytes(), tag.bytes());
    }
}

#[test]
fn flags_follow_bit_five_even_for_invalid_tags() {
    // Digits have bit 5 set, '@' (64) has it clear; neither is a letter.
    let tag = ChunkType::try_from([b'1', b'@', b'@', b'1']).unwrap();
    assert!(!tag.is_valid());
    assert!(!tag.is_critical());
    assert!(tag.is_public());
    assert!(tag.is_reserved_bit_valid());
    assert!(tag.is_safe_to_copy());

    let tag = ChunkType::try_from([b'@', b'1', b'1', b'@']).unwrap();
    assert!(!tag.is_valid());
    assert!(tag.is_critical());
    assert!(!tag.is_public());
    assert!(!tag.is_reserved_bit_valid());
    assert!(!tag.is_safe_to_copy());
}

#[test]
fn raw_bytes_make_a_tag_without_checking_letters() {
    let tag = ChunkType::try_from([0, 1, 2, 3]).unwrap();
    assert_eq!(tag.bytes(), [0, 1, 2, 3]);
    assert!(!tag.is_valid());
}

#[test]
fn tag_from_bytes_requires_letters() {
    assert_eq!(
        ChunkType::try_from_bytes(&[b'R', b'u', b'1', b't']),
        Err(CodecError::FormatError(TagFault::NotAsciiAlphabetic))
    );
    let tag = ChunkType::try_from_bytes(&[b'R', b'u', b'S', b't']).unwrap();
    assert_eq!(tag.bytes(), [82, 117, 83, 116]);
}

#[test]
fn tag_from_str_of_wrong_length_fails() {
    assert_eq!(
        ChunkType::try_from_str("RuS"),
        Err(CodecError::FormatError(TagFault::NotFourBytes))
    );
    assert_eq!(
        ChunkType::try_from_str("RuStX"),
        Err(CodecError::FormatError(TagFault::NotFourBytes))
    );
    assert_eq!(
        ChunkType::try_from_str(""),
        Err(CodecError::FormatError(TagFault::NotFourBytes))
    );
    assert_eq!(
        ChunkType::try_from_str("Ru1t"),
        Err(CodecError::FormatError(TagFault::NotAsciiAlphabetic))
    );
    // "é" takes two bytes: three characters, four bytes, not all letters.
    assert_eq!(
        ChunkType::try_from_str("Réu"),
        Err(CodecError::FormatError(TagFault::NotAsciiAlphabetic))
    );
}

#[test]
fn byte_and_alphabet_checks() {
    assert!(ChunkType::is_valid_byte(&b'a'));
    assert!(ChunkType::is_valid_byte(&b'Z'));
    assert!(!ChunkType::is_valid_byte(&b'@'));
    assert!(!ChunkType::is_valid_byte(&b'['));
    assert!(!ChunkType::is_valid_byte(&b'`'));
    assert!(!ChunkType::is_valid_byte(&b'{'));
    assert!(ChunkType::is_valid_chunk_type(b"RuSt"));
    assert!(ChunkType::is_valid_chunk_type(b""));
    assert!(!ChunkType::is_valid_chunk_type(b"Ru St"));
    assert_eq!(ChunkType::new(&[1, 2, 3, 4]).bytes(), [1, 2, 3, 4]);
}

#[test]
fn tag_text_replaces_invalid_utf8() {
    let tag = ChunkType::try_from([0xFF, b'a', b'b', b'c']).unwrap();
    assert_eq!(tag.to_string(), "\u{FFFD}abc");
}
