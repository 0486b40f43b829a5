use pngme::chunk::{Chunk, IChunk};
use pngme::chunk_type::ChunkType;
use pngme::container::{signature, Container};
use pngme::error::CodecError;
use std::str::FromStr;

fn chunk(tag: &str, data: &str) -> Chunk {
    Chunk::new(ChunkType::from_str(tag).unwrap(), data.as_bytes().to_vec())
}

fn sample() -> Container {
    let mut c = Container::new();
    c.append(chunk("FrSt", "I am the first chunk"));
    c.append(chunk("miDl", "I am another chunk"));
    c.append(chunk("LASt", "I am the last chunk"));
    c
}

fn tags(c: &Container) -> Vec<String> {
    let bytes = c.as_bytes();
    let back = Container::parse(&bytes).unwrap();
    let mut out = Vec::new();
    for tag in ["FrSt", "miDl", "LASt", "RuSt", "teXt"] {
        if back.find_by_tag(tag).is_some() {
            out.push(tag.to_string());
        }
    }
    out
}

#[test]
fn signature_is_png() {
    assert_eq!(signature(), [137, 80, 78, 71, 13, 10, 26, 10]);
}

#[test]
fn empty_container_is_just_the_signature() {
    let c = Container::new();
    assert_eq!(c.as_bytes(), signature().to_vec());
    let back = Container::parse(&signature()).unwrap();
    assert!(back.as_bytes() == signature().to_vec());
}

#[test]
fn serialized_container_is_signature_then_chunks() {
    let c = sample();
    let mut expected = signature().to_vec();
    expected.extend(chunk("FrSt", "I am the first chunk").as_bytes());
    expected.extend(chunk("miDl", "I am another chunk").as_bytes());
    expected.extend(chunk("LASt", "I am the last chunk").as_bytes());
    assert_eq!(c.as_bytes(), expected);
}

#[test]
fn append_then_serialize_then_parse_keeps_order() {
    let mut c = sample();
    c.append(chunk("RuSt", "Message"));
    let bytes = c.as_bytes();
    let back = Container::parse(&bytes).unwrap();
    assert_eq!(back.as_bytes(), bytes);
    let mut expected = sample().as_bytes();
    expected.extend(chunk("RuSt", "Message").as_bytes());
    assert_eq!(bytes, expected);
    assert_eq!(tags(&c), vec!["FrSt", "miDl", "LASt", "RuSt"]);
    let found = back.find_by_tag("RuSt").unwrap();
    assert_eq!(found.data_as_string().unwrap(), "Message");
}

#[test]
fn find_returns_first_match_and_leaves_container() {
    let mut c = sample();
    c.append(chunk("miDl", "second middle"));
    let before = c.as_bytes();
    let found = c.find_by_tag("miDl").unwrap();
    assert_eq!(found.data_as_string().unwrap(), "I am another chunk");
    assert!(c.find_by_tag("nope").is_none());
    assert_eq!(c.as_bytes(), before);
}

#[test]
fn remove_takes_first_match() {
    let mut c = sample();
    c.append(chunk("miDl", "second middle"));
    let removed = c.remove_by_tag("miDl").unwrap();
    assert_eq!(removed.data_as_string().unwrap(), "I am another chunk");
    let again = c.remove_by_tag("miDl").unwrap();
    assert_eq!(again.data_as_string().unwrap(), "second middle");
    let mut expected = Container::new();
    expected.append(chunk("FrSt", "I am the first chunk"));
    expected.append(chunk("LASt", "I am the last chunk"));
    assert_eq!(c.as_bytes(), expected.as_bytes());
}

#[test]
fn remove_absent_tag_fails_and_keeps_chunks() {
    let mut c = sample();
    let before = c.as_bytes();
    let err = c.remove_by_tag("RuSt").unwrap_err();
    assert_eq!(err, CodecError::ChunkNotFound("RuSt".to_string()));
    assert_eq!(c.as_bytes(), before);
}

#[test]
fn bad_signature_is_refused() {
    assert_eq!(Container::parse(&[137, 80, 78]).err().map(|_| ()), Some(()));
    assert!(matches!(Container::parse(&[137, 80, 78]), Err(CodecError::BadSignature)));
    assert!(matches!(Container::parse(&[]), Err(CodecError::BadSignature)));
    let mut bytes = sample().as_bytes();
    bytes[0] = 0;
    assert!(matches!(Container::parse(&bytes), Err(CodecError::BadSignature)));
}

#[test]
fn chunk_errors_pass_through() {
    let good = sample().as_bytes();
    let mut truncated = good.clone();
    truncated.truncate(good.len() - 2);
    assert!(matches!(Container::parse(&truncated), Err(CodecError::SizeMismatch)));
    let mut tail = good.clone();
    tail.extend([0, 0, 0]);
    assert!(matches!(Container::parse(&tail), Err(CodecError::TruncatedInput)));
    let mut corrupt = good.clone();
    corrupt[8 + 8] ^= 1;
    assert!(matches!(Container::parse(&corrupt), Err(CodecError::ChecksumMismatch(_, _))));
}

#[test]
fn container_text_concatenates_chunk_texts() {
    let c = sample();
    let mut expected = String::new();
    expected.push_str(&chunk("FrSt", "I am the first chunk").to_string());
    expected.push_str(&chunk("miDl", "I am another chunk").to_string());
    expected.push_str(&chunk("LASt", "I am the last chunk").to_string());
    assert_eq!(c.to_string(), expected);
}
