use vstd::prelude::*;
use vstd::string::StringSliceAdditionalSpecFns;
use crate::chunk::{Chunk, ChunkModel, IChunk};
use crate::chunk_type::{lossy_utf8, parse_tag_spec, ChunkType};
use crate::container::{
    chunks_text, container_bytes, is_first_match, no_match, parse_container_spec, Container,
};
use crate::error::CodecError;

verus! {

/// What `decode` and `remove` give when the container reads: the position
/// of the first chunk whose tag reads `q`, or the error naming `q`.
pub open spec fn lookup_spec(ms: Seq<ChunkModel>, q: Seq<char>) -> Option<int> {
    if no_match(ms, q) {
        None
    } else {
        Some(choose|i: int| is_first_match(ms, q, i))
    }
}

/// The first match is unique.
proof fn lemma_first_match_unique(ms: Seq<ChunkModel>, q: Seq<char>, i: int, j: int)
    requires
        is_first_match(ms, q, i),
        is_first_match(ms, q, j),
    ensures
        i == j,
{
    if i < j {
        assert(!crate::container::tag_matches(ms[i], q));
    } else if j < i {
        assert(!crate::container::tag_matches(ms[j], q));
    }
}

/// Adds a chunk of tag `tag` and payload `message` at the end of the
/// container in `bytes`, and returns the container's new wire form. The
/// tag is checked first, then the payload's size, then the container.
pub fn encode(bytes: &[u8], tag: &str, message: &[u8]) -> (r: Result<Vec<u8>, CodecError>)
    ensures
        match parse_tag_spec(tag.spec_bytes()) {
            Err(e) => r matches Err(f) && f == e,
            Ok(t) => if message@.len() > u32::MAX {
                r matches Err(CodecError::PayloadTooLong)
            } else {
                match parse_container_spec(bytes@) {
                    Err(e) => r matches Err(f) && f == e,
                    Ok(ms) => r matches Ok(out) && out@ == container_bytes(
                        ms.push(ChunkModel { tag: t, data: message@ }),
                    ),
                }
            },
        },
{
    let chunk_type = match ChunkType::try_from_str(tag) {
        Ok(t) => t,
        Err(e) => {
            return Err(e);
        },
    };
    if message.len() as u64 > 0xffff_ffffu64 {
        return Err(CodecError::PayloadTooLong);
    }
    let mut data: Vec<u8> = Vec::new();
    crate::chunk::push_range(&mut data, message, 0, message.len());
    assert(data@ =~= message@);
    let chunk = Chunk::new(chunk_type, data);
    let mut png = match Container::parse(bytes) {
        Ok(c) => c,
        Err(e) => {
            return Err(e);
        },
    };
    png.append(chunk);
    Ok(png.as_bytes())
}

/// The text of the payload of the first chunk whose tag reads `tag`, in the
/// container in `bytes`; the container is left as it is.
pub fn decode(bytes: &[u8], tag: &str) -> (r: Result<String, CodecError>)
    ensures
        match parse_container_spec(bytes@) {
            Err(e) => r matches Err(f) && f == e,
            Ok(ms) => match lookup_spec(ms, tag@) {
                Some(i) => r matches Ok(s) && s@ == lossy_utf8(ms[i].data),
                None => r matches Err(CodecError::ChunkNotFound(s)) && s@ == tag@,
            },
        },
{
    let png = match Container::parse(bytes) {
        Ok(c) => c,
        Err(e) => {
            return Err(e);
        },
    };
    match png.find_by_tag(tag) {
        Some(c) => {
            proof {
                let i = choose|i: int| is_first_match(png@, tag@, i) && c@ == png@[i];
                let k = choose|k: int| is_first_match(png@, tag@, k);
                lemma_first_match_unique(png@, tag@, i, k);
            }
            c.data_as_string()
        },
        None => Err(CodecError::ChunkNotFound(tag.to_string())),
    }
}

/// Takes the first chunk whose tag reads `tag` out of the container in
/// `bytes`, and returns the container's new wire form.
pub fn remove(bytes: &[u8], tag: &str) -> (r: Result<Vec<u8>, CodecError>)
    ensures
        match parse_container_spec(bytes@) {
            Err(e) => r matches Err(f) && f == e,
            Ok(ms) => match lookup_spec(ms, tag@) {
                Some(i) => r matches Ok(out) && out@ == container_bytes(ms.remove(i)),
                None => r matches Err(CodecError::ChunkNotFound(s)) && s@ == tag@,
            },
        },
{
    let mut png = match Container::parse(bytes) {
        Ok(c) => c,
        Err(e) => {
            return Err(e);
        },
    };
    let ghost ms = png@;
    match png.remove_by_tag(tag) {
        Ok(_) => {
            proof {
                let i = choose|i: int|
                    {
                        &&& is_first_match(ms, tag@, i)
                        &&& png@ == ms.remove(i)
                    };
                let k = choose|k: int| is_first_match(ms, tag@, k);
                lemma_first_match_unique(ms, tag@, i, k);
            }
            Ok(png.as_bytes())
        },
        Err(e) => Err(e),
    }
}

/// The text form of the container in `bytes`, for inspection.
pub fn inspect(bytes: &[u8]) -> (r: Result<String, CodecError>)
    ensures
        match parse_container_spec(bytes@) {
            Err(e) => r matches Err(f) && f == e,
            Ok(ms) => r matches Ok(s) && s@ == chunks_text(ms),
        },
{
    match Container::parse(bytes) {
        Ok(c) => Ok(c.to_string()),
        Err(e) => Err(e),
    }
}

} // verus!
