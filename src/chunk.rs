use vstd::prelude::*;
use vstd::utf8::{decode_utf8, valid_utf8};
use vstd::std_specs::convert::TryFromSpecImpl;
use crate::chunk_type::{all_alpha, lossy_string, lossy_utf8, ChunkType, IChunkType, TAG_SIZE};
use crate::error::{CodecError, TagFault};
use crc::{Crc, CRC_32_ISO_HDLC};

verus! {

/// Size of the length field in bytes.
pub const CHUNK_LENGTH_SIZE: usize = 4;

/// Size of the checksum field in bytes.
pub const CRC_SIZE: usize = 4;

/// Size of a chunk with an empty payload.
pub const MIN_CHUNK_SIZE: usize = CHUNK_LENGTH_SIZE + TAG_SIZE + CRC_SIZE;

/// The four bytes of `x`, most significant first.
pub open spec fn be32_bytes(x: u32) -> Seq<u8> {
    seq![(x >> 24u32) as u8, (x >> 16u32) as u8, (x >> 8u32) as u8, x as u8]
}

/// The number whose big-endian bytes are the first four of `b`.
pub open spec fn be32_value(b: Seq<u8>) -> u32 {
    ((b[0] as u32) << 24u32) | ((b[1] as u32) << 16u32) | ((b[2] as u32) << 8u32) | (b[3] as u32)
}

/// Reading back the big-endian bytes of a number gives the number.
pub proof fn lemma_be32_round_trip(x: u32)
    ensures
        be32_value(be32_bytes(x)) == x,
{
    assert(((((x >> 24u32) as u8) as u32) << 24u32) | ((((x >> 16u32) as u8) as u32) << 16u32)
        | ((((x >> 8u32) as u8) as u32) << 8u32) | ((x as u8) as u32) == x) by (bit_vector);
}

/// Four bytes are the big-endian bytes of the number they spell.
pub proof fn lemma_be32_bytes_of_value(b: Seq<u8>)
    requires
        b.len() == 4,
    ensures
        be32_bytes(be32_value(b)) == b,
{
    let (b0, b1, b2, b3) = (b[0], b[1], b[2], b[3]);
    let v = be32_value(b);
    assert(v == ((b0 as u32) << 24u32) | ((b1 as u32) << 16u32) | ((b2 as u32) << 8u32) | (
    b3 as u32));
    assert((v >> 24u32) as u8 == b0 && (v >> 16u32) as u8 == b1 && (v >> 8u32) as u8 == b2
        && v as u8 == b3) by (bit_vector)
        requires
            v == ((b0 as u32) << 24u32) | ((b1 as u32) << 16u32) | ((b2 as u32) << 8u32) | (
            b3 as u32),
    ;
    assert(be32_bytes(v) =~= b);
}

/// The CRC-32/ISO-HDLC checksum of a byte sequence.
pub uninterp spec fn crc32_iso_hdlc(b: Seq<u8>) -> u32;

/// What a chunk holds: its tag's bytes and its payload.
pub ghost struct ChunkModel {
    pub tag: Seq<u8>,
    pub data: Seq<u8>,
}

/// The checksum of a chunk: over its tag followed by its payload.
pub open spec fn chunk_crc(m: ChunkModel) -> u32 {
    crc32_iso_hdlc(m.tag + m.data)
}

/// The wire form of a chunk: length, tag, payload, checksum.
pub open spec fn chunk_bytes(m: ChunkModel) -> Seq<u8> {
    be32_bytes(m.data.len() as u32) + m.tag + m.data + be32_bytes(chunk_crc(m))
}

/// The outcome of reading one chunk that fills the whole of `b`.
#[verifier::opaque]
pub open spec fn parse_chunk_spec(b: Seq<u8>) -> Result<ChunkModel, CodecError> {
    if b.len() < 12 {
        Err(CodecError::TruncatedInput)
    } else if b.len() != be32_value(b) as int + 12 {
        Err(CodecError::SizeMismatch)
    } else if !all_alpha(b.subrange(4, 8)) {
        Err(CodecError::FormatError(TagFault::NotAsciiAlphabetic))
    } else {
        let m = ChunkModel { tag: b.subrange(4, 8), data: b.subrange(8, b.len() - 4) };
        let expected = be32_value(b.subrange(b.len() - 4, b.len() as int));
        if chunk_crc(m) != expected {
            Err(CodecError::ChecksumMismatch(chunk_crc(m), expected))
        } else {
            Ok(m)
        }
    }
}

/// The big-endian number in `b` at `at .. at + 4`.
pub(crate) fn read_be32(b: &[u8], at: usize) -> (r: u32)
    requires
        at + 4 <= b@.len(),
    ensures
        r == be32_value(b@.subrange(at as int, at + 4)),
{
    ((b[at] as u32) << 24u32) | ((b[at + 1] as u32) << 16u32) | ((b[at + 2] as u32) << 8u32) | (
    b[at + 3] as u32)
}

/// Appends the big-endian bytes of `x`.
fn push_be32(out: &mut Vec<u8>, x: u32)
    ensures
        final(out)@ == old(out)@ + be32_bytes(x),
{
    out.push((x >> 24u32) as u8);
    out.push((x >> 16u32) as u8);
    out.push((x >> 8u32) as u8);
    out.push(x as u8);
    assert(final(out)@ =~= old(out)@ + be32_bytes(x));
}

/// Appends the bytes of `src` at positions `from .. to`.
pub(crate) fn push_range(out: &mut Vec<u8>, src: &[u8], from: usize, to: usize)
    requires
        from <= to <= src@.len(),
    ensures
        final(out)@ == old(out)@ + src@.subrange(from as int, to as int),
{
    let mut i: usize = from;
    while i < to
        invariant
            from <= i <= to <= src@.len(),
            out@ == old(out)@ + src@.subrange(from as int, i as int),
        decreases to - i,
    {
        out.push(src[i]);
        i = i + 1;
        assert(out@ =~= old(out)@ + src@.subrange(from as int, i as int));
    }
}

/// One record of the container: a tag, a payload, and the checksum over
/// both, computed once when the chunk is made.
#[derive(Debug)]
pub struct Chunk {
    chunk_type: ChunkType,
    data: Vec<u8>,
    crc: u32,
}

impl View for Chunk {
    type V = ChunkModel;

    closed spec fn view(&self) -> ChunkModel {
        ChunkModel { tag: self.chunk_type@, data: self.data@ }
    }
}

impl Chunk {
    /// The payload fits the length field and the stored checksum is the
    /// one of tag and payload.
    #[verifier::type_invariant]
    pub closed spec fn inv(&self) -> bool {
        &&& self.data@.len() <= u32::MAX
        &&& self.crc == chunk_crc(self@)
    }

    /// A chunk's tag has four bytes and its payload fits the length field.
    pub proof fn lemma_well_formed(self)
        requires
            self.inv(),
        ensures
            self@.tag.len() == 4,
            self@.data.len() <= u32::MAX,
    {
        self.chunk_type.lemma_len();
    }

    /// The chunk of the given tag and payload.
    pub fn new(chunk_type: ChunkType, data: Vec<u8>) -> (r: Self)
        requires
            data@.len() <= u32::MAX,
        ensures
            r@ == (ChunkModel { tag: chunk_type@, data: data@ }),
    {
        let crc = Self::compute_crc(&chunk_type.bytes(), &data);
        Chunk { chunk_type, data, crc }
    }

    /// Relies on crc's `Crc::<u32>::digest` with the CRC-32/ISO-HDLC
    /// algorithm: the tag then the payload fed in give the checksum of the
    /// two concatenated, which depends on those bytes alone.
    #[verifier::external_body]
    fn compute_crc(chunk_code: &[u8; 4], data: &Vec<u8>) -> (r: u32)
        ensures
            r == crc32_iso_hdlc(chunk_code@ + data@),
    {
        let crc: Crc<u32> = Crc::<u32>::new(&CRC_32_ISO_HDLC);
        let mut digest = crc.digest();
        digest.update(chunk_code);
        digest.update(data);
        digest.finalize()
    }

    /// The wire form read as text, with invalid UTF-8 replaced.
    pub fn to_string(&self) -> (r: String)
        ensures
            r@ == lossy_utf8(chunk_bytes(self@)),
    {
        let b = self.as_bytes();
        lossy_string(b.as_slice())
    }
}

/// The queries that a chunk answers.
pub trait IChunk {
    fn length(&self) -> usize;

    fn chunk_type(&self) -> &ChunkType;

    fn data(&self) -> &[u8];

    fn crc(&self) -> u32;

    fn data_as_string(&self) -> Result<String, CodecError>;

    fn as_bytes(&self) -> Vec<u8>;
}

impl IChunk for Chunk {
    /// The payload's size in bytes.
    fn length(&self) -> (r: usize)
        ensures
            r == self@.data.len(),
    {
        self.data.len()
    }

    /// The chunk's tag.
    fn chunk_type(&self) -> (r: &ChunkType)
        ensures
            r@ == self@.tag,
    {
        &self.chunk_type
    }

    /// The payload.
    fn data(&self) -> (r: &[u8])
        ensures
            r@ == self@.data,
    {
        self.data.as_slice()
    }

    /// The checksum over tag and payload.
    fn crc(&self) -> (r: u32)
        ensures
            r == chunk_crc(self@),
    {
        proof {
            use_type_invariant(self);
        }
        self.crc
    }

    /// The payload read as text, with invalid UTF-8 replaced; never fails.
    fn data_as_string(&self) -> (r: Result<String, CodecError>)
        ensures
            r matches Ok(s) && s@ == lossy_utf8(self@.data),
            valid_utf8(self@.data) ==> (r matches Ok(s) && s@ == decode_utf8(self@.data)),
    {
        Ok(lossy_string(self.data.as_slice()))
    }

    /// The wire form: big-endian length, tag, payload, big-endian checksum.
    fn as_bytes(&self) -> (r: Vec<u8>)
        ensures
            r@ == chunk_bytes(self@),
    {
        proof {
            use_type_invariant(self);
        }
        let mut out: Vec<u8> = Vec::new();
        push_be32(&mut out, self.data.len() as u32);
        let tag = self.chunk_type.bytes();
        push_range(&mut out, &tag, 0, 4);
        push_range(&mut out, self.data.as_slice(), 0, self.data.len());
        push_be32(&mut out, self.crc);
        assert(tag@.subrange(0, 4) =~= tag@);
        assert(self.data@.subrange(0, self.data@.len() as int) =~= self.data@);
        out
    }
}

impl<'a> TryFrom<&'a [u8]> for Chunk {
    type Error = CodecError;

    /// Reads a chunk that fills the whole buffer, checking its length field,
    /// its tag and its checksum.
    fn try_from(value: &'a [u8]) -> (r: Result<Self, Self::Error>)
        ensures
            match parse_chunk_spec(value@) {
                Ok(m) => r matches Ok(c) && c@ == m,
                Err(e) => r matches Err(f) && f == e,
            },
            r matches Ok(c) ==> all_alpha(c@.tag),
    {
        reveal(parse_chunk_spec);
        if value.len() < MIN_CHUNK_SIZE {
            return Err(CodecError::TruncatedInput);
        }
        let content_size = read_be32(value, 0);
        assert(value@.subrange(0, 4)[0] == value@[0]);
        assert(be32_value(value@.subrange(0, 4)) == be32_value(value@));
        if value.len() as u64 != content_size as u64 + 12 {
            return Err(CodecError::SizeMismatch);
        }
        let n = content_size as usize;
        let tag_bytes: [u8; 4] = [value[4], value[5], value[6], value[7]];
        assert(tag_bytes@ =~= value@.subrange(4, 8));
        let chunk_type = match ChunkType::try_from_bytes(&tag_bytes) {
            Ok(t) => t,
            Err(e) => {
                return Err(e);
            },
        };
        let mut content: Vec<u8> = Vec::new();
        push_range(&mut content, value, 8, 8 + n);
        assert(content@ =~= value@.subrange(8, value@.len() - 4));
        let expected_crc = read_be32(value, 8 + n);
        let computed_crc = Self::compute_crc(&chunk_type.bytes(), &content);
        if computed_crc != expected_crc {
            return Err(CodecError::ChecksumMismatch(computed_crc, expected_crc));
        }
        Ok(Chunk::new(chunk_type, content))
    }
}

impl<'a> TryFromSpecImpl<&'a [u8]> for Chunk {
    /// The contract of `try_from` above is stated over the chunk's view.
    open spec fn obeys_try_from_spec() -> bool {
        false
    }

    closed spec fn try_from_spec(v: &'a [u8]) -> Result<Self, CodecError> {
        Err(CodecError::TruncatedInput)
    }
}

/// A chunk of a tag of ASCII letters (every valid tag is one) and a payload
/// that fits the length field reads back from its wire form unchanged.
pub proof fn lemma_chunk_round_trip(m: ChunkModel)
    requires
        m.tag.len() == 4,
        all_alpha(m.tag),
        m.data.len() <= u32::MAX,
    ensures
        parse_chunk_spec(chunk_bytes(m)) == Ok::<ChunkModel, CodecError>(m),
{
    reveal(parse_chunk_spec);
    let b = chunk_bytes(m);
    let n = m.data.len();
    lemma_be32_round_trip(n as u32);
    lemma_be32_round_trip(chunk_crc(m));
    assert(b.subrange(0, 4) =~= be32_bytes(n as u32));
    assert(be32_value(b) == be32_value(b.subrange(0, 4)));
    assert(b.subrange(4, 8) =~= m.tag);
    assert(b.subrange(8, b.len() - 4) =~= m.data);
    assert(b.subrange(b.len() - 4, b.len() as int) =~= be32_bytes(chunk_crc(m)));
}

/// The checksum a chunk reports is fixed by its tag and payload: asking
/// again, or asking a chunk of the same contents, gives the same number.
pub proof fn lemma_crc_stable(a: Chunk, b: Chunk)
    requires
        a@ == b@,
    ensures
        chunk_crc(a@) == chunk_crc(b@),
        chunk_crc(a@) == crc32_iso_hdlc(a@.tag + a@.data),
{
}

/// A buffer that reads as a chunk is exactly that chunk's wire form.
pub proof fn lemma_chunk_bytes_of_parse(b: Seq<u8>)
    requires
        parse_chunk_spec(b) is Ok,
    ensures
        chunk_bytes(parse_chunk_spec(b)->Ok_0) == b,
{
    reveal(parse_chunk_spec);
    let m = parse_chunk_spec(b)->Ok_0;
    let len = b.len() as int;
    lemma_be32_bytes_of_value(b.subrange(0, 4));
    assert(be32_value(b.subrange(0, 4)) == be32_value(b));
    assert(m.data.len() as u32 == be32_value(b));
    lemma_be32_bytes_of_value(b.subrange(len - 4, len));
    assert(chunk_bytes(m) =~= b.subrange(0, 4) + b.subrange(4, 8) + b.subrange(8, len - 4)
        + b.subrange(len - 4, len));
    assert(chunk_bytes(m) =~= b);
}

} // verus!
