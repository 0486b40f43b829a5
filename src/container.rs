use vstd::prelude::*;
use vstd::slice::slice_subrange;
use crate::chunk::{
    be32_bytes, be32_value, chunk_bytes, lemma_be32_round_trip, lemma_chunk_round_trip,
    lemma_chunk_bytes_of_parse, parse_chunk_spec, push_range, read_be32, Chunk, ChunkModel, IChunk, MIN_CHUNK_SIZE,
};
use crate::chunk_type::{all_alpha, lossy_utf8};
use crate::error::CodecError;
use vstd::string::StringExecFns;

verus! {

broadcast use vstd::string::to_string_from_display_ensures_for_str;

/// Size of the signature in bytes.
pub const SIGNATURE_SIZE: usize = 8;

/// The eight bytes that open every container.
pub open spec fn signature_spec() -> Seq<u8> {
    seq![137u8, 80u8, 78u8, 71u8, 13u8, 10u8, 26u8, 10u8]
}

/// The eight bytes that open every container.
pub fn signature() -> (r: [u8; 8])
    ensures
        r@ == signature_spec(),
{
    let r: [u8; 8] = [137, 80, 78, 71, 13, 10, 26, 10];
    assert(r@ =~= signature_spec());
    r
}

/// A chunk's tag has four bytes and its payload fits the length field.
pub open spec fn model_ok(m: ChunkModel) -> bool {
    m.tag.len() == 4 && m.data.len() <= u32::MAX
}

/// A chunk that reads back from its wire form: a tag of four ASCII
/// letters and a payload that fits the length field.
pub open spec fn readable(m: ChunkModel) -> bool {
    model_ok(m) && all_alpha(m.tag)
}

/// Where the chunk at the front of `r` ends: after the size its length
/// field announces when that fits in `r`, else at the end of `r`.
pub open spec fn first_chunk_end(r: Seq<u8>) -> int {
    if r.len() >= 12 && be32_value(r) as int + 12 <= r.len() {
        be32_value(r) as int + 12
    } else {
        r.len() as int
    }
}

/// The outcome of reading the chunks that fill `r`, one after another.
pub open spec fn parse_chunks_spec(r: Seq<u8>) -> Result<Seq<ChunkModel>, CodecError>
    decreases r.len(),
{
    if r.len() == 0 {
        Ok(Seq::empty())
    } else {
        let end = first_chunk_end(r);
        match parse_chunk_spec(r.subrange(0, end)) {
            Err(e) => Err(e),
            Ok(m) => {
                if end <= 0 {
                    // Never taken: a chunk that reads has at least twelve
                    // bytes. The branch makes the recursion visibly shrink.
                    Err(CodecError::TruncatedInput)
                } else {
                    match parse_chunks_spec(r.subrange(end, r.len() as int)) {
                        Ok(ms) => Ok(seq![m] + ms),
                        Err(e) => Err(e),
                    }
                }
            },
        }
    }
}

/// The outcome of reading a whole container: the signature, then chunks.
pub open spec fn parse_container_spec(b: Seq<u8>) -> Result<Seq<ChunkModel>, CodecError> {
    if b.len() < 8 || b.subrange(0, 8) != signature_spec() {
        Err(CodecError::BadSignature)
    } else {
        parse_chunks_spec(b.subrange(8, b.len() as int))
    }
}

/// The wire forms of the chunks, in order.
pub open spec fn chunks_bytes(ms: Seq<ChunkModel>) -> Seq<u8>
    decreases ms.len(),
{
    if ms.len() == 0 {
        Seq::empty()
    } else {
        chunk_bytes(ms[0]) + chunks_bytes(ms.drop_first())
    }
}

/// The wire form of a container of the given chunks.
pub open spec fn container_bytes(ms: Seq<ChunkModel>) -> Seq<u8> {
    signature_spec() + chunks_bytes(ms)
}

/// The text forms of the chunks, in order.
pub open spec fn chunks_text(ms: Seq<ChunkModel>) -> Seq<char>
    decreases ms.len(),
{
    if ms.len() == 0 {
        Seq::empty()
    } else {
        chunks_text(ms.drop_last()) + lossy_utf8(chunk_bytes(ms.last()))
    }
}

/// The text of the chunk's tag is `q`.
pub open spec fn tag_matches(m: ChunkModel, q: Seq<char>) -> bool {
    lossy_utf8(m.tag) == q
}

/// `i` is the position of the first chunk whose tag reads `q`.
pub open spec fn is_first_match(ms: Seq<ChunkModel>, q: Seq<char>, i: int) -> bool {
    &&& 0 <= i < ms.len()
    &&& tag_matches(ms[i], q)
    &&& forall|j: int| 0 <= j < i ==> !tag_matches(#[trigger] ms[j], q)
}

/// No chunk's tag reads `q`.
pub open spec fn no_match(ms: Seq<ChunkModel>, q: Seq<char>) -> bool {
    forall|j: int| 0 <= j < ms.len() ==> !tag_matches(#[trigger] ms[j], q)
}

/// The wire forms of chunks followed by one more are theirs followed by its.
pub proof fn lemma_chunks_bytes_push(ms: Seq<ChunkModel>, m: ChunkModel)
    ensures
        chunks_bytes(ms.push(m)) == chunks_bytes(ms) + chunk_bytes(m),
    decreases ms.len(),
{
    if ms.len() == 0 {
        assert(ms.push(m).drop_first() =~= Seq::<ChunkModel>::empty());
        assert(chunks_bytes(ms.push(m).drop_first()) == Seq::<u8>::empty());
        assert(chunks_bytes(ms.push(m)) =~= chunks_bytes(ms) + chunk_bytes(m));
    } else {
        lemma_chunks_bytes_push(ms.drop_first(), m);
        assert(ms.push(m).drop_first() =~= ms.drop_first().push(m));
        assert(chunks_bytes(ms.push(m)) =~= chunks_bytes(ms) + chunk_bytes(m));
    }
}

/// The text forms of chunks followed by one more are theirs followed by its.
proof fn lemma_chunks_text_push(ms: Seq<ChunkModel>, m: ChunkModel)
    ensures
        chunks_text(ms.push(m)) == chunks_text(ms) + lossy_utf8(chunk_bytes(m)),
{
    assert(ms.push(m).drop_last() =~= ms);
}

/// The wire form of a readable chunk, followed by anything, is split off
/// whole by `first_chunk_end`.
proof fn lemma_front_chunk(m: ChunkModel, tail: Seq<u8>)
    requires
        readable(m),
    ensures
        first_chunk_end(chunk_bytes(m) + tail) == chunk_bytes(m).len(),
        (chunk_bytes(m) + tail).subrange(0, chunk_bytes(m).len() as int) == chunk_bytes(m),
        (chunk_bytes(m) + tail).subrange(
            chunk_bytes(m).len() as int,
            (chunk_bytes(m) + tail).len() as int,
        ) == tail,
{
    let cb = chunk_bytes(m);
    let b = cb + tail;
    let n = m.data.len() as u32;
    assert(cb.len() == m.data.len() + 12);
    lemma_be32_round_trip(n);
    assert(b[0] == be32_bytes(n)[0] && b[1] == be32_bytes(n)[1] && b[2] == be32_bytes(n)[2]
        && b[3] == be32_bytes(n)[3]);
    assert(be32_value(b) == be32_value(be32_bytes(n)));
    assert(b.subrange(0, cb.len() as int) =~= cb);
    assert(b.subrange(cb.len() as int, b.len() as int) =~= tail);
}

/// Chunks of letter tags and payloads that fit the length field read back
/// from their concatenated wire forms unchanged.
pub proof fn lemma_chunks_round_trip(ms: Seq<ChunkModel>)
    requires
        forall|k: int| 0 <= k < ms.len() ==> readable(#[trigger] ms[k]),
    ensures
        parse_chunks_spec(chunks_bytes(ms)) == Ok::<Seq<ChunkModel>, CodecError>(ms),
    decreases ms.len(),
{
    if ms.len() > 0 {
        let m = ms[0];
        assert(readable(ms[0]));
        let rest = ms.drop_first();
        let b = chunks_bytes(ms);
        assert(b == chunk_bytes(m) + chunks_bytes(rest));
        lemma_front_chunk(m, chunks_bytes(rest));
        lemma_chunk_round_trip(m);
        assert forall|k: int| 0 <= k < rest.len() implies readable(#[trigger] rest[k]) by {
            assert(rest[k] == ms[k + 1]);
            assert(readable(ms[k + 1]));
        }
        lemma_chunks_round_trip(rest);
        let end = first_chunk_end(b);
        assert(end == chunk_bytes(m).len());
        assert(parse_chunk_spec(b.subrange(0, end)) == Ok::<ChunkModel, CodecError>(m));
        assert(parse_chunks_spec(b.subrange(end, b.len() as int)) == Ok::<
            Seq<ChunkModel>,
            CodecError,
        >(rest));
        assert(seq![m] + rest =~= ms);
    } else {
        assert(ms =~= Seq::<ChunkModel>::empty());
    }
}

/// A container: the signature, then an ordered sequence of chunks.
#[derive(Debug)]
pub struct Container {
    chunks: Vec<Chunk>,
}

impl View for Container {
    type V = Seq<ChunkModel>;

    closed spec fn view(&self) -> Seq<ChunkModel> {
        self.chunks@.map_values(|c: Chunk| c@)
    }
}

impl Container {
    /// A container with no chunks.
    pub fn new() -> (r: Self)
        ensures
            r@ == Seq::<ChunkModel>::empty(),
    {
        let r = Container { chunks: Vec::new() };
        assert(r@ =~= Seq::<ChunkModel>::empty());
        r
    }

    /// Adds a chunk at the end.
    pub fn append(&mut self, chunk: Chunk)
        ensures
            final(self)@ == old(self)@.push(chunk@),
    {
        self.chunks.push(chunk);
        assert(self@ =~= old(self)@.push(chunk@));
    }

    /// Position of the first chunk whose tag reads `q`.
    fn position_of(&self, q: &String) -> (r: Option<usize>)
        ensures
            match r {
                Some(i) => is_first_match(self@, q@, i as int),
                None => no_match(self@, q@),
            },
    {
        let mut i: usize = 0;
        while i < self.chunks.len()
            invariant
                i <= self@.len(),
                self@.len() == self.chunks@.len(),
                forall|j: int| 0 <= j < i ==> !tag_matches(#[trigger] self@[j], q@),
            decreases self.chunks@.len() - i,
        {
            let text = self.chunks[i].chunk_type().to_string();
            if text == *q {
                return Some(i);
            }
            i = i + 1;
        }
        None
    }

    /// The first chunk whose tag reads `tag_str`, if any.
    pub fn find_by_tag(&self, tag_str: &str) -> (r: Option<&Chunk>)
        ensures
            match r {
                Some(c) => exists|i: int| is_first_match(self@, tag_str@, i) && c@ == self@[i],
                None => no_match(self@, tag_str@),
            },
    {
        let q = tag_str.to_string();
        match self.position_of(&q) {
            Some(i) => Some(&self.chunks[i]),
            None => None,
        }
    }

    /// Takes out the first chunk whose tag reads `tag_str`; fails with
    /// `ChunkNotFound`, leaving the container as it was, when none does.
    pub fn remove_by_tag(&mut self, tag_str: &str) -> (r: Result<Chunk, CodecError>)
        ensures
            match r {
                Ok(c) => exists|i: int|
                    {
                        &&& is_first_match(old(self)@, tag_str@, i)
                        &&& c@ == old(self)@[i]
                        &&& final(self)@ == old(self)@.remove(i)
                    },
                Err(e) => {
                    &&& no_match(old(self)@, tag_str@)
                    &&& final(self)@ == old(self)@
                    &&& e matches CodecError::ChunkNotFound(s) && s@ == tag_str@
                },
            },
    {
        let q = tag_str.to_string();
        match self.position_of(&q) {
            Some(i) => {
                let c = self.chunks.remove(i);
                assert(self@ =~= old(self)@.remove(i as int));
                Ok(c)
            },
            None => Err(CodecError::ChunkNotFound(q)),
        }
    }

    /// Reads a container: the signature, then chunks until the bytes run
    /// out. The first chunk that fails to read fails the whole.
    pub fn parse(bytes: &[u8]) -> (r: Result<Self, CodecError>)
        ensures
            match parse_container_spec(bytes@) {
                Ok(ms) => r matches Ok(c) && c@ == ms,
                Err(e) => r matches Err(f) && f == e,
            },
            r matches Ok(c) ==> forall|k: int| 0 <= k < c@.len() ==> readable(#[trigger] c@[k]),
    {
        let sig = signature();
        if bytes.len() < SIGNATURE_SIZE {
            return Err(CodecError::BadSignature);
        }
        let mut k: usize = 0;
        while k < SIGNATURE_SIZE
            invariant
                k <= 8 <= bytes@.len(),
                sig@ == signature_spec(),
                forall|j: int| 0 <= j < k ==> bytes@[j] == sig@[j],
            decreases 8 - k,
        {
            if bytes[k] != sig[k] {
                assert(bytes@.subrange(0, 8)[k as int] == bytes@[k as int]);
                assert(sig@[k as int] == signature_spec()[k as int]);
                assert(bytes@.subrange(0, 8) != signature_spec());
                return Err(CodecError::BadSignature);
            }
            k = k + 1;
        }
        assert(bytes@.subrange(0, 8) =~= signature_spec());
        let len = bytes.len();
        let mut chunks: Vec<Chunk> = Vec::new();
        let mut i: usize = SIGNATURE_SIZE;
        let ghost all = bytes@.subrange(8, len as int);
        while i < len
            invariant
                8 <= i <= len == bytes@.len(),
                bytes@.subrange(0, 8) == signature_spec(),
                all == bytes@.subrange(8, len as int),
                forall|j: int| 0 <= j < chunks@.len() ==> readable(#[trigger] chunks@[j]@),
                parse_chunks_spec(all) == match parse_chunks_spec(
                    bytes@.subrange(i as int, len as int),
                ) {
                    Ok(ms) => Ok(chunks@.map_values(|c: Chunk| c@) + ms),
                    Err(e) => Err::<Seq<ChunkModel>, CodecError>(e),
                },
            decreases len - i,
        {
            let ghost rest = bytes@.subrange(i as int, len as int);
            let rest_len = len - i;
            let mut end: usize = len;
            if rest_len >= MIN_CHUNK_SIZE {
                let n = read_be32(bytes, i) as u64 + 12;
                assert(bytes@.subrange(i as int, i + 4) =~= rest.subrange(0, 4));
                assert(be32_value(rest) == be32_value(rest.subrange(0, 4)));
                if n <= rest_len as u64 {
                    end = i + n as usize;
                }
            }
            assert(end - i == first_chunk_end(rest));
            let piece = slice_subrange(bytes, i, end);
            assert(piece@ =~= rest.subrange(0, first_chunk_end(rest)));
            match Chunk::try_from(piece) {
                Ok(c) => {
                    proof {
                        use_type_invariant(&c);
                        c.lemma_well_formed();
                    }
                    assert(bytes@.subrange(end as int, len as int) =~= rest.subrange(
                        first_chunk_end(rest),
                        rest.len() as int,
                    ));
                    let ghost before = chunks@.map_values(|c: Chunk| c@);
                    chunks.push(c);
                    assert(chunks@.map_values(|c: Chunk| c@) =~= before + seq![c@]);
                    assert(forall|ms: Seq<ChunkModel>|
                        #![auto]
                        (before + seq![c@]) + ms =~= before + (seq![c@] + ms));
                    i = end;
                },
                Err(e) => {
                    assert(parse_chunks_spec(rest) == Err::<Seq<ChunkModel>, CodecError>(e));
                    assert(parse_chunks_spec(all) == Err::<Seq<ChunkModel>, CodecError>(e));
                    return Err(e);
                },
            }
        }
        assert(bytes@.subrange(i as int, len as int) =~= Seq::<u8>::empty());
        let r = Container { chunks };
        assert(r@ =~= chunks@.map_values(|c: Chunk| c@) + Seq::<ChunkModel>::empty());
        Ok(r)
    }

    /// The wire form: the signature, then each chunk's wire form in order.
    pub fn as_bytes(&self) -> (r: Vec<u8>)
        ensures
            r@ == container_bytes(self@),
    {
        let sig = signature();
        let mut out: Vec<u8> = Vec::new();
        push_range(&mut out, &sig, 0, SIGNATURE_SIZE);
        assert(sig@.subrange(0, 8) =~= sig@);
        let mut i: usize = 0;
        while i < self.chunks.len()
            invariant
                i <= self@.len() == self.chunks@.len(),
                out@ == signature_spec() + chunks_bytes(self@.take(i as int)),
            decreases self.chunks@.len() - i,
        {
            let b = self.chunks[i].as_bytes();
            push_range(&mut out, b.as_slice(), 0, b.len());
            proof {
                lemma_chunks_bytes_push(self@.take(i as int), self@[i as int]);
                assert(self@.take(i as int).push(self@[i as int]) =~= self@.take(i + 1));
                assert(b@.subrange(0, b@.len() as int) =~= b@);
            }
            i = i + 1;
        }
        assert(self@.take(i as int) =~= self@);
        out
    }

    /// The chunks' text forms concatenated; for inspection only.
    pub fn to_string(&self) -> (r: String)
        ensures
            r@ == chunks_text(self@),
    {
        let mut out = String::new();
        let mut i: usize = 0;
        while i < self.chunks.len()
            invariant
                i <= self@.len() == self.chunks@.len(),
                out@ == chunks_text(self@.take(i as int)),
            decreases self.chunks@.len() - i,
        {
            let s = self.chunks[i].to_string();
            out.append(s.as_str());
            proof {
                lemma_chunks_text_push(self@.take(i as int), self@[i as int]);
                assert(self@.take(i as int).push(self@[i as int]) =~= self@.take(i + 1));
            }
            i = i + 1;
        }
        assert(self@.take(i as int) =~= self@);
        out
    }
}

/// Readable chunks followed by one more readable chunk are all readable.
proof fn lemma_readable_push(ms: Seq<ChunkModel>, m: ChunkModel)
    requires
        forall|k: int| 0 <= k < ms.len() ==> readable(#[trigger] ms[k]),
        readable(m),
    ensures
        forall|k: int| 0 <= k < ms.push(m).len() ==> readable(#[trigger] ms.push(m)[k]),
{
    assert forall|k: int| 0 <= k < ms.push(m).len() implies readable(#[trigger] ms.push(m)[k]) by {
        if k < ms.len() {
            assert(ms.push(m)[k] == ms[k]);
        }
    }
}

/// Appending a chunk to a container of letter-tagged chunks, writing the
/// container out and reading it back gives the old chunks followed by the
/// new one.
pub proof fn lemma_append_round_trip(ms: Seq<ChunkModel>, m: ChunkModel)
    requires
        forall|k: int| 0 <= k < ms.len() ==> readable(#[trigger] ms[k]),
        readable(m),
    ensures
        parse_container_spec(container_bytes(ms.push(m))) == Ok::<Seq<ChunkModel>, CodecError>(
            ms.push(m),
        ),
{
    let all = ms.push(m);
    lemma_readable_push(ms, m);
    lemma_chunks_round_trip(all);
    let b = container_bytes(all);
    assert(b.subrange(0, 8) == signature_spec()) by {
        assert(b.subrange(0, 8) =~= signature_spec());
    }
    assert(b.subrange(8, b.len() as int) == chunks_bytes(all)) by {
        assert(b.subrange(8, b.len() as int) =~= chunks_bytes(all));
    }
}

/// Chunks read from a buffer are exactly the buffer's bytes again when
/// written out.
pub proof fn lemma_chunks_bytes_of_parse(r: Seq<u8>)
    requires
        parse_chunks_spec(r) is Ok,
    ensures
        chunks_bytes(parse_chunks_spec(r)->Ok_0) == r,
    decreases r.len(),
{
    let ms = parse_chunks_spec(r)->Ok_0;
    if r.len() == 0 {
        assert(ms =~= Seq::<ChunkModel>::empty());
        assert(chunks_bytes(ms) =~= r);
    } else {
        let end = first_chunk_end(r);
        let piece = r.subrange(0, end);
        let tail = r.subrange(end, r.len() as int);
        lemma_chunk_bytes_of_parse(piece);
        lemma_chunks_bytes_of_parse(tail);
        let m = parse_chunk_spec(piece)->Ok_0;
        let rest = parse_chunks_spec(tail)->Ok_0;
        assert(ms == seq![m] + rest);
        assert(ms[0] == m);
        assert(ms.drop_first() =~= rest);
        assert(chunks_bytes(ms) == chunk_bytes(m) + chunks_bytes(rest));
        assert(chunks_bytes(ms) =~= r);
    }
}

/// Writing out a container read from a buffer gives back the buffer's bytes
/// exactly.
pub proof fn lemma_parse_then_write(b: Seq<u8>)
    requires
        parse_container_spec(b) is Ok,
    ensures
        container_bytes(parse_container_spec(b)->Ok_0) == b,
{
    lemma_chunks_bytes_of_parse(b.subrange(8, b.len() as int));
    assert(container_bytes(parse_container_spec(b)->Ok_0) =~= b.subrange(0, 8) + b.subrange(
        8,
        b.len() as int,
    ));
    assert(b.subrange(0, 8) + b.subrange(8, b.len() as int) =~= b);
}

} // verus!
