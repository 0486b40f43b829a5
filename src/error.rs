use vstd::prelude::*;

verus! {

/// What is wrong with a chunk tag.
#[derive(Debug, Clone, Copy, PartialEq, Eq)]
pub enum TagFault {
    /// The tag is not exactly four bytes long.
    NotFourBytes,
    /// A byte of the tag is not an ASCII letter.
    NotAsciiAlphabetic,
}

/// Every way an operation of this library can fail.
#[derive(Debug, Clone, PartialEq, Eq)]
pub enum CodecError {
    /// A malformed tag.
    FormatError(TagFault),
    /// Fewer bytes than the smallest chunk (length, tag and checksum).
    TruncatedInput,
    /// The buffer's size is not the one its length field announces.
    SizeMismatch,
    /// Bytes remain after the checksum field. Reading a chunk checks the
    /// buffer's size against the length field first, so that check reports
    /// such a buffer as `SizeMismatch`.
    TrailingBytes,
    /// The checksum computed over the chunk, then the one stored in it.
    ChecksumMismatch(u32, u32),
    /// The container does not start with the signature.
    BadSignature,
    /// A payload longer than the four-byte length field can state.
    PayloadTooLong,
    /// No chunk carries the requested tag.
    ChunkNotFound(String),
}

} // verus!
