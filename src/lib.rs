//! Codec for a PNG-style container: a fixed signature followed by
//! length-prefixed, tagged, CRC-checked chunks.
pub mod error;
pub mod chunk_type;
pub mod chunk;
pub mod container;
pub mod commands;
