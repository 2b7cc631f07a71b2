//! A codec for PNG-structured byte streams: it parses a raw byte buffer into a
//! sequence of typed, integrity-checked chunks, supports structural edits by
//! chunk-type tag, and re-serializes the result into a byte-exact buffer.

pub mod bytes;
pub mod chunk;
pub mod chunk_type;
pub mod error;
pub mod png;
