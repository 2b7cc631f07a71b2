use vstd::prelude::*;

verus! {

/// The error kinds of the codec, one per failure class; callers branch on the
/// kind rather than on a message.
#[derive(Debug, Clone, Copy, PartialEq, Eq, Structural)]
pub enum PngError {
    /// Malformed structure: wrong header, undersized buffer, truncated chunk,
    /// an invalid type-tag byte, or a tag of the wrong length.
    FormatError,
    /// A chunk's embedded checksum does not match the one recomputed over its
    /// type and payload bytes; carries the recomputed and the embedded value.
    IntegrityError { expected: u32, actual: u32 },
    /// A payload is not valid UTF-8 although text decoding was requested.
    EncodingError,
    /// No chunk matches a requested type tag.
    NotFoundError,
}

} // verus!
