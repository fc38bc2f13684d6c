//! Errors reported by the codec.

use vstd::prelude::*;

verus! {

/// The tagged record kinds of the format, one per tag table.
#[derive(Clone, Copy, Debug, PartialEq, Eq)]
pub enum Section {
    /// Declared vertex attributes.
    Attribute,
    /// Path operations.
    Path,
    /// Style properties of a group binding.
    GroupProperty,
    /// Spatial transforms of a frame.
    Transform,
    /// The transition kind of a frame.
    Animation,
}

/// Why a byte stream is not a graphic.
#[derive(Clone, Copy, Debug, PartialEq, Eq)]
pub enum DecodeError {
    /// The stream does not start with the magic header.
    HeaderMismatch,
    /// A record needs more bytes than the stream holds.
    UnexpectedEndOfInput,
    /// A tag byte is outside the tag table of its section.
    UnknownTag(Section, u8),
    /// The compressed stream could not be decompressed.
    CompressionFailure,
}

/// Why a graphic could not be turned into a compressed stream.
#[derive(Clone, Copy, Debug, PartialEq, Eq)]
pub enum EncodeError {
    /// The compressor reported an error.
    CompressionFailure,
}

} // verus!
