use vstd::prelude::*;

verus! {

/// Why a decode failed.
#[derive(Debug, Clone, Copy, PartialEq, Eq, Structural)]
pub enum DecodeError {
    /// Fewer bytes remain than the read needs, or an offset lies past the end.
    OutOfBounds,
    /// A magic number, version or block tag differs from the expected one.
    BadHeader,
    /// A string-table index lies outside the table.
    BadStringIndex,
    /// Bytes that should hold text are not valid UTF-8 or UTF-16.
    InvalidText,
    /// A compressed payload could not be decompressed.
    Decompression,
    /// The localization archive holds no item manifest.
    MissingManifest,
    /// A manifest line has no `=`.
    MalformedLine,
    /// The cursor is not at a block's declared end when the block is closed.
    BlockMisaligned,
    /// The sentinel that closes a block is not zero.
    BlockSentinel,
}

} // verus!
