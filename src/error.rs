use vstd::prelude::*;

verus! {

/// Why an operation on tags, chunks or containers failed.
#[derive(Debug, Clone, Copy, PartialEq, Eq, Structural)]
pub enum PngError {
    /// The first eight bytes are not the container signature.
    InvalidSignature,
    /// The buffer ends before a field that the record declares:
    /// `needed` bytes were required, `available` were there.
    Truncated { needed: u64, available: u64 },
    /// A tag byte is not an ASCII letter.
    InvalidTag,
    /// A tag string does not hold exactly four bytes; it held `len`.
    InvalidLength { len: u64 },
    /// The stored checksum disagrees with the one computed over tag and payload.
    ChecksumMismatch { stored: u32, computed: u32 },
    /// No chunk carries the requested tag.
    ChunkNotFound,
    /// A payload is not valid UTF-8.
    InvalidText,
}

} // verus!
