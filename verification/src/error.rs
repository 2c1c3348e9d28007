//! The decode error taxonomy shared by the container and image decoders.

use vstd::prelude::*;

verus! {

/// Why a decode failed.
///
/// Every failure is detected eagerly at the offending read or size check
/// and reported to the immediate caller; nothing is recovered internally.
#[derive(Clone, Copy, Debug, PartialEq, Eq, Structural)]
pub enum DecodeError {
    /// The buffer is shorter than a fixed header region.
    TruncatedHeader,
    /// An offset, length, or unterminated name in the directory table
    /// would read past the buffer or past the current entry-list bound.
    MalformedEntry,
    /// Pixel decompression would read past the source buffer, would
    /// overrun the pixel count, or the source ends before the count is
    /// reached; also a palette region that ends before its 768 bytes.
    CorruptCompressedStream,
    /// Reserved for a future compression selector; the two selector
    /// values known today are exhaustive, so no input yields this.
    UnsupportedCompressionSelector,
}

} // verus!
