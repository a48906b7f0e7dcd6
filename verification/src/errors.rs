//! Error kinds for malformed inputs and snapshots.

use vstd::prelude::*;

verus! {

/// Why a library table or a snapshot was rejected at load.
#[derive(Debug, Clone, Copy, PartialEq, Eq, Structural)]
pub enum MatcherError {
    /// Board size not an even number in 2..=10.
    BoardSize,
    /// The piece count needs a field width too large for a 128-bit code.
    CodeWidth,
    /// The parallel piece arrays disagree in length.
    MismatchedLengths,
    /// Offsets not monotone over the expected root count, or their last
    /// entry differs from the table length.
    OffsetsInvalid,
    /// A piece index at or above the piece count.
    PieceIndexRange,
    /// A piece mask with cells outside the left half, or without any
    /// cell at all.
    PieceMaskRange,
    /// A population that does not fit a 4-bit key digit.
    PopulationRange,
    /// A bucket whose CSR structure is broken.
    SnapshotInvalid,
}

} // verus!
