//! The ways in which decoding fails.

use vstd::prelude::*;

verus! {

/// The header field that failed a sanity check.
#[derive(Debug, Clone, Copy, PartialEq, Eq)]
pub enum HeaderField {
    /// The offset of the base information in the index image.
    BasePos,
    /// The total length that a deleted block declares for itself.
    BlockLen,
}

/// Why an operation on the cursor itself could not be carried out.
#[derive(Debug, Clone, Copy, PartialEq, Eq)]
pub enum IoCause {
    /// A relative seek would leave the range of 64-bit offsets.
    SeekOutOfRange,
}

/// A fatal decoding error. Decoding never resumes after one.
#[derive(Debug, Clone, Copy, PartialEq, Eq)]
pub enum DecodeError {
    /// An operation on the byte source failed.
    IoError { source: IoCause },
    /// Fewer bytes were left at `offset` than the `expected` ones.
    TruncatedError { offset: u64, expected: u64, got: u64 },
    /// The byte at `offset` names no block encoding.
    UnknownBlockType { byte: u8, offset: u64 },
    /// A header field read at `offset` is inconsistent with the image.
    MalformedHeader { field: HeaderField, offset: u64 },
}

} // verus!
