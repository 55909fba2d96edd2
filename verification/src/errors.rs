//! Error types: malformed input lines and violated write invariants.
use vstd::prelude::*;

verus! {

/// A line of the write log did not match the expected grammar.
#[derive(Clone, Copy, PartialEq, Eq, Structural, Debug)]
pub enum ParseError {
    /// A token the grammar needs is absent (line too short, or a block
    /// reference is truncated).
    MissingField,
    /// The size field is not an unsigned decimal number.
    BadSize,
    /// The LSN field is not two hexadecimal groups separated by `/`.
    BadLsn,
    /// A block-number field is not an unsigned decimal number.
    BadBlock,
}

/// A write violated an ingestion invariant.
#[derive(Clone, Copy, PartialEq, Eq, Structural, Debug)]
pub enum RangeInvariantError {
    /// The write reported a zero byte size.
    ZeroSize,
    /// The write's LSN lies below its own chunk's latest LSN.
    OutOfOrderLsn,
}

} // verus!
