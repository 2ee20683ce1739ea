//! A binary-to-text codec over a large symbol alphabet.
//!
//! Arbitrary byte sequences are packed big-endian into 11-bit symbols and
//! rendered through a 2048-entry alphabet of two-character tokens; a leftover
//! group of at most ten bits is rendered either through a 64-entry alphabet of
//! one-character tokens (six bits or fewer) or, left-justified, through the
//! primary alphabet (seven to ten bits).

use vstd::prelude::*;

pub mod bits;
pub mod table;
pub mod reader;
pub mod writer;
pub mod codec;

verus! {

/// The failures the codec distinguishes.
///
/// `UnknownSymbol` is the only error a caller of a well-formed codec should
/// ever see; the others mark violated construction or bookkeeping invariants.
#[derive(Clone, Copy, Debug, PartialEq, Eq, Structural)]
pub enum CodecError {
    /// The alphabet configuration does not satisfy the table invariants.
    MalformedTable,
    /// A table lookup was attempted with an index outside the table.
    IndexOutOfRange,
    /// The decoder met a token that is not in the table.
    UnknownSymbol,
    /// A bit read was attempted past the end of the stream.
    EndOfStream,
}

} // verus!
