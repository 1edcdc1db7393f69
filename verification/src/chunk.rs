//! The chunk variants of the QOI format and the error a reconstruction pass
//! can surface.

use vstd::prelude::*;

verus! {

/// One already-parsed chunk of a QOI stream. Each variant is an exact recipe
/// for producing the next pixel or pixels.
#[derive(Copy, Clone, Debug, PartialEq, Eq, Structural)]
pub enum Chunk {
    /// A full color: red, green, blue, alpha.
    Literal(u8, u8, u8, u8),
    /// Red, green and blue; alpha is copied from the previous pixel.
    LiteralRgb(u8, u8, u8),
    /// The previous pixel repeated this many times.
    Run(u8),
    /// Small signed deltas for red, green and blue; alpha unchanged.
    SmallDiff(i8, i8, i8),
    /// Luma-relative deltas: dr minus dg, dg, db minus dg; alpha unchanged.
    LumaDiff(i8, i8, i8),
    /// The pixel in the given color cache slot, re-emitted verbatim.
    IndexRef(u8),
}

/// The one error a reconstruction pass can surface.
#[derive(Copy, Clone, Debug, PartialEq, Eq, Structural)]
pub enum QoiError {
    /// A cache reference named a slot at or beyond 64.
    IndexOutOfRange,
}

} // verus!
