use vstd::prelude::*;

verus! {

/// Everything that can go wrong while decoding.  Encoding never fails.
#[derive(Clone, Copy, Debug, PartialEq, Eq, Structural)]
pub enum AzamError {
    /// The input ended before the terminating low-alphabet symbol of the
    /// section was seen.
    UnexpectedEndOfInput,
    /// A byte of the input maps to no glyph of either alphabet, or the
    /// section starts with the high-alphabet glyph for zero, which a
    /// canonical encoding never produces.
    InvalidData,
}

} // verus!
