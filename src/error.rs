use vstd::prelude::*;

verus! {

/// Failures of the classification.
#[derive(Clone, Copy, PartialEq, Eq, Structural, Debug)]
pub enum KmeansError {
    /// The class count is zero or larger than 256.
    Configuration,
    /// The source and the destination images differ in size, or a pixel buffer
    /// does not hold `width * height` pixels.
    DimensionMismatch,
    /// The coverage was asked of zero classified pixels.
    NoData,
}

} // verus!
