//! The errors the filters and helpers report.

use vstd::prelude::*;

verus! {

/// What was wrong with an argument.
#[derive(Debug, Clone, Copy, PartialEq, Eq)]
pub enum ArgFault {
    /// The radius is larger than the largest supported one.
    RadiusTooLarge,
    /// The number of trimmed samples is odd.
    AlphaOdd,
    /// The number of trimmed samples is not less than the window holds.
    AlphaTooLarge,
    /// The strip width is even.
    StripWidthEven,
    /// The strip width is larger than the largest supported one.
    StripWidthTooLarge,
    /// Two arguments that must agree in size do not.
    DimensionMismatch,
    /// A value is outside the range it must lie in.
    OutOfRange,
}

/// An error of an image operation.
#[derive(Debug, Clone, Copy, PartialEq, Eq)]
pub enum ImgProcError {
    /// An argument was rejected before any work was done.
    InvalidArgError(ArgFault),
}

} // verus!
