//! Caller-input errors. Every fallible operation checks its inputs before
//! touching any buffer, so a rejected call leaves all buffers unchanged.

use vstd::prelude::*;

verus! {

/// Why an operation rejected its inputs.
#[derive(Clone, Copy, Debug, PartialEq, Eq, Structural)]
pub enum EffectError {
    /// A buffer's length is not a multiple of its channel stride, or does
    /// not match the declared width and height.
    InvalidBufferLength,
    /// Two buffers that must correspond pixel-for-pixel differ in length.
    DimensionMismatch,
    /// A scalar parameter is outside its documented range.
    InvalidParameter,
}

} // verus!
