use vstd::prelude::*;

verus! {

/// Why a kernel refused its input.
#[derive(Clone, Copy, Debug, PartialEq, Eq, Structural)]
pub enum ImageError {
    /// The geometry does not match the buffers that were supplied
    /// (a zero or negative dimension, a luma buffer that is too short,
    /// two frames of different sizes).
    InvalidInput,
    /// The chroma strides would address bytes outside the chroma buffers,
    /// or are malformed (negative, or a zero row stride for a frame of more
    /// than one row).
    InvalidBufferLayout,
}

} // verus!
