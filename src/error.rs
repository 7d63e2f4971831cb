use vstd::prelude::*;

verus! {

/// What can go wrong while building a gzip container.
#[derive(Debug, Clone, Copy, PartialEq, Eq, Structural)]
pub enum CompressError {
    /// The configured block size is zero.
    ZeroBlockSize,
    /// The codec did not end a block with the status its flush mode calls for
    /// (this includes an output buffer that was too small).
    Compression { index: usize },
    /// A block was lost or delivered twice: an internal invariant was broken.
    Consistency,
}

} // verus!
