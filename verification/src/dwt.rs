//! Arrays of the wavelet transform (T.800 Annex F).
use vstd::prelude::*;

verus! {

/// A rectangle of samples, row by row.
#[derive(Debug, Clone, PartialEq)]
pub struct Interleaved2D<T> {
    /// The samples.
    pub data: Vec<T>,
    /// Width in samples.
    pub width: usize,
    /// Height in samples.
    pub height: usize,
}

} // verus!
