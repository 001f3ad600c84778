//! The distance metrics of the vector index, as types.

use vstd::prelude::*;

verus! {

/// Euclidean (L2) distance: `sqrt(sum((a[i] - b[i])^2))`, 0 for identical
/// vectors.
#[derive(Debug, Clone, Copy, PartialEq, Eq, Structural)]
pub struct EuclideanDistance;

/// Cosine distance: `1 - cosine_similarity`, from 0 (same direction) to 2
/// (opposite).
#[derive(Debug, Clone, Copy, PartialEq, Eq, Structural)]
pub struct CosineDistance;

/// Inner product distance: `1 - dot(a, b)`, for normalized vectors.
#[derive(Debug, Clone, Copy, PartialEq, Eq, Structural)]
pub struct InnerProductDistance;

impl Default for EuclideanDistance {
    fn default() -> (r: Self)
        ensures
            r == EuclideanDistance,
    {
        EuclideanDistance
    }
}

impl Default for CosineDistance {
    fn default() -> (r: Self)
        ensures
            r == CosineDistance,
    {
        CosineDistance
    }
}

impl Default for InnerProductDistance {
    fn default() -> (r: Self)
        ensures
            r == InnerProductDistance,
    {
        InnerProductDistance
    }
}

} // verus!
