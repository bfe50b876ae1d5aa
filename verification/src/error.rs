//! The failures that the mesh operations report.

use vstd::prelude::*;

verus! {

/// Why a construction or a query was refused.
#[derive(Debug, Clone, Copy, PartialEq, Eq, Structural)]
pub enum MeshError {
    /// The half-edge array has odd length, or is no permutation of its indices.
    InvalidPermutation,
    /// A row index lies beyond the known shape.
    IndexOutOfRange,
    /// The vertex-edge and edge-face matrices disagree on the number of edges.
    ShapeMismatch,
    /// Pairs handed over as sorted were not in lexicographic order.
    UnsortedInputViolation,
    /// The operation has no definition yet.
    UnsupportedOperation,
}

} // verus!
