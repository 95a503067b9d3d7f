//! The ways in which a triangulation can fail.

use vstd::prelude::*;

verus! {

/// Why no triangulation was produced.
#[derive(Copy, Clone, Debug, PartialEq, Eq, Structural)]
pub enum TriangulationError {
    /// Fewer than two points are left once near-duplicates are dropped.
    InsufficientPoints,
    /// A coordinate is not finite.
    InvalidCoordinate,
    /// The arena cannot hold the quad-edges that the mesh needs.
    AllocatorExhaustion,
}

} // verus!
