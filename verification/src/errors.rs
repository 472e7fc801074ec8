//! The library's error taxonomy.
//!
//! Every operation returns one of these kinds instead of panicking; each
//! kind names the stage that rejected its input.

use vstd::prelude::*;

verus! {

/// Errors of the tiling and mesh pipeline.
///
/// All failures are value-carrying results, never panics; each operation's
/// contract states exactly on which inputs each kind is produced.
#[derive(Debug, Clone, PartialEq, Eq, Structural)]
pub enum GeoTilerError {
    /// Geographic input outside the accepted longitude/latitude ranges.
    /// Carries the offending fixed-point coordinates.
    CoordinateRangeError { longitude: i64, latitude: i64 },
    /// Stereographic projection attempted from its north-pole singularity.
    ProjectionError,
    /// Inverse stereographic projection rejected its input.  The pipeline
    /// currently has no inverse operation; the kind is part of the public
    /// taxonomy for callers that match exhaustively.
    InverseProjectionError,
    /// Fibonacci sphere sampling asked for zero points.
    FibonacciError,
    /// No rotation to the south pole could be determined.
    RotationError,
    /// An operation that needs at least one point received none.
    EmptyPointSetError,
    /// A polygon boundary too small to mesh.
    MeshGenerationError,
    /// An invalid tile grid step size.
    GridGenerationError,
    /// A polygon with too few vertices to clip.
    InvalidPolygonError,
    /// The constrained triangulation produced no valid mesh.
    TriangulationError,
}

} // verus!
