//! Geometric data types of the pipeline.
//!
//! All coordinates are fixed-point: a geographic coordinate holds
//! `SCALE`-scaled decimal degrees, a Cartesian point holds `SCALE`-scaled
//! unit-sphere components, and a planar point holds `SCALE`-scaled
//! stereographic plane coordinates (with the wider `i128` range, since the
//! projection magnifies points near the singularity).

use vstd::prelude::*;

verus! {

/// A geographic position: `SCALE`-scaled decimal degrees.
/// Longitude is positive east, latitude positive north.
#[derive(Debug, Clone, Copy, PartialEq, Eq, Structural)]
pub struct GeoCoordinate {
    pub longitude: i64,
    pub latitude: i64,
}

/// A point in 3D Cartesian space, `SCALE`-scaled: a point produced by the
/// coordinate transform lies on the unit sphere, so each component is close
/// to the range `[-SCALE, SCALE]`.
#[derive(Debug, Clone, Copy, PartialEq, Eq, Structural)]
pub struct Cartesian3 {
    pub x: i64,
    pub y: i64,
    pub z: i64,
}

/// A point on the stereographic projection plane, `SCALE`-scaled.
#[derive(Debug, Clone, Copy, PartialEq, Eq, Structural)]
pub struct PlanarPoint {
    pub x: i128,
    pub y: i128,
}

/// A point on the unit sphere in spherical form: fixed-point radians,
/// longitude in `(-pi, pi]`, latitude in `[-pi/2, pi/2]`.
#[derive(Debug, Clone, Copy, PartialEq, Eq, Structural)]
pub struct SphericalPoint {
    pub longitude: i64,
    pub latitude: i64,
}

/// A polygon: a closed boundary ring (first coordinate repeated as last)
/// plus zero or more hole rings.  Holes are carried but not used by the
/// current pipeline.
#[derive(Debug, Clone, PartialEq)]
pub struct Polygon {
    pub exterior: Vec<GeoCoordinate>,
    pub holes: Vec<Vec<GeoCoordinate>>,
}

/// The squared Euclidean distance between two geographic coordinates in the
/// degree plane.
pub open spec fn dist_sq(a: GeoCoordinate, b: GeoCoordinate) -> int {
    (b.longitude - a.longitude) * (b.longitude - a.longitude) + (b.latitude - a.latitude) * (
    b.latitude - a.latitude)
}

/// The squared Euclidean norm of a Cartesian point.
pub open spec fn norm_sq(v: Cartesian3) -> int {
    (v.x as int) * (v.x as int) + (v.y as int) * (v.y as int) + (v.z as int) * (v.z as int)
}

impl Polygon {
    /// The boundary ring as a mathematical sequence.
    pub open spec fn ring(self) -> Seq<GeoCoordinate> {
        self.exterior@
    }

    /// Builds a polygon from its boundary ring and holes, as the original
    /// geometry types do.
    pub fn new(exterior: Vec<GeoCoordinate>, holes: Vec<Vec<GeoCoordinate>>) -> (p: Polygon)
        ensures
            p.exterior@ == exterior@,
            p.holes@ == holes@,
    {
        Polygon { exterior, holes }
    }
}

} // verus!
