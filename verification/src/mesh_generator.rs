//! Turning one polygon fragment into a triangulated spherical mesh: the
//! verified preparation (point collection, constraint edges, rotation and
//! projection) and the verified assembly and validation of the
//! triangulation result.  The planar constrained Delaunay triangulation
//! itself is an outside capability: the caller runs it on the prepared
//! points and edges and hands the index triples back.

use vstd::prelude::*;
use crate::coords::{norm_sq, Cartesian3, GeoCoordinate, PlanarPoint, Polygon};
use crate::errors::GeoTilerError;
use crate::fixed::{div_trunc_i128, SCALE};
use crate::geometry::{
    lemma_div_trunc_abs_bound, lemma_mul_abs_bound, ll_to_cartesian, rotate_points_to_south_pole,
    stereographic_projection, COORD_LIMIT_LAT, COORD_LIMIT_LON, MAX_ROT_INPUT,
};
use crate::trig::{HALF_PI_FP, PI_FP};

verus! {

/// How many Fibonacci-sphere samples fill a polygon's interior.
pub const DEFAULT_FIBONACCI_POINT_COUNT: usize = 3000;

/// The geometric data of a triangulated polygon mesh: Cartesian vertices
/// and the flattened triangle vertex-index triples.
#[derive(Debug, Clone, PartialEq)]
pub struct PolygonMeshData {
    /// 3D points forming the mesh.
    pub vertices: Vec<Cartesian3>,
    /// Triangle indices, flattened three per triangle; each is an index
    /// into `vertices`.
    pub triangles: Vec<u32>,
}

/// An ordered pair of vertex indices that the triangulation must keep as
/// an edge.
#[derive(Debug, Clone, Copy, PartialEq, Eq, Structural)]
pub struct ConstraintEdge {
    pub from: u32,
    pub to: u32,
}

/// A boundary coordinate the coordinate transform would reject.
pub open spec fn coord_out_of_range(c: GeoCoordinate) -> bool {
    !(-COORD_LIMIT_LON <= c.longitude <= COORD_LIMIT_LON && -COORD_LIMIT_LAT <= c.latitude
        <= COORD_LIMIT_LAT)
}

/// How many of the first `i` flags are set.
pub open spec fn count_true(s: Seq<bool>, i: int) -> int
    decreases i,
{
    if i <= 0 {
        0
    } else {
        count_true(s, i - 1) + if s[i - 1] {
            1int
        } else {
            0int
        }
    }
}

/// The fixed-point degree form of a fixed-point radian value, the
/// quotient truncated.
pub open spec fn spec_radians_to_degrees(r: int) -> int {
    crate::fixed::div_trunc(r * (180 * SCALE), PI_FP as int)
}

/// The Cartesian point of Fibonacci sample `j` of the default sequence:
/// its spiral longitude and arcsine latitude, converted to degrees and
/// transformed, exactly as the executable pipeline computes them.
pub open spec fn spec_sample_point(j: int) -> Cartesian3 {
    crate::geometry::spec_ll_to_cartesian(
        spec_radians_to_degrees(crate::fibonacci::fib_longitude(j)),
        spec_radians_to_degrees(
            crate::trig::spec_asin(
                crate::fibonacci::fib_sweep_height(j, DEFAULT_FIBONACCI_POINT_COUNT as int),
            ),
        ),
    )
}

/// The converted sample points whose flag is set among the first `j`
/// samples, in sample order.
pub open spec fn spec_selected_samples(inside: Seq<bool>, j: int) -> Seq<Cartesian3>
    decreases j,
{
    if j <= 0 {
        Seq::empty()
    } else {
        spec_selected_samples(inside, j - 1) + (if inside[j - 1] {
            seq![spec_sample_point(j - 1)]
        } else {
            Seq::empty()
        })
    }
}

/// The full collected mesh point sequence of a polygon: the boundary
/// coordinates converted in ring order, then the retained samples in
/// sample order.
pub open spec fn spec_collected_points(ring: Seq<GeoCoordinate>, inside: Seq<bool>) -> Seq<
    Cartesian3,
> {
    Seq::new(
        ring.len(),
        |k: int|
            crate::geometry::spec_ll_to_cartesian(
                ring[k].longitude as int,
                ring[k].latitude as int,
            ),
    ) + spec_selected_samples(inside, DEFAULT_FIBONACCI_POINT_COUNT as int)
}

/// The selected-sample sequence is exactly as long as the count of set
/// flags.
proof fn lemma_selected_samples_len(inside: Seq<bool>, j: int)
    ensures
        spec_selected_samples(inside, j).len() == count_true(inside, j),
    decreases j,
{
    if j > 0 {
        lemma_selected_samples_len(inside, j - 1);
    }
}

/// A count of flags is never negative.
proof fn lemma_count_true_nonneg(s: Seq<bool>, i: int)
    ensures
        count_true(s, i) >= 0,
    decreases i,
{
    if i > 0 {
        lemma_count_true_nonneg(s, i - 1);
    }
}

/// A Cartesian point produced by the coordinate transform: unit norm
/// within tolerance, components within the unit range.
pub open spec fn unit_point(v: Cartesian3) -> bool {
    &&& (SCALE - 1000) * (SCALE - 1000) < norm_sq(v) <= SCALE * SCALE
    &&& -SCALE <= v.x <= SCALE
    &&& -SCALE <= v.y <= SCALE
    &&& -SCALE <= v.z <= SCALE
}

/// Collects the 3D mesh points of a polygon: every boundary coordinate,
/// followed by the Fibonacci-sphere samples whose containment flag is set,
/// all converted to Cartesian points on the unit sphere.
///
/// The `inside` flags answer the point-in-polygon test for the default
/// sample sequence, in sample order; the caller provides them because the
/// containment primitive is an outside capability.
///
/// Fails with an empty-set error on an empty boundary, a mesh-generation
/// error on fewer than three boundary points, and the coordinate-range
/// error of the first boundary coordinate outside the accepted ranges;
/// sample points are always in range.  On success the result holds the
/// boundary points first, in order, then one point per set flag, all of
/// unit norm.
pub fn get_mesh_points(polygon: &Polygon, inside: &Vec<bool>) -> (res: Result<
    Vec<Cartesian3>,
    GeoTilerError,
>)
    requires
        inside@.len() == DEFAULT_FIBONACCI_POINT_COUNT,
    ensures
        polygon.exterior@.len() == 0 <==> res == Result::<Vec<Cartesian3>, GeoTilerError>::Err(
            GeoTilerError::EmptyPointSetError,
        ),
        0 < polygon.exterior@.len() < 3 <==> res == Result::<Vec<Cartesian3>, GeoTilerError>::Err(
            GeoTilerError::MeshGenerationError,
        ),
        (res matches Err(e) && e is CoordinateRangeError) <==> (polygon.exterior@.len() >= 3
            && exists|k: int|
            0 <= k < polygon.exterior@.len() && coord_out_of_range(#[trigger] polygon.exterior@[k])),
        res is Ok <==> (polygon.exterior@.len() >= 3 && forall|k: int|
            0 <= k < polygon.exterior@.len() ==> !coord_out_of_range(
                #[trigger] polygon.exterior@[k],
            )),
        res matches Ok(pts) ==> {
            &&& polygon.exterior@.len() >= 3
            &&& forall|k: int|
                0 <= k < polygon.exterior@.len() ==> !coord_out_of_range(
                    #[trigger] polygon.exterior@[k],
                )
            &&& pts@.len() == polygon.exterior@.len() + count_true(
                inside@,
                DEFAULT_FIBONACCI_POINT_COUNT as int,
            )
            &&& forall|i: int| 0 <= i < pts@.len() ==> unit_point(#[trigger] pts@[i])
            &&& pts@ == spec_collected_points(polygon.exterior@, inside@)
        },
        res matches Err(e) ==> (e is CoordinateRangeError ==> exists|k: int|
            {
                &&& 0 <= k < polygon.exterior@.len()
                &&& coord_out_of_range(#[trigger] polygon.exterior@[k])
                &&& forall|m: int| 0 <= m < k ==> !coord_out_of_range(polygon.exterior@[m])
                &&& e == (GeoTilerError::CoordinateRangeError {
                    longitude: polygon.exterior@[k].longitude,
                    latitude: polygon.exterior@[k].latitude,
                })
            }),
{
    let n = polygon.exterior.len();
    if n == 0 {
        return Err(GeoTilerError::EmptyPointSetError);
    }
    if n < 3 {
        return Err(GeoTilerError::MeshGenerationError);
    }
    let mut pts: Vec<Cartesian3> = Vec::new();
    let mut i: usize = 0;
    while i < n
        invariant
            n == polygon.exterior@.len(),
            3 <= n,
            i <= n,
            pts@.len() == i,
            forall|k: int|
                0 <= k < i ==> !coord_out_of_range(#[trigger] polygon.exterior@[k]),
            forall|k: int| 0 <= k < i ==> unit_point(#[trigger] pts@[k]),
            pts@ == Seq::new(
                i as nat,
                |k: int|
                    crate::geometry::spec_ll_to_cartesian(
                        polygon.exterior@[k].longitude as int,
                        polygon.exterior@[k].latitude as int,
                    ),
            ),
        decreases n - i,
    {
        let c = polygon.exterior[i];
        match ll_to_cartesian(c.longitude, c.latitude) {
            Ok(v) => {
                pts.push(v);
                proof {
                    assert(pts@ =~= Seq::new(
                        (i + 1) as nat,
                        |k: int|
                            crate::geometry::spec_ll_to_cartesian(
                                polygon.exterior@[k].longitude as int,
                                polygon.exterior@[k].latitude as int,
                            ),
                    ));
                }
            },
            Err(e) => {
                proof {
                    assert(coord_out_of_range(polygon.exterior@[i as int]));
                }
                return Err(GeoTilerError::CoordinateRangeError {
                    longitude: c.longitude,
                    latitude: c.latitude,
                });
            },
        }
        i = i + 1;
    }
    let samples = match crate::fibonacci::fibonacci_sphere(DEFAULT_FIBONACCI_POINT_COUNT) {
        Ok(s) => s,
        Err(e) => {
            proof {
                assert(false);
            }
            return Err(e);
        },
    };
    let ghost boundary = pts@;
    let mut j: usize = 0;
    while j < DEFAULT_FIBONACCI_POINT_COUNT
        invariant
            n == polygon.exterior@.len(),
            3 <= n,
            inside@.len() == DEFAULT_FIBONACCI_POINT_COUNT,
            samples@.len() == DEFAULT_FIBONACCI_POINT_COUNT,
            forall|k: int|
                0 <= k < samples@.len() ==> {
                    &&& -PI_FP < (#[trigger] samples@[k]).longitude <= PI_FP
                    &&& -HALF_PI_FP <= samples@[k].latitude <= HALF_PI_FP
                    &&& samples@[k].longitude == crate::fibonacci::fib_longitude(k)
                    &&& samples@[k].latitude == crate::trig::spec_asin(
                        crate::fibonacci::fib_sweep_height(
                            k,
                            DEFAULT_FIBONACCI_POINT_COUNT as int,
                        ),
                    )
                },
            forall|k: int|
                0 <= k < n ==> !coord_out_of_range(#[trigger] polygon.exterior@[k]),
            j <= DEFAULT_FIBONACCI_POINT_COUNT,
            boundary == Seq::new(
                n as nat,
                |k: int|
                    crate::geometry::spec_ll_to_cartesian(
                        polygon.exterior@[k].longitude as int,
                        polygon.exterior@[k].latitude as int,
                    ),
            ),
            pts@ == boundary + spec_selected_samples(inside@, j as int),
            pts@.len() == n + count_true(inside@, j as int),
            forall|k: int| 0 <= k < pts@.len() ==> unit_point(#[trigger] pts@[k]),
        decreases DEFAULT_FIBONACCI_POINT_COUNT - j,
    {
        if inside[j] {
            let p = samples[j];
            let lon_deg = radians_to_degrees(p.longitude, PI_FP);
            let lat_deg = radians_to_degrees(p.latitude, HALF_PI_FP);
            proof {
                assert(HALF_PI_FP * (180 * (SCALE as int)) == 90 * (SCALE as int) * (PI_FP as int))
                    by (nonlinear_arith)
                    requires
                        PI_FP == 3_141_592_653_590,
                        HALF_PI_FP == 1_570_796_326_795,
                        SCALE == 1_000_000_000_000,
                ;
            }
            match ll_to_cartesian(lon_deg, lat_deg) {
                Ok(v) => {
                    pts.push(v);
                    proof {
                        assert(v == spec_sample_point(j as int));
                        assert(pts@ =~= boundary + spec_selected_samples(inside@, j + 1));
                    }
                },
                Err(e) => {
                    proof {
                        assert(false);
                    }
                    return Err(e);
                },
            }
        } else {
            proof {
                assert(pts@ =~= boundary + spec_selected_samples(inside@, j + 1));
            }
        }
        j = j + 1;
    }
    proof {
        assert(pts@ =~= spec_collected_points(polygon.exterior@, inside@));
    }
    Ok(pts)
}

/// Converts a fixed-point radian angle of magnitude at most `limit` to
/// fixed-point degrees; the result's magnitude is bounded by the degree
/// image of the limit.
fn radians_to_degrees(r: i64, limit: i64) -> (d: i64)
    requires
        0 < limit <= PI_FP,
        -limit <= r <= limit,
    ensures
        d as int == spec_radians_to_degrees(r as int),
        (limit as int) * (180 * (SCALE as int)) <= 180 * (SCALE as int) * (PI_FP as int) ==> -180
            * SCALE <= d <= 180 * SCALE,
        (limit as int) * (180 * (SCALE as int)) <= 90 * (SCALE as int) * (PI_FP as int) ==> -90
            * SCALE <= d <= 90 * SCALE,
{
    proof {
        lemma_mul_abs_bound(r as int, 180 * (SCALE as int), limit as int, 180 * (SCALE as int));
        assert((limit as int) * (180 * (SCALE as int)) <= 565_486_677_646_200_000_000_000_000)
            by (nonlinear_arith)
            requires
                0 < limit <= PI_FP,
                PI_FP == 3_141_592_653_590,
                SCALE == 1_000_000_000_000,
        ;
        if (limit as int) * (180 * (SCALE as int)) <= 180 * (SCALE as int) * (PI_FP as int) {
            lemma_div_trunc_abs_bound(
                (r as int) * (180 * (SCALE as int)),
                180 * (SCALE as int),
                PI_FP as int,
            );
        }
        if (limit as int) * (180 * (SCALE as int)) <= 90 * (SCALE as int) * (PI_FP as int) {
            lemma_div_trunc_abs_bound(
                (r as int) * (180 * (SCALE as int)),
                90 * (SCALE as int),
                PI_FP as int,
            );
        }
        lemma_div_trunc_abs_bound(
            (r as int) * (180 * (SCALE as int)),
            (limit as int) * (180 * (SCALE as int)),
            PI_FP as int,
        );
        assert((limit as int) * (180 * (SCALE as int)) * 1 <= (limit as int) * (180 * (
        SCALE as int)) * (PI_FP as int)) by (nonlinear_arith)
            requires
                limit > 0,
                PI_FP >= 1,
        ;
    }
    let num: i128 = (r as i128) * (180 * (SCALE as i128));
    let d128: i128 = div_trunc_i128(num, PI_FP as i128);
    d128 as i64
}

/// Builds one constraint edge per boundary edge over the first
/// `num_points` indices, connecting each vertex to its predecessor in
/// reverse index order, so the triangulation keeps the boundary ring with
/// consistent winding.
pub fn build_constraint_edges(num_points: usize) -> (edges: Vec<ConstraintEdge>)
    requires
        num_points <= u32::MAX,
    ensures
        edges@.len() == num_points,
        forall|j: int|
            0 <= j < num_points ==> {
                &&& (#[trigger] edges@[j]).from == num_points - 1 - j
                &&& edges@[j].to == ((num_points - 1 - j) + num_points - 1) % (num_points as int)
            },
{
    let mut edges: Vec<ConstraintEdge> = Vec::new();
    if num_points == 0 {
        return edges;
    }
    let n = num_points;
    let mut i: usize = n;
    while i > 0
        invariant
            0 < n <= u32::MAX,
            i <= n,
            edges@.len() == n - i,
            forall|j: int|
                0 <= j < n - i ==> {
                    &&& (#[trigger] edges@[j]).from == n - 1 - j
                    &&& edges@[j].to == ((n - 1 - j) + n - 1) % (n as int)
                },
        decreases i,
    {
        i = i - 1;
        let from: u32 = i as u32;
        let to: u32 = (((i as u64) + (n as u64) - 1) % (n as u64)) as u32;
        proof {
            vstd::arithmetic::div_mod::lemma_mod_division_less_than_divisor(
                (i + n - 1) as int,
                n as int,
            );
            vstd::arithmetic::div_mod::lemma_mod_bound((i + n - 1) as int, n as int);
        }
        edges.push(ConstraintEdge { from, to });
    }
    edges
}

/// Checks a triangulation result against the mesh invariant and assembles
/// the mesh data: succeeds exactly when the flattened index list is a
/// whole number of triangles and every index points into the vertex list,
/// which the assembled mesh then carries unchanged.
pub fn assemble_mesh_data(vertices: Vec<Cartesian3>, triangles: Vec<u32>) -> (res: Result<
    PolygonMeshData,
    GeoTilerError,
>)
    ensures
        res is Ok <==> (triangles@.len() % 3 == 0 && forall|i: int|
            0 <= i < triangles@.len() ==> (#[trigger] triangles@[i]) < vertices@.len()),
        res is Err ==> res == Result::<PolygonMeshData, GeoTilerError>::Err(
            GeoTilerError::TriangulationError,
        ),
        res matches Ok(m) ==> m.vertices@ == vertices@ && m.triangles@ == triangles@,
{
    if triangles.len() % 3 != 0 {
        return Err(GeoTilerError::TriangulationError);
    }
    let mut i: usize = 0;
    while i < triangles.len()
        invariant
            i <= triangles@.len(),
            forall|k: int| 0 <= k < i ==> (#[trigger] triangles@[k]) < vertices@.len(),
        decreases triangles@.len() - i,
    {
        if triangles[i] as usize >= vertices.len() {
            return Err(GeoTilerError::TriangulationError);
        }
        i = i + 1;
    }
    Ok(PolygonMeshData { vertices, triangles })
}

/// Prepares one polygon for constrained triangulation: collects the mesh
/// points, builds the boundary constraint edges, rotates the point set so
/// its centroid direction lands on the south pole, and projects every
/// rotated point stereographically.
///
/// On success the first result is exactly the collected, *unrotated*
/// point sequence (the vertices the final mesh keeps), the second the
/// constraint edges over the boundary indices, and the third one
/// projected planar point per collected point.  Each failure kind comes
/// exactly on its own condition: the collection errors of
/// `get_mesh_points`, the rotation error of
/// `rotate_points_to_south_pole`, or a projection error exactly when some
/// rotated point sits at the projection singularity.
pub fn prepare_triangulation(polygon: &Polygon, inside: &Vec<bool>) -> (res: Result<
    (Vec<Cartesian3>, Vec<ConstraintEdge>, Vec<PlanarPoint>),
    GeoTilerError,
>)
    requires
        inside@.len() == DEFAULT_FIBONACCI_POINT_COUNT,
        polygon.exterior@.len() <= u32::MAX,
    ensures
        ({
            let n = polygon.exterior@.len() as int;
            let in_range = forall|k: int|
                0 <= k < polygon.exterior@.len() ==> !coord_out_of_range(
                    #[trigger] polygon.exterior@[k],
                );
            let collected = spec_collected_points(polygon.exterior@, inside@);
            let u = crate::geometry::spec_axis(collected);
            let singular = exists|i: int|
                0 <= i < collected.len() && (#[trigger] crate::geometry::spec_rotated(
                    u,
                    collected[i],
                )).2 == SCALE;
            &&& (res == Result::<
                (Vec<Cartesian3>, Vec<ConstraintEdge>, Vec<PlanarPoint>),
                GeoTilerError,
            >::Err(GeoTilerError::EmptyPointSetError) <==> n == 0)
            &&& (res == Result::<
                (Vec<Cartesian3>, Vec<ConstraintEdge>, Vec<PlanarPoint>),
                GeoTilerError,
            >::Err(GeoTilerError::MeshGenerationError) <==> 0 < n < 3)
            &&& ((res matches Err(e) && e is CoordinateRangeError) <==> (n >= 3 && !in_range))
            &&& (res == Result::<
                (Vec<Cartesian3>, Vec<ConstraintEdge>, Vec<PlanarPoint>),
                GeoTilerError,
            >::Err(GeoTilerError::RotationError) <==> (n >= 3 && in_range
                && crate::geometry::rotation_fails(collected)))
            &&& (res == Result::<
                (Vec<Cartesian3>, Vec<ConstraintEdge>, Vec<PlanarPoint>),
                GeoTilerError,
            >::Err(GeoTilerError::ProjectionError) <==> (n >= 3 && in_range
                && !crate::geometry::rotation_fails(collected) && singular))
            &&& (res is Ok <==> (n >= 3 && in_range && !crate::geometry::rotation_fails(collected)
                && !singular))
            &&& res matches Ok(r) ==> {
                &&& r.0@ == collected
                &&& forall|i: int| 0 <= i < r.0@.len() ==> unit_point(#[trigger] r.0@[i])
                &&& r.1@.len() == n
                &&& forall|j: int|
                    0 <= j < r.1@.len() ==> {
                        &&& (#[trigger] r.1@[j]).from == n - 1 - j
                        &&& r.1@[j].to == ((n - 1 - j) + n - 1) % n
                    }
                &&& r.2@.len() == collected.len()
                &&& forall|i: int|
                    0 <= i < collected.len() ==> {
                        let rot = crate::geometry::spec_rotated(u, collected[i]);
                        &&& (#[trigger] r.2@[i]).x == crate::geometry::div_trunc_gen(
                            rot.0 * SCALE,
                            SCALE - rot.2,
                        )
                        &&& r.2@[i].y == crate::geometry::div_trunc_gen(
                            rot.1 * SCALE,
                            SCALE - rot.2,
                        )
                    }
            }
        }),
{
    let num_points = polygon.exterior.len();
    let ghost collected = spec_collected_points(polygon.exterior@, inside@);
    let ghost u = crate::geometry::spec_axis(collected);
    proof {
        lemma_count_true_nonneg(inside@, DEFAULT_FIBONACCI_POINT_COUNT as int);
        lemma_selected_samples_len(inside@, DEFAULT_FIBONACCI_POINT_COUNT as int);
    }
    let mesh_points = match get_mesh_points(polygon, inside) {
        Ok(p) => p,
        Err(e) => {
            proof {
                if polygon.exterior@.len() == 0 {
                    assert(e == GeoTilerError::EmptyPointSetError);
                } else if polygon.exterior@.len() < 3 {
                    assert(e == GeoTilerError::MeshGenerationError);
                } else {
                    assert(e is CoordinateRangeError);
                }
            }
            return Err(e);
        },
    };
    proof {
        assert(mesh_points@ == collected);
    }
    let edges = build_constraint_edges(num_points);
    let rotated = match rotate_points_to_south_pole(&mesh_points) {
        Ok(r) => r,
        Err(e) => {
            proof {
                assert(mesh_points@.len() > 0);
                assert(e == GeoTilerError::RotationError);
                assert(crate::geometry::rotation_fails(collected));
            }
            return Err(e);
        },
    };
    let mut projected: Vec<PlanarPoint> = Vec::new();
    let mut i: usize = 0;
    while i < rotated.len()
        invariant
            polygon.exterior@.len() >= 3,
            forall|k: int|
                0 <= k < polygon.exterior@.len() ==> !coord_out_of_range(
                    #[trigger] polygon.exterior@[k],
                ),
            collected == spec_collected_points(polygon.exterior@, inside@),
            u == crate::geometry::spec_axis(collected),
            !crate::geometry::rotation_fails(collected),
            rotated@.len() == collected.len(),
            i <= rotated@.len(),
            projected@.len() == i,
            forall|k: int|
                0 <= k < rotated@.len() ==> {
                    let rot = crate::geometry::spec_rotated(u, collected[k]);
                    &&& (#[trigger] rotated@[k]).x == rot.0
                    &&& rotated@[k].y == rot.1
                    &&& rotated@[k].z == rot.2
                    &&& -crate::geometry::MAX_ROT_OUTPUT <= rotated@[k].x
                        <= crate::geometry::MAX_ROT_OUTPUT
                    &&& -crate::geometry::MAX_ROT_OUTPUT <= rotated@[k].y
                        <= crate::geometry::MAX_ROT_OUTPUT
                    &&& -crate::geometry::MAX_ROT_OUTPUT <= rotated@[k].z
                        <= crate::geometry::MAX_ROT_OUTPUT
                },
            forall|k: int|
                0 <= k < i ==> (#[trigger] crate::geometry::spec_rotated(u, collected[k])).2
                    != SCALE,
            forall|k: int|
                0 <= k < i ==> {
                    let rot = crate::geometry::spec_rotated(u, collected[k]);
                    &&& (#[trigger] projected@[k]).x == crate::geometry::div_trunc_gen(
                        rot.0 * SCALE,
                        SCALE - rot.2,
                    )
                    &&& projected@[k].y == crate::geometry::div_trunc_gen(
                        rot.1 * SCALE,
                        SCALE - rot.2,
                    )
                },
        decreases rotated@.len() - i,
    {
        let p = rotated[i];
        match stereographic_projection(p) {
            Ok(q) => {
                projected.push(q);
            },
            Err(e) => {
                proof {
                    assert(crate::geometry::spec_rotated(u, collected[i as int]).2 == SCALE);
                }
                return Err(e);
            },
        }
        i = i + 1;
    }
    Ok((mesh_points, edges, projected))
}

} // verus!
