//! The rectangular tile grid over the globe.

use vstd::prelude::*;
use crate::coords::{GeoCoordinate, Polygon};
use crate::errors::GeoTilerError;
use crate::fixed::SCALE;

verus! {

/// One cell of the geographic grid: its rectangular boundary (a closed
/// ring of the four corners, first repeated as last) and the polygon
/// fragments clipped into it.
#[derive(Debug, Clone)]
pub struct Tile {
    pub vertices: Polygon,
    pub polygons: Vec<Polygon>,
}

/// A grid step is valid when it is positive, at most 180 degrees, and
/// divides both the 360-degree longitude span and the 180-degree latitude
/// span evenly.
pub open spec fn valid_grid_step(step: int) -> bool {
    0 < step <= 180 && 360int % step == 0 && 180int % step == 0
}

/// Number of tile columns (longitude bands) of a grid.
pub open spec fn grid_cols(step: int) -> int {
    360int / step
}

/// Number of tile rows (latitude bands) of a grid.
pub open spec fn grid_rows(step: int) -> int {
    180int / step
}

/// The western (low-longitude) edge of the grid tile at `idx`, fixed-point.
pub open spec fn tile_lon_lo(step: int, idx: int) -> int {
    (-180 + (idx / grid_rows(step)) * step) * SCALE
}

/// The southern (low-latitude) edge of the grid tile at `idx`, fixed-point.
pub open spec fn tile_lat_lo(step: int, idx: int) -> int {
    (-90 + (idx % grid_rows(step)) * step) * SCALE
}

/// The tile at index `idx` of a `step`-degree grid: its rectangle as a
/// closed boundary ring — the corners in cyclic order bottom-left,
/// bottom-right, top-right, top-left, with the first corner repeated as
/// the last — no holes, and an empty fragment list.
pub open spec fn is_grid_tile(t: Tile, step: int, idx: int) -> bool {
    let lon0 = tile_lon_lo(step, idx);
    let lat0 = tile_lat_lo(step, idx);
    let lon1 = lon0 + step * SCALE;
    let lat1 = lat0 + step * SCALE;
    &&& t.vertices.exterior@ == seq![
        GeoCoordinate { longitude: lon0 as i64, latitude: lat0 as i64 },
        GeoCoordinate { longitude: lon1 as i64, latitude: lat0 as i64 },
        GeoCoordinate { longitude: lon1 as i64, latitude: lat1 as i64 },
        GeoCoordinate { longitude: lon0 as i64, latitude: lat1 as i64 },
        GeoCoordinate { longitude: lon0 as i64, latitude: lat0 as i64 },
    ]
    &&& t.vertices.holes@.len() == 0
    &&& t.polygons@.len() == 0
}

/// The tile rectangles of a valid grid cover the whole globe: every
/// geographic position within `[-180, 180] x [-90, 90]` degrees lies inside
/// (or on the border of) the rectangle of at least one tile index.
pub proof fn lemma_grid_covers(step: int, lon: int, lat: int)
    requires
        valid_grid_step(step),
        -180 * SCALE <= lon <= 180 * SCALE,
        -90 * SCALE <= lat <= 90 * SCALE,
    ensures
        exists|idx: int|
            {
                &&& 0 <= idx < grid_cols(step) * grid_rows(step)
                &&& #[trigger] tile_lon_lo(step, idx) <= lon <= tile_lon_lo(step, idx) + step
                    * SCALE
                &&& tile_lat_lo(step, idx) <= lat <= tile_lat_lo(step, idx) + step * SCALE
            },
{
    let cols = grid_cols(step);
    let rows = grid_rows(step);
    let ss = step * SCALE;
    vstd::arithmetic::div_mod::lemma_fundamental_div_mod(360, step);
    vstd::arithmetic::div_mod::lemma_fundamental_div_mod(180, step);
    assert(cols * ss == 360 * SCALE) by (nonlinear_arith)
        requires
            360 == step * cols + 360int % step,
            360int % step == 0,
            ss == step * SCALE,
    ;
    assert(rows * ss == 180 * SCALE) by (nonlinear_arith)
        requires
            180 == step * rows + 180int % step,
            180int % step == 0,
            ss == step * SCALE,
    ;
    assert(cols > 0 && rows > 0) by (nonlinear_arith)
        requires
            step > 0,
            cols * ss == 360 * SCALE,
            rows * ss == 180 * SCALE,
            ss == step * SCALE,
    ;
    let col = grid_band(lon + 180 * SCALE, ss, cols);
    let row = grid_band(lat + 90 * SCALE, ss, rows);
    lemma_grid_band(lon + 180 * SCALE, ss, cols);
    lemma_grid_band(lat + 90 * SCALE, ss, rows);
    let idx = col * rows + row;
    assert(0 <= idx < cols * rows) by (nonlinear_arith)
        requires
            0 <= col < cols,
            0 <= row < rows,
            idx == col * rows + row,
    ;
    vstd::arithmetic::div_mod::lemma_fundamental_div_mod_converse(idx, rows, col, row);
    assert(tile_lon_lo(step, idx) == -180 * SCALE + col * ss) by (nonlinear_arith)
        requires
            idx / rows == col,
            tile_lon_lo(step, idx) == (-180 + (idx / rows) * step) * SCALE,
            ss == step * SCALE,
    ;
    assert(tile_lat_lo(step, idx) == -90 * SCALE + row * ss) by (nonlinear_arith)
        requires
            idx % rows == row,
            tile_lat_lo(step, idx) == (-90 + (idx % rows) * step) * SCALE,
            ss == step * SCALE,
    ;
}

/// The band (column or row) of a span of `n` cells of width `w` that
/// contains offset `x`, counting the top end `n * w` into the last band.
pub open spec fn grid_band(x: int, w: int, n: int) -> int {
    if x == n * w {
        n - 1
    } else {
        x / w
    }
}

/// The chosen band is in range and its cell contains `x`.
proof fn lemma_grid_band(x: int, w: int, n: int)
    requires
        w > 0,
        n > 0,
        0 <= x <= n * w,
    ensures
        0 <= grid_band(x, w, n) < n,
        grid_band(x, w, n) * w <= x <= grid_band(x, w, n) * w + w,
{
    if x == n * w {
        assert((n - 1) * w <= x && x <= (n - 1) * w + w) by (nonlinear_arith)
            requires
                x == n * w,
                w > 0,
                n > 0,
        ;
    } else {
        let q = x / w;
        vstd::arithmetic::div_mod::lemma_fundamental_div_mod(x, w);
        vstd::arithmetic::div_mod::lemma_mod_division_less_than_divisor(x, w);
        vstd::arithmetic::div_mod::lemma_div_pos_is_pos(x, w);
        assert(q * w <= x < q * w + w);
        assert(q < n) by (nonlinear_arith)
            requires
                q * w <= x,
                x < n * w,
                w > 0,
                q >= 0,
        ;
    }
}

/// The tile rectangles of a valid grid do not overlap: a geographic
/// position strictly inside two tile rectangles identifies a single tile.
pub proof fn lemma_grid_tiles_disjoint(step: int, i: int, j: int, lon: int, lat: int)
    requires
        valid_grid_step(step),
        0 <= i < grid_cols(step) * grid_rows(step),
        0 <= j < grid_cols(step) * grid_rows(step),
        tile_lon_lo(step, i) < lon < tile_lon_lo(step, i) + step * SCALE,
        tile_lat_lo(step, i) < lat < tile_lat_lo(step, i) + step * SCALE,
        tile_lon_lo(step, j) < lon < tile_lon_lo(step, j) + step * SCALE,
        tile_lat_lo(step, j) < lat < tile_lat_lo(step, j) + step * SCALE,
    ensures
        i == j,
{
    let rows = grid_rows(step);
    let ci = i / rows;
    let ri = i % rows;
    let cj = j / rows;
    let rj = j % rows;
    assert(rows > 0);
    vstd::arithmetic::div_mod::lemma_fundamental_div_mod(i, rows);
    vstd::arithmetic::div_mod::lemma_fundamental_div_mod(j, rows);
    vstd::arithmetic::div_mod::lemma_mod_division_less_than_divisor(i, rows);
    vstd::arithmetic::div_mod::lemma_mod_division_less_than_divisor(j, rows);
    assert(tile_lon_lo(step, i) == -180 * SCALE + ci * (step * SCALE)) by (nonlinear_arith)
        requires
            tile_lon_lo(step, i) == (-180 + ci * step) * SCALE,
    ;
    assert(tile_lon_lo(step, j) == -180 * SCALE + cj * (step * SCALE)) by (nonlinear_arith)
        requires
            tile_lon_lo(step, j) == (-180 + cj * step) * SCALE,
    ;
    assert(tile_lat_lo(step, i) == -90 * SCALE + ri * (step * SCALE)) by (nonlinear_arith)
        requires
            tile_lat_lo(step, i) == (-90 + ri * step) * SCALE,
    ;
    assert(tile_lat_lo(step, j) == -90 * SCALE + rj * (step * SCALE)) by (nonlinear_arith)
        requires
            tile_lat_lo(step, j) == (-90 + rj * step) * SCALE,
    ;
    assert(step * SCALE > 0) by (nonlinear_arith)
        requires
            step > 0,
    ;
    lemma_band_unique(ci, cj, step, lon + 180 * SCALE);
    lemma_band_unique(ri, rj, step, lat + 90 * SCALE);
}

/// Two bands whose open cells both contain `x` are the same band.
proof fn lemma_band_unique(a: int, b: int, step: int, x: int)
    requires
        step > 0,
        a * (step * SCALE) < x < a * (step * SCALE) + step * SCALE,
        b * (step * SCALE) < x < b * (step * SCALE) + step * SCALE,
    ensures
        a == b,
{
    let ss = step * SCALE;
    assert(ss > 0) by (nonlinear_arith)
        requires
            step > 0,
            ss == step * SCALE,
    ;
    if a < b {
        assert((a + 1) * ss <= b * ss) by (nonlinear_arith)
            requires
                a + 1 <= b,
                ss > 0,
        ;
        assert(a * ss + ss == (a + 1) * ss) by (nonlinear_arith);
    }
    if b < a {
        assert((b + 1) * ss <= a * ss) by (nonlinear_arith)
            requires
                b + 1 <= a,
                ss > 0,
        ;
        assert(b * ss + ss == (b + 1) * ss) by (nonlinear_arith);
    }
}

/// Generates the grid of tiles covering the whole globe: one tile per
/// `step x step`-degree cell of `[-180, 180) x [-90, 90)`, columns ordered
/// west to east and, within each column, rows ordered south to north.
/// Each tile boundary is a closed rectangular ring of five coordinates.
///
/// Fails with a grid-configuration error exactly when the step is zero,
/// exceeds 180 degrees, or does not divide 360 and 180 evenly.
pub fn generate_grid(step: usize) -> (res: Result<Vec<Tile>, GeoTilerError>)
    ensures
        res is Err <==> !valid_grid_step(step as int),
        res is Err ==> res == Result::<Vec<Tile>, GeoTilerError>::Err(
            GeoTilerError::GridGenerationError,
        ),
        res matches Ok(grid) ==> {
            &&& grid@.len() == grid_cols(step as int) * grid_rows(step as int)
            &&& forall|idx: int|
                0 <= idx < grid@.len() ==> is_grid_tile(#[trigger] grid@[idx], step as int, idx)
        },
{
    if step == 0 || step > 180 || 360 % step != 0 || 180 % step != 0 {
        return Err(GeoTilerError::GridGenerationError);
    }
    let cols: usize = 360 / step;
    let rows: usize = 180 / step;
    let mut grid: Vec<Tile> = Vec::new();
    proof {
        vstd::arithmetic::div_mod::lemma_fundamental_div_mod(360, step as int);
        vstd::arithmetic::div_mod::lemma_fundamental_div_mod(180, step as int);
    }
    let mut col: usize = 0;
    while col < cols
        invariant
            valid_grid_step(step as int),
            cols == grid_cols(step as int),
            rows == grid_rows(step as int),
            360 == step * cols,
            180 == step * rows,
            col <= cols,
            grid@.len() == col * rows,
            forall|idx: int|
                0 <= idx < grid@.len() ==> is_grid_tile(#[trigger] grid@[idx], step as int, idx),
        decreases cols - col,
    {
        let mut row: usize = 0;
        proof {
            assert(col * rows + rows <= cols * rows) by (nonlinear_arith)
                requires
                    col < cols,
                    rows >= 0,
            ;
        }
        while row < rows
            invariant
                valid_grid_step(step as int),
                cols == grid_cols(step as int),
                rows == grid_rows(step as int),
                360 == step * cols,
                180 == step * rows,
                col < cols,
                row <= rows,
                col * rows + rows <= cols * rows,
                grid@.len() == col * rows + row,
                forall|idx: int|
                    0 <= idx < grid@.len() ==> is_grid_tile(
                        #[trigger] grid@[idx],
                        step as int,
                        idx,
                    ),
            decreases rows - row,
        {
            proof {
                assert(col * step + step <= 360) by (nonlinear_arith)
                    requires
                        col < cols,
                        step > 0,
                        360 == step * cols,
                ;
                assert(row * step + step <= 180) by (nonlinear_arith)
                    requires
                        row < rows,
                        step > 0,
                        180 == step * rows,
                ;
            }
            let lon0: i64 = (-180 + (col * step) as i64) * SCALE;
            let lat0: i64 = (-90 + (row * step) as i64) * SCALE;
            let lon1: i64 = lon0 + (step as i64) * SCALE;
            let lat1: i64 = lat0 + (step as i64) * SCALE;
            let tile = Tile {
                vertices: Polygon {
                    exterior: vec![
                        GeoCoordinate { longitude: lon0, latitude: lat0 },
                        GeoCoordinate { longitude: lon1, latitude: lat0 },
                        GeoCoordinate { longitude: lon1, latitude: lat1 },
                        GeoCoordinate { longitude: lon0, latitude: lat1 },
                        GeoCoordinate { longitude: lon0, latitude: lat0 },
                    ],
                    holes: Vec::new(),
                },
                polygons: Vec::new(),
            };
            proof {
                let idx = grid@.len() as int;
                vstd::arithmetic::div_mod::lemma_fundamental_div_mod_converse(
                    idx,
                    rows as int,
                    col as int,
                    row as int,
                );
                assert(idx / (rows as int) == col as int);
                assert(idx % (rows as int) == row as int);
            }
            grid.push(tile);
            row = row + 1;
        }
        col = col + 1;
        proof {
            assert(col * rows == (col - 1) * rows + rows) by (nonlinear_arith)
            ;
        }
    }
    proof {
        assert(cols * rows == grid_cols(step as int) * grid_rows(step as int));
    }
    Ok(grid)
}

/// Default maximum fixed-point distance between consecutive points during
/// edge densification (half a degree).
pub const DEFAULT_MAX_DISTANCE_BETWEEN_POINTS: i64 = 500_000_000_000;

/// Checks that a polygon is fit for clipping: its boundary ring must hold
/// at least four coordinates (three distinct vertices plus the closing
/// repeat).  In this fixed-point representation every coordinate is finite,
/// so the range test of the original floating-point boundary is inherent.
pub fn validate_clip_polygon(polygon: &Polygon) -> (res: Result<(), GeoTilerError>)
    ensures
        res is Ok <==> polygon.exterior@.len() >= 4,
        res is Err ==> res == Result::<(), GeoTilerError>::Err(GeoTilerError::InvalidPolygonError),
{
    if polygon.exterior.len() < 4 {
        return Err(GeoTilerError::InvalidPolygonError);
    }
    Ok(())
}

/// Densifies one clipping fragment with the default maximum edge length and
/// appends it to the tile's fragment list.  The list is append-only: the
/// old fragments and the tile's boundary are untouched.
pub fn store_clipped_fragment(tile: &mut Tile, fragment: Polygon)
    requires
        crate::geometry::ring_bounded(fragment.exterior@),
    ensures
        final(tile).vertices == old(tile).vertices,
        final(tile).polygons@.len() == old(tile).polygons@.len() + 1,
        forall|i: int|
            0 <= i < old(tile).polygons@.len() ==> final(tile).polygons@[i] == old(
                tile,
            ).polygons@[i],
        final(tile).polygons@[old(tile).polygons@.len() as int].exterior@
            == crate::geometry::densified_ring(
            fragment.exterior@,
            DEFAULT_MAX_DISTANCE_BETWEEN_POINTS as int,
        ),
        final(tile).polygons@[old(tile).polygons@.len() as int].holes@ == fragment.holes@,
{
    let mut fragment = fragment;
    crate::geometry::densify_edges(&mut fragment, DEFAULT_MAX_DISTANCE_BETWEEN_POINTS);
    tile.polygons.push(fragment);
}

/// The smallest longitude of a ring prefix, starting from the largest
/// representable value as the original scan does.
pub open spec fn fold_min_lon(r: Seq<GeoCoordinate>, i: int) -> int
    decreases i,
{
    if i <= 0 {
        i64::MAX as int
    } else {
        vstd::math::min(fold_min_lon(r, i - 1), r[i - 1].longitude as int)
    }
}

/// The largest longitude of a ring prefix.
pub open spec fn fold_max_lon(r: Seq<GeoCoordinate>, i: int) -> int
    decreases i,
{
    if i <= 0 {
        i64::MIN as int
    } else {
        vstd::math::max(fold_max_lon(r, i - 1), r[i - 1].longitude as int)
    }
}

/// The smallest latitude of a ring prefix.
pub open spec fn fold_min_lat(r: Seq<GeoCoordinate>, i: int) -> int
    decreases i,
{
    if i <= 0 {
        i64::MAX as int
    } else {
        vstd::math::min(fold_min_lat(r, i - 1), r[i - 1].latitude as int)
    }
}

/// The largest latitude of a ring prefix.
pub open spec fn fold_max_lat(r: Seq<GeoCoordinate>, i: int) -> int
    decreases i,
{
    if i <= 0 {
        i64::MIN as int
    } else {
        vstd::math::max(fold_max_lat(r, i - 1), r[i - 1].latitude as int)
    }
}

/// `x` forced into `[lo, hi]`, preferring `lo` as the original clamp does.
pub open spec fn clamp_val(x: int, lo: int, hi: int) -> int {
    if x < lo {
        lo
    } else if x > hi {
        hi
    } else {
        x
    }
}

/// A fragment coordinate clamped into the bounding rectangle of a tile
/// boundary ring.
pub open spec fn clamped_coord(c: GeoCoordinate, ring: Seq<GeoCoordinate>) -> GeoCoordinate {
    let n = ring.len() as int;
    GeoCoordinate {
        longitude: clamp_val(c.longitude as int, fold_min_lon(ring, n), fold_max_lon(ring, n))
            as i64,
        latitude: clamp_val(c.latitude as int, fold_min_lat(ring, n), fold_max_lat(ring, n))
            as i64,
    }
}

/// A whole fragment boundary clamped into the bounding rectangle of a tile
/// boundary ring and closed again: the exterior ring a fragment holds after
/// the clamping pass.
pub open spec fn clamped_ring(r: Seq<GeoCoordinate>, ring: Seq<GeoCoordinate>) -> Seq<
    GeoCoordinate,
> {
    crate::geometry::close_ring(Seq::new(r.len(), |k: int| clamped_coord(r[k], ring)))
}

/// Clamps one fragment's exterior coordinates into the given rectangle.
fn clamp_polygon(polygon: &mut Polygon, min_lon: i64, max_lon: i64, min_lat: i64, max_lat: i64)
    ensures
        final(polygon).exterior@ == crate::geometry::close_ring(
            Seq::new(
                old(polygon).exterior@.len(),
                |k: int|
                    GeoCoordinate {
                        longitude: clamp_val(
                            old(polygon).exterior@[k].longitude as int,
                            min_lon as int,
                            max_lon as int,
                        ) as i64,
                        latitude: clamp_val(
                            old(polygon).exterior@[k].latitude as int,
                            min_lat as int,
                            max_lat as int,
                        ) as i64,
                    },
            ),
        ),
        final(polygon).holes@ == old(polygon).holes@,
{
    let n = polygon.exterior.len();
    let mut out: Vec<GeoCoordinate> = Vec::new();
    let mut k: usize = 0;
    while k < n
        invariant
            n == old(polygon).exterior@.len(),
            polygon.exterior@ == old(polygon).exterior@,
            polygon.holes@ == old(polygon).holes@,
            k <= n,
            out@.len() == k,
            forall|m: int|
                0 <= m < k ==> #[trigger] out@[m] == (GeoCoordinate {
                    longitude: clamp_val(
                        old(polygon).exterior@[m].longitude as int,
                        min_lon as int,
                        max_lon as int,
                    ) as i64,
                    latitude: clamp_val(
                        old(polygon).exterior@[m].latitude as int,
                        min_lat as int,
                        max_lat as int,
                    ) as i64,
                }),
        decreases n - k,
    {
        let c = polygon.exterior[k];
        let lon = if c.longitude < min_lon {
            min_lon
        } else if c.longitude > max_lon {
            max_lon
        } else {
            c.longitude
        };
        let lat = if c.latitude < min_lat {
            min_lat
        } else if c.latitude > max_lat {
            max_lat
        } else {
            c.latitude
        };
        out.push(GeoCoordinate { longitude: lon, latitude: lat });
        k = k + 1;
    }
    // Close the ring again, as the polygon's boundary invariant asks.
    if out.len() > 0 {
        let head = out[0];
        let tail = out[out.len() - 1];
        if !(head.longitude == tail.longitude && head.latitude == tail.latitude) {
            out.push(head);
        }
    }
    proof {
        assert(out@ =~= crate::geometry::close_ring(
            Seq::new(
                old(polygon).exterior@.len(),
                |k: int|
                    GeoCoordinate {
                        longitude: clamp_val(
                            old(polygon).exterior@[k].longitude as int,
                            min_lon as int,
                            max_lon as int,
                        ) as i64,
                        latitude: clamp_val(
                            old(polygon).exterior@[k].latitude as int,
                            min_lat as int,
                            max_lat as int,
                        ) as i64,
                    },
            ),
        ));
    }
    polygon.exterior = out;
}

/// Computes the bounding rectangle of a tile boundary ring by scanning its
/// coordinates, as the original clamp step does.
fn ring_bounds(ring: &Vec<GeoCoordinate>) -> (b: (i64, i64, i64, i64))
    ensures
        b.0 as int == fold_min_lon(ring@, ring@.len() as int),
        b.1 as int == fold_max_lon(ring@, ring@.len() as int),
        b.2 as int == fold_min_lat(ring@, ring@.len() as int),
        b.3 as int == fold_max_lat(ring@, ring@.len() as int),
{
    let mut min_lon: i64 = i64::MAX;
    let mut max_lon: i64 = i64::MIN;
    let mut min_lat: i64 = i64::MAX;
    let mut max_lat: i64 = i64::MIN;
    let mut k: usize = 0;
    while k < ring.len()
        invariant
            k <= ring@.len(),
            min_lon as int == fold_min_lon(ring@, k as int),
            max_lon as int == fold_max_lon(ring@, k as int),
            min_lat as int == fold_min_lat(ring@, k as int),
            max_lat as int == fold_max_lat(ring@, k as int),
        decreases ring@.len() - k,
    {
        let c = ring[k];
        if c.longitude < min_lon {
            min_lon = c.longitude;
        }
        if c.longitude > max_lon {
            max_lon = c.longitude;
        }
        if c.latitude < min_lat {
            min_lat = c.latitude;
        }
        if c.latitude > max_lat {
            max_lat = c.latitude;
        }
        k = k + 1;
    }
    (min_lon, max_lon, min_lat, max_lat)
}

/// Clamps every fragment of every tile into that tile's own bounding
/// rectangle, recomputed from the tile's boundary ring.  Boolean clipping
/// can leave fragment coordinates a hair outside their tile; this restores
/// the containment that later triangulation needs.  Tile boundaries and
/// fragment counts are unchanged.  Every tile must have a boundary ring to
/// take the rectangle from.
pub fn clamp_polygons(tiles: &mut Vec<Tile>)
    requires
        forall|t: int|
            0 <= t < old(tiles)@.len() ==> (#[trigger] old(
                tiles,
            )@[t]).vertices.exterior@.len() > 0,
    ensures
        final(tiles)@.len() == old(tiles)@.len(),
        forall|t: int|
            0 <= t < old(tiles)@.len() ==> {
                &&& (#[trigger] final(tiles)@[t]).vertices == old(tiles)@[t].vertices
                &&& final(tiles)@[t].polygons@.len() == old(tiles)@[t].polygons@.len()
                &&& forall|p: int|
                    0 <= p < old(tiles)@[t].polygons@.len() ==> {
                        &&& (#[trigger] final(tiles)@[t].polygons@[p]).exterior@ == clamped_ring(
                            old(tiles)@[t].polygons@[p].exterior@,
                            old(tiles)@[t].vertices.exterior@,
                        )
                        &&& final(tiles)@[t].polygons@[p].holes@ == old(
                            tiles,
                        )@[t].polygons@[p].holes@
                    }
            },
{
    let n = tiles.len();
    let mut t: usize = 0;
    while t < n
        invariant
            n == old(tiles)@.len(),
            tiles@.len() == n,
            t <= n,
            forall|u: int| t <= u < n ==> #[trigger] tiles@[u] == old(tiles)@[u],
            forall|u: int|
                0 <= u < t ==> {
                    &&& (#[trigger] tiles@[u]).vertices == old(tiles)@[u].vertices
                    &&& tiles@[u].polygons@.len() == old(tiles)@[u].polygons@.len()
                    &&& forall|p: int|
                        0 <= p < old(tiles)@[u].polygons@.len() ==> {
                            &&& (#[trigger] tiles@[u].polygons@[p]).exterior@ == clamped_ring(
                                old(tiles)@[u].polygons@[p].exterior@,
                                old(tiles)@[u].vertices.exterior@,
                            )
                            &&& tiles@[u].polygons@[p].holes@ == old(
                                tiles,
                            )@[u].polygons@[p].holes@
                        }
                },
        decreases n - t,
    {
        let ghost old_tile = tiles@[t as int];
        let mut tile = tiles.remove(t);
        let bounds = ring_bounds(&tile.vertices.exterior);
        let m = tile.polygons.len();
        let mut p: usize = 0;
        while p < m
            invariant
                m == old_tile.polygons@.len(),
                tile.polygons@.len() == m,
                tile.vertices == old_tile.vertices,
                p <= m,
                bounds.0 as int == fold_min_lon(
                    old_tile.vertices.exterior@,
                    old_tile.vertices.exterior@.len() as int,
                ),
                bounds.1 as int == fold_max_lon(
                    old_tile.vertices.exterior@,
                    old_tile.vertices.exterior@.len() as int,
                ),
                bounds.2 as int == fold_min_lat(
                    old_tile.vertices.exterior@,
                    old_tile.vertices.exterior@.len() as int,
                ),
                bounds.3 as int == fold_max_lat(
                    old_tile.vertices.exterior@,
                    old_tile.vertices.exterior@.len() as int,
                ),
                forall|q: int| p <= q < m ==> #[trigger] tile.polygons@[q] == old_tile.polygons@[q],
                forall|q: int|
                    0 <= q < p ==> {
                        &&& (#[trigger] tile.polygons@[q]).exterior@ == clamped_ring(
                            old_tile.polygons@[q].exterior@,
                            old_tile.vertices.exterior@,
                        )
                        &&& tile.polygons@[q].holes@ == old_tile.polygons@[q].holes@
                    },
            decreases m - p,
        {
            let mut poly = tile.polygons.remove(p);
            clamp_polygon(&mut poly, bounds.0, bounds.1, bounds.2, bounds.3);
            proof {
                assert(poly.exterior@ =~= clamped_ring(
                    old_tile.polygons@[p as int].exterior@,
                    old_tile.vertices.exterior@,
                ));
            }
            tile.polygons.insert(p, poly);
            p = p + 1;
        }
        tiles.insert(t, tile);
        t = t + 1;
    }
}

} // verus!
