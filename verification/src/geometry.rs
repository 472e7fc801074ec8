//! Planar and spherical geometry of the pipeline: edge densification,
//! coordinate transforms, stereographic projection and point rotation.

use vstd::prelude::*;
use crate::coords::{dist_sq, Cartesian3, GeoCoordinate, PlanarPoint, Polygon};
use crate::errors::GeoTilerError;
use crate::fixed::{div_trunc, div_trunc_i128, isqrt, sqrt_floor, SCALE};

verus! {

/// The largest coordinate magnitude (fixed-point degrees) the geometric
/// helpers accept; generous enough for any value the pipeline produces.
pub const MAX_ABS_COORD: i64 = 360 * SCALE;

/// A coordinate whose components are within the accepted working range.
pub open spec fn coord_bounded(c: GeoCoordinate) -> bool {
    &&& -MAX_ABS_COORD <= c.longitude <= MAX_ABS_COORD
    &&& -MAX_ABS_COORD <= c.latitude <= MAX_ABS_COORD
}

/// All coordinates of a ring are within the accepted working range.
pub open spec fn ring_bounded(r: Seq<GeoCoordinate>) -> bool {
    forall|i: int| 0 <= i < r.len() ==> coord_bounded(#[trigger] r[i])
}

/// The point a fraction `j / nseg` of the way from `a` to `b`, each
/// component rounded toward `a`.
pub open spec fn interp_coord(a: GeoCoordinate, b: GeoCoordinate, j: int, nseg: int)
    -> GeoCoordinate {
    GeoCoordinate {
        longitude: (a.longitude + div_trunc(j * (b.longitude - a.longitude), nseg)) as i64,
        latitude: (a.latitude + div_trunc(j * (b.latitude - a.latitude), nseg)) as i64,
    }
}

/// How many equal segments densification splits the edge `a`-`b` into: one
/// if the edge is short enough, otherwise the rounded-up quotient of the
/// rounded-up edge length by the maximum allowed segment length, so the
/// count never undershoots the real ratio.
pub open spec fn edge_segment_count(a: GeoCoordinate, b: GeoCoordinate, max: int) -> int {
    if dist_sq(a, b) > max * max {
        (crate::fixed::sqrt_ceil(dist_sq(a, b)) + max - 1) / max
    } else {
        1
    }
}

/// The interior points densification inserts along the edge `a`-`b`.
pub open spec fn edge_interior_points(a: GeoCoordinate, b: GeoCoordinate, max: int) -> Seq<
    GeoCoordinate,
> {
    let n = edge_segment_count(a, b, max);
    Seq::new((n - 1) as nat, |j: int| interp_coord(a, b, j + 1, n))
}

/// The densified coordinates contributed by the first `i` edges of `ring`:
/// the ring's head, then for each edge its interior points followed by its
/// end vertex (the end vertices of the last edge and the one before it are
/// left for the closing step, as the original construction does).
pub open spec fn densify_edges_upto(ring: Seq<GeoCoordinate>, max: int, i: int) -> Seq<
    GeoCoordinate,
>
    decreases i,
{
    if i <= 0 {
        seq![ring[0]]
    } else {
        densify_edges_upto(ring, max, i - 1) + edge_interior_points(ring[i - 1], ring[i], max) + (
        if i - 1 < ring.len() - 2 {
            seq![ring[i]]
        } else {
            Seq::empty()
        })
    }
}

/// A ring with its first coordinate appended whenever its last coordinate
/// does not already repeat it.
pub open spec fn close_ring(r: Seq<GeoCoordinate>) -> Seq<GeoCoordinate> {
    if r.len() > 0 && r[r.len() - 1] != r[0] {
        r + seq![r[0]]
    } else {
        r
    }
}

/// The full densified form of a boundary ring.
pub open spec fn densified_ring(ring: Seq<GeoCoordinate>, max: int) -> Seq<GeoCoordinate> {
    if ring.len() < 2 {
        ring
    } else {
        let body = densify_edges_upto(ring, max, ring.len() - 1) + (
        if ring.len() > 2 && ring[ring.len() - 1] != ring[0] {
            seq![ring[ring.len() - 1]]
        } else {
            Seq::empty()
        });
        close_ring(body)
    }
}

/// The floored Euclidean distance between two coordinates of the degree
/// plane.
fn distance_between(c1: &GeoCoordinate, c2: &GeoCoordinate) -> (d: u64)
    requires
        coord_bounded(*c1),
        coord_bounded(*c2),
    ensures
        d as int == sqrt_floor(dist_sq(*c1, *c2)),
        (d as int) * (d as int) <= dist_sq(*c1, *c2) < (d as int + 1) * (d as int + 1),
{
    let dx: i64 = c2.longitude - c1.longitude;
    let dy: i64 = c2.latitude - c1.latitude;
    proof {
        assert(0 <= (dx as int) * (dx as int) <= 0x8_0000_0000_0000_0000_0000_0000_0000
            && 0 <= (dy as int) * (dy as int) <= 0x8_0000_0000_0000_0000_0000_0000_0000)
            by (nonlinear_arith)
            requires
                -2 * MAX_ABS_COORD <= dx <= 2 * MAX_ABS_COORD,
                -2 * MAX_ABS_COORD <= dy <= 2 * MAX_ABS_COORD,
        ;
    }
    let sq: u128 = (dx as i128 * dx as i128) as u128 + (dy as i128 * dy as i128) as u128;
    isqrt(sq)
}

/// The quotient of `j * d` by `n` lies between 0 and `d` when `0 <= j <= n`.
proof fn lemma_div_trunc_between(j: int, d: int, n: int)
    requires
        0 < n,
        0 <= j <= n,
    ensures
        d >= 0 ==> 0 <= div_trunc(j * d, n) <= d,
        d < 0 ==> d <= div_trunc(j * d, n) <= 0,
{
    if d >= 0 {
        assert(0 <= j * d <= n * d) by (nonlinear_arith)
            requires
                0 <= j <= n,
                d >= 0,
        ;
        vstd::arithmetic::div_mod::lemma_div_pos_is_pos(j * d, n);
        vstd::arithmetic::div_mod::lemma_div_is_ordered(j * d, n * d, n);
        vstd::arithmetic::div_mod::lemma_div_multiples_vanish(d, n);
        assert(n * d == d * n) by (nonlinear_arith);
    } else {
        let e = -d;
        assert(0 <= j * e <= n * e) by (nonlinear_arith)
            requires
                0 <= j <= n,
                e >= 0,
        ;
        vstd::arithmetic::div_mod::lemma_div_pos_is_pos(j * e, n);
        vstd::arithmetic::div_mod::lemma_div_is_ordered(j * e, n * e, n);
        vstd::arithmetic::div_mod::lemma_div_multiples_vanish(e, n);
        assert(n * e == e * n) by (nonlinear_arith);
        assert(j * e == -(j * d)) by (nonlinear_arith)
            requires
                e == -d,
        ;
    }
}

/// The interpolated point `j / nseg` of the way from `c1` to `c2`.
fn interpolate_point(c1: &GeoCoordinate, c2: &GeoCoordinate, j: u64, nseg: u64) -> (c:
    GeoCoordinate)
    requires
        coord_bounded(*c1),
        coord_bounded(*c2),
        0 < nseg,
        j <= nseg,
    ensures
        c == interp_coord(*c1, *c2, j as int, nseg as int),
        coord_bounded(c),
{
    let dx: i64 = c2.longitude - c1.longitude;
    let dy: i64 = c2.latitude - c1.latitude;
    proof {
        assert((j as int) * (dx as int) <= 0x7fff_ffff_ffff_ffff_ffff_ffff_ffff_ffff
            && (j as int) * (dx as int) >= -0x7fff_ffff_ffff_ffff_ffff_ffff_ffff_ffff)
            by (nonlinear_arith)
            requires
                0 <= j < 0x1_0000_0000_0000_0000,
                -0x1_0000_0000_0000_0000 < dx < 0x1_0000_0000_0000_0000,
        ;
        assert((j as int) * (dy as int) <= 0x7fff_ffff_ffff_ffff_ffff_ffff_ffff_ffff
            && (j as int) * (dy as int) >= -0x7fff_ffff_ffff_ffff_ffff_ffff_ffff_ffff)
            by (nonlinear_arith)
            requires
                0 <= j < 0x1_0000_0000_0000_0000,
                -0x1_0000_0000_0000_0000 < dy < 0x1_0000_0000_0000_0000,
        ;
        lemma_div_trunc_between(j as int, dx as int, nseg as int);
        lemma_div_trunc_between(j as int, dy as int, nseg as int);
    }
    let ox: i128 = div_trunc_i128(j as i128 * dx as i128, nseg as i128);
    let oy: i128 = div_trunc_i128(j as i128 * dy as i128, nseg as i128);
    GeoCoordinate { longitude: c1.longitude + ox as i64, latitude: c1.latitude + oy as i64 }
}

/// For a nonnegative axis span, consecutive floor-interpolation offsets
/// never step backward and never exceed the per-segment share by more
/// than one.
proof fn lemma_floor_step(j: int, d: int, n: int)
    requires
        0 < n,
        0 <= j,
        j + 1 <= n,
        0 <= d,
    ensures
        0 <= ((j + 1) * d) / n - (j * d) / n <= d / n + 1,
{
    let q1 = (j * d) / n;
    let q2 = ((j + 1) * d) / n;
    vstd::arithmetic::div_mod::lemma_fundamental_div_mod(j * d, n);
    vstd::arithmetic::div_mod::lemma_fundamental_div_mod((j + 1) * d, n);
    vstd::arithmetic::div_mod::lemma_mod_division_less_than_divisor(j * d, n);
    vstd::arithmetic::div_mod::lemma_mod_division_less_than_divisor((j + 1) * d, n);
    vstd::arithmetic::div_mod::lemma_fundamental_div_mod(d, n);
    vstd::arithmetic::div_mod::lemma_mod_division_less_than_divisor(d, n);
    assert(0 <= j * d && j * d <= (j + 1) * d && (j + 1) * d == j * d + d) by (nonlinear_arith)
        requires
            0 <= j,
            0 <= d,
    ;
    crate::fixed::lemma_udiv_le(j * d, (j + 1) * d, n);
    assert(q2 - q1 <= d / n + 1) by (nonlinear_arith)
        requires
            j * d == n * q1 + (j * d) % n,
            (j + 1) * d == n * q2 + ((j + 1) * d) % n,
            (j + 1) * d == j * d + d,
            d == n * (d / n) + d % n,
            0 <= (j * d) % n < n,
            0 <= ((j + 1) * d) % n < n,
            0 <= d % n < n,
            n > 0,
    ;
}

/// Consecutive truncated-interpolation offsets along one axis move only
/// toward the far end and by at most one more than the per-segment share
/// of the axis span.
proof fn lemma_interp_axis_step(j: int, d: int, n: int)
    requires
        0 < n,
        0 <= j,
        j + 1 <= n,
    ensures
        d >= 0 ==> 0 <= div_trunc((j + 1) * d, n) - div_trunc(j * d, n) <= d / n + 1,
        d < 0 ==> -((-d) / n) - 1 <= div_trunc((j + 1) * d, n) - div_trunc(j * d, n) <= 0,
{
    if d >= 0 {
        assert(0 <= j * d && 0 <= (j + 1) * d) by (nonlinear_arith)
            requires
                0 <= j,
                0 <= d,
        ;
        lemma_floor_step(j, d, n);
    } else {
        let e = -d;
        assert(0 <= j * e && 0 <= (j + 1) * e && j * d == -(j * e) && (j + 1) * d == -((j + 1) * e))
            by (nonlinear_arith)
            requires
                0 <= j,
                0 <= e,
                d == -e,
        ;
        vstd::arithmetic::div_mod::lemma_div_of0(n);
        assert(div_trunc(j * d, n) == -((j * e) / n));
        assert(div_trunc((j + 1) * d, n) == -(((j + 1) * e) / n));
        lemma_floor_step(j, e, n);
    }
}

/// Every segment of a densified edge is short: the split count never
/// undershoots the edge-length-to-maximum ratio, so each of the `n`
/// segments between consecutive interpolated points stays within three
/// fixed-point units of the maximum; the interpolation hits the edge's two
/// endpoints exactly.
pub proof fn lemma_edge_segments_bounded(a: GeoCoordinate, b: GeoCoordinate, max: int)
    requires
        coord_bounded(a),
        coord_bounded(b),
        1 <= max,
    ensures
        edge_segment_count(a, b, max) >= 1,
        edge_segment_count(a, b, max) == 1 ==> dist_sq(a, b) <= max * max,
        interp_coord(a, b, 0, edge_segment_count(a, b, max)) == a,
        interp_coord(a, b, edge_segment_count(a, b, max), edge_segment_count(a, b, max)) == b,
        forall|j: int|
            0 <= j < edge_segment_count(a, b, max) ==> dist_sq(
                interp_coord(a, b, j, edge_segment_count(a, b, max)),
                #[trigger] interp_coord(a, b, j + 1, edge_segment_count(a, b, max)),
            ) <= (max + 3) * (max + 3),
{
    let dx = b.longitude - a.longitude;
    let dy = b.latitude - a.latitude;
    let dsq = dist_sq(a, b);
    let n = edge_segment_count(a, b, max);
    assert(dsq == dx * dx + dy * dy);
    assert(dsq >= 0 && dx * dx >= 0 && dy * dy >= 0) by (nonlinear_arith)
        requires
            dsq == dx * dx + dy * dy,
    ;
    if dsq > max * max {
        let fl = sqrt_floor(dsq);
        let up = crate::fixed::sqrt_ceil(dsq);
        assert(exists|r: int| 0 <= r && (#[trigger] (r * r)) <= dsq < (r + 1) * (r + 1)) by {
            lemma_sqrt_exists(dsq);
        }
        assert(0 <= fl && fl * fl <= dsq < (fl + 1) * (fl + 1));
        assert(dsq <= up * up && up <= fl + 1 && up >= 1) by (nonlinear_arith)
            requires
                0 <= fl && fl * fl <= dsq < (fl + 1) * (fl + 1),
                up == if fl * fl == dsq {
                    fl
                } else {
                    fl + 1
                },
                dsq > max * max,
                max >= 1,
        ;
        assert(up > max) by (nonlinear_arith)
            requires
                dsq <= up * up,
                dsq > max * max,
                up >= 0,
                max >= 1,
        ;
        vstd::arithmetic::div_mod::lemma_fundamental_div_mod(up + max - 1, max);
        vstd::arithmetic::div_mod::lemma_mod_division_less_than_divisor(up + max - 1, max);
        assert(n == (up + max - 1) / max);
        assert(n * max >= up && n >= 2) by (nonlinear_arith)
            requires
                up + max - 1 == max * n + (up + max - 1) % max,
                0 <= (up + max - 1) % max < max,
                up > max,
                max >= 1,
        ;
        assert(dsq <= (n * max) * (n * max)) by (nonlinear_arith)
            requires
                dsq <= up * up,
                0 <= up <= n * max,
        ;
        lemma_interp_endpoints(a, b, n);
        let adx = abs_i(dx);
        let ady = abs_i(dy);
        let qx = adx / n;
        let qy = ady / n;
        assert(adx * adx == dx * dx && ady * ady == dy * dy && adx >= 0 && ady >= 0)
            by (nonlinear_arith)
            requires
                adx == if dx < 0 {
                    -dx
                } else {
                    dx
                },
                ady == if dy < 0 {
                    -dy
                } else {
                    dy
                },
        ;
        vstd::arithmetic::div_mod::lemma_fundamental_div_mod(adx, n);
        vstd::arithmetic::div_mod::lemma_mod_division_less_than_divisor(adx, n);
        vstd::arithmetic::div_mod::lemma_fundamental_div_mod(ady, n);
        vstd::arithmetic::div_mod::lemma_mod_division_less_than_divisor(ady, n);
        vstd::arithmetic::div_mod::lemma_div_pos_is_pos(adx, n);
        vstd::arithmetic::div_mod::lemma_div_pos_is_pos(ady, n);
        assert((qx * qx + qy * qy) * (n * n) <= dsq) by (nonlinear_arith)
            requires
                adx == n * qx + adx % n,
                ady == n * qy + ady % n,
                0 <= adx % n,
                0 <= ady % n,
                qx >= 0,
                qy >= 0,
                n > 0,
                dsq == dx * dx + dy * dy,
                adx * adx == dx * dx,
                ady * ady == dy * dy,
        ;
        assert(qx * qx + qy * qy <= max * max) by (nonlinear_arith)
            requires
                (qx * qx + qy * qy) * (n * n) <= dsq,
                dsq <= (n * max) * (n * max),
                n > 0,
                qx >= 0,
                qy >= 0,
        ;
        assert(qx <= max && qy <= max) by (nonlinear_arith)
            requires
                qx * qx + qy * qy <= max * max,
                qx >= 0,
                qy >= 0,
                max >= 1,
        ;
        assert forall|j: int| 0 <= j < n implies dist_sq(
            interp_coord(a, b, j, n),
            #[trigger] interp_coord(a, b, j + 1, n),
        ) <= (max + 3) * (max + 3) by {
            lemma_interp_axis_step(j, dx as int, n);
            lemma_interp_axis_step(j, dy as int, n);
            lemma_div_trunc_between(j, dx as int, n);
            lemma_div_trunc_between(j + 1, dx as int, n);
            lemma_div_trunc_between(j, dy as int, n);
            lemma_div_trunc_between(j + 1, dy as int, n);
            let sx = div_trunc((j + 1) * dx, n) - div_trunc(j * dx, n);
            let sy = div_trunc((j + 1) * dy, n) - div_trunc(j * dy, n);
            assert(-(qx + 1) <= sx <= qx + 1 && -(qy + 1) <= sy <= qy + 1);
            assert(dist_sq(interp_coord(a, b, j, n), interp_coord(a, b, j + 1, n)) == sx * sx + sy
                * sy);
            assert(sx * sx <= (qx + 1) * (qx + 1) && sy * sy <= (qy + 1) * (qy + 1))
                by (nonlinear_arith)
                requires
                    -(qx + 1) <= sx <= qx + 1,
                    -(qy + 1) <= sy <= qy + 1,
                    qx >= 0,
                    qy >= 0,
            ;
            assert((qx + 1) * (qx + 1) + (qy + 1) * (qy + 1) <= (max + 3) * (max + 3))
                by (nonlinear_arith)
                requires
                    qx * qx + qy * qy <= max * max,
                    0 <= qx <= max,
                    0 <= qy <= max,
                    max >= 1,
            ;
        }
    } else {
        assert(n == 1);
        lemma_interp_endpoints(a, b, 1);
        assert forall|j: int| 0 <= j < 1 implies dist_sq(
            interp_coord(a, b, j, 1),
            #[trigger] interp_coord(a, b, j + 1, 1),
        ) <= (max + 3) * (max + 3) by {
            assert(dsq <= max * max);
            assert(max * max <= (max + 3) * (max + 3)) by (nonlinear_arith)
                requires
                    max >= 1,
            ;
        }
    }
}

/// The absolute value.
pub open spec fn abs_i(x: int) -> int {
    if x < 0 {
        -x
    } else {
        x
    }
}

/// Every nonnegative integer has a floored square root, so `sqrt_floor` is
/// well defined.
proof fn lemma_sqrt_exists(n: int)
    requires
        n >= 0,
    ensures
        exists|r: int| 0 <= r && (#[trigger] (r * r)) <= n < (r + 1) * (r + 1),
    decreases n,
{
    if n == 0 {
        assert(0 * 0 <= n < (0 + 1) * (0 + 1)) by (nonlinear_arith)
            requires
                n == 0,
        ;
    } else {
        lemma_sqrt_exists(n - 1);
        let r = choose|r: int| 0 <= r && (#[trigger] (r * r)) <= n - 1 < (r + 1) * (r + 1);
        if (r + 1) * (r + 1) <= n {
            assert((r + 1) * (r + 1) <= n < (r + 2) * (r + 2)) by (nonlinear_arith)
                requires
                    (r + 1) * (r + 1) <= n,
                    n - 1 < (r + 1) * (r + 1),
                    r >= 0,
            ;
            assert(0 <= r + 1 && (r + 1) * (r + 1) <= n < (r + 2) * (r + 2));
        } else {
            assert(0 <= r && r * r <= n < (r + 1) * (r + 1));
        }
    }
}

/// Interpolation over a whole edge hits its endpoints exactly.
proof fn lemma_interp_endpoints(a: GeoCoordinate, b: GeoCoordinate, n: int)
    requires
        coord_bounded(a),
        coord_bounded(b),
        n >= 1,
    ensures
        interp_coord(a, b, 0, n) == a,
        interp_coord(a, b, n, n) == b,
{
    let dx = b.longitude - a.longitude;
    let dy = b.latitude - a.latitude;
    vstd::arithmetic::div_mod::lemma_div_of0(n);
    assert(0 * dx == 0 && 0 * dy == 0) by (nonlinear_arith);
    assert(div_trunc(0 * dx, n) == 0 && div_trunc(0 * dy, n) == 0);
    lemma_div_trunc_exact(dx as int, n);
    lemma_div_trunc_exact(dy as int, n);
    assert(interp_coord(a, b, n, n) == b);
}

/// A whole multiple divides back out exactly under truncating division.
proof fn lemma_div_trunc_exact(d: int, n: int)
    requires
        n >= 1,
    ensures
        div_trunc(n * d, n) == d,
{
    if d >= 0 {
        assert(n * d >= 0) by (nonlinear_arith)
            requires
                n >= 1,
                d >= 0,
        ;
        vstd::arithmetic::div_mod::lemma_div_multiples_vanish(d, n);
    } else {
        assert(n * d < 0 && -(n * d) == n * (-d)) by (nonlinear_arith)
            requires
                n >= 1,
                d < 0,
        ;
        vstd::arithmetic::div_mod::lemma_div_multiples_vanish(-d, n);
    }
}

/// Every consecutive pair of a coordinate sequence is within the given
/// squared distance.
pub open spec fn ring_segments_bounded(s: Seq<GeoCoordinate>, bound: int) -> bool {
    forall|i: int| 0 <= i < s.len() - 1 ==> dist_sq(#[trigger] s[i], s[i + 1]) <= bound
}

/// The densified prefix of the first `i` edges has all segments short,
/// starts at the ring's head, and ends at (or within one short segment of)
/// the `i`-th ring vertex.
proof fn lemma_upto_segments(ring: Seq<GeoCoordinate>, max: int, i: int)
    requires
        ring_bounded(ring),
        1 <= max,
        ring.len() >= 2,
        0 <= i <= ring.len() - 1,
    ensures
        ({
            let s = densify_edges_upto(ring, max, i);
            &&& s.len() >= 1
            &&& s[0] == ring[0]
            &&& ring_segments_bounded(s, (max + 3) * (max + 3))
            &&& dist_sq(s[s.len() - 1], ring[i]) <= (max + 3) * (max + 3)
            &&& (i <= ring.len() - 2 ==> s[s.len() - 1] == ring[i])
        }),
    decreases i,
{
    let bound = (max + 3) * (max + 3);
    if i <= 0 {
        let s = densify_edges_upto(ring, max, 0);
        assert(s =~= seq![ring[0]]);
        assert(dist_sq(ring[0], ring[0]) == 0) by (nonlinear_arith);
    } else {
        lemma_upto_segments(ring, max, i - 1);
        let prev = densify_edges_upto(ring, max, i - 1);
        let a = ring[i - 1];
        let b = ring[i];
        let n = edge_segment_count(a, b, max);
        lemma_edge_segments_bounded(a, b, max);
        let mids = edge_interior_points(a, b, max);
        let tail = if i - 1 < ring.len() - 2 {
            seq![ring[i]]
        } else {
            Seq::<GeoCoordinate>::empty()
        };
        let s = densify_edges_upto(ring, max, i);
        assert(s == prev + mids + tail);
        assert(prev[prev.len() - 1] == a);
        // Walk of the new elements: mids[k] == interp(k + 1), so every new
        // junction is a pair of consecutive interpolations of this edge.
        assert forall|p: int| 0 <= p < s.len() - 1 implies dist_sq(
            #[trigger] s[p],
            s[p + 1],
        ) <= bound by {
            if p < prev.len() - 1 {
                assert(s[p] == prev[p] && s[p + 1] == prev[p + 1]);
                assert(dist_sq(prev[p], prev[p + 1]) <= bound);
            } else {
                // s[p] and s[p + 1] are consecutive interpolations of the
                // edge a-b: element prev.len() - 1 is interp(0) == a,
                // prev.len() + k is interp(k + 1), and a trailing vertex is
                // interp(n) == b.
                let k = p - (prev.len() - 1);
                assert(0 <= k < mids.len() + tail.len());
                if k < mids.len() {
                    assert(s[p] == if k == 0 {
                        a
                    } else {
                        mids[k - 1]
                    });
                    assert(s[p + 1] == mids[k]);
                    assert(dist_sq(interp_coord(a, b, k, n), interp_coord(a, b, k + 1, n))
                        <= bound);
                } else {
                    assert(tail.len() == 1 && s[p + 1] == ring[i]);
                    assert(k == mids.len());
                    if n == 1 {
                        assert(mids.len() == 0);
                        assert(s[p] == a);
                        assert(dist_sq(a, b) <= max * max);
                        assert(max * max <= bound) by (nonlinear_arith)
                            requires
                                max >= 1,
                                bound == (max + 3) * (max + 3),
                        ;
                    } else {
                        assert(s[p] == mids[mids.len() - 1]);
                        assert(s[p] == interp_coord(a, b, n - 1, n));
                        assert(dist_sq(interp_coord(a, b, n - 1, n), interp_coord(
                            a,
                            b,
                            (n - 1) + 1,
                            n,
                        )) <= bound);
                        assert(interp_coord(a, b, n, n) == b);
                    }
                }
            }
        }
        // Last element and its distance to ring[i].
        if i - 1 < ring.len() - 2 {
            assert(s[s.len() - 1] == ring[i]);
            assert(dist_sq(ring[i], ring[i]) == 0) by (nonlinear_arith);
        } else {
            if n == 1 {
                assert(mids.len() == 0);
                assert(s[s.len() - 1] == a);
                assert(dist_sq(a, b) <= max * max);
                assert(max * max <= bound) by (nonlinear_arith)
                    requires
                        max >= 1,
                        bound == (max + 3) * (max + 3),
                ;
            } else {
                assert(s[s.len() - 1] == mids[mids.len() - 1]);
                assert(s[s.len() - 1] == interp_coord(a, b, n - 1, n));
                assert(dist_sq(interp_coord(a, b, n - 1, n), interp_coord(a, b, (n - 1) + 1, n))
                    <= bound);
                assert(interp_coord(a, b, n, n) == b);
            }
        }
    }
}

/// Densifying a closed boundary ring leaves every consecutive segment —
/// the re-closing one included — within three fixed-point units of the
/// maximum edge length.
pub proof fn lemma_densified_ring_segments_bounded(ring: Seq<GeoCoordinate>, max: int)
    requires
        ring_bounded(ring),
        1 <= max,
        ring.len() >= 2,
        ring[0] == ring[ring.len() - 1],
    ensures
        ring_segments_bounded(densified_ring(ring, max), (max + 3) * (max + 3)),
{
    let bound = (max + 3) * (max + 3);
    lemma_upto_segments(ring, max, ring.len() - 1);
    let body = densify_edges_upto(ring, max, ring.len() - 1);
    assert(densified_ring(ring, max) == close_ring(body + Seq::<GeoCoordinate>::empty()));
    assert(body + Seq::<GeoCoordinate>::empty() =~= body);
    let closed = close_ring(body);
    if body[body.len() - 1] != body[0] {
        assert(closed == body + seq![body[0]]);
        assert forall|p: int| 0 <= p < closed.len() - 1 implies dist_sq(
            #[trigger] closed[p],
            closed[p + 1],
        ) <= bound by {
            if p < body.len() - 1 {
                assert(closed[p] == body[p] && closed[p + 1] == body[p + 1]);
            } else {
                assert(closed[p] == body[body.len() - 1] && closed[p + 1] == body[0]);
                assert(body[0] == ring[0] && ring[0] == ring[ring.len() - 1]);
                assert(dist_sq(body[body.len() - 1], ring[ring.len() - 1]) <= bound);
            }
        }
    }
}

/// Subdivides every boundary edge longer than `max_distance` into equal
/// segments by inserting evenly spaced intermediate points, then closes the
/// ring again.  The result is exactly `densified_ring` of the old boundary;
/// holes are untouched.  For a closed input ring every resulting segment is
/// within three fixed-point units of the maximum.  On the integer lattice
/// the bound cannot be exact, and for the same reason a second pass is not
/// guaranteed to leave the ring unchanged: a segment within the lattice
/// slack of the maximum may split again.
pub fn densify_edges(polygon: &mut Polygon, max_distance: i64)
    requires
        1 <= max_distance <= MAX_ABS_COORD,
        ring_bounded(old(polygon).exterior@),
    ensures
        final(polygon).exterior@ == densified_ring(old(polygon).exterior@, max_distance as int),
        final(polygon).holes@ == old(polygon).holes@,
        ring_bounded(final(polygon).exterior@),
        (old(polygon).exterior@.len() >= 2 && old(polygon).exterior@[0] == old(
            polygon,
        ).exterior@[old(polygon).exterior@.len() - 1]) ==> ring_segments_bounded(
            final(polygon).exterior@,
            (max_distance + 3) * (max_distance + 3),
        ),
{
    proof {
        if old(polygon).exterior@.len() >= 2 && old(polygon).exterior@[0] == old(
            polygon,
        ).exterior@[old(polygon).exterior@.len() - 1] {
            lemma_densified_ring_segments_bounded(old(polygon).exterior@, max_distance as int);
        }
    }
    let ghost orig = polygon.exterior@;
    let n = polygon.exterior.len();
    if n < 2 {
        assert(densified_ring(orig, max_distance as int) == orig);
        return ;
    }
    let mut new_coords: Vec<GeoCoordinate> = Vec::new();
    new_coords.push(polygon.exterior[0]);
    assert(new_coords@ == densify_edges_upto(orig, max_distance as int, 0));
    let mut i: usize = 0;
    while i < n - 1
        invariant
            n == orig.len(),
            2 <= n,
            polygon.exterior@ == orig,
            ring_bounded(orig),
            1 <= max_distance <= MAX_ABS_COORD,
            i <= n - 1,
            new_coords@ == densify_edges_upto(orig, max_distance as int, i as int),
            ring_bounded(new_coords@),
        decreases n - i,
    {
        let c1 = polygon.exterior[i];
        let c2 = polygon.exterior[i + 1];
        proof {
            assert(coord_bounded(orig[i as int]) && coord_bounded(orig[i + 1]));
        }
        let dist = distance_between(&c1, &c2);
        let ghost pre_edge = new_coords@;
        let mut nseg: u64 = 1;
        let dx: i64 = c2.longitude - c1.longitude;
        let dy: i64 = c2.latitude - c1.latitude;
        proof {
            assert(0 <= (dx as int) * (dx as int) <= 4 * (MAX_ABS_COORD as int) * (
            MAX_ABS_COORD as int) && 0 <= (dy as int) * (dy as int) <= 4 * (MAX_ABS_COORD as int)
                * (MAX_ABS_COORD as int)) by (nonlinear_arith)
                requires
                    -2 * MAX_ABS_COORD <= dx <= 2 * MAX_ABS_COORD,
                    -2 * MAX_ABS_COORD <= dy <= 2 * MAX_ABS_COORD,
            ;
            assert((max_distance as int) * (max_distance as int)
                <= 0x8_0000_0000_0000_0000_0000_0000_0000) by (nonlinear_arith)
                requires
                    1 <= max_distance <= MAX_ABS_COORD,
            ;
            assert(dist <= 2_000_000_000_000_000u64) by (nonlinear_arith)
                requires
                    (dist as int) * (dist as int) <= dist_sq(c1, c2),
                    dist_sq(c1, c2) == (dx as int) * (dx as int) + (dy as int) * (dy as int),
                    (dx as int) * (dx as int) <= 4 * (MAX_ABS_COORD as int) * (
                    MAX_ABS_COORD as int),
                    (dy as int) * (dy as int) <= 4 * (MAX_ABS_COORD as int) * (
                    MAX_ABS_COORD as int),
                    dist >= 0,
            ;
        }
        let real_dsq: i128 = dx as i128 * dx as i128 + dy as i128 * dy as i128;
        if real_dsq > max_distance as i128 * max_distance as i128 {
            let dist_up: u64 = if dist as i128 * dist as i128 == real_dsq {
                dist
            } else {
                dist + 1
            };
            nseg = (dist_up + max_distance as u64 - 1) / max_distance as u64;
            proof {
                assert(dist_up as int == crate::fixed::sqrt_ceil(dist_sq(c1, c2)));
                assert(dist_up as int >= max_distance as int) by (nonlinear_arith)
                    requires
                        dist_sq(c1, c2) <= (dist_up as int) * (dist_up as int),
                        dist_sq(c1, c2) > (max_distance as int) * (max_distance as int),
                        dist_up >= 0,
                        max_distance >= 1,
                ;
                assert(nseg as int == edge_segment_count(c1, c2, max_distance as int));
                assert(nseg >= 1) by {
                    vstd::arithmetic::div_mod::lemma_div_pos_is_pos(
                        dist_up + max_distance - 1,
                        max_distance as int,
                    );
                    vstd::arithmetic::div_mod::lemma_div_is_ordered(
                        max_distance as int,
                        dist_up + max_distance - 1,
                        max_distance as int,
                    );
                    vstd::arithmetic::div_mod::lemma_div_by_self(max_distance as int);
                }
            }
            let mut j: u64 = 1;
            while j < nseg
                invariant
                    1 <= j <= nseg,
                    coord_bounded(c1),
                    coord_bounded(c2),
                    nseg as int == edge_segment_count(c1, c2, max_distance as int),
                    new_coords@ == pre_edge + Seq::new(
                        (j - 1) as nat,
                        |k: int| interp_coord(c1, c2, k + 1, nseg as int),
                    ),
                    ring_bounded(new_coords@),
                    ring_bounded(pre_edge),
                decreases nseg - j,
            {
                let p = interpolate_point(&c1, &c2, j, nseg);
                new_coords.push(p);
                j = j + 1;
                proof {
                    assert(new_coords@ =~= pre_edge + Seq::new(
                        (j - 1) as nat,
                        |k: int| interp_coord(c1, c2, k + 1, nseg as int),
                    ));
                }
            }
        }
        proof {
            assert(new_coords@ =~= pre_edge + edge_interior_points(c1, c2, max_distance as int));
        }
        if i < n - 2 {
            new_coords.push(c2);
        }
        i = i + 1;
        proof {
            assert(new_coords@ =~= densify_edges_upto(orig, max_distance as int, i as int));
        }
    }
    if n > 2 {
        let last = polygon.exterior[n - 1];
        let first = polygon.exterior[0];
        if !(last.longitude == first.longitude && last.latitude == first.latitude) {
            new_coords.push(last);
        }
    }
    // Re-close the ring, as the boundary invariant of the polygon type asks.
    if new_coords.len() > 0 {
        let head = new_coords[0];
        let tail = new_coords[new_coords.len() - 1];
        if !(head.longitude == tail.longitude && head.latitude == tail.latitude) {
            new_coords.push(head);
        }
    }
    proof {
        assert(new_coords@ =~= densified_ring(orig, max_distance as int));
    }
    polygon.exterior = new_coords;
}

/// Largest accepted longitude magnitude: 180 degrees plus the 0.1-degree
/// tolerance for upstream rounding error.
pub const COORD_LIMIT_LON: i64 = 180_100_000_000_000;

/// Largest accepted latitude magnitude: 90 degrees plus the 0.1-degree
/// tolerance.
pub const COORD_LIMIT_LAT: i64 = 90_100_000_000_000;

/// Snap tolerance around the exact range boundaries (10^-10 degrees).
pub const SNAP_EPSILON: i64 = 100;

/// A value just beyond `bound` (within `eps`) snapped onto the boundary;
/// anything else unchanged.
pub open spec fn snap_to_bound(x: int, bound: int, eps: int) -> int {
    if x > bound && x <= bound + eps {
        bound
    } else if x < -bound && x >= -bound - eps {
        -bound
    } else {
        x
    }
}

/// Snaps coordinates just outside the valid longitude and latitude ranges
/// (by at most `epsilon`) onto the exact boundary.
fn sanitize_coordinates(longitude: i64, latitude: i64, epsilon: i64) -> (r: (i64, i64))
    requires
        0 <= epsilon <= SCALE,
    ensures
        r.0 as int == snap_to_bound(longitude as int, 180 * SCALE, epsilon as int),
        r.1 as int == snap_to_bound(latitude as int, 90 * SCALE, epsilon as int),
{
    let lon: i64 = if longitude > 180 * SCALE && longitude <= 180 * SCALE + epsilon {
        180 * SCALE
    } else if longitude < -180 * SCALE && longitude >= -180 * SCALE - epsilon {
        -180 * SCALE
    } else {
        longitude
    };
    let lat: i64 = if latitude > 90 * SCALE && latitude <= 90 * SCALE + epsilon {
        90 * SCALE
    } else if latitude < -90 * SCALE && latitude >= -90 * SCALE - epsilon {
        -90 * SCALE
    } else {
        latitude
    };
    (lon, lat)
}

/// The Cartesian point of a fixed-point geographic coordinate, as the
/// executable transform computes it: boundary snap, fixed-point sine for
/// the height, floored square roots for the cosines, truncated scaled
/// products, and the quadrant signs of the (snapped) angles.
pub open spec fn spec_ll_to_cartesian(longitude: int, latitude: int) -> Cartesian3 {
    let lon = snap_to_bound(longitude, 180 * SCALE, SNAP_EPSILON as int);
    let lat = snap_to_bound(latitude, 90 * SCALE, SNAP_EPSILON as int);
    let z = crate::trig::spec_sin_degrees(lat);
    let rl = sqrt_floor(SCALE * SCALE - z * z);
    let sl = crate::trig::spec_sin_degrees(lon);
    let sm = if sl < 0 {
        -sl
    } else {
        sl
    };
    let cm = sqrt_floor(SCALE * SCALE - sm * sm);
    let xm = (rl * cm) / (SCALE as int);
    let ym = (rl * sm) / (SCALE as int);
    let r_neg = lat > 90 * SCALE || lat < -90 * SCALE;
    let c_neg = lon > 90 * SCALE || lon < -90 * SCALE;
    Cartesian3 {
        x: (if r_neg != c_neg {
            -xm
        } else {
            xm
        }) as i64,
        y: (if r_neg != (sl < 0) {
            -ym
        } else {
            ym
        }) as i64,
        z: z as i64,
    }
}

/// The squared norm of Cartesian components assembled from the two
/// square-root constructions stays within a few parts in `SCALE` of the
/// exact unit square, and never above it.
proof fn lemma_unit_norm_bounds(rl: int, cm: int, sm: int, z: int, xm: int, ym: int)
    requires
        0 <= rl <= SCALE,
        0 <= cm <= SCALE,
        0 <= sm <= SCALE,
        -SCALE <= z <= SCALE,
        rl * rl <= SCALE * SCALE - z * z,
        SCALE * SCALE - z * z < (rl + 1) * (rl + 1),
        cm * cm <= SCALE * SCALE - sm * sm,
        SCALE * SCALE - sm * sm < (cm + 1) * (cm + 1),
        xm == (rl * cm) / (SCALE as int),
        ym == (rl * sm) / (SCALE as int),
    ensures
        0 <= xm <= SCALE,
        0 <= ym <= SCALE,
        xm * xm + ym * ym + z * z <= SCALE * SCALE,
        xm * xm + ym * ym + z * z > SCALE * SCALE - 9 * SCALE,
{
    let s = SCALE as int;
    let a = rl * cm;
    let b = rl * sm;
    assert(0 <= a <= s * s && 0 <= b <= s * s) by (nonlinear_arith)
        requires
            0 <= rl <= s,
            0 <= cm <= s,
            0 <= sm <= s,
            a == rl * cm,
            b == rl * sm,
    ;
    vstd::arithmetic::div_mod::lemma_fundamental_div_mod(a, s);
    vstd::arithmetic::div_mod::lemma_mod_division_less_than_divisor(a, s);
    vstd::arithmetic::div_mod::lemma_div_pos_is_pos(a, s);
    vstd::arithmetic::div_mod::lemma_fundamental_div_mod(b, s);
    vstd::arithmetic::div_mod::lemma_mod_division_less_than_divisor(b, s);
    vstd::arithmetic::div_mod::lemma_div_pos_is_pos(b, s);
    assert(s * xm <= a < s * xm + s);
    assert(s * ym <= b < s * ym + s);
    assert(xm <= s && ym <= s) by (nonlinear_arith)
        requires
            s * xm <= a,
            s * ym <= b,
            a <= s * s,
            b <= s * s,
            s > 0,
            xm >= 0,
            ym >= 0,
    ;
    // Upper bound.
    assert(xm * xm * (s * s) <= a * a && ym * ym * (s * s) <= b * b) by (nonlinear_arith)
        requires
            0 <= s * xm <= a,
            0 <= s * ym <= b,
            xm >= 0,
            ym >= 0,
    ;
    assert(a * a + b * b == (rl * rl) * (cm * cm + sm * sm)) by (nonlinear_arith)
        requires
            a == rl * cm,
            b == rl * sm,
    ;
    assert(cm * cm + sm * sm <= s * s);
    assert((rl * rl) * (cm * cm + sm * sm) <= (rl * rl) * (s * s)) by (nonlinear_arith)
        requires
            0 <= cm * cm + sm * sm <= s * s,
            rl * rl >= 0,
    ;
    assert(xm * xm + ym * ym <= rl * rl) by (nonlinear_arith)
        requires
            (xm * xm) * (s * s) <= a * a,
            (ym * ym) * (s * s) <= b * b,
            a * a + b * b <= (rl * rl) * (s * s),
            s > 0,
    ;
    // Lower bound.
    assert(0 <= z * z <= s * s) by (nonlinear_arith)
        requires
            -s <= z <= s,
    ;
    let d = s * s - z * z;
    if d <= 8 * s {
        assert(xm * xm + ym * ym + z * z > s * s - 9 * s) by (nonlinear_arith)
            requires
                z * z >= s * s - 8 * s,
                xm * xm >= 0,
                ym * ym >= 0,
                s > 8,
        ;
    } else {
        assert(xm * xm * (s * s) >= a * a - 2 * a * s && ym * ym * (s * s) >= b * b - 2 * b * s)
            by (nonlinear_arith)
            requires
                s * xm <= a < s * xm + s,
                s * ym <= b < s * ym + s,
                xm >= 0,
                ym >= 0,
                a >= 0,
                b >= 0,
                s > 0,
        ;
        assert(cm * cm + sm * sm > s * s - 2 * s - 1) by (nonlinear_arith)
            requires
                s * s - sm * sm < (cm + 1) * (cm + 1),
                0 <= cm <= s,
        ;
        assert(rl * rl > d - 2 * s - 1) by (nonlinear_arith)
            requires
                d < (rl + 1) * (rl + 1),
                0 <= rl <= s,
        ;
        assert(a * a + b * b > (d - 2 * s - 1) * (s * s - 2 * s - 1)) by (nonlinear_arith)
            requires
                a * a + b * b == (rl * rl) * (cm * cm + sm * sm),
                rl * rl > d - 2 * s - 1,
                cm * cm + sm * sm > s * s - 2 * s - 1,
                d - 2 * s - 1 >= 0,
                s * s - 2 * s - 1 >= 0,
    ;
        assert((d - 2 * s - 1) * (s * s - 2 * s - 1) >= d * (s * s) - (2 * s + 1) * (s * s) - d * (
        2 * s + 1)) by (nonlinear_arith)
            requires
                0 <= d <= s * s,
                s > 2,
        ;
        assert(d * (2 * s + 1) <= (s * s) * (2 * s + 1)) by (nonlinear_arith)
            requires
                0 <= d <= s * s,
                s > 0,
        ;
        assert(2 * a * s + 2 * b * s <= 4 * (s * (s * s))) by (nonlinear_arith)
            requires
                0 <= a <= s * s,
                0 <= b <= s * s,
                s > 0,
        ;
        assert(xm * xm * (s * s) + ym * ym * (s * s) >= a * a + b * b - 4 * (s * (s * s)));
        assert(xm * xm * (s * s) + ym * ym * (s * s) > (d - 8 * s - 2) * (s * s))
            by (nonlinear_arith)
            requires
                xm * xm * (s * s) + ym * ym * (s * s) >= a * a + b * b - 4 * (s * (s * s)),
                a * a + b * b > (d - 2 * s - 1) * (s * s - 2 * s - 1),
                (d - 2 * s - 1) * (s * s - 2 * s - 1) >= d * (s * s) - (2 * s + 1) * (s * s) - d
                    * (2 * s + 1),
                d * (2 * s + 1) <= (s * s) * (2 * s + 1),
                s > 0,
        ;
        assert(xm * xm + ym * ym > d - 8 * s - 2) by (nonlinear_arith)
            requires
                xm * xm * (s * s) + ym * ym * (s * s) > (d - 8 * s - 2) * (s * s),
                xm * xm >= 0,
                ym * ym >= 0,
                s > 0,
        ;
        assert(xm * xm + ym * ym + z * z > s * s - 9 * s) by (nonlinear_arith)
            requires
                xm * xm + ym * ym > d - 8 * s - 2,
                d == s * s - z * z,
                s > 2,
        ;
    }
}

/// Converts fixed-point geographic degrees to a fixed-point Cartesian
/// point on the unit sphere.
///
/// Rejects coordinates more than a tenth of a degree outside the valid
/// ranges with a range error carrying the offending values; coordinates
/// within the snap tolerance of the exact boundary are first snapped onto
/// it.  Every accepted input yields a vector whose norm is within one part
/// in a thousand million of the unit length (and never above it), with the
/// poles and the origin mapped exactly.
pub fn ll_to_cartesian(longitude: i64, latitude: i64) -> (res: Result<Cartesian3, GeoTilerError>)
    ensures
        res is Err <==> !(-COORD_LIMIT_LON <= longitude <= COORD_LIMIT_LON && -COORD_LIMIT_LAT
            <= latitude <= COORD_LIMIT_LAT),
        res is Err ==> res == Result::<Cartesian3, GeoTilerError>::Err(
            GeoTilerError::CoordinateRangeError { longitude, latitude },
        ),
        res matches Ok(v) ==> {
            let slon = snap_to_bound(longitude as int, 180 * SCALE, SNAP_EPSILON as int);
            let slat = snap_to_bound(latitude as int, 90 * SCALE, SNAP_EPSILON as int);
            &&& v == spec_ll_to_cartesian(longitude as int, latitude as int)
            &&& crate::coords::norm_sq(v) <= SCALE * SCALE
            &&& crate::coords::norm_sq(v) > SCALE * SCALE - 9 * SCALE
            &&& (SCALE - 1000) * (SCALE - 1000) < crate::coords::norm_sq(v) < (SCALE + 1000) * (
            SCALE + 1000)
            &&& -SCALE <= v.x <= SCALE
            &&& -SCALE <= v.y <= SCALE
            &&& -SCALE <= v.z <= SCALE
            &&& slat == 90 * SCALE ==> v == (Cartesian3 { x: 0, y: 0, z: SCALE })
            &&& slat == -90 * SCALE ==> v == (Cartesian3 { x: 0, y: 0, z: (-SCALE) as i64 })
            &&& slon == 0 && slat == 0 ==> v == (Cartesian3 { x: SCALE, y: 0, z: 0 })
        },
{
    if longitude > COORD_LIMIT_LON || longitude < -COORD_LIMIT_LON || latitude > COORD_LIMIT_LAT
        || latitude < -COORD_LIMIT_LAT {
        return Err(GeoTilerError::CoordinateRangeError { longitude, latitude });
    }
    let (lon, lat) = sanitize_coordinates(longitude, latitude, SNAP_EPSILON);
    let z: i64 = crate::trig::sin_degrees(lat);
    proof {
        assert(0 <= (z as int) * (z as int) <= (SCALE as int) * (SCALE as int))
            by (nonlinear_arith)
            requires
                -SCALE <= z <= SCALE,
        ;
    }
    let rsq: u128 = ((SCALE as i128) * (SCALE as i128) - (z as i128) * (z as i128)) as u128;
    let rl: u64 = crate::fixed::isqrt(rsq);
    let s_lon: i64 = crate::trig::sin_degrees(lon);
    let sm: i64 = if s_lon < 0 {
        -s_lon
    } else {
        s_lon
    };
    proof {
        assert(0 <= (sm as int) * (sm as int) <= (SCALE as int) * (SCALE as int))
            by (nonlinear_arith)
            requires
                0 <= sm <= SCALE,
        ;
    }
    let csq: u128 = ((SCALE as i128) * (SCALE as i128) - (sm as i128) * (sm as i128)) as u128;
    let cm: u64 = crate::fixed::isqrt(csq);
    proof {
        assert(rl <= SCALE && cm <= SCALE) by (nonlinear_arith)
            requires
                (rl as int) * (rl as int) <= (SCALE as int) * (SCALE as int),
                (cm as int) * (cm as int) <= (SCALE as int) * (SCALE as int),
                rl >= 0,
                cm >= 0,
                SCALE > 0,
        ;
    }
    proof {
        assert(0 <= (rl as int) * (cm as int) <= (SCALE as int) * (SCALE as int) && 0 <= (
        rl as int) * (sm as int) <= (SCALE as int) * (SCALE as int)) by (nonlinear_arith)
            requires
                0 <= rl <= SCALE,
                0 <= cm <= SCALE,
                0 <= sm <= SCALE,
        ;
        crate::fixed::lemma_udiv_bound(
            (rl as int) * (cm as int),
            SCALE as int,
            SCALE as int,
        );
        crate::fixed::lemma_udiv_bound(
            (rl as int) * (sm as int),
            SCALE as int,
            SCALE as int,
        );
    }
    let xm: u64 = ((rl as u128 * cm as u128) / (SCALE as u128)) as u64;
    let ym: u64 = ((rl as u128 * sm as u128) / (SCALE as u128)) as u64;
    proof {
        lemma_unit_norm_bounds(rl as int, cm as int, sm as int, z as int, xm as int, ym as int);
    }
    let r_neg: bool = lat > 90 * SCALE || lat < -90 * SCALE;
    let c_neg: bool = lon > 90 * SCALE || lon < -90 * SCALE;
    let x: i64 = if r_neg != c_neg {
        -(xm as i64)
    } else {
        xm as i64
    };
    let y: i64 = if r_neg != (s_lon < 0) {
        -(ym as i64)
    } else {
        ym as i64
    };
    let v = Cartesian3 { x, y, z };
    proof {
        assert(v == spec_ll_to_cartesian(longitude as int, latitude as int));
        assert(crate::coords::norm_sq(v) == (xm as int) * (xm as int) + (ym as int) * (ym as int)
            + (z as int) * (z as int)) by (nonlinear_arith)
            requires
                v.x == xm || v.x == -(xm as int),
                v.y == ym || v.y == -(ym as int),
                v.z == z,
                crate::coords::norm_sq(v) == (v.x as int) * (v.x as int) + (v.y as int) * (
                v.y as int) + (v.z as int) * (v.z as int),
        ;
        assert((SCALE - 1000) * (SCALE - 1000) < SCALE * SCALE - 9 * SCALE) by (nonlinear_arith);
        if z == SCALE || z == -SCALE {
            assert(rl == 0) by (nonlinear_arith)
                requires
                    (rl as int) * (rl as int) <= SCALE * SCALE - (z as int) * (z as int),
                    z == SCALE || z == -SCALE,
                    rl >= 0,
            ;
            assert((rl as int) * (cm as int) == 0 && (rl as int) * (sm as int) == 0)
                by (nonlinear_arith)
                requires
                    rl == 0,
            ;
            vstd::arithmetic::div_mod::lemma_div_of0(SCALE as int);
            assert(xm == 0 && ym == 0);
        }
        let slat = snap_to_bound(latitude as int, 90 * SCALE, SNAP_EPSILON as int);
        let slon = snap_to_bound(longitude as int, 180 * SCALE, SNAP_EPSILON as int);
        if slon == 0 && slat == 0 {
            crate::fixed::lemma_sqrt_floor_unique(rsq as int, SCALE as int);
            crate::fixed::lemma_sqrt_floor_unique(csq as int, SCALE as int);
            assert(rl == SCALE && cm == SCALE);
            vstd::arithmetic::div_mod::lemma_div_multiples_vanish(SCALE as int, SCALE as int);
            assert((SCALE as int) * (SCALE as int) == (rl as int) * (cm as int));
            assert(xm as int == SCALE);
            assert((rl as int) * (sm as int) == 0) by (nonlinear_arith)
                requires
                    sm == 0,
            ;
            vstd::arithmetic::div_mod::lemma_div_of0(SCALE as int);
            assert(ym == 0);
        }
    }
    Ok(v)
}

/// Any truncating division: the quotient rounded toward zero, for a
/// nonzero divisor of either sign.
pub open spec fn div_trunc_gen(a: int, b: int) -> int
    recommends
        b != 0,
{
    if b > 0 {
        div_trunc(a, b)
    } else {
        div_trunc(-a, -b)
    }
}

/// Largest Cartesian component magnitude the projection accepts.
pub const MAX_PROJ_INPUT: i64 = 200 * SCALE;

/// Projects a point of the unit sphere onto the plane through the equator,
/// from the north pole.
///
/// Fails with a projection error exactly when the point's height is the
/// north pole's own (the fixed-point neighborhood of the singularity
/// collapses to that single value); otherwise scales the horizontal
/// components by the exact truncated quotient, so the south pole lands on
/// the origin.
pub fn stereographic_projection(point: Cartesian3) -> (res: Result<PlanarPoint, GeoTilerError>)
    requires
        -MAX_PROJ_INPUT <= point.x <= MAX_PROJ_INPUT,
        -MAX_PROJ_INPUT <= point.y <= MAX_PROJ_INPUT,
        -MAX_PROJ_INPUT <= point.z <= MAX_PROJ_INPUT,
    ensures
        res is Err <==> point.z == SCALE,
        res is Err ==> res == Result::<PlanarPoint, GeoTilerError>::Err(
            GeoTilerError::ProjectionError,
        ),
        res matches Ok(p) ==> {
            &&& p.x as int == div_trunc_gen(
                (point.x as int) * (SCALE as int),
                SCALE - point.z as int,
            )
            &&& p.y as int == div_trunc_gen(
                (point.y as int) * (SCALE as int),
                SCALE - point.z as int,
            )
        },
{
    if point.z == SCALE {
        return Err(GeoTilerError::ProjectionError);
    }
    let denom: i64 = SCALE - point.z;
    let nx: i128 = (point.x as i128) * (SCALE as i128);
    let ny: i128 = (point.y as i128) * (SCALE as i128);
    proof {
        assert(-(MAX_PROJ_INPUT as int) * (SCALE as int) <= nx <= (MAX_PROJ_INPUT as int) * (
        SCALE as int) && -(MAX_PROJ_INPUT as int) * (SCALE as int) <= ny <= (MAX_PROJ_INPUT as int)
            * (SCALE as int)) by (nonlinear_arith)
            requires
                -MAX_PROJ_INPUT <= point.x <= MAX_PROJ_INPUT,
                -MAX_PROJ_INPUT <= point.y <= MAX_PROJ_INPUT,
                nx == (point.x as int) * (SCALE as int),
                ny == (point.y as int) * (SCALE as int),
                SCALE > 0,
        ;
    }
    let (px, py) = if denom > 0 {
        (div_trunc_i128(nx, denom as i128), div_trunc_i128(ny, denom as i128))
    } else {
        (div_trunc_i128(-nx, -(denom as i128)), div_trunc_i128(-ny, -(denom as i128)))
    };
    Ok(PlanarPoint { x: px, y: py })
}

/// Largest Cartesian component magnitude accepted by the rotation: points
/// are expected on or near the unit sphere, with generous slack.
pub const MAX_ROT_INPUT: i64 = 3 * SCALE;

/// Largest Cartesian component magnitude the rotation lets out.
pub const MAX_ROT_OUTPUT: i64 = 200 * SCALE;

/// The sum of the `x` components of a point sequence.
pub open spec fn sum_x(pts: Seq<Cartesian3>) -> int
    decreases pts.len(),
{
    if pts.len() == 0 {
        0
    } else {
        sum_x(pts.drop_last()) + pts.last().x
    }
}

/// The sum of the `y` components of a point sequence.
pub open spec fn sum_y(pts: Seq<Cartesian3>) -> int
    decreases pts.len(),
{
    if pts.len() == 0 {
        0
    } else {
        sum_y(pts.drop_last()) + pts.last().y
    }
}

/// The sum of the `z` components of a point sequence.
pub open spec fn sum_z(pts: Seq<Cartesian3>) -> int
    decreases pts.len(),
{
    if pts.len() == 0 {
        0
    } else {
        sum_z(pts.drop_last()) + pts.last().z
    }
}

/// The arithmetic-mean vector of a point sequence, each component rounded
/// toward zero.
pub open spec fn spec_centroid(pts: Seq<Cartesian3>) -> (int, int, int) {
    let n = pts.len() as int;
    (div_trunc(sum_x(pts), n), div_trunc(sum_y(pts), n), div_trunc(sum_z(pts), n))
}

/// One fixed-point normalization pass: the vector scaled by `SCALE` over
/// the floored length of the vector.
pub open spec fn spec_normalized(v: (int, int, int)) -> (int, int, int) {
    let m = sqrt_floor(v.0 * v.0 + v.1 * v.1 + v.2 * v.2);
    (div_trunc(v.0 * SCALE, m), div_trunc(v.1 * SCALE, m), div_trunc(v.2 * SCALE, m))
}

/// The unit direction of the centroid: two normalization passes, the
/// second pass tightening the length error of the first.
pub open spec fn spec_axis(pts: Seq<Cartesian3>) -> (int, int, int) {
    spec_normalized(spec_normalized(spec_centroid(pts)))
}

/// No rotation axis exists: the direction points at (or beyond) the north
/// pole, where the minimal rotation to the south pole is undefined.
pub open spec fn axis_degenerate(u: (int, int, int)) -> bool {
    (u.0 == 0 && u.1 == 0 && u.2 > 0) || u.2 >= SCALE
}

/// One point rotated by the fixed-point rotation that maps direction `u`
/// to the south pole: the Rodrigues form `I + K + K^2 / (1 + c)`, every
/// division truncated.
pub open spec fn spec_rotated(u: (int, int, int), p: Cartesian3) -> (int, int, int) {
    let den = SCALE - u.2;
    let exx = div_trunc(u.0 * u.0, den);
    let exy = div_trunc(u.0 * u.1, den);
    let eyy = div_trunc(u.1 * u.1, den);
    let ess = div_trunc(u.0 * u.0 + u.1 * u.1, den);
    (
        div_trunc((SCALE - exx) * p.x + (-exy) * p.y + u.0 * p.z, SCALE as int),
        div_trunc((-exy) * p.x + (SCALE - eyy) * p.y + u.1 * p.z, SCALE as int),
        div_trunc((-u.0) * p.x + (-u.1) * p.y + (SCALE - ess) * p.z, SCALE as int),
    )
}

/// A rotated point that left the fixed-point working range.
pub open spec fn rotated_out_of_range(u: (int, int, int), p: Cartesian3) -> bool {
    let r = spec_rotated(u, p);
    !(-MAX_ROT_OUTPUT <= r.0 <= MAX_ROT_OUTPUT && -MAX_ROT_OUTPUT <= r.1 <= MAX_ROT_OUTPUT
        && -MAX_ROT_OUTPUT <= r.2 <= MAX_ROT_OUTPUT)
}

/// Everything that makes the rotation of a nonempty point set fail: a zero
/// centroid (no direction), a first normalization pass collapsing to zero,
/// a degenerate (north-pointing) axis, or a rotated point outside the
/// working range.
pub open spec fn rotation_fails(pts: Seq<Cartesian3>) -> bool {
    let c = spec_centroid(pts);
    let v = spec_normalized(c);
    let u = spec_normalized(v);
    ||| c == (0int, 0int, 0int)
    ||| v == (0int, 0int, 0int)
    ||| axis_degenerate(u)
    ||| exists|i: int| 0 <= i < pts.len() && rotated_out_of_range(u, #[trigger] pts[i])
}

/// The magnitude of a product is bounded by the product of the magnitudes.
pub(crate) proof fn lemma_mul_abs_bound(a: int, b: int, aa: int, bb: int)
    requires
        -aa <= a <= aa,
        -bb <= b <= bb,
        0 <= aa,
        0 <= bb,
    ensures
        -(aa * bb) <= a * b <= aa * bb,
{
    assert(-(aa * bb) <= a * b <= aa * bb) by (nonlinear_arith)
        requires
            -aa <= a <= aa,
            -bb <= b <= bb,
            0 <= aa,
            0 <= bb,
    ;
}

/// The magnitude of a three-term row product is bounded by three times the
/// entry bound times the point bound.
proof fn lemma_row_abs_bound(e0: int, e1: int, e2: int, p0: int, p1: int, p2: int, eb: int, pb: int)
    requires
        -eb <= e0 <= eb,
        -eb <= e1 <= eb,
        -eb <= e2 <= eb,
        -pb <= p0 <= pb,
        -pb <= p1 <= pb,
        -pb <= p2 <= pb,
        0 <= eb,
        0 <= pb,
    ensures
        -(3 * (eb * pb)) <= e0 * p0 + e1 * p1 + e2 * p2 <= 3 * (eb * pb),
        -(eb * pb) <= e0 * p0 <= eb * pb,
        -(eb * pb) <= e1 * p1 <= eb * pb,
        -(eb * pb) <= e2 * p2 <= eb * pb,
{
    lemma_mul_abs_bound(e0, p0, eb, pb);
    lemma_mul_abs_bound(e1, p1, eb, pb);
    lemma_mul_abs_bound(e2, p2, eb, pb);
}

/// The magnitude of a truncated quotient is bounded by `b` whenever the
/// dividend's magnitude is at most `b * n`.
pub(crate) proof fn lemma_div_trunc_abs_bound(a: int, b: int, n: int)
    requires
        0 < n,
        0 <= b,
        -(b * n) <= a <= b * n,
    ensures
        -b <= div_trunc(a, n) <= b,
{
    if a >= 0 {
        crate::fixed::lemma_udiv_bound(a, b, n);
    } else {
        crate::fixed::lemma_udiv_bound(-a, b, n);
    }
}

/// A vector component's magnitude does not exceed the floored length of
/// the vector.
proof fn lemma_component_le_norm(x: int, m: int, sq: int)
    requires
        0 <= m,
        x * x <= sq,
        sq < (m + 1) * (m + 1),
    ensures
        -m <= x <= m,
{
    assert(-m <= x <= m) by (nonlinear_arith)
        requires
            0 <= m,
            x * x <= sq,
            sq < (m + 1) * (m + 1),
    ;
}

/// The exact Rodrigues rotation onto the south pole maps its own axis to
/// the south pole: for an exactly unit-scaled direction `u` below the
/// north pole, the unrounded matrix numerators send `u` to
/// `(0, 0, -SCALE)` times the common denominator.  This is the direction
/// law behind the executable rotation, whose only departures from it are
/// the bounded truncations of the divisions.
pub proof fn lemma_rotation_sends_axis_south(ux: int, uy: int, uz: int)
    requires
        ux * ux + uy * uy + uz * uz == SCALE * SCALE,
        uz < SCALE,
    ensures
        (SCALE * (SCALE - uz) - ux * ux) * ux + (-(ux * uy)) * uy + (ux * (SCALE - uz)) * uz == 0,
        (-(ux * uy)) * ux + (SCALE * (SCALE - uz) - uy * uy) * uy + (uy * (SCALE - uz)) * uz == 0,
        (-(ux * (SCALE - uz))) * ux + (-(uy * (SCALE - uz))) * uy + (SCALE * (SCALE - uz) - (ux
            * ux + uy * uy)) * uz == (-SCALE) * SCALE * (SCALE - uz),
{
    lemma_rodrigues_identities(ux, uy, uz, SCALE as int);
}

/// The three Rodrigues numerator identities over an arbitrary scale.
#[verifier::rlimit(60)]
proof fn lemma_rodrigues_identities(ux: int, uy: int, uz: int, s: int)
    requires
        ux * ux + uy * uy + uz * uz == s * s,
    ensures
        (s * (s - uz) - ux * ux) * ux + (-(ux * uy)) * uy + (ux * (s - uz)) * uz == 0,
        (-(ux * uy)) * ux + (s * (s - uz) - uy * uy) * uy + (uy * (s - uz)) * uz == 0,
        (-(ux * (s - uz))) * ux + (-(uy * (s - uz))) * uy + (s * (s - uz) - (ux * ux + uy * uy))
            * uz == (-s) * s * (s - uz),
{
    assert((s * (s - uz) - ux * ux) * ux + (-(ux * uy)) * uy + (ux * (s - uz)) * uz == ux * (s * s
        - (ux * ux + uy * uy + uz * uz))) by (nonlinear_arith);
    assert((-(ux * uy)) * ux + (s * (s - uz) - uy * uy) * uy + (uy * (s - uz)) * uz == uy * (s * s
        - (ux * ux + uy * uy + uz * uz))) by (nonlinear_arith);
    let d = s - uz;
    let s2q = ux * ux + uy * uy;
    assert((-(ux * d)) * ux + (-(uy * d)) * uy == -(d * s2q)) by (nonlinear_arith)
        requires
            s2q == ux * ux + uy * uy,
    ;
    assert(s2q == s * s - uz * uz);
    assert(-(d * (s * s - uz * uz)) + (s * d - (s * s - uz * uz)) * uz == (-s) * s * d)
        by (nonlinear_arith)
        requires
            d == s - uz,
    ;
    assert(ux * (s * s - (ux * ux + uy * uy + uz * uz)) == 0 && uy * (s * s - (ux * ux + uy * uy
        + uz * uz)) == 0) by (nonlinear_arith)
        requires
            ux * ux + uy * uy + uz * uz == s * s,
    ;
}

/// Rotates a set of Cartesian points so that the direction of their
/// centroid maps onto the south pole `(0, 0, -SCALE)`, applying one rigid
/// fixed-point rotation to every point.
///
/// Fails with an empty-set error on no points, and with a rotation error
/// exactly when the centroid is zero (evenly spread points give no
/// direction), the normalization collapses, the direction is degenerate
/// (pointing at the north pole, where no minimal rotation exists), or a
/// rotated point would leave the fixed-point working range.  Otherwise
/// every output point is exactly the fixed-point rotation of its input.
pub fn rotate_points_to_south_pole(points: &Vec<Cartesian3>) -> (res: Result<
    Vec<Cartesian3>,
    GeoTilerError,
>)
    requires
        forall|i: int|
            0 <= i < points@.len() ==> {
                &&& -MAX_ROT_INPUT <= (#[trigger] points@[i]).x <= MAX_ROT_INPUT
                &&& -MAX_ROT_INPUT <= points@[i].y <= MAX_ROT_INPUT
                &&& -MAX_ROT_INPUT <= points@[i].z <= MAX_ROT_INPUT
            },
    ensures
        res matches Err(e) ==> (e == GeoTilerError::EmptyPointSetError <==> points@.len() == 0),
        res matches Err(e) ==> (e == GeoTilerError::EmptyPointSetError || e
            == GeoTilerError::RotationError),
        res is Err <==> points@.len() == 0 || rotation_fails(points@),
        res matches Ok(out) ==> {
            &&& out@.len() == points@.len()
            &&& forall|i: int|
                0 <= i < points@.len() ==> {
                    let r = spec_rotated(spec_axis(points@), points@[i]);
                    &&& (#[trigger] out@[i]).x == r.0
                    &&& out@[i].y == r.1
                    &&& out@[i].z == r.2
                    &&& -MAX_ROT_OUTPUT <= out@[i].x <= MAX_ROT_OUTPUT
                    &&& -MAX_ROT_OUTPUT <= out@[i].y <= MAX_ROT_OUTPUT
                    &&& -MAX_ROT_OUTPUT <= out@[i].z <= MAX_ROT_OUTPUT
                }
        },
{
    let n = points.len();
    if n == 0 {
        return Err(GeoTilerError::EmptyPointSetError);
    }
    let mut sx: i128 = 0;
    let mut sy: i128 = 0;
    let mut sz: i128 = 0;
    let mut i: usize = 0;
    while i < n
        invariant
            n == points@.len(),
            i <= n,
            forall|k: int|
                0 <= k < n ==> {
                    &&& -MAX_ROT_INPUT <= (#[trigger] points@[k]).x <= MAX_ROT_INPUT
                    &&& -MAX_ROT_INPUT <= points@[k].y <= MAX_ROT_INPUT
                    &&& -MAX_ROT_INPUT <= points@[k].z <= MAX_ROT_INPUT
                },
            sx == sum_x(points@.take(i as int)),
            sy == sum_y(points@.take(i as int)),
            sz == sum_z(points@.take(i as int)),
            -(MAX_ROT_INPUT as int) * (i as int) <= sx <= (MAX_ROT_INPUT as int) * (i as int),
            -(MAX_ROT_INPUT as int) * (i as int) <= sy <= (MAX_ROT_INPUT as int) * (i as int),
            -(MAX_ROT_INPUT as int) * (i as int) <= sz <= (MAX_ROT_INPUT as int) * (i as int),
        decreases n - i,
    {
        let p = points[i];
        proof {
            assert(points@.take(i + 1).drop_last() =~= points@.take(i as int));
            assert(points@.take(i + 1).last() == points@[i as int]);
            assert((MAX_ROT_INPUT as int) * (i as int) + MAX_ROT_INPUT == (MAX_ROT_INPUT as int) * (
            i + 1)) by (nonlinear_arith);
            assert(0 <= (MAX_ROT_INPUT as int) * (i + 1) <= (MAX_ROT_INPUT as int)
                * 0x1_0000_0000_0000_0000) by (nonlinear_arith)
                requires
                    0 <= i + 1 <= 0x1_0000_0000_0000_0000,
                    MAX_ROT_INPUT > 0,
            ;
        }
        proof {
            assert(-(MAX_ROT_INPUT as int) * 0x1_0000_0000_0000_0000 <= sx + p.x <= (
            MAX_ROT_INPUT as int) * 0x1_0000_0000_0000_0000 && -(MAX_ROT_INPUT as int)
                * 0x1_0000_0000_0000_0000 <= sy + p.y <= (MAX_ROT_INPUT as int)
                * 0x1_0000_0000_0000_0000 && -(MAX_ROT_INPUT as int) * 0x1_0000_0000_0000_0000 <= sz
                + p.z <= (MAX_ROT_INPUT as int) * 0x1_0000_0000_0000_0000 && (MAX_ROT_INPUT as int)
                * 0x1_0000_0000_0000_0000 == 55_340_232_221_128_654_848_000_000_000_000)
                by (nonlinear_arith)
                requires
                    -(MAX_ROT_INPUT as int) * (i as int) <= sx <= (MAX_ROT_INPUT as int) * (
                    i as int),
                    -(MAX_ROT_INPUT as int) * (i as int) <= sy <= (MAX_ROT_INPUT as int) * (
                    i as int),
                    -(MAX_ROT_INPUT as int) * (i as int) <= sz <= (MAX_ROT_INPUT as int) * (
                    i as int),
                    -MAX_ROT_INPUT <= p.x <= MAX_ROT_INPUT,
                    -MAX_ROT_INPUT <= p.y <= MAX_ROT_INPUT,
                    -MAX_ROT_INPUT <= p.z <= MAX_ROT_INPUT,
                    0 <= i < 0x1_0000_0000_0000_0000,
                    MAX_ROT_INPUT == 3_000_000_000_000,
            ;
        }
        let ghost old_sx = sx as int;
        let ghost old_sy = sy as int;
        let ghost old_sz = sz as int;
        sx = sx + p.x as i128;
        sy = sy + p.y as i128;
        sz = sz + p.z as i128;
        i = i + 1;
        proof {
            assert(-(MAX_ROT_INPUT as int) * (i as int) <= sx <= (MAX_ROT_INPUT as int) * (
            i as int) && -(MAX_ROT_INPUT as int) * (i as int) <= sy <= (MAX_ROT_INPUT as int) * (
            i as int) && -(MAX_ROT_INPUT as int) * (i as int) <= sz <= (MAX_ROT_INPUT as int) * (
            i as int)) by (nonlinear_arith)
                requires
                    -(MAX_ROT_INPUT as int) * (i - 1) <= old_sx <= (MAX_ROT_INPUT as int) * (i
                        - 1),
                    -(MAX_ROT_INPUT as int) <= p.x <= MAX_ROT_INPUT,
                    sx == old_sx + p.x,
                    -(MAX_ROT_INPUT as int) * (i - 1) <= old_sy <= (MAX_ROT_INPUT as int) * (i
                        - 1),
                    -(MAX_ROT_INPUT as int) <= p.y <= MAX_ROT_INPUT,
                    sy == old_sy + p.y,
                    -(MAX_ROT_INPUT as int) * (i - 1) <= old_sz <= (MAX_ROT_INPUT as int) * (i
                        - 1),
                    -(MAX_ROT_INPUT as int) <= p.z <= MAX_ROT_INPUT,
                    sz == old_sz + p.z,
            ;
        }
    }
    proof {
        assert(points@.take(n as int) =~= points@);
    }
    let cx: i128 = div_trunc_i128(sx, n as i128);
    let cy: i128 = div_trunc_i128(sy, n as i128);
    let cz: i128 = div_trunc_i128(sz, n as i128);
    proof {
        lemma_div_trunc_abs_bound(sx as int, MAX_ROT_INPUT as int, n as int);
        lemma_div_trunc_abs_bound(sy as int, MAX_ROT_INPUT as int, n as int);
        lemma_div_trunc_abs_bound(sz as int, MAX_ROT_INPUT as int, n as int);
    }
    let ghost c = spec_centroid(points@);
    proof {
        assert(c == (cx as int, cy as int, cz as int));
    }
    if cx == 0 && cy == 0 && cz == 0 {
        return Err(GeoTilerError::RotationError);
    }
    let (vx, vy, vz) = normalize_step(cx as i64, cy as i64, cz as i64, MAX_ROT_INPUT);
    proof {
        assert((vx as int, vy as int, vz as int) == spec_normalized(
            (cx as int, cy as int, cz as int),
        ));
    }
    if vx == 0 && vy == 0 && vz == 0 {
        return Err(GeoTilerError::RotationError);
    }
    let (ux, uy, uz) = normalize_step(vx, vy, vz, SCALE);
    proof {
        assert((ux as int, uy as int, uz as int) == spec_axis(points@));
    }
    if (ux == 0 && uy == 0 && uz > 0) || uz >= SCALE {
        return Err(GeoTilerError::RotationError);
    }
    let den: i64 = SCALE - uz;
    proof {
        assert(0 <= (ux as i128) * (ux as i128) <= (SCALE as int) * (SCALE as int) && 0 <= (
        uy as i128) * (uy as i128) <= (SCALE as int) * (SCALE as int) && -(SCALE as int) * (
        SCALE as int) <= (ux as i128) * (uy as i128) <= (SCALE as int) * (SCALE as int))
            by (nonlinear_arith)
            requires
                -SCALE <= ux <= SCALE,
                -SCALE <= uy <= SCALE,
        ;
    }
    let exx: i128 = div_trunc_i128((ux as i128) * (ux as i128), den as i128);
    let exy: i128 = div_trunc_i128((ux as i128) * (uy as i128), den as i128);
    let eyy: i128 = div_trunc_i128((uy as i128) * (uy as i128), den as i128);
    let ess: i128 = div_trunc_i128(
        (ux as i128) * (ux as i128) + (uy as i128) * (uy as i128),
        den as i128,
    );
    proof {
        assert(2 * (SCALE as int) * (SCALE as int) * 1 <= 2 * (SCALE as int) * (SCALE as int) * (
        den as int)) by (nonlinear_arith)
            requires
                den >= 1,
        ;
        lemma_div_trunc_abs_bound(
            (ux as int) * (ux as int),
            2 * (SCALE as int) * (SCALE as int),
            den as int,
        );
        lemma_div_trunc_abs_bound(
            (ux as int) * (uy as int),
            2 * (SCALE as int) * (SCALE as int),
            den as int,
        );
        lemma_div_trunc_abs_bound(
            (uy as int) * (uy as int),
            2 * (SCALE as int) * (SCALE as int),
            den as int,
        );
        lemma_div_trunc_abs_bound(
            (ux as int) * (ux as int) + (uy as int) * (uy as int),
            2 * (SCALE as int) * (SCALE as int),
            den as int,
        );
    }
    let r00: i128 = SCALE as i128 - exx;
    let r01: i128 = -exy;
    let r11: i128 = SCALE as i128 - eyy;
    let r22: i128 = SCALE as i128 - ess;
    let mut out: Vec<Cartesian3> = Vec::new();
    let ghost u = (ux as int, uy as int, uz as int);
    let mut k: usize = 0;
    while k < n
        invariant
            n == points@.len(),
            k <= n,
            forall|m: int|
                0 <= m < n ==> {
                    &&& -MAX_ROT_INPUT <= (#[trigger] points@[m]).x <= MAX_ROT_INPUT
                    &&& -MAX_ROT_INPUT <= points@[m].y <= MAX_ROT_INPUT
                    &&& -MAX_ROT_INPUT <= points@[m].z <= MAX_ROT_INPUT
                },
            u == spec_axis(points@),
            u == (ux as int, uy as int, uz as int),
            -SCALE <= ux <= SCALE,
            -SCALE <= uy <= SCALE,
            -SCALE <= uz < SCALE,
            den == SCALE - uz,
            r00 == SCALE - div_trunc((ux as int) * (ux as int), den as int),
            r01 == -div_trunc((ux as int) * (uy as int), den as int),
            r11 == SCALE - div_trunc((uy as int) * (uy as int), den as int),
            r22 == SCALE - div_trunc((ux as int) * (ux as int) + (uy as int) * (uy as int),
                den as int,
            ),
            -3 * (SCALE as int) * (SCALE as int) <= r00 <= 3 * (SCALE as int) * (SCALE as int),
            -3 * (SCALE as int) * (SCALE as int) <= r01 <= 3 * (SCALE as int) * (SCALE as int),
            -3 * (SCALE as int) * (SCALE as int) <= r11 <= 3 * (SCALE as int) * (SCALE as int),
            -3 * (SCALE as int) * (SCALE as int) <= r22 <= 3 * (SCALE as int) * (SCALE as int),
            out@.len() == k,
            forall|m: int|
                0 <= m < k ==> {
                    let r = spec_rotated(u, points@[m]);
                    &&& (#[trigger] out@[m]).x == r.0
                    &&& out@[m].y == r.1
                    &&& out@[m].z == r.2
                    &&& -MAX_ROT_OUTPUT <= out@[m].x <= MAX_ROT_OUTPUT
                    &&& -MAX_ROT_OUTPUT <= out@[m].y <= MAX_ROT_OUTPUT
                    &&& -MAX_ROT_OUTPUT <= out@[m].z <= MAX_ROT_OUTPUT
                },
            forall|m: int| 0 <= m < k ==> !rotated_out_of_range(u, #[trigger] points@[m]),
        decreases n - k,
    {
        let p = points[k];
        proof {
            let s3 = 3 * (SCALE as int) * (SCALE as int);
            lemma_row_abs_bound(
                r00 as int,
                r01 as int,
                ux as int,
                p.x as int,
                p.y as int,
                p.z as int,
                s3,
                MAX_ROT_INPUT as int,
            );
            lemma_row_abs_bound(
                r01 as int,
                r11 as int,
                uy as int,
                p.x as int,
                p.y as int,
                p.z as int,
                s3,
                MAX_ROT_INPUT as int,
            );
            lemma_row_abs_bound(
                -(ux as int),
                -(uy as int),
                r22 as int,
                p.x as int,
                p.y as int,
                p.z as int,
                s3,
                MAX_ROT_INPUT as int,
            );
            assert(3 * (s3 * (MAX_ROT_INPUT as int))
                == 27_000_000_000_000_000_000_000_000_000_000_000_000 && s3 * (
            MAX_ROT_INPUT as int) == 9_000_000_000_000_000_000_000_000_000_000_000_000)
                by (nonlinear_arith)
                requires
                    s3 == 3 * (SCALE as int) * (SCALE as int),
                    SCALE == 1_000_000_000_000,
                    MAX_ROT_INPUT == 3_000_000_000_000,
            ;
        }
        let ax: i128 = r00 * (p.x as i128) + r01 * (p.y as i128) + (ux as i128) * (p.z as i128);
        let ay: i128 = r01 * (p.x as i128) + r11 * (p.y as i128) + (uy as i128) * (p.z as i128);
        let az: i128 = (-(ux as i128)) * (p.x as i128) + (-(uy as i128)) * (p.y as i128) + r22 * (
        p.z as i128);
        let rx: i128 = div_trunc_i128(ax, SCALE as i128);
        let ry: i128 = div_trunc_i128(ay, SCALE as i128);
        let rz: i128 = div_trunc_i128(az, SCALE as i128);
        proof {
            let r = spec_rotated(u, points@[k as int]);
            assert(rx == r.0 && ry == r.1 && rz == r.2);
        }
        if rx > MAX_ROT_OUTPUT as i128 || rx < -(MAX_ROT_OUTPUT as i128) || ry
            > MAX_ROT_OUTPUT as i128 || ry < -(MAX_ROT_OUTPUT as i128) || rz
            > MAX_ROT_OUTPUT as i128 || rz < -(MAX_ROT_OUTPUT as i128) {
            proof {
                assert(rotated_out_of_range(u, points@[k as int]));
                assert(rotation_fails(points@));
            }
            return Err(GeoTilerError::RotationError);
        }
        out.push(Cartesian3 { x: rx as i64, y: ry as i64, z: rz as i64 });
        k = k + 1;
    }
    proof {
        assert(!rotation_fails(points@));
    }
    Ok(out)
}

/// One normalization pass: scales the vector by `SCALE` over its floored
/// length, exactly as `spec_normalized` says.  A zero vector is the
/// caller's degenerate case and comes back unchanged.
fn normalize_step(x: i64, y: i64, z: i64, bound: i64) -> (r: (i64, i64, i64))
    requires
        0 < bound <= 3 * SCALE,
        -bound <= x <= bound,
        -bound <= y <= bound,
        -bound <= z <= bound,
        !(x == 0 && y == 0 && z == 0),
    ensures
        (r.0 as int, r.1 as int, r.2 as int) == spec_normalized((x as int, y as int, z as int)),
        -SCALE <= r.0 <= SCALE,
        -SCALE <= r.1 <= SCALE,
        -SCALE <= r.2 <= SCALE,
{
    proof {
        assert(0 <= (x as int) * (x as int) <= 9 * ((SCALE as int) * (SCALE as int)) && 0 <= (
        y as int) * (y as int) <= 9 * ((SCALE as int) * (SCALE as int)) && 0 <= (z as int) * (
        z as int) <= 9 * ((SCALE as int) * (SCALE as int))) by (nonlinear_arith)
            requires
                -bound <= x <= bound,
                -bound <= y <= bound,
                -bound <= z <= bound,
                0 < bound <= 3 * SCALE,
        ;
        assert((x as int) * (x as int) + (y as int) * (y as int) + (z as int) * (z as int) >= 1)
            by (nonlinear_arith)
            requires
                !(x == 0 && y == 0 && z == 0),
        ;
    }
    let sq: u128 = ((x as i128) * (x as i128) + (y as i128) * (y as i128) + (z as i128) * (
    z as i128)) as u128;
    let m: u64 = isqrt(sq);
    proof {
        if m == 0 {
            assert(false) by (nonlinear_arith)
                requires
                    sq >= 1,
                    sq < (m as int + 1) * (m as int + 1),
                    m == 0,
            ;
        }
        lemma_component_le_norm(x as int, m as int, sq as int);
        lemma_component_le_norm(y as int, m as int, sq as int);
        lemma_component_le_norm(z as int, m as int, sq as int);
        assert(-(SCALE as int) * (m as int) <= (x as int) * (SCALE as int) <= (SCALE as int) * (
        m as int) && -(SCALE as int) * (m as int) <= (y as int) * (SCALE as int) <= (SCALE as int)
            * (m as int) && -(SCALE as int) * (m as int) <= (z as int) * (SCALE as int) <= (
        SCALE as int) * (m as int)) by (nonlinear_arith)
            requires
                -(m as int) <= x <= m as int,
                -(m as int) <= y <= m as int,
                -(m as int) <= z <= m as int,
                SCALE > 0,
        ;
        lemma_div_trunc_abs_bound((x as int) * (SCALE as int), SCALE as int, m as int);
        lemma_div_trunc_abs_bound((y as int) * (SCALE as int), SCALE as int, m as int);
        lemma_div_trunc_abs_bound((z as int) * (SCALE as int), SCALE as int, m as int);
    }
    let nx: i128 = div_trunc_i128((x as i128) * (SCALE as i128), m as i128);
    let ny: i128 = div_trunc_i128((y as i128) * (SCALE as i128), m as i128);
    let nz: i128 = div_trunc_i128((z as i128) * (SCALE as i128), m as i128);
    (nx as i64, ny as i64, nz as i64)
}

} // verus!
