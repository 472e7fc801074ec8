//! Deterministic near-uniform sampling of the unit sphere.

use vstd::prelude::*;
use crate::coords::SphericalPoint;
use crate::errors::GeoTilerError;
use crate::fixed::{lemma_udiv_bound, SCALE};
use crate::trig::{asin_fp, spec_asin, GOLDEN_ANGLE_FP, HALF_PI_FP, PI_FP, TWO_PI_FP};

verus! {

/// The linear height sweep of the golden-angle spiral: sample `i` of `n`
/// descends from `SCALE` toward `-SCALE`, the quotient truncated, as the
/// executable sweep computes it.
pub open spec fn fib_sweep_height(i: int, n: int) -> int {
    let denom = if n > 1 {
        n - 1
    } else {
        1int
    };
    SCALE - (2 * SCALE * i) / denom
}

/// The longitude of sample `i`: the `i`-th multiple of the golden angle,
/// reduced modulo a full turn and wrapped into `(-pi, pi]`.
pub open spec fn fib_longitude(i: int) -> int {
    let t = ((GOLDEN_ANGLE_FP as int) * i) % (TWO_PI_FP as int);
    if t > PI_FP {
        t - TWO_PI_FP
    } else {
        t
    }
}

/// Generates `n` evenly distributed points on the unit sphere by the
/// golden-angle spiral, in fixed-point radians.
///
/// Fails with a sampling error exactly when `n` is zero.  Otherwise the
/// heights sweep linearly from 1 down to -1 while the longitude advances by
/// the golden angle, wrapped into `(-pi, pi]`; the latitude is the arcsine
/// of the height, so it stays within `[-pi/2, pi/2]`, with the first point
/// exactly on the north pole and, for two or more points, the last exactly
/// on the south pole.  The sequence depends on `n` alone.
pub fn fibonacci_sphere(n: usize) -> (res: Result<Vec<SphericalPoint>, GeoTilerError>)
    ensures
        res is Err <==> n == 0,
        res is Err ==> res == Result::<Vec<SphericalPoint>, GeoTilerError>::Err(
            GeoTilerError::FibonacciError,
        ),
        res matches Ok(pts) ==> {
            &&& pts@.len() == n
            &&& forall|i: int|
                0 <= i < n ==> {
                    &&& -PI_FP < (#[trigger] pts@[i]).longitude <= PI_FP
                    &&& -HALF_PI_FP <= pts@[i].latitude <= HALF_PI_FP
                }
            &&& forall|i: int|
                0 <= i < n ==> {
                    &&& (#[trigger] pts@[i]).longitude == fib_longitude(i)
                    &&& pts@[i].latitude == crate::trig::spec_asin(fib_sweep_height(i, n as int))
                }
            &&& pts@[0].longitude == 0
            &&& pts@[0].latitude == HALF_PI_FP
            &&& n >= 2 ==> pts@[n - 1].latitude == -HALF_PI_FP
        },
{
    if n == 0 {
        return Err(GeoTilerError::FibonacciError);
    }
    let denominator: u128 = if n > 1 {
        (n - 1) as u128
    } else {
        1
    };
    let mut points: Vec<SphericalPoint> = Vec::new();
    let mut i: usize = 0;
    while i < n
        invariant
            1 <= n,
            denominator == if n > 1 {
                (n - 1) as int
            } else {
                1int
            },
            i <= n,
            points@.len() == i,
            forall|k: int|
                0 <= k < i ==> {
                    &&& -PI_FP < (#[trigger] points@[k]).longitude <= PI_FP
                    &&& -HALF_PI_FP <= points@[k].latitude <= HALF_PI_FP
                    &&& points@[k].longitude == fib_longitude(k)
                    &&& points@[k].latitude == crate::trig::spec_asin(
                        fib_sweep_height(k, n as int),
                    )
                },
            i > 0 ==> points@[0].longitude == 0 && points@[0].latitude == HALF_PI_FP,
            n >= 2 && i == n ==> points@[n - 1].latitude == -HALF_PI_FP,
        decreases n - i,
    {
        proof {
            assert(2 * (SCALE as int) * (i as int) <= 2 * (SCALE as int) * denominator)
                by (nonlinear_arith)
                requires
                    0 <= i <= denominator,
                    SCALE > 0,
            ;
            lemma_udiv_bound(
                2 * (SCALE as int) * (i as int),
                2 * (SCALE as int),
                denominator as int,
            );
            if i == n - 1 && n >= 2 {
                vstd::arithmetic::div_mod::lemma_div_multiples_vanish(
                    2 * (SCALE as int),
                    denominator as int,
                );
                assert(denominator * (2 * (SCALE as int)) == 2 * (SCALE as int) * (i as int))
                    by (nonlinear_arith)
                    requires
                        denominator == i as int,
                ;
            }
            if i == 0 {
                vstd::arithmetic::div_mod::lemma_div_of0(denominator as int);
                assert(2 * (SCALE as int) * 0int == 0) by (nonlinear_arith);
            }
        }
        let sweep: u128 = 2 * (SCALE as u128) * (i as u128) / denominator;
        let y: i64 = SCALE - sweep as i64;
        let theta: u128 = (GOLDEN_ANGLE_FP as u128) * (i as u128) % (TWO_PI_FP as u128);
        proof {
            vstd::arithmetic::div_mod::lemma_mod_division_less_than_divisor(
                (GOLDEN_ANGLE_FP as int) * (i as int),
                TWO_PI_FP as int,
            );
            if i == 0 {
                assert((GOLDEN_ANGLE_FP as int) * 0int == 0) by (nonlinear_arith);
                vstd::arithmetic::div_mod::lemma_small_mod(0nat, TWO_PI_FP as nat);
            }
        }
        let longitude: i64 = if theta > PI_FP as u128 {
            (theta as i64) - TWO_PI_FP
        } else {
            theta as i64
        };
        let latitude: i64 = asin_fp(y);
        points.push(SphericalPoint { longitude, latitude });
        i = i + 1;
    }
    Ok(points)
}

} // verus!
