//! Fixed-point circular functions.
//!
//! The sine is a truncated Maclaurin series evaluated in integer
//! arithmetic after exact folding of the argument into a quarter turn; the
//! arcsine inverts it by bisection.  The contracts pin the ranges and the
//! exact values at the quarter-turn boundaries — the series value between
//! them is an approximation of the real function, which no integer
//! specification can express, and feeds only coordinates whose governing
//! invariant (the unit norm of the produced Cartesian points) is proved
//! separately by construction.

use vstd::prelude::*;
use crate::fixed::{lemma_udiv_bound, lemma_udiv_le, SCALE};

verus! {

/// Pi in fixed-point radians.
pub const PI_FP: i64 = 3_141_592_653_590;

/// Two pi in fixed-point radians.
pub const TWO_PI_FP: i64 = 6_283_185_307_180;

/// Half pi in fixed-point radians.
pub const HALF_PI_FP: i64 = 1_570_796_326_795;

/// The golden angle `pi * (sqrt(5) - 1)` in fixed-point radians.
pub const GOLDEN_ANGLE_FP: i64 = 3_883_222_077_451;

/// The five-term Maclaurin sine of a first-quarter-turn fixed-point
/// radian argument, as the executable series computes it: every division
/// truncated, the result clamped into `[0, SCALE]`.
pub open spec fn spec_sin_taylor(r: int) -> int {
    let r2 = (r * r) / (SCALE as int);
    let t3 = (r * r2) / (6 * SCALE);
    let t5 = (t3 * r2) / (20 * SCALE);
    let t7 = (t5 * r2) / (42 * SCALE);
    let t9 = (t7 * r2) / (72 * SCALE);
    let raw = r + t5 + t9 - t3 - t7;
    if raw > SCALE {
        SCALE as int
    } else {
        raw
    }
}

/// The quarter-turn sine folded out to a full signed degree argument, as
/// the executable folding computes it.
pub open spec fn spec_sin_degrees(d: int) -> int {
    let neg0 = d < 0;
    let a0 = if d < 0 {
        -d
    } else {
        d
    };
    let a1 = if a0 > 90 * SCALE {
        180 * SCALE - a0
    } else {
        a0
    };
    let neg1 = if a1 < 0 {
        !neg0
    } else {
        neg0
    };
    let a2 = if a1 < 0 {
        -a1
    } else {
        a1
    };
    let mag = if a2 == 90 * SCALE {
        SCALE as int
    } else {
        spec_sin_taylor((a2 * PI_FP) / (180 * SCALE))
    };
    if neg1 {
        -mag
    } else {
        mag
    }
}

/// The bisection the arcsine runs over the quarter-turn sine, as the
/// executable loop computes it.
pub open spec fn spec_asin_search(ym: int, lo: int, hi: int) -> int
    decreases hi - lo,
{
    if hi - lo <= 1 {
        lo
    } else {
        let mid = lo + (hi - lo) / 2;
        if spec_sin_taylor(mid) <= ym {
            spec_asin_search(ym, mid, hi)
        } else {
            spec_asin_search(ym, lo, mid)
        }
    }
}

/// The fixed-point arcsine, as the executable bisection computes it.
pub open spec fn spec_asin(y: int) -> int {
    if y == SCALE {
        HALF_PI_FP as int
    } else if y == -SCALE {
        -HALF_PI_FP
    } else if y == 0 {
        0
    } else {
        let ym = if y < 0 {
            -y
        } else {
            y
        };
        let r = spec_asin_search(ym, 0, HALF_PI_FP as int);
        if y < 0 {
            -r
        } else {
            r
        }
    }
}

/// Sine of a fixed-point radian argument within the first quarter turn, by
/// a five-term Maclaurin series.  Zero is exact; the result never leaves
/// `[0, SCALE]`; the value is exactly `spec_sin_taylor`.
pub fn sin_taylor(r: i64) -> (s: i64)
    requires
        0 <= r <= HALF_PI_FP,
    ensures
        0 <= s <= SCALE,
        r == 0 ==> s == 0,
        s == spec_sin_taylor(r as int),
{
    let su: u128 = SCALE as u128;
    let ru: u128 = r as u128;
    proof {
        assert(ru * ru <= (HALF_PI_FP as int) * (HALF_PI_FP as int)) by (nonlinear_arith)
            requires
                0 <= ru <= HALF_PI_FP,
        ;
        lemma_udiv_bound((ru * ru) as int, 2_500_000_000_000, SCALE as int);
    }
    let r2: u128 = ru * ru / su;
    let t1: u128 = ru;
    proof {
        assert(t1 * r2 <= t1 * (6 * su)) by (nonlinear_arith)
            requires
                0 <= r2 <= 6 * su,
                0 <= t1,
        ;
        lemma_udiv_bound((t1 * r2) as int, t1 as int, (6 * su) as int);
    }
    let t3: u128 = t1 * r2 / (6 * su);
    proof {
        assert(t3 * r2 <= t3 * (20 * su)) by (nonlinear_arith)
            requires
                0 <= r2 <= 20 * su,
                0 <= t3,
        ;
        lemma_udiv_bound((t3 * r2) as int, t3 as int, (20 * su) as int);
    }
    let t5: u128 = t3 * r2 / (20 * su);
    proof {
        assert(t5 * r2 <= t5 * (42 * su)) by (nonlinear_arith)
            requires
                0 <= r2 <= 42 * su,
                0 <= t5,
        ;
        lemma_udiv_bound((t5 * r2) as int, t5 as int, (42 * su) as int);
    }
    let t7: u128 = t5 * r2 / (42 * su);
    proof {
        assert(t7 * r2 <= t7 * (72 * su)) by (nonlinear_arith)
            requires
                0 <= r2 <= 72 * su,
                0 <= t7,
        ;
        lemma_udiv_bound((t7 * r2) as int, t7 as int, (72 * su) as int);
    }
    let t9: u128 = t7 * r2 / (72 * su);
    let pos: u128 = t1 + t5 + t9;
    let neg: u128 = t3 + t7;
    let raw: u128 = pos - neg;
    if raw > su {
        SCALE
    } else {
        raw as i64
    }
}

/// Sine of a fixed-point degree argument: the sign and the quadrant are
/// folded out exactly, then the quarter-turn series is applied to the
/// radian form of the reduced angle.  The quarter- and half-turn boundary
/// values are exact.
pub fn sin_degrees(d: i64) -> (s: i64)
    requires
        -200 * SCALE <= d <= 200 * SCALE,
    ensures
        -SCALE <= s <= SCALE,
        d == 0 ==> s == 0,
        d == 90 * SCALE ==> s == SCALE,
        d == -90 * SCALE ==> s == -SCALE,
        d == 180 * SCALE || d == -180 * SCALE ==> s == 0,
        s == spec_sin_degrees(d as int),
{
    let mut negative: bool = false;
    let mut a: i64 = d;
    if a < 0 {
        negative = true;
        a = -a;
    }
    if a > 90 * SCALE {
        a = 180 * SCALE - a;
    }
    if a < 0 {
        negative = !negative;
        a = -a;
    }
    let magnitude: i64 = if a == 90 * SCALE {
        SCALE
    } else {
        proof {
            assert((a as int) * (PI_FP as int) <= (90 * SCALE as int) * (PI_FP as int))
                by (nonlinear_arith)
                requires
                    0 <= a <= 90 * SCALE,
            ;
            lemma_udiv_le(
                (a as int) * (PI_FP as int),
                (90 * SCALE as int) * (PI_FP as int),
                180 * SCALE as int,
            );
            assert((90 * (SCALE as int)) * (PI_FP as int) == (180 * (SCALE as int)) * (
            HALF_PI_FP as int)) by (nonlinear_arith);
            vstd::arithmetic::div_mod::lemma_div_multiples_vanish(
                HALF_PI_FP as int,
                180 * SCALE as int,
            );
            assert((180 * (SCALE as int)) * (HALF_PI_FP as int) == (HALF_PI_FP as int) * (180 * (
            SCALE as int))) by (nonlinear_arith);
        }
        let rad: u128 = (a as u128) * (PI_FP as u128) / (180 * SCALE as u128);
        sin_taylor(rad as i64)
    };
    if negative {
        -magnitude
    } else {
        magnitude
    }
}

/// Arcsine of a fixed-point value in `[-SCALE, SCALE]`, in fixed-point
/// radians within `[-HALF_PI_FP, HALF_PI_FP]`, by bisection over the
/// quarter-turn sine.  The endpoint and zero values are exact.
pub fn asin_fp(y: i64) -> (r: i64)
    requires
        -SCALE <= y <= SCALE,
    ensures
        -HALF_PI_FP <= r <= HALF_PI_FP,
        y == SCALE ==> r == HALF_PI_FP,
        y == -SCALE ==> r == -HALF_PI_FP,
        y == 0 ==> r == 0,
        r == spec_asin(y as int),
{
    if y == SCALE {
        return HALF_PI_FP;
    }
    if y == -SCALE {
        return -HALF_PI_FP;
    }
    if y == 0 {
        return 0;
    }
    let negative: bool = y < 0;
    let ym: i64 = if y < 0 {
        -y
    } else {
        y
    };
    let mut lo: i64 = 0;
    let mut hi: i64 = HALF_PI_FP;
    while hi - lo > 1
        invariant
            0 <= lo < hi <= HALF_PI_FP,
            0 <= ym,
            spec_asin_search(ym as int, lo as int, hi as int) == spec_asin_search(
                ym as int,
                0,
                HALF_PI_FP as int,
            ),
        decreases hi - lo,
    {
        let mid: i64 = lo + (hi - lo) / 2;
        if sin_taylor(mid) <= ym {
            lo = mid;
        } else {
            hi = mid;
        }
    }
    if negative {
        -lo
    } else {
        lo
    }
}

} // verus!
