//! Fixed-point arithmetic foundation.
//!
//! Coordinates, lengths and angles are carried as 64-bit integers scaled by
//! `SCALE`: one degree, one radian or one unit of Cartesian length equals
//! `SCALE` fixed-point units.  This module provides the two primitives the
//! rest of the library builds on: an exact integer square root and a
//! truncating (round-toward-zero) scaled division.

use vstd::prelude::*;

verus! {

/// Fixed-point units per degree / radian / unit length (10^12).
pub const SCALE: i64 = 1_000_000_000_000;

/// Mathematical truncating division: the quotient of `a / b` rounded toward
/// zero, for a positive divisor.  This is the division that the executable
/// code performs on magnitudes.
pub open spec fn div_trunc(a: int, b: int) -> int
    recommends
        b > 0,
{
    if a >= 0 {
        a / b
    } else {
        -((-a) / b)
    }
}

/// The integer square root: the unique `r >= 0` with `r * r <= n < (r + 1) * (r + 1)`.
pub open spec fn sqrt_floor(n: int) -> int
    recommends
        n >= 0,
{
    choose|r: int| 0 <= r && (#[trigger] (r * r)) <= n < (r + 1) * (r + 1)
}

/// The integer square root rounded up: the unique `r >= 0` with
/// `(r - 1) * (r - 1) < n <= r * r`.
pub open spec fn sqrt_ceil(n: int) -> int
    recommends
        n >= 0,
{
    if sqrt_floor(n) * sqrt_floor(n) == n {
        sqrt_floor(n)
    } else {
        sqrt_floor(n) + 1
    }
}

/// Any two integers satisfying the square-root characterization are equal,
/// so `sqrt_floor` really is a function of `n`.
pub proof fn lemma_sqrt_floor_unique(n: int, r: int)
    requires
        0 <= r,
        r * r <= n,
        n < (r + 1) * (r + 1),
    ensures
        sqrt_floor(n) == r,
{
    assert(exists|q: int| 0 <= q && (#[trigger] (q * q)) <= n < (q + 1) * (q + 1)) by {
        assert(0 <= r && r * r <= n < (r + 1) * (r + 1));
    }
    let q = choose|q: int| 0 <= q && (#[trigger] (q * q)) <= n < (q + 1) * (q + 1);
    if q < r {
        assert((q + 1) * (q + 1) <= r * r) by (nonlinear_arith)
            requires
                0 <= q < r,
        ;
    }
    if r < q {
        assert((r + 1) * (r + 1) <= q * q) by (nonlinear_arith)
            requires
                0 <= r < q,
        ;
    }
}

/// Integer square root of a 128-bit value by bisection.
pub fn isqrt(n: u128) -> (r: u64)
    ensures
        (r as int) * (r as int) <= n as int,
        (n as int) < (r as int + 1) * (r as int + 1),
        r as int == sqrt_floor(n as int),
{
    let mut lo: u128 = 0;
    let mut hi: u128 = 0x1_0000_0000_0000_0000;
    while hi - lo > 1
        invariant
            lo < hi <= 0x1_0000_0000_0000_0000,
            (lo as int) * (lo as int) <= n as int,
            (n as int) < (hi as int) * (hi as int),
        decreases hi - lo,
    {
        let mid: u128 = lo + (hi - lo) / 2;
        proof {
            assert(mid < 0x1_0000_0000_0000_0000);
            assert((mid as int) * (mid as int) < 0x1_0000_0000_0000_0000 * 0x1_0000_0000_0000_0000)
                by (nonlinear_arith)
                requires
                    0 <= mid < 0x1_0000_0000_0000_0000,
            ;
        }
        if mid * mid <= n {
            lo = mid;
        } else {
            hi = mid;
        }
    }
    proof {
        lemma_sqrt_floor_unique(n as int, lo as int);
    }
    lo as u64
}

/// Truncating division of a possibly negative 128-bit value by a positive
/// divisor, i.e. `div_trunc` made executable.
pub fn div_trunc_i128(a: i128, b: i128) -> (q: i128)
    requires
        0 < b,
        -(0x7fff_ffff_ffff_ffff_ffff_ffff_ffff_ffffi128 as int) <= a as int,
    ensures
        q as int == div_trunc(a as int, b as int),
{
    if a >= 0 {
        let m: u128 = (a as u128) / (b as u128);
        proof {
            assert(m as int == (a as int) / (b as int)) by {
                vstd::arithmetic::div_mod::lemma_div_pos_is_pos(a as int, b as int);
            }
            assert((a as int) / (b as int) <= a as int) by {
                vstd::arithmetic::div_mod::lemma_div_nonincreasing(a as int, b as int);
            }
        }
        m as i128
    } else {
        let m: u128 = ((-a) as u128) / (b as u128);
        proof {
            assert(((-a) as int) / (b as int) <= (-a) as int) by {
                vstd::arithmetic::div_mod::lemma_div_nonincreasing((-a) as int, b as int);
            }
            assert(((-a) as int) / (b as int) >= 0) by {
                vstd::arithmetic::div_mod::lemma_div_pos_is_pos((-a) as int, b as int);
            }
        }
        -(m as i128)
    }
}

/// A quotient by a positive divisor does not exceed the quotient of a
/// larger dividend.
pub proof fn lemma_udiv_le(a: int, b: int, d: int)
    requires
        0 <= a <= b,
        0 < d,
    ensures
        0 <= a / d <= b / d,
{
    vstd::arithmetic::div_mod::lemma_div_pos_is_pos(a, d);
    vstd::arithmetic::div_mod::lemma_div_is_ordered(a, b, d);
}

/// Dividing a value at most `c * d` by `d` gives at most `c`.
pub proof fn lemma_udiv_bound(a: int, c: int, d: int)
    requires
        0 <= a,
        0 < d,
        0 <= c,
        a <= c * d,
    ensures
        0 <= a / d <= c,
{
    lemma_udiv_le(a, c * d, d);
    vstd::arithmetic::div_mod::lemma_div_multiples_vanish(c, d);
    assert(c * d == d * c) by (nonlinear_arith);
}

} // verus!
