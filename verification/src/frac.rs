//! Exact rational values with a fixed positive denominator.
//!
//! The interpolator produces linear ramps of these values; keeping the exact
//! numerator and denominator (instead of a rounded quotient) is what lets a
//! ramp have a provably constant step. A value is rounded to an integer only
//! at the moment it is consumed: a pixel coordinate by truncation toward
//! zero, a shaded alpha channel to the nearest integer.

use vstd::prelude::*;

verus! {

/// An exact rational number `num / den`.
#[derive(Clone, Copy, PartialEq, Eq, Structural, Debug)]
pub struct Frac {
    pub num: i128,
    pub den: u64,
}

impl Frac {
    /// A well-formed fraction: positive denominator that fits in 32 bits and
    /// a numerator small enough that cross-multiplied comparisons stay inside
    /// `i128`. Every fraction the interpolator produces satisfies this.
    pub open spec fn wf(self) -> bool {
        &&& 1 <= self.den <= 0xffff_ffffu64
        &&& -0x4_0000_0000_0000_0000i128 <= self.num <= 0x4_0000_0000_0000_0000i128
    }

    /// The integer obtained from this fraction by truncation toward zero.
    pub open spec fn trunc(self) -> int {
        trunc_div(self.num as int, self.den as int)
    }
}

/// Quotient of `num / den` rounded toward zero (the rounding used when a
/// fractional coordinate becomes a pixel index), defined from Euclidean
/// division on the magnitude.
pub open spec fn trunc_div(num: int, den: int) -> int {
    if num >= 0 {
        num / den
    } else {
        -((-num) / den)
    }
}

/// Truncate a fraction toward zero.
pub fn frac_trunc(f: Frac) -> (r: i128)
    requires
        f.den >= 1,
        f.num > i128::MIN,
    ensures
        r == f.trunc(),
{
    if f.num >= 0 {
        let q: u128 = (f.num as u128) / (f.den as u128);
        assert(q == f.num as int / f.den as int);
        assert(q <= f.num as int) by {
            vstd::arithmetic::div_mod::lemma_div_nonincreasing(f.num as int, f.den as int);
        }
        q as i128
    } else {
        let m: u128 = ((-f.num) as u128) / (f.den as u128);
        assert(m == (-(f.num as int)) / (f.den as int));
        assert(m <= -(f.num as int)) by {
            vstd::arithmetic::div_mod::lemma_div_nonincreasing(-(f.num as int), f.den as int);
        }
        -(m as i128)
    }
}

/// Quotient of `num / den` rounded to the nearest integer, a tie rounding
/// away from zero, defined from Euclidean division on the magnitude.
pub open spec fn nearest_div(num: int, den: int) -> int {
    if num >= 0 {
        (2 * num + den) / (2 * den)
    } else {
        -((2 * (-num) + den) / (2 * den))
    }
}

/// Round a fraction to the nearest integer, a tie away from zero.
pub fn frac_round(f: Frac) -> (r: i128)
    requires
        f.den >= 1,
        -0x100_0000_0000_0000_0000_0000_0000_0000i128 <= f.num
            <= 0x100_0000_0000_0000_0000_0000_0000_0000i128,
    ensures
        r == nearest_div(f.num as int, f.den as int),
{
    let den2: u128 = 2 * (f.den as u128);
    if f.num >= 0 {
        let q: u128 = (2 * (f.num as u128) + (f.den as u128)) / den2;
        assert(q == (2 * (f.num as int) + f.den as int) / (2 * (f.den as int)));
        assert(q <= 2 * (f.num as int) + f.den as int) by {
            vstd::arithmetic::div_mod::lemma_div_nonincreasing(
                2 * (f.num as int) + f.den as int,
                2 * (f.den as int),
            );
        }
        q as i128
    } else {
        let m: u128 = (2 * ((-f.num) as u128) + (f.den as u128)) / den2;
        assert(m == (2 * (-(f.num as int)) + f.den as int) / (2 * (f.den as int)));
        assert(m <= 2 * (-(f.num as int)) + f.den as int) by {
            vstd::arithmetic::div_mod::lemma_div_nonincreasing(
                2 * (-(f.num as int)) + f.den as int,
                2 * (f.den as int),
            );
        }
        -(m as i128)
    }
}

/// Compare two well-formed fractions: is `a < b` as rationals?
pub fn frac_lt(a: Frac, b: Frac) -> (r: bool)
    requires
        a.wf(),
        b.wf(),
    ensures
        r == (a.num * b.den < b.num * a.den),
{
    proof {
        assert(a.num * b.den <= 0x4_0000_0000_0000_0000i128 * 0xffff_ffffi128
            && a.num * b.den >= -0x4_0000_0000_0000_0000i128 * 0xffff_ffffi128)
            by (nonlinear_arith)
            requires
                -0x4_0000_0000_0000_0000i128 <= a.num <= 0x4_0000_0000_0000_0000i128,
                1 <= b.den <= 0xffff_ffffu64,
        ;
        assert(b.num * a.den <= 0x4_0000_0000_0000_0000i128 * 0xffff_ffffi128
            && b.num * a.den >= -0x4_0000_0000_0000_0000i128 * 0xffff_ffffi128)
            by (nonlinear_arith)
            requires
                -0x4_0000_0000_0000_0000i128 <= b.num <= 0x4_0000_0000_0000_0000i128,
                1 <= a.den <= 0xffff_ffffu64,
        ;
    }
    (a.num * (b.den as i128)) < (b.num * (a.den as i128))
}

} // verus!
