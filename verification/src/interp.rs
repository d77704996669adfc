//! Linear interpolation: the single numerical primitive under every edge and
//! attribute ramp in the rasterizer.
//!
//! `interpolate(i0, d0, i1, d1)` returns one exact rational value per integer
//! step in `[i0, i1)`: a linear ramp from `d0` toward `d1` with the constant
//! step `(d1 - d0) / (i1 - i0)`. When `i0 == i1` it returns the single value
//! `d0`; callers handle this degenerate case explicitly.

use vstd::prelude::*;

use crate::frac::Frac;

verus! {

/// Numerator of the `k`-th ramp value from `d0` toward `d1` across `n` steps,
/// over the denominator `ramp_den(n)`. For `n == 0` the ramp is the single
/// value `d0`.
pub open spec fn ramp_num(d0: int, d1: int, n: int, k: int) -> int {
    if n == 0 {
        d0
    } else {
        d0 * n + k * (d1 - d0)
    }
}

/// Denominator shared by every value of a ramp across `n` steps.
pub open spec fn ramp_den(n: int) -> int {
    if n == 0 {
        1
    } else {
        n
    }
}

/// Number of values in a ramp across `n` steps.
pub open spec fn ramp_len(n: int) -> int {
    if n == 0 {
        1
    } else {
        n
    }
}

/// Does the sequence `r` hold exactly the ramp from `d0` toward `d1` across
/// `n` steps?
pub open spec fn is_ramp(r: Seq<Frac>, d0: int, d1: int, n: int) -> bool {
    &&& r.len() == ramp_len(n)
    &&& forall|k: int|
        0 <= k < r.len() ==> (#[trigger] r[k]).num == ramp_num(d0, d1, n, k) && r[k].den == ramp_den(
            n,
        )
}

/// Produce the linear ramp of values across the index range `[i0, i1)`:
/// `i1 - i0` values starting exactly at `d0` and rising by exactly
/// `(d1 - d0) / (i1 - i0)` at each step, so that the last value is one step
/// short of `d1`. When `i0 == i1` the result is the single value `[d0]`.
pub fn interpolate(i0: u32, d0: i32, i1: u32, d1: i32) -> (r: Vec<Frac>)
    requires
        i0 <= i1,
    ensures
        is_ramp(r@, d0 as int, d1 as int, (i1 - i0) as int),
        forall|k: int| 0 <= k < r@.len() ==> (#[trigger] r@[k]).wf(),
{
    let n: u32 = i1 - i0;
    if n == 0 {
        let mut v: Vec<Frac> = Vec::new();
        v.push(Frac { num: d0 as i128, den: 1u64 });
        return v;
    }
    proof {
        assert(-0x8000_0000i128 * 0xffff_ffffi128 <= (d0 as i128) * (n as i128)
            <= 0x8000_0000i128 * 0xffff_ffffi128) by (nonlinear_arith)
            requires
                -0x8000_0000i128 <= d0 as i128 <= 0x8000_0000i128,
                1 <= n as i128 <= 0xffff_ffffi128,
        ;
    }
    let base: i128 = (d0 as i128) * (n as i128);
    let step: i128 = (d1 as i128) - (d0 as i128);
    let mut v: Vec<Frac> = Vec::new();
    let mut k: u32 = 0;
    while k < n
        invariant
            k <= n,
            1 <= n <= 0xffff_ffffu32,
            base == d0 * n,
            step == d1 - d0,
            -0x8000_0000i128 * 0xffff_ffffi128 <= base <= 0x8000_0000i128 * 0xffff_ffffi128,
            -0x1_0000_0000i128 <= step <= 0x1_0000_0000i128,
            v@.len() == k,
            forall|t: int|
                0 <= t < k ==> (#[trigger] v@[t]).num == ramp_num(d0 as int, d1 as int, n as int, t)
                    && v@[t].den == n as u64,
            forall|t: int| 0 <= t < k ==> (#[trigger] v@[t]).wf(),
        decreases n - k,
    {
        proof {
            assert(-0x1_0000_0000i128 * 0xffff_ffffi128 <= (k as i128) * step <= 0x1_0000_0000i128
                * 0xffff_ffffi128) by (nonlinear_arith)
                requires
                    -0x1_0000_0000i128 <= step <= 0x1_0000_0000i128,
                    0 <= k as i128 <= 0xffff_ffffi128,
            ;
        }
        let num: i128 = base + (k as i128) * step;
        v.push(Frac { num, den: n as u64 });
        k = k + 1;
    }
    v
}

/// Law: over a non-empty index range, consecutive ramp values share one
/// denominator `i1 - i0` and their numerators differ by exactly `d1 - d0`:
/// the ramp rises with the constant step `(d1 - d0) / (i1 - i0)` and starts
/// exactly at `d0`.
pub proof fn lemma_ramp_constant_step(r: Seq<Frac>, d0: int, d1: int, n: int)
    requires
        n >= 1,
        is_ramp(r, d0, d1, n),
    ensures
        r.len() == n,
        r[0].num == d0 * n && r[0].den == n,
        forall|k: int|
            0 <= k < n - 1 ==> (#[trigger] r[k + 1]).num - r[k].num == d1 - d0 && r[k + 1].den
                == r[k].den,
{
    assert forall|k: int| 0 <= k < n - 1 implies (#[trigger] r[k + 1]).num - r[k].num == d1 - d0
        && r[k + 1].den == r[k].den by {
        assert(r[k].num == ramp_num(d0, d1, n, k));
        assert(r[k + 1].num == ramp_num(d0, d1, n, k + 1));
        assert((k + 1) * (d1 - d0) - k * (d1 - d0) == d1 - d0) by (nonlinear_arith);
    }
}

} // verus!
