//! Triangle rasterization: wireframe, flat-filled, and linearly-shaded.
//!
//! Filling sorts the three vertices by ascending `y` (ties keep their
//! original relative order), builds the chain of the two short edges and the
//! single long edge as interpolated x-ramps over the same scanline range,
//! decides once — by comparing the two chains at their midpoint — which chain
//! bounds the fill on the left, and paints every scanline between the top
//! vertex and one row short of the bottom vertex from the truncated left
//! bound up to (excluding) the truncated right bound.
//!
//! Every chain index used is proved in range (including the midpoint lookup
//! on degenerate, collinear, or zero-height triangles), so no fallback path
//! is needed: a degenerate triangle simply paints nothing.

use vstd::prelude::*;

use crate::buffer::Color;
use crate::buffer::PixelBuffer;
use crate::buffer::Point;
use crate::frac::Frac;
use crate::frac::frac_lt;
use crate::frac::frac_round;
use crate::frac::frac_trunc;
use crate::frac::nearest_div;
use crate::frac::trunc_div;
use crate::interp::interpolate;
use crate::interp::is_ramp;
use crate::interp::ramp_den;
use crate::interp::ramp_len;
use crate::interp::ramp_num;
use crate::line::draw_line;
use crate::line::line_covers;

verus! {

/// The three vertices sorted by ascending `y` with three pairwise conditional
/// swaps; ties keep the original relative order.
pub open spec fn sort_y(p0: Point, p1: Point, p2: Point) -> (Point, Point, Point) {
    let (q0, q1) = if p1.y < p0.y {
        (p1, p0)
    } else {
        (p0, p1)
    };
    let (r0, r2) = if p2.y < q0.y {
        (p2, q0)
    } else {
        (q0, p2)
    };
    let (s1, s2) = if r2.y < q1.y {
        (r2, q1)
    } else {
        (q1, r2)
    };
    (r0, s1, s2)
}

/// Number of values in the two-short-edge chain: the ramp along the upper
/// edge with its last value dropped, then the ramp along the lower edge.
pub open spec fn chain_len(n01: int, n12: int) -> int {
    ramp_len(n01) - 1 + ramp_len(n12)
}

/// Numerator of the chain value at index `t`, for the attribute with values
/// `a0`, `a1`, `a2` at the sorted vertices.
pub open spec fn chain_num(a0: int, a1: int, a2: int, n01: int, n12: int, t: int) -> int {
    if t < ramp_len(n01) - 1 {
        ramp_num(a0, a1, n01, t)
    } else {
        ramp_num(a1, a2, n12, t - (ramp_len(n01) - 1))
    }
}

/// Denominator of the chain value at index `t`.
pub open spec fn chain_den(n01: int, n12: int, t: int) -> int {
    if t < ramp_len(n01) - 1 {
        ramp_den(n01)
    } else {
        ramp_den(n12)
    }
}

/// The single global left/right decision: is the long edge (top vertex to
/// bottom vertex) the left boundary? Decided by comparing the long edge and
/// the short-edge chain, as exact fractions, at the chain's midpoint index.
pub open spec fn left_is_long(s0: Point, s1: Point, s2: Point) -> bool {
    let n01 = s1.y - s0.y;
    let n12 = s2.y - s1.y;
    let n02 = s2.y - s0.y;
    let m = chain_len(n01, n12) / 2;
    ramp_num(s0.x as int, s2.x as int, n02, m) * chain_den(n01, n12, m) < chain_num(
        s0.x as int,
        s1.x as int,
        s2.x as int,
        n01,
        n12,
        m,
    ) * ramp_den(n02)
}

/// Left fill bound (inclusive) on the scanline `t` rows below the top vertex,
/// truncated toward zero.
pub open spec fn row_xl(s0: Point, s1: Point, s2: Point, t: int) -> int {
    let n01 = s1.y - s0.y;
    let n12 = s2.y - s1.y;
    let n02 = s2.y - s0.y;
    if left_is_long(s0, s1, s2) {
        trunc_div(ramp_num(s0.x as int, s2.x as int, n02, t), ramp_den(n02))
    } else {
        trunc_div(chain_num(s0.x as int, s1.x as int, s2.x as int, n01, n12, t), chain_den(n01, n12, t))
    }
}

/// Right fill bound (exclusive) on the scanline `t` rows below the top
/// vertex, truncated toward zero.
pub open spec fn row_xr(s0: Point, s1: Point, s2: Point, t: int) -> int {
    let n01 = s1.y - s0.y;
    let n12 = s2.y - s1.y;
    let n02 = s2.y - s0.y;
    if left_is_long(s0, s1, s2) {
        trunc_div(chain_num(s0.x as int, s1.x as int, s2.x as int, n01, n12, t), chain_den(n01, n12, t))
    } else {
        trunc_div(ramp_num(s0.x as int, s2.x as int, n02, t), ramp_den(n02))
    }
}

/// The exact set of pixels a filled (or shaded) triangle paints: scanlines
/// from the top vertex's row to one row short of the bottom vertex's row,
/// each from the left bound up to (excluding) the right bound.
pub open spec fn fill_covers(p0: Point, p1: Point, p2: Point, i: int, j: int) -> bool {
    let (s0, s1, s2) = sort_y(p0, p1, p2);
    &&& s0.y <= j < s2.y - 1
    &&& row_xl(s0, s1, s2, j - s0.y) <= i < row_xr(s0, s1, s2, j - s0.y)
}

/// Draw the three edges of the triangle as supplied (no vertex sorting):
/// exactly the pixels of the three segments receive `color`.
pub fn draw_wire_triangle(buf: &mut PixelBuffer, p0: Point, p1: Point, p2: Point, color: Color)
    requires
        old(buf).wf(),
    ensures
        final(buf).wf(),
        final(buf).same_dims(*old(buf)),
        forall|i: int, j: int|
            final(buf).in_bounds(i, j) ==> final(buf).pixel(i, j) == (if line_covers(p0, p1, i, j)
                || line_covers(p1, p2, i, j) || line_covers(p2, p0, i, j) {
                color
            } else {
                old(buf).pixel(i, j)
            }),
{
    draw_line(buf, p0, p1, color);
    draw_line(buf, p1, p2, color);
    draw_line(buf, p2, p0, color);
}

/// Fill the triangle with vertices `p0`, `p1`, `p2`: paint `color` on exactly
/// the pixels `fill_covers(p0, p1, p2, ..)` describes and leave every other
/// pixel unchanged.
pub fn draw_filled_triangle(buf: &mut PixelBuffer, p0: Point, p1: Point, p2: Point, color: Color)
    requires
        old(buf).wf(),
    ensures
        final(buf).wf(),
        final(buf).same_dims(*old(buf)),
        forall|i: int, j: int|
            final(buf).in_bounds(i, j) ==> final(buf).pixel(i, j) == (if fill_covers(
                p0,
                p1,
                p2,
                i,
                j,
            ) {
                color
            } else {
                old(buf).pixel(i, j)
            }),
{
    let (q0, q1) = if p1.y < p0.y {
        (p1, p0)
    } else {
        (p0, p1)
    };
    let (s0, t2) = if p2.y < q0.y {
        (p2, q0)
    } else {
        (q0, p2)
    };
    let (s1, s2) = if t2.y < q1.y {
        (t2, q1)
    } else {
        (q1, t2)
    };
    proof {
        assert((s0, s1, s2) == sort_y(p0, p1, p2));
    }
    let n01: u32 = ((s1.y as i64) - (s0.y as i64)) as u32;
    let n12: u32 = ((s2.y as i64) - (s1.y as i64)) as u32;
    let n02: u32 = ((s2.y as i64) - (s0.y as i64)) as u32;
    let ghost g01 = n01 as int;
    let ghost g12 = n12 as int;
    let ghost g02 = n02 as int;

    let mut x012 = interpolate(0, s0.x, n01, s1.x);
    x012.pop();
    let mut x12 = interpolate(0, s1.x, n12, s2.x);
    x012.append(&mut x12);
    let x02 = interpolate(0, s0.x, n02, s2.x);

    proof {
        assert(x012@.len() == chain_len(g01, g12));
        assert forall|t: int| 0 <= t < x012@.len() implies (#[trigger] x012@[t]).num == chain_num(
            s0.x as int,
            s1.x as int,
            s2.x as int,
            g01,
            g12,
            t,
        ) && x012@[t].den == chain_den(g01, g12, t) && x012@[t].wf() by {}
        assert(chain_len(g01, g12) >= 1);
        assert(chain_len(g01, g12) <= ramp_len(g02));
    }

    let m: usize = x012.len() / 2;
    let is_left_long = frac_lt(x02[m], x012[m]);
    proof {
        assert(is_left_long == left_is_long(s0, s1, s2));
    }

    let rows: u32 = if n02 == 0 {
        0
    } else {
        n02 - 1
    };
    let mut t: u32 = 0;
    while t < rows
        invariant
            buf.wf(),
            buf.same_dims(*old(buf)),
            t <= rows,
            g01 == s1.y - s0.y,
            g12 == s2.y - s1.y,
            g02 == s2.y - s0.y,
            0 <= g02 <= 0xffff_ffffu32,
            rows as int == if g02 == 0 { 0int } else { g02 - 1 },
            (s0, s1, s2) == sort_y(p0, p1, p2),
            x012@.len() == chain_len(g01, g12),
            forall|u: int|
                0 <= u < x012@.len() ==> (#[trigger] x012@[u]).num == chain_num(
                    s0.x as int,
                    s1.x as int,
                    s2.x as int,
                    g01,
                    g12,
                    u,
                ) && x012@[u].den == chain_den(g01, g12, u) && x012@[u].wf(),
            is_ramp(x02@, s0.x as int, s2.x as int, g02),
            forall|u: int| 0 <= u < x02@.len() ==> (#[trigger] x02@[u]).wf(),
            is_left_long == left_is_long(s0, s1, s2),
            forall|i: int, j: int|
                buf.in_bounds(i, j) ==> buf.pixel(i, j) == (if fill_covers(p0, p1, p2, i, j) && j
                    < s0.y + t {
                    color
                } else {
                    old(buf).pixel(i, j)
                }),
        decreases rows - t,
    {
        let fl: Frac = if is_left_long {
            x02[t as usize]
        } else {
            x012[t as usize]
        };
        let fr: Frac = if is_left_long {
            x012[t as usize]
        } else {
            x02[t as usize]
        };
        let xl: i128 = frac_trunc(fl);
        let xr: i128 = frac_trunc(fr);
        proof {
            assert(xl == row_xl(s0, s1, s2, t as int));
            assert(xr == row_xr(s0, s1, s2, t as int));
        }
        let jy: i64 = (s0.y as i64) + (t as i64);
        if 0 <= jy && jy <= u32::MAX as i64 {
            let mut x: i128 = xl;
            while x < xr
                invariant
                    buf.wf(),
                    buf.same_dims(*old(buf)),
                    xl <= x,
                    x <= xr || x == xl,
                    jy == s0.y + t,
                    0 <= jy <= u32::MAX,
                    xl == row_xl(s0, s1, s2, t as int),
                    xr == row_xr(s0, s1, s2, t as int),
                    (s0, s1, s2) == sort_y(p0, p1, p2),
                    s0.y <= jy < s2.y - 1,
                    t == jy - s0.y,
                    forall|i: int, j: int|
                        buf.in_bounds(i, j) ==> buf.pixel(i, j) == (if (fill_covers(p0, p1, p2, i, j)
                            && j < jy) || (j == jy && xl <= i < x) {
                            color
                        } else {
                            old(buf).pixel(i, j)
                        }),
                decreases xr - x,
            {
                if 0 <= x && x <= u32::MAX as i128 {
                    buf.put_pixel(x as u32, jy as u32, color);
                }
                proof {
                    assert forall|i: int, j: int| buf.in_bounds(i, j) implies buf.pixel(i, j) == (
                    if (fill_covers(p0, p1, p2, i, j) && j < jy) || (j == jy && xl <= i < x + 1) {
                        color
                    } else {
                        old(buf).pixel(i, j)
                    }) by {}
                }
                x = x + 1;
            }
            proof {
                assert forall|i: int, j: int| buf.in_bounds(i, j) implies buf.pixel(i, j) == (
                if fill_covers(p0, p1, p2, i, j) && j < s0.y + t + 1 {
                    color
                } else {
                    old(buf).pixel(i, j)
                }) by {
                    if j == jy {
                        assert(fill_covers(p0, p1, p2, i, j) == (xl <= i < xr));
                    }
                }
            }
        } else {
            proof {
                assert forall|i: int, j: int| buf.in_bounds(i, j) implies buf.pixel(i, j) == (
                if fill_covers(p0, p1, p2, i, j) && j < s0.y + t + 1 {
                    color
                } else {
                    old(buf).pixel(i, j)
                }) by {}
            }
        }
        t = t + 1;
    }
    proof {
        assert forall|i: int, j: int|
            final(buf).in_bounds(i, j) implies final(buf).pixel(i, j) == (if fill_covers(
            p0,
            p1,
            p2,
            i,
            j,
        ) {
            color
        } else {
            old(buf).pixel(i, j)
        }) by {
            if fill_covers(p0, p1, p2, i, j) {
                assert(j < s0.y + rows);
            }
        }
    }
}

/// The fixed-point intensity scale: this value stands for an intensity of
/// one, under which a shaded pixel keeps the fill color's alpha exactly.
pub const INTENSITY_ONE: i32 = 65536;

/// Clamp an integer into the 8-bit channel range.
pub open spec fn clamp_u8(v: int) -> u8 {
    if v < 0 {
        0u8
    } else if v > 255 {
        255u8
    } else {
        v as u8
    }
}

/// Left-edge intensity (truncated toward zero) on the scanline `t` rows below
/// the top vertex, for the intensities `h0`, `h1`, `h2` at the sorted
/// vertices; the left edge is the one `left_is_long` picks.
pub open spec fn row_hl(s0: Point, s1: Point, s2: Point, h0: int, h1: int, h2: int, t: int) -> int {
    let n01 = s1.y - s0.y;
    let n12 = s2.y - s1.y;
    let n02 = s2.y - s0.y;
    if left_is_long(s0, s1, s2) {
        trunc_div(ramp_num(h0, h2, n02, t), ramp_den(n02))
    } else {
        trunc_div(chain_num(h0, h1, h2, n01, n12, t), chain_den(n01, n12, t))
    }
}

/// Right-edge intensity, the counterpart of `row_hl`.
pub open spec fn row_hr(s0: Point, s1: Point, s2: Point, h0: int, h1: int, h2: int, t: int) -> int {
    let n01 = s1.y - s0.y;
    let n12 = s2.y - s1.y;
    let n02 = s2.y - s0.y;
    if left_is_long(s0, s1, s2) {
        trunc_div(chain_num(h0, h1, h2, n01, n12, t), chain_den(n01, n12, t))
    } else {
        trunc_div(ramp_num(h0, h2, n02, t), ramp_den(n02))
    }
}

/// Alpha channel a shaded triangle writes at the covered pixel `(i, j)`: the
/// fill alpha `a`, scaled by the intensity interpolated horizontally between
/// the row's edge intensities, rounded to the nearest integer (a tie away
/// from zero) and clamped to 8 bits.
pub open spec fn shade_alpha(
    a: u8,
    p0: Point,
    p1: Point,
    p2: Point,
    h0: int,
    h1: int,
    h2: int,
    i: int,
    j: int,
) -> u8 {
    let (s0, s1, s2) = sort_y(p0, p1, p2);
    let t = j - s0.y;
    let xl = row_xl(s0, s1, s2, t);
    let xr = row_xr(s0, s1, s2, t);
    let hl = row_hl(s0, s1, s2, h0, h1, h2, t);
    let hr = row_hr(s0, s1, s2, h0, h1, h2, t);
    let nx = xr - xl;
    let k = i - xl;
    clamp_u8(nearest_div(a * ramp_num(hl, hr, nx, k), ramp_den(nx) * (INTENSITY_ONE as int)))
}

/// Full color a shaded triangle writes at the covered pixel `(i, j)`: the
/// fill color's three channels with the shaded alpha.
pub open spec fn shade_pixel(
    color: Color,
    p0: Point,
    p1: Point,
    p2: Point,
    h0: int,
    h1: int,
    h2: int,
    i: int,
    j: int,
) -> Color {
    Color { r: color.r, g: color.g, b: color.b, a: shade_alpha(color.a, p0, p1, p2, h0, h1, h2, i, j) }
}

/// A truncated fraction lies between any integer bounds that bracket it:
/// `lo * den <= num <= hi * den` pins `trunc_div(num, den)` into `[lo, hi]`.
proof fn lemma_trunc_div_between(num: int, den: int, lo: int, hi: int)
    requires
        1 <= den,
        lo * den <= num,
        num <= hi * den,
    ensures
        lo <= trunc_div(num, den) <= hi,
{
    if num >= 0 {
        if lo >= 0 {
            vstd::arithmetic::div_mod::lemma_div_is_ordered(lo * den, num, den);
            vstd::arithmetic::div_mod::lemma_div_multiples_vanish(lo, den);
            assert(den * lo == lo * den) by (nonlinear_arith);
        } else {
            vstd::arithmetic::div_mod::lemma_div_pos_is_pos(num, den);
        }
        vstd::arithmetic::div_mod::lemma_div_is_ordered(num, hi * den, den);
        vstd::arithmetic::div_mod::lemma_div_multiples_vanish(hi, den);
        assert(den * hi == hi * den) by (nonlinear_arith);
    } else {
        assert(-num <= (-lo) * den) by (nonlinear_arith)
            requires
                lo * den <= num,
        ;
        vstd::arithmetic::div_mod::lemma_div_is_ordered(-num, (-lo) * den, den);
        vstd::arithmetic::div_mod::lemma_div_multiples_vanish(-lo, den);
        assert(den * (-lo) == (-lo) * den) by (nonlinear_arith);
        if hi < 0 {
            assert((-hi) * den <= -num) by (nonlinear_arith)
                requires
                    num <= hi * den,
            ;
            vstd::arithmetic::div_mod::lemma_div_is_ordered((-hi) * den, -num, den);
            vstd::arithmetic::div_mod::lemma_div_multiples_vanish(-hi, den);
            assert(den * (-hi) == (-hi) * den) by (nonlinear_arith);
        } else {
            vstd::arithmetic::div_mod::lemma_div_pos_is_pos(-num, den);
        }
    }
}

/// Truncated chain values stay between bounds on the three attribute values.
proof fn lemma_chain_trunc_between(
    a0: int,
    a1: int,
    a2: int,
    n01: int,
    n12: int,
    t: int,
    lo: int,
    hi: int,
)
    requires
        n01 >= 0,
        n12 >= 0,
        0 <= t < chain_len(n01, n12),
        lo <= a0 <= hi,
        lo <= a1 <= hi,
        lo <= a2 <= hi,
    ensures
        lo <= trunc_div(chain_num(a0, a1, a2, n01, n12, t), chain_den(n01, n12, t)) <= hi,
{
    let den = chain_den(n01, n12, t);
    let num = chain_num(a0, a1, a2, n01, n12, t);
    if t < ramp_len(n01) - 1 {
        lemma_ramp_num_between(a0, a1, n01, t);
    } else {
        lemma_ramp_num_between(a1, a2, n12, t - (ramp_len(n01) - 1));
    }
    assert(lo * den <= num && num <= hi * den) by (nonlinear_arith)
        requires
            1 <= den,
            lo <= a0 <= hi,
            lo <= a1 <= hi,
            lo <= a2 <= hi,
            (a0 * den <= num <= a1 * den) || (a1 * den <= num <= a0 * den) || (a1 * den <= num
                <= a2 * den) || (a2 * den <= num <= a1 * den),
    ;
    lemma_trunc_div_between(num, den, lo, hi);
}

/// Truncated long-edge values stay between bounds on the two endpoint
/// attribute values.
proof fn lemma_ramp_trunc_between(d0: int, d1: int, n: int, t: int, lo: int, hi: int)
    requires
        n >= 0,
        0 <= t < ramp_len(n),
        lo <= d0 <= hi,
        lo <= d1 <= hi,
    ensures
        lo <= trunc_div(ramp_num(d0, d1, n, t), ramp_den(n)) <= hi,
{
    let den = ramp_den(n);
    let num = ramp_num(d0, d1, n, t);
    lemma_ramp_num_between(d0, d1, n, t);
    assert(lo * den <= num && num <= hi * den) by (nonlinear_arith)
        requires
            1 <= den,
            lo <= d0 <= hi,
            lo <= d1 <= hi,
            (d0 * den <= num <= d1 * den) || (d1 * den <= num <= d0 * den),
    ;
    lemma_trunc_div_between(num, den, lo, hi);
}

/// Every value of a ramp lies between the ramp's two endpoint values, scaled
/// by the common denominator.
proof fn lemma_ramp_num_between(d0: int, d1: int, n: int, k: int)
    requires
        0 <= k,
        k <= n || n == 0,
    ensures
        d0 <= d1 ==> d0 * ramp_den(n) <= ramp_num(d0, d1, n, k) <= d1 * ramp_den(n),
        d1 <= d0 ==> d1 * ramp_den(n) <= ramp_num(d0, d1, n, k) <= d0 * ramp_den(n),
{
    if n == 0 {
    } else {
        assert(d0 * n + k * (d1 - d0) == (n - k) * d0 + k * d1) by (nonlinear_arith);
        if d0 <= d1 {
            assert((n - k) * d0 + k * d1 >= d0 * n && (n - k) * d0 + k * d1 <= d1 * n)
                by (nonlinear_arith)
                requires
                    0 <= k <= n,
                    d0 <= d1,
            ;
        } else {
            assert((n - k) * d0 + k * d1 <= d0 * n && (n - k) * d0 + k * d1 >= d1 * n)
                by (nonlinear_arith)
                requires
                    0 <= k <= n,
                    d1 <= d0,
            ;
        }
    }
}

/// Fill the triangle like `draw_filled_triangle`, but shade the alpha
/// channel: per-vertex fixed-point intensities (`INTENSITY_ONE` stands for
/// one) are interpolated along the same left and right edges and then
/// horizontally across every scanline, and each covered pixel receives the
/// fill color with its alpha scaled by the pixel's intensity. The intensities
/// pair with the vertices in sorted-`y` order, not with `p0`, `p1`, `p2` as
/// supplied.
pub fn draw_shaded_triangle(
    buf: &mut PixelBuffer,
    p0: Point,
    p1: Point,
    p2: Point,
    color: Color,
    h: [i32; 3],
)
    requires
        old(buf).wf(),
    ensures
        final(buf).wf(),
        final(buf).same_dims(*old(buf)),
        forall|i: int, j: int|
            final(buf).in_bounds(i, j) ==> final(buf).pixel(i, j) == (if fill_covers(
                p0,
                p1,
                p2,
                i,
                j,
            ) {
                shade_pixel(color, p0, p1, p2, h[0] as int, h[1] as int, h[2] as int, i, j)
            } else {
                old(buf).pixel(i, j)
            }),
{
    let (q0, q1) = if p1.y < p0.y {
        (p1, p0)
    } else {
        (p0, p1)
    };
    let (s0, t2) = if p2.y < q0.y {
        (p2, q0)
    } else {
        (q0, p2)
    };
    let (s1, s2) = if t2.y < q1.y {
        (t2, q1)
    } else {
        (q1, t2)
    };
    proof {
        assert((s0, s1, s2) == sort_y(p0, p1, p2));
    }
    let h0: i32 = h[0];
    let h1: i32 = h[1];
    let h2: i32 = h[2];
    let n01: u32 = ((s1.y as i64) - (s0.y as i64)) as u32;
    let n12: u32 = ((s2.y as i64) - (s1.y as i64)) as u32;
    let n02: u32 = ((s2.y as i64) - (s0.y as i64)) as u32;
    let ghost g01 = n01 as int;
    let ghost g12 = n12 as int;
    let ghost g02 = n02 as int;

    let mut x012 = interpolate(0, s0.x, n01, s1.x);
    x012.pop();
    let mut x12 = interpolate(0, s1.x, n12, s2.x);
    x012.append(&mut x12);
    let x02 = interpolate(0, s0.x, n02, s2.x);

    let mut h012 = interpolate(0, h0, n01, h1);
    h012.pop();
    let mut h12 = interpolate(0, h1, n12, h2);
    h012.append(&mut h12);
    let h02 = interpolate(0, h0, n02, h2);

    proof {
        assert(x012@.len() == chain_len(g01, g12));
        assert forall|t: int| 0 <= t < x012@.len() implies (#[trigger] x012@[t]).num == chain_num(
            s0.x as int,
            s1.x as int,
            s2.x as int,
            g01,
            g12,
            t,
        ) && x012@[t].den == chain_den(g01, g12, t) && x012@[t].wf() by {}
        assert(h012@.len() == chain_len(g01, g12));
        assert forall|t: int| 0 <= t < h012@.len() implies (#[trigger] h012@[t]).num == chain_num(
            h0 as int,
            h1 as int,
            h2 as int,
            g01,
            g12,
            t,
        ) && h012@[t].den == chain_den(g01, g12, t) && h012@[t].wf() by {}
        assert(chain_len(g01, g12) >= 1);
        assert(chain_len(g01, g12) <= ramp_len(g02));
    }

    let m: usize = x012.len() / 2;
    let is_left_long = frac_lt(x02[m], x012[m]);
    proof {
        assert(is_left_long == left_is_long(s0, s1, s2));
    }

    let rows: u32 = if n02 == 0 {
        0
    } else {
        n02 - 1
    };
    let mut t: u32 = 0;
    while t < rows
        invariant
            buf.wf(),
            buf.same_dims(*old(buf)),
            t <= rows,
            g01 == s1.y - s0.y,
            g12 == s2.y - s1.y,
            g02 == s2.y - s0.y,
            0 <= g02 <= 0xffff_ffffu32,
            rows as int == if g02 == 0 { 0int } else { g02 - 1 },
            (s0, s1, s2) == sort_y(p0, p1, p2),
            h0 == h[0] && h1 == h[1] && h2 == h[2],
            x012@.len() == chain_len(g01, g12),
            forall|u: int|
                0 <= u < x012@.len() ==> (#[trigger] x012@[u]).num == chain_num(
                    s0.x as int,
                    s1.x as int,
                    s2.x as int,
                    g01,
                    g12,
                    u,
                ) && x012@[u].den == chain_den(g01, g12, u) && x012@[u].wf(),
            h012@.len() == chain_len(g01, g12),
            forall|u: int|
                0 <= u < h012@.len() ==> (#[trigger] h012@[u]).num == chain_num(
                    h0 as int,
                    h1 as int,
                    h2 as int,
                    g01,
                    g12,
                    u,
                ) && h012@[u].den == chain_den(g01, g12, u) && h012@[u].wf(),
            is_ramp(x02@, s0.x as int, s2.x as int, g02),
            forall|u: int| 0 <= u < x02@.len() ==> (#[trigger] x02@[u]).wf(),
            is_ramp(h02@, h0 as int, h2 as int, g02),
            forall|u: int| 0 <= u < h02@.len() ==> (#[trigger] h02@[u]).wf(),
            is_left_long == left_is_long(s0, s1, s2),
            forall|i: int, j: int|
                buf.in_bounds(i, j) ==> buf.pixel(i, j) == (if fill_covers(p0, p1, p2, i, j) && j
                    < s0.y + t {
                    shade_pixel(color, p0, p1, p2, h[0] as int, h[1] as int, h[2] as int, i, j)
                } else {
                    old(buf).pixel(i, j)
                }),
        decreases rows - t,
    {
        let fl: Frac = if is_left_long {
            x02[t as usize]
        } else {
            x012[t as usize]
        };
        let fr: Frac = if is_left_long {
            x012[t as usize]
        } else {
            x02[t as usize]
        };
        let hfl: Frac = if is_left_long {
            h02[t as usize]
        } else {
            h012[t as usize]
        };
        let hfr: Frac = if is_left_long {
            h012[t as usize]
        } else {
            h02[t as usize]
        };
        let xl: i128 = frac_trunc(fl);
        let xr: i128 = frac_trunc(fr);
        let hl: i128 = frac_trunc(hfl);
        let hr: i128 = frac_trunc(hfr);
        proof {
            assert(xl == row_xl(s0, s1, s2, t as int));
            assert(xr == row_xr(s0, s1, s2, t as int));
            assert(hl == row_hl(s0, s1, s2, h0 as int, h1 as int, h2 as int, t as int));
            assert(hr == row_hr(s0, s1, s2, h0 as int, h1 as int, h2 as int, t as int));
            if t < chain_len(g01, g12) {
                lemma_chain_trunc_between(
                    s0.x as int,
                    s1.x as int,
                    s2.x as int,
                    g01,
                    g12,
                    t as int,
                    i32::MIN as int,
                    i32::MAX as int,
                );
                lemma_chain_trunc_between(
                    h0 as int,
                    h1 as int,
                    h2 as int,
                    g01,
                    g12,
                    t as int,
                    i32::MIN as int,
                    i32::MAX as int,
                );
            }
            lemma_ramp_trunc_between(
                s0.x as int,
                s2.x as int,
                g02,
                t as int,
                i32::MIN as int,
                i32::MAX as int,
            );
            lemma_ramp_trunc_between(
                h0 as int,
                h2 as int,
                g02,
                t as int,
                i32::MIN as int,
                i32::MAX as int,
            );
            assert(i32::MIN <= xl <= i32::MAX);
            assert(i32::MIN <= xr <= i32::MAX);
            assert(i32::MIN <= hl <= i32::MAX);
            assert(i32::MIN <= hr <= i32::MAX);
        }
        let jy: i64 = (s0.y as i64) + (t as i64);
        if 0 <= jy && jy <= u32::MAX as i64 && xl < xr {
            let nx: u32 = (xr - xl) as u32;
            let seg = interpolate(0, hl as i32, nx, hr as i32);
            let mut k: u32 = 0;
            while k < nx
                invariant
                    buf.wf(),
                    buf.same_dims(*old(buf)),
                    k <= nx,
                    nx as int == xr - xl,
                    1 <= nx,
                    jy == s0.y + t,
                    0 <= jy <= u32::MAX,
                    xl == row_xl(s0, s1, s2, t as int),
                    xr == row_xr(s0, s1, s2, t as int),
                    hl == row_hl(s0, s1, s2, h[0] as int, h[1] as int, h[2] as int, t as int),
                    hr == row_hr(s0, s1, s2, h[0] as int, h[1] as int, h[2] as int, t as int),
                    (s0, s1, s2) == sort_y(p0, p1, p2),
                    s0.y <= jy < s2.y - 1,
                    t == jy - s0.y,
                    is_ramp(seg@, hl as int, hr as int, nx as int),
                    forall|u: int| 0 <= u < seg@.len() ==> (#[trigger] seg@[u]).wf(),
                    forall|i: int, j: int|
                        buf.in_bounds(i, j) ==> buf.pixel(i, j) == (if (fill_covers(p0, p1, p2, i, j)
                            && j < jy) || (j == jy && xl <= i < xl + k) {
                            shade_pixel(
                                color,
                                p0,
                                p1,
                                p2,
                                h[0] as int,
                                h[1] as int,
                                h[2] as int,
                                i,
                                j,
                            )
                        } else {
                            old(buf).pixel(i, j)
                        }),
                decreases nx - k,
            {
                let f: Frac = seg[k as usize];
                proof {
                    assert((color.a as i128) * f.num <= 255i128 * 0x4_0000_0000_0000_0000i128
                        && (color.a as i128) * f.num >= -255i128 * 0x4_0000_0000_0000_0000i128)
                        by (nonlinear_arith)
                        requires
                            0 <= color.a as i128 <= 255i128,
                            -0x4_0000_0000_0000_0000i128 <= f.num <= 0x4_0000_0000_0000_0000i128,
                    ;
                }
                let av: i128 = frac_round(
                    Frac { num: (color.a as i128) * f.num, den: f.den * 65536 },
                );
                let a8: u8 = if av < 0 {
                    0
                } else if av > 255 {
                    255
                } else {
                    av as u8
                };
                let sc = Color { r: color.r, g: color.g, b: color.b, a: a8 };
                let x: i128 = xl + (k as i128);
                proof {
                    assert(a8 == shade_alpha(
                        color.a,
                        p0,
                        p1,
                        p2,
                        h[0] as int,
                        h[1] as int,
                        h[2] as int,
                        x as int,
                        jy as int,
                    ));
                }
                if 0 <= x && x <= u32::MAX as i128 {
                    buf.put_pixel(x as u32, jy as u32, sc);
                }
                proof {
                    assert forall|i: int, j: int| buf.in_bounds(i, j) implies buf.pixel(i, j) == (
                    if (fill_covers(p0, p1, p2, i, j) && j < jy) || (j == jy && xl <= i < xl + k
                        + 1) {
                        shade_pixel(color, p0, p1, p2, h[0] as int, h[1] as int, h[2] as int, i, j)
                    } else {
                        old(buf).pixel(i, j)
                    }) by {}
                }
                k = k + 1;
            }
            proof {
                assert forall|i: int, j: int| buf.in_bounds(i, j) implies buf.pixel(i, j) == (
                if fill_covers(p0, p1, p2, i, j) && j < s0.y + t + 1 {
                    shade_pixel(color, p0, p1, p2, h[0] as int, h[1] as int, h[2] as int, i, j)
                } else {
                    old(buf).pixel(i, j)
                }) by {
                    if j == jy {
                        assert(fill_covers(p0, p1, p2, i, j) == (xl <= i < xr));
                    }
                }
            }
        } else {
            proof {
                assert forall|i: int, j: int| buf.in_bounds(i, j) implies buf.pixel(i, j) == (
                if fill_covers(p0, p1, p2, i, j) && j < s0.y + t + 1 {
                    shade_pixel(color, p0, p1, p2, h[0] as int, h[1] as int, h[2] as int, i, j)
                } else {
                    old(buf).pixel(i, j)
                }) by {
                    if j == jy {
                        assert(fill_covers(p0, p1, p2, i, j) == (xl <= i < xr));
                    }
                }
            }
        }
        t = t + 1;
    }
    proof {
        assert forall|i: int, j: int|
            final(buf).in_bounds(i, j) implies final(buf).pixel(i, j) == (if fill_covers(
            p0,
            p1,
            p2,
            i,
            j,
        ) {
            shade_pixel(color, p0, p1, p2, h[0] as int, h[1] as int, h[2] as int, i, j)
        } else {
            old(buf).pixel(i, j)
        }) by {
            if fill_covers(p0, p1, p2, i, j) {
                assert(j < s0.y + rows);
            }
        }
    }
}

/// Law: with all three intensities zero, every pixel a shaded triangle
/// covers is written fully transparent (alpha zero).
pub proof fn lemma_shade_zero_alpha(a: u8, p0: Point, p1: Point, p2: Point, i: int, j: int)
    requires
        fill_covers(p0, p1, p2, i, j),
    ensures
        shade_alpha(a, p0, p1, p2, 0, 0, 0, i, j) == 0,
{
    let (s0, s1, s2) = sort_y(p0, p1, p2);
    let t = j - s0.y;
    let n01 = s1.y - s0.y;
    let n12 = s2.y - s1.y;
    let n02 = s2.y - s0.y;
    assert(ramp_num(0, 0, n02, t) == 0);
    assert(chain_num(0, 0, 0, n01, n12, t) == 0) by {
        assert(ramp_num(0, 0, n01, t) == 0);
        assert(ramp_num(0, 0, n12, t - (ramp_len(n01) - 1)) == 0);
    }
    vstd::arithmetic::div_mod::lemma_div_of0(ramp_den(n02));
    vstd::arithmetic::div_mod::lemma_div_of0(chain_den(n01, n12, t));
    let hl = row_hl(s0, s1, s2, 0, 0, 0, t);
    let hr = row_hr(s0, s1, s2, 0, 0, 0, t);
    assert(hl == 0 && hr == 0);
    let xl = row_xl(s0, s1, s2, t);
    let xr = row_xr(s0, s1, s2, t);
    let nx = xr - xl;
    assert(ramp_num(0, 0, nx, i - xl) == 0);
    assert(ramp_den(nx) * (INTENSITY_ONE as int) >= 1) by (nonlinear_arith)
        requires
            ramp_den(nx) >= 1,
            INTENSITY_ONE == 65536,
    ;
    lemma_nearest_times_den(0, ramp_den(nx) * (INTENSITY_ONE as int));
}

/// Law: with all three intensities at `INTENSITY_ONE`, every pixel a shaded
/// triangle covers keeps the fill color's alpha exactly, so the shaded fill
/// reproduces the flat fill's alpha.
pub proof fn lemma_shade_one_alpha(a: u8, p0: Point, p1: Point, p2: Point, i: int, j: int)
    requires
        fill_covers(p0, p1, p2, i, j),
    ensures
        shade_alpha(
            a,
            p0,
            p1,
            p2,
            INTENSITY_ONE as int,
            INTENSITY_ONE as int,
            INTENSITY_ONE as int,
            i,
            j,
        ) == a,
{
    let one = INTENSITY_ONE as int;
    let (s0, s1, s2) = sort_y(p0, p1, p2);
    let t = j - s0.y;
    let n01 = s1.y - s0.y;
    let n12 = s2.y - s1.y;
    let n02 = s2.y - s0.y;
    assert(ramp_num(one, one, n02, t) == one * ramp_den(n02));
    assert(chain_num(one, one, one, n01, n12, t) == one * chain_den(n01, n12, t)) by {
        assert(ramp_num(one, one, n01, t) == one * ramp_den(n01));
        assert(ramp_num(one, one, n12, t - (ramp_len(n01) - 1)) == one * ramp_den(n12));
    }
    lemma_trunc_times_den(one, ramp_den(n02));
    lemma_trunc_times_den(one, chain_den(n01, n12, t));
    let hl = row_hl(s0, s1, s2, one, one, one, t);
    let hr = row_hr(s0, s1, s2, one, one, one, t);
    assert(hl == one && hr == one);
    let xl = row_xl(s0, s1, s2, t);
    let xr = row_xr(s0, s1, s2, t);
    let nx = xr - xl;
    assert(1 <= nx);
    assert(ramp_num(one, one, nx, i - xl) == one * nx);
    assert(a * (one * nx) == a * (nx * one)) by (nonlinear_arith);
    assert(ramp_den(nx) == nx);
    assert(nx * one >= 1) by (nonlinear_arith)
        requires
            nx >= 1,
            one == 65536,
    ;
    lemma_nearest_times_den(a as int, nx * one);
    assert(clamp_u8(a as int) == a);
}

/// Rounding `v * den` over the positive denominator `den` gives back `v`
/// exactly, for nonnegative `v`.
proof fn lemma_nearest_times_den(v: int, den: int)
    requires
        1 <= den,
        0 <= v,
    ensures
        nearest_div(v * den, den) == v,
{
    assert(v * den >= 0) by (nonlinear_arith)
        requires
            v >= 0,
            den >= 1,
    ;
    assert(2 * (v * den) + den == (2 * den) * v + den) by (nonlinear_arith);
    vstd::arithmetic::div_mod::lemma_div_multiples_vanish_fancy(v, den, 2 * den);
}

/// Truncating `v * den` over the positive denominator `den` gives back `v`.
proof fn lemma_trunc_times_den(v: int, den: int)
    requires
        1 <= den,
    ensures
        trunc_div(v * den, den) == v,
{
    if v >= 0 {
        assert(v * den >= 0) by (nonlinear_arith)
            requires
                v >= 0,
                den >= 1,
        ;
        vstd::arithmetic::div_mod::lemma_div_multiples_vanish(v, den);
        assert(den * v == v * den) by (nonlinear_arith);
    } else {
        assert(v * den < 0) by (nonlinear_arith)
            requires
                v < 0,
                den >= 1,
        ;
        assert(-(v * den) == (-v) * den) by (nonlinear_arith);
        vstd::arithmetic::div_mod::lemma_div_multiples_vanish(-v, den);
        assert(den * (-v) == (-v) * den) by (nonlinear_arith);
    }
}

} // verus!
