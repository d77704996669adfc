//! Straight-segment rasterization by an axis-dominant, integer-stepped scan.
//!
//! The axis with the larger absolute delta is the independent axis; endpoints
//! are swapped if needed so it increases, the dependent coordinate is
//! interpolated across the independent integer range, and one pixel is
//! written per step, with the dependent coordinate truncated toward zero.
//! Because of that truncation, drawing from `b` to `a` need not paint the
//! same pixels as drawing from `a` to `b`; this asymmetry is part of the
//! contract, not an accident.

use vstd::prelude::*;

use crate::buffer::Color;
use crate::buffer::PixelBuffer;
use crate::buffer::Point;
use crate::frac::frac_trunc;
use crate::frac::trunc_div;
use crate::interp::interpolate;
use crate::interp::is_ramp;
use crate::interp::ramp_den;
use crate::interp::ramp_num;

verus! {

/// Absolute value of an integer.
pub open spec fn iabs(v: int) -> int {
    if v >= 0 {
        v
    } else {
        -v
    }
}

/// Pixels of an x-dominant scan from `a` to `b` (requires `a.x < b.x`): one
/// pixel per column `i` in `[a.x, b.x)`, at the truncated interpolated row.
pub open spec fn covers_x_scan(a: Point, b: Point, i: int, j: int) -> bool {
    let n = b.x - a.x;
    a.x <= i < b.x && j == trunc_div(ramp_num(a.y as int, b.y as int, n, i - a.x), ramp_den(n))
}

/// Pixels of a y-dominant scan from `a` to `b` (requires `a.y < b.y`): one
/// pixel per row `j` in `[a.y, b.y)`, at the truncated interpolated column.
pub open spec fn covers_y_scan(a: Point, b: Point, i: int, j: int) -> bool {
    let n = b.y - a.y;
    a.y <= j < b.y && i == trunc_div(ramp_num(a.x as int, b.x as int, n, j - a.y), ramp_den(n))
}

/// The exact set of pixels `draw_line(p0, p1, _)` paints: the dominant axis
/// is scanned from the lower endpoint to just before the higher one.
pub open spec fn line_covers(p0: Point, p1: Point, i: int, j: int) -> bool {
    if iabs(p1.x - p0.x) > iabs(p1.y - p0.y) {
        if p0.x > p1.x {
            covers_x_scan(p1, p0, i, j)
        } else {
            covers_x_scan(p0, p1, i, j)
        }
    } else {
        if p0.y > p1.y {
            covers_y_scan(p1, p0, i, j)
        } else {
            covers_y_scan(p0, p1, i, j)
        }
    }
}

/// Rasterize the straight segment between `p0` and `p1`: paint `color` on
/// exactly the pixels `line_covers(p0, p1, ..)` describes and leave every
/// other pixel unchanged.
pub fn draw_line(buf: &mut PixelBuffer, p0: Point, p1: Point, color: Color)
    requires
        old(buf).wf(),
    ensures
        final(buf).wf(),
        final(buf).same_dims(*old(buf)),
        forall|i: int, j: int|
            final(buf).in_bounds(i, j) ==> final(buf).pixel(i, j) == (if line_covers(p0, p1, i, j) {
                color
            } else {
                old(buf).pixel(i, j)
            }),
{
    let dx: i64 = (p1.x as i64) - (p0.x as i64);
    let dy: i64 = (p1.y as i64) - (p0.y as i64);
    let adx: i64 = if dx >= 0 {
        dx
    } else {
        -dx
    };
    let ady: i64 = if dy >= 0 {
        dy
    } else {
        -dy
    };
    if adx > ady {
        let (a, b) = if p0.x > p1.x {
            (p1, p0)
        } else {
            (p0, p1)
        };
        let n: u32 = ((b.x as i64) - (a.x as i64)) as u32;
        let ys = interpolate(0, a.y, n, b.y);
        let ghost nn = n as int;
        let mut k: u32 = 0;
        while k < n
            invariant
                buf.wf(),
                buf.same_dims(*old(buf)),
                k <= n,
                nn == n as int,
                1 <= nn <= 0xffff_ffffu32,
                nn == b.x - a.x,
                forall|i: int, j: int| line_covers(p0, p1, i, j) == covers_x_scan(a, b, i, j),
                is_ramp(ys@, a.y as int, b.y as int, nn),
                forall|t: int| 0 <= t < ys@.len() ==> (#[trigger] ys@[t]).wf(),
                forall|i: int, j: int|
                    buf.in_bounds(i, j) ==> buf.pixel(i, j) == (if covers_x_scan(a, b, i, j) && i
                        < a.x + k {
                        color
                    } else {
                        old(buf).pixel(i, j)
                    }),
            decreases n - k,
        {
            let yf = ys[k as usize];
            let yt: i128 = frac_trunc(yf);
            proof {
                assert(yt == trunc_div(ramp_num(a.y as int, b.y as int, nn, k as int), ramp_den(nn)));
            }
            let x: i64 = (a.x as i64) + (k as i64);
            if 0 <= x && x <= u32::MAX as i64 && 0 <= yt && yt <= u32::MAX as i128 {
                buf.put_pixel(x as u32, yt as u32, color);
            }
            proof {
                assert forall|i: int, j: int| buf.in_bounds(i, j) implies buf.pixel(i, j) == (
                if covers_x_scan(a, b, i, j) && i < a.x + k + 1 {
                    color
                } else {
                    old(buf).pixel(i, j)
                }) by {
                    if i == a.x + k && covers_x_scan(a, b, i, j) {
                        assert(j == yt);
                    }
                }
            }
            k = k + 1;
        }
    } else {
        let (a, b) = if p0.y > p1.y {
            (p1, p0)
        } else {
            (p0, p1)
        };
        let n: u32 = ((b.y as i64) - (a.y as i64)) as u32;
        let xs = interpolate(0, a.x, n, b.x);
        let ghost nn = n as int;
        let mut k: u32 = 0;
        while k < n
            invariant
                buf.wf(),
                buf.same_dims(*old(buf)),
                k <= n,
                nn == n as int,
                0 <= nn <= 0xffff_ffffu32,
                nn == b.y - a.y,
                forall|i: int, j: int| line_covers(p0, p1, i, j) == covers_y_scan(a, b, i, j),
                is_ramp(xs@, a.x as int, b.x as int, nn),
                forall|t: int| 0 <= t < xs@.len() ==> (#[trigger] xs@[t]).wf(),
                forall|i: int, j: int|
                    buf.in_bounds(i, j) ==> buf.pixel(i, j) == (if covers_y_scan(a, b, i, j) && j
                        < a.y + k {
                        color
                    } else {
                        old(buf).pixel(i, j)
                    }),
            decreases n - k,
        {
            let xf = xs[k as usize];
            let xt: i128 = frac_trunc(xf);
            proof {
                assert(xt == trunc_div(ramp_num(a.x as int, b.x as int, nn, k as int), ramp_den(nn)));
            }
            let y: i64 = (a.y as i64) + (k as i64);
            if 0 <= xt && xt <= u32::MAX as i128 && 0 <= y && y <= u32::MAX as i64 {
                buf.put_pixel(xt as u32, y as u32, color);
            }
            proof {
                assert forall|i: int, j: int| buf.in_bounds(i, j) implies buf.pixel(i, j) == (
                if covers_y_scan(a, b, i, j) && j < a.y + k + 1 {
                    color
                } else {
                    old(buf).pixel(i, j)
                }) by {
                    if j == a.y + k && covers_y_scan(a, b, i, j) {
                        assert(i == xt);
                    }
                }
            }
            k = k + 1;
        }
    }
}

} // verus!
