//! The RGBA pixel buffer: a row-major grid of 4-byte pixels with a width and
//! height fixed at construction.
//!
//! Writes outside the grid are silent no-ops, never errors: out-of-range
//! coordinates are the caller's responsibility to avoid for visible output,
//! but they can never corrupt the buffer or another row.

use vstd::prelude::*;

verus! {

/// A vertex or pixel coordinate: a pair of signed integers. Only coordinates
/// within `[0, width) x [0, height)` produce visible output.
#[derive(Clone, Copy, PartialEq, Eq, Structural, Debug)]
pub struct Point {
    pub x: i32,
    pub y: i32,
}

/// An RGBA color: four unsigned 8-bit channels.
#[derive(Clone, Copy, PartialEq, Eq, Structural, Debug)]
pub struct Color {
    pub r: u8,
    pub g: u8,
    pub b: u8,
    pub a: u8,
}

/// A contiguous RGBA byte buffer, logically a row-major grid of
/// `width * height` 4-byte pixels.
pub struct PixelBuffer {
    pub data: Vec<u8>,
    pub width: u32,
    pub height: u32,
}

impl PixelBuffer {
    /// The byte vector holds exactly one 4-byte pixel per grid cell.
    pub open spec fn wf(self) -> bool {
        self.data@.len() == self.width * self.height * 4
    }

    /// Is `(x, y)` a cell of the grid?
    pub open spec fn in_bounds(self, x: int, y: int) -> bool {
        0 <= x < self.width && 0 <= y < self.height
    }

    /// The color stored at cell `(x, y)`.
    pub open spec fn pixel(self, x: int, y: int) -> Color {
        let base = (y * self.width + x) * 4;
        Color {
            r: self.data@[base],
            g: self.data@[base + 1],
            b: self.data@[base + 2],
            a: self.data@[base + 3],
        }
    }

    /// Both buffers have the same dimensions (and so the same byte length).
    pub open spec fn same_dims(self, other: PixelBuffer) -> bool {
        self.width == other.width && self.height == other.height
    }

    /// Create a buffer of `width * height` pixels, all fully transparent
    /// black.
    pub fn new(width: u32, height: u32) -> (r: PixelBuffer)
        requires
            width * height * 4 <= usize::MAX,
        ensures
            r.wf(),
            r.width == width,
            r.height == height,
            forall|i: int, j: int|
                r.in_bounds(i, j) ==> r.pixel(i, j) == (Color { r: 0u8, g: 0u8, b: 0u8, a: 0u8 }),
    {
        proof {
            assert(width * height * 4 >= 0) by (nonlinear_arith);
        }
        let n: usize = ((width as u64) * (height as u64)) as usize * 4;
        let data: Vec<u8> = vec![0u8; n];
        let r = PixelBuffer { data, width, height };
        proof {
            assert forall|i: int, j: int| r.in_bounds(i, j) implies r.pixel(i, j) == (Color {
                r: 0u8,
                g: 0u8,
                b: 0u8,
                a: 0u8,
            }) by {
                lemma_cell_in_range(i, j, width as int, height as int);
            }
        }
        r
    }

    /// Write `color` at `(x, y)` if and only if that cell lies within the
    /// grid; otherwise do nothing. No other cell changes either way.
    pub fn put_pixel(&mut self, x: u32, y: u32, color: Color)
        requires
            old(self).wf(),
        ensures
            final(self).wf(),
            final(self).same_dims(*old(self)),
            forall|i: int, j: int|
                final(self).in_bounds(i, j) ==> final(self).pixel(i, j) == (if i == x && j == y {
                    color
                } else {
                    old(self).pixel(i, j)
                }),
    {
        if x < self.width && y < self.height {
            proof {
                lemma_cell_in_range(x as int, y as int, self.width as int, self.height as int);
                assert(self.data.len() <= usize::MAX);
                assert((y * self.width + x) * 4 + 3 < self.data@.len());
            }
            let base: usize = (((y as u64) * (self.width as u64) + (x as u64)) * 4) as usize;
            self.data[base] = color.r;
            self.data[base + 1] = color.g;
            self.data[base + 2] = color.b;
            self.data[base + 3] = color.a;
            proof {
                assert forall|i: int, j: int| self.in_bounds(i, j) implies self.pixel(i, j) == (
                if i == x && j == y {
                    color
                } else {
                    old(self).pixel(i, j)
                }) by {
                    lemma_cell_in_range(i, j, self.width as int, self.height as int);
                    if i != x || j != y {
                        lemma_cell_distinct(i, j, x as int, y as int, self.width as int);
                    }
                }
            }
        }
    }

    /// Overwrite every pixel of the grid with `color`.
    pub fn clear(&mut self, color: Color)
        requires
            old(self).wf(),
        ensures
            final(self).wf(),
            final(self).same_dims(*old(self)),
            forall|i: int, j: int|
                final(self).in_bounds(i, j) ==> final(self).pixel(i, j) == color,
    {
        proof {
            assert(0 <= (self.width as int) * (self.height as int) < 0x1_0000_0000_0000_0000)
                by (nonlinear_arith)
                requires
                    0 <= self.width < 0x1_0000_0000,
                    0 <= self.height < 0x1_0000_0000,
            ;
        }
        let count: u64 = (self.width as u64) * (self.height as u64);
        let mut data: Vec<u8> = Vec::new();
        let mut p: u64 = 0;
        while p < count
            invariant
                p <= count,
                data@.len() == p * 4,
                forall|q: int|
                    0 <= q < p ==> #[trigger] data@[4 * q] == color.r && data@[4 * q + 1]
                        == color.g && data@[4 * q + 2] == color.b && data@[4 * q + 3] == color.a,
            decreases count - p,
        {
            let ghost before = data@;
            data.push(color.r);
            data.push(color.g);
            data.push(color.b);
            data.push(color.a);
            proof {
                assert(data@ == before.push(color.r).push(color.g).push(color.b).push(color.a));
                assert forall|q: int| 0 <= q < p + 1 implies #[trigger] data@[4 * q] == color.r
                    && data@[4 * q + 1] == color.g && data@[4 * q + 2] == color.b && data@[4 * q
                    + 3] == color.a by {
                    if q == p {
                        assert(data@[4 * q] == color.r);
                        assert(data@[4 * q + 1] == color.g);
                        assert(data@[4 * q + 2] == color.b);
                        assert(data@[4 * q + 3] == color.a);
                    } else {
                        assert(data@[4 * q] == before[4 * q]);
                        assert(data@[4 * q + 1] == before[4 * q + 1]);
                        assert(data@[4 * q + 2] == before[4 * q + 2]);
                        assert(data@[4 * q + 3] == before[4 * q + 3]);
                    }
                }
            }
            p = p + 1;
        }
        self.data = data;
        proof {
            assert(self.wf()) by {
                assert(count * 4 == self.width * self.height * 4) by (nonlinear_arith)
                    requires
                        count == self.width * self.height,
                ;
            }
            assert forall|i: int, j: int| self.in_bounds(i, j) implies self.pixel(i, j)
                == color by {
                lemma_cell_in_range(i, j, self.width as int, self.height as int);
                let q = j * self.width + i;
                assert(self.data@[4 * q] == color.r && self.data@[4 * q + 1] == color.g
                    && self.data@[4 * q + 2] == color.b && self.data@[4 * q + 3] == color.a);
                assert(q * 4 == 4 * q);
            }
        }
    }
}

/// A cell within the grid addresses a complete 4-byte pixel inside the byte
/// vector: `(y * width + x) * 4 + 3 < width * height * 4`.
proof fn lemma_cell_in_range(x: int, y: int, width: int, height: int)
    requires
        0 <= x < width,
        0 <= y < height,
    ensures
        0 <= y * width,
        0 <= y * width + x,
        y * width + x <= (y * width + x) * 4,
        (y * width + x) * 4 + 3 < width * height * 4,
{
    assert(0 <= y * width && 0 <= y * width + x && y * width + x <= (y * width + x) * 4 && (y
        * width + x) * 4 + 3 < width * height * 4) by (nonlinear_arith)
        requires
            0 <= x < width,
            0 <= y < height,
    ;
}

/// Distinct cells of one row-major grid have distinct indices, so writing one
/// pixel cannot touch another (in particular, not an adjacent row).
proof fn lemma_cell_distinct(x1: int, y1: int, x2: int, y2: int, width: int)
    requires
        0 <= x1 < width,
        0 <= x2 < width,
        0 <= y1,
        0 <= y2,
        x1 != x2 || y1 != y2,
    ensures
        y1 * width + x1 != y2 * width + x2,
{
    assert(y1 * width + x1 != y2 * width + x2) by (nonlinear_arith)
        requires
            0 <= x1 < width,
            0 <= x2 < width,
            0 <= y1,
            0 <= y2,
            x1 != x2 || y1 != y2,
    ;
}

} // verus!
