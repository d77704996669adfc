//! The scene: an ordered collection of shapes with a per-frame update.
//!
//! Shapes form a closed set (one kind today: a 2D triangle with a flat color
//! and three per-vertex intensities), so a tagged variant replaces dynamic
//! dispatch. The world renders its shapes in insertion order — later shapes
//! draw on top — and its update step translates the first shape rightward by
//! a frame-time-dependent amount.

use vstd::prelude::*;

use crate::buffer::Color;
use crate::buffer::PixelBuffer;
use crate::buffer::Point;
use crate::line::line_covers;
use crate::triangle::draw_shaded_triangle;
use crate::triangle::draw_wire_triangle;
use crate::triangle::fill_covers;
use crate::triangle::shade_pixel;

verus! {

/// A 2D triangle: three vertices, a flat color, and three per-vertex
/// fixed-point intensities.
#[derive(Clone, Copy, Debug)]
pub struct Triangle2d {
    pub p0: Point,
    pub p1: Point,
    pub p2: Point,
    pub col: Color,
    pub h: [i32; 3],
}

/// A drawable shape: the closed set of shape kinds the scene can hold.
#[derive(Clone, Copy)]
pub enum Shape {
    Triangle2d(Triangle2d),
}

impl Shape {
    /// Pointwise effect of rendering this shape: the color pixel `(i, j)`
    /// holds afterward, if it held `base` before.
    pub open spec fn rendered_pixel(self, i: int, j: int, base: Color) -> Color {
        match self {
            Shape::Triangle2d(t) => if fill_covers(t.p0, t.p1, t.p2, i, j) {
                shade_pixel(t.col, t.p0, t.p1, t.p2, t.h[0] as int, t.h[1] as int, t.h[2] as int, i, j)
            } else {
                base
            },
        }
    }

    /// Pointwise effect of rendering this shape's wireframe.
    pub open spec fn wire_pixel(self, i: int, j: int, base: Color) -> Color {
        match self {
            Shape::Triangle2d(t) => if line_covers(t.p0, t.p1, i, j) || line_covers(t.p1, t.p2, i, j)
                || line_covers(t.p2, t.p0, i, j) {
                t.col
            } else {
                base
            },
        }
    }

    /// Can the shape move by `(dx, dy)` without leaving the coordinate range?
    pub open spec fn can_translate(self, dx: int, dy: int) -> bool {
        match self {
            Shape::Triangle2d(t) => {
                &&& i32::MIN <= t.p0.x + dx <= i32::MAX
                &&& i32::MIN <= t.p1.x + dx <= i32::MAX
                &&& i32::MIN <= t.p2.x + dx <= i32::MAX
                &&& i32::MIN <= t.p0.y + dy <= i32::MAX
                &&& i32::MIN <= t.p1.y + dy <= i32::MAX
                &&& i32::MIN <= t.p2.y + dy <= i32::MAX
            },
        }
    }

    /// The shape moved by `(dx, dy)`.
    pub open spec fn translated(self, dx: int, dy: int) -> Shape {
        match self {
            Shape::Triangle2d(t) => Shape::Triangle2d(
                Triangle2d {
                    p0: Point { x: (t.p0.x + dx) as i32, y: (t.p0.y + dy) as i32 },
                    p1: Point { x: (t.p1.x + dx) as i32, y: (t.p1.y + dy) as i32 },
                    p2: Point { x: (t.p2.x + dx) as i32, y: (t.p2.y + dy) as i32 },
                    col: t.col,
                    h: t.h,
                },
            ),
        }
    }

    /// Render the shape's filled (shaded) representation into the buffer.
    pub fn render(&self, buf: &mut PixelBuffer)
        requires
            old(buf).wf(),
        ensures
            final(buf).wf(),
            final(buf).same_dims(*old(buf)),
            forall|i: int, j: int|
                final(buf).in_bounds(i, j) ==> final(buf).pixel(i, j) == self.rendered_pixel(
                    i,
                    j,
                    old(buf).pixel(i, j),
                ),
    {
        match self {
            Shape::Triangle2d(t) => draw_shaded_triangle(buf, t.p0, t.p1, t.p2, t.col, t.h),
        }
    }

    /// Render the shape's wireframe into the buffer.
    pub fn render_wire(&self, buf: &mut PixelBuffer)
        requires
            old(buf).wf(),
        ensures
            final(buf).wf(),
            final(buf).same_dims(*old(buf)),
            forall|i: int, j: int|
                final(buf).in_bounds(i, j) ==> final(buf).pixel(i, j) == self.wire_pixel(
                    i,
                    j,
                    old(buf).pixel(i, j),
                ),
    {
        match self {
            Shape::Triangle2d(t) => draw_wire_triangle(buf, t.p0, t.p1, t.p2, t.col),
        }
    }

    /// Move the shape by `(x, y)`; the third coordinate is accepted for
    /// interface symmetry and ignored by this flat shape.
    pub fn translate(&mut self, x: i32, y: i32, _z: i32)
        requires
            old(self).can_translate(x as int, y as int),
        ensures
            *final(self) == old(self).translated(x as int, y as int),
    {
        match self {
            Shape::Triangle2d(t) => {
                t.p0.x = t.p0.x + x;
                t.p1.x = t.p1.x + x;
                t.p2.x = t.p2.x + x;
                t.p0.y = t.p0.y + y;
                t.p1.y = t.p1.y + y;
                t.p2.y = t.p2.y + y;
            },
        }
    }
}

/// Pointwise effect of rendering every shape of `shapes` in order on top of
/// `base`: later shapes overwrite earlier ones.
pub open spec fn world_pixel(shapes: Seq<Shape>, i: int, j: int, base: Color) -> Color
    decreases shapes.len(),
{
    if shapes.len() == 0 {
        base
    } else {
        shapes.last().rendered_pixel(i, j, world_pixel(shapes.drop_last(), i, j, base))
    }
}

/// The scene: an exclusive, ordered collection of shapes, built once and
/// mutated in place every frame.
pub struct World {
    pub shapes: Vec<Shape>,
}

impl World {
    /// Pixels the first shape moves rightward per frame: `1 + floor(10 *
    /// delta_seconds)`, with the frame delta given in microseconds.
    pub open spec fn movement_of(delta_micros: u64) -> int {
        1 + (delta_micros * 10) / 1000000
    }

    /// Build a world over the given shapes.
    pub fn new(shapes: Vec<Shape>) -> (w: World)
        ensures
            w.shapes == shapes,
    {
        World { shapes }
    }

    /// Advance the scene by one frame: translate the first shape rightward
    /// by `movement_of(delta_micros)` pixels. The scene must hold at least
    /// one shape, and the movement must keep its coordinates in range.
    pub fn update(&mut self, delta_micros: u64)
        requires
            old(self).shapes@.len() > 0,
            Self::movement_of(delta_micros) <= i32::MAX,
            old(self).shapes@[0].can_translate(Self::movement_of(delta_micros), 0),
        ensures
            final(self).shapes@.len() == old(self).shapes@.len(),
            final(self).shapes@[0] == old(self).shapes@[0].translated(
                Self::movement_of(delta_micros),
                0,
            ),
            forall|k: int|
                1 <= k < final(self).shapes@.len() ==> final(self).shapes@[k] == old(
                    self,
                ).shapes@[k],
    {
        let steps: u128 = (delta_micros as u128) * 10 / 1000000;
        let movement: i32 = (1 + steps) as i32;
        let mut first: Shape = self.shapes[0];
        first.translate(movement, 0, 0);
        self.shapes[0] = first;
    }

    /// Render every shape in insertion order; later shapes draw on top.
    pub fn render(&self, buf: &mut PixelBuffer)
        requires
            old(buf).wf(),
        ensures
            final(buf).wf(),
            final(buf).same_dims(*old(buf)),
            forall|i: int, j: int|
                final(buf).in_bounds(i, j) ==> final(buf).pixel(i, j) == world_pixel(
                    self.shapes@,
                    i,
                    j,
                    old(buf).pixel(i, j),
                ),
    {
        let mut idx: usize = 0;
        while idx < self.shapes.len()
            invariant
                old(buf).wf(),
                buf.wf(),
                buf.same_dims(*old(buf)),
                idx <= self.shapes@.len(),
                forall|i: int, j: int|
                    buf.in_bounds(i, j) ==> buf.pixel(i, j) == world_pixel(
                        self.shapes@.take(idx as int),
                        i,
                        j,
                        old(buf).pixel(i, j),
                    ),
            decreases self.shapes@.len() - idx,
        {
            let s: Shape = self.shapes[idx];
            s.render(buf);
            proof {
                let taken = self.shapes@.take(idx + 1);
                assert(taken.drop_last() =~= self.shapes@.take(idx as int));
                assert(taken.last() == self.shapes@[idx as int]);
            }
            idx = idx + 1;
        }
        proof {
            assert(self.shapes@.take(self.shapes@.len() as int) =~= self.shapes@);
        }
    }
}

/// Render the world into the buffer; the world is drawn as supplied, with no
/// projection step.
pub fn draw_3d_world(world: &World, buf: &mut PixelBuffer)
    requires
        old(buf).wf(),
    ensures
        final(buf).wf(),
        final(buf).same_dims(*old(buf)),
        forall|i: int, j: int|
            final(buf).in_bounds(i, j) ==> final(buf).pixel(i, j) == world_pixel(
                world.shapes@,
                i,
                j,
                old(buf).pixel(i, j),
            ),
{
    world.render(buf);
}

} // verus!
