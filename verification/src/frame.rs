//! The frame renderer: clear the buffer, draw a fixed backdrop of demo
//! shapes, render the scene, and overlay a debug readout of the last frame's
//! duration in hundred-microsecond units.

use vstd::prelude::*;

use crate::buffer::Color;
use crate::buffer::PixelBuffer;
use crate::buffer::Point;
use crate::line::draw_line;
use crate::line::line_covers;
use crate::scene::World;
use crate::scene::draw_3d_world;
use crate::scene::world_pixel;
use crate::scene::Shape;
use crate::text::TextError;
use crate::text::draw_text;
use crate::text::line_printable;
use crate::text::split_lines;
use crate::text::text_ok;
use crate::text::text_pixel;
use crate::triangle::draw_filled_triangle;
use crate::triangle::draw_shaded_triangle;
use crate::triangle::draw_wire_triangle;
use crate::triangle::fill_covers;
use crate::triangle::shade_pixel;

verus! {

/// Pointwise effect of one flat triangle fill.
pub open spec fn fill_pixel(
    p0: Point,
    p1: Point,
    p2: Point,
    col: Color,
    i: int,
    j: int,
    base: Color,
) -> Color {
    if fill_covers(p0, p1, p2, i, j) {
        col
    } else {
        base
    }
}

/// Pointwise effect of one wireframe triangle.
pub open spec fn wire_pixel(
    p0: Point,
    p1: Point,
    p2: Point,
    col: Color,
    i: int,
    j: int,
    base: Color,
) -> Color {
    if line_covers(p0, p1, i, j) || line_covers(p1, p2, i, j) || line_covers(p2, p0, i, j) {
        col
    } else {
        base
    }
}

/// Pointwise effect of one straight segment.
pub open spec fn line_pixel(p0: Point, p1: Point, col: Color, i: int, j: int, base: Color) -> Color {
    if line_covers(p0, p1, i, j) {
        col
    } else {
        base
    }
}

/// Pointwise effect of one shaded triangle fill.
pub open spec fn shaded_fill_pixel(
    p0: Point,
    p1: Point,
    p2: Point,
    col: Color,
    h0: int,
    h1: int,
    h2: int,
    i: int,
    j: int,
    base: Color,
) -> Color {
    if fill_covers(p0, p1, p2, i, j) {
        shade_pixel(col, p0, p1, p2, h0, h1, h2, i, j)
    } else {
        base
    }
}

/// The caption the backdrop draws.
pub open spec fn backdrop_text() -> Seq<char> {
    "poggers\npogchamp"@
}

/// Pointwise effect of the whole fixed backdrop: three filled triangles, two
/// wireframes, the scene's shapes, one segment, one shaded triangle, and the
/// caption, in that order, later draws on top.
pub open spec fn backdrop_pixel(shapes: Seq<Shape>, i: int, j: int, base: Color) -> Color {
    let white = Color { r: 0xff, g: 0xff, b: 0xff, a: 0xff };
    let c1 = fill_pixel(
        Point { x: 100, y: 125 },
        Point { x: 200, y: 100 },
        Point { x: 150, y: 400 },
        Color { r: 0xff, g: 0x60, b: 0x4f, a: 0xff },
        i,
        j,
        base,
    );
    let c2 = fill_pixel(
        Point { x: 125, y: 50 },
        Point { x: 20, y: 70 },
        Point { x: 120, y: 440 },
        Color { r: 0x00, g: 0x80, b: 0x8f, a: 0xff },
        i,
        j,
        c1,
    );
    let c3 = fill_pixel(
        Point { x: 200, y: 225 },
        Point { x: 300, y: 200 },
        Point { x: 250, y: 300 },
        Color { r: 0x00, g: 0x70, b: 0x00, a: 0xff },
        i,
        j,
        c2,
    );
    let c4 = wire_pixel(
        Point { x: 200, y: 225 },
        Point { x: 300, y: 200 },
        Point { x: 250, y: 300 },
        white,
        i,
        j,
        c3,
    );
    let c5 = wire_pixel(
        Point { x: 400, y: 400 },
        Point { x: 450, y: 80 },
        Point { x: 500, y: 420 },
        Color { r: 0xa0, g: 0xb0, b: 0x00, a: 0xff },
        i,
        j,
        c4,
    );
    let c6 = world_pixel(shapes, i, j, c5);
    let c7 = line_pixel(
        Point { x: 410, y: 450 },
        Point { x: 490, y: 70 },
        Color { r: 0x40, g: 0x17, b: 0xc0, a: 0xff },
        i,
        j,
        c6,
    );
    let c8 = shaded_fill_pixel(
        Point { x: 200, y: 150 },
        Point { x: 350, y: 250 },
        Point { x: 300, y: 400 },
        Color { r: 0x00, g: 0xff, b: 0x00, a: 0xff },
        655,
        6553,
        65536,
        i,
        j,
        c7,
    );
    text_pixel(
        split_lines(backdrop_text()),
        200,
        270,
        Color { r: 0xff, g: 0x00, b: 0xff, a: 0xff },
        i,
        j,
        c8,
    )
}

/// Draw the fixed backdrop and the scene. The elapsed and delta times are
/// accepted for interface symmetry with `draw` and unused here.
pub fn draw_test(
    buf: &mut PixelBuffer,
    world: &World,
    _elapsed_nanos: u64,
    _delta_nanos: u64,
) -> (r: Result<(), TextError>)
    requires
        old(buf).wf(),
    ensures
        final(buf).wf(),
        final(buf).same_dims(*old(buf)),
        r is Ok,
        forall|i: int, j: int|
            final(buf).in_bounds(i, j) ==> final(buf).pixel(i, j) == backdrop_pixel(
                world.shapes@,
                i,
                j,
                old(buf).pixel(i, j),
            ),
{
    let white = Color { r: 0xff, g: 0xff, b: 0xff, a: 0xff };
    draw_filled_triangle(
        buf,
        Point { x: 100, y: 125 },
        Point { x: 200, y: 100 },
        Point { x: 150, y: 400 },
        Color { r: 0xff, g: 0x60, b: 0x4f, a: 0xff },
    );
    draw_filled_triangle(
        buf,
        Point { x: 125, y: 50 },
        Point { x: 20, y: 70 },
        Point { x: 120, y: 440 },
        Color { r: 0x00, g: 0x80, b: 0x8f, a: 0xff },
    );
    draw_filled_triangle(
        buf,
        Point { x: 200, y: 225 },
        Point { x: 300, y: 200 },
        Point { x: 250, y: 300 },
        Color { r: 0x00, g: 0x70, b: 0x00, a: 0xff },
    );
    draw_wire_triangle(
        buf,
        Point { x: 200, y: 225 },
        Point { x: 300, y: 200 },
        Point { x: 250, y: 300 },
        white,
    );
    draw_wire_triangle(
        buf,
        Point { x: 400, y: 400 },
        Point { x: 450, y: 80 },
        Point { x: 500, y: 420 },
        Color { r: 0xa0, g: 0xb0, b: 0x00, a: 0xff },
    );
    draw_3d_world(world, buf);
    draw_line(
        buf,
        Point { x: 410, y: 450 },
        Point { x: 490, y: 70 },
        Color { r: 0x40, g: 0x17, b: 0xc0, a: 0xff },
    );
    draw_shaded_triangle(
        buf,
        Point { x: 200, y: 150 },
        Point { x: 350, y: 250 },
        Point { x: 300, y: 400 },
        Color { r: 0x00, g: 0xff, b: 0x00, a: 0xff },
        [655, 6553, 65536],
    );
    let caption = backdrop_caption();
    let r = draw_text(buf, 200, 270, &caption, Color { r: 0xff, g: 0x00, b: 0xff, a: 0xff });
    proof {
        lemma_backdrop_text_ok();
    }
    r
}

/// The caption as character cells, equal to `backdrop_text()`.
fn backdrop_caption() -> (v: Vec<char>)
    ensures
        v@ == backdrop_text(),
{
    let mut v: Vec<char> = Vec::new();
    v.push('p');
    v.push('o');
    v.push('g');
    v.push('g');
    v.push('e');
    v.push('r');
    v.push('s');
    v.push('\n');
    v.push('p');
    v.push('o');
    v.push('g');
    v.push('c');
    v.push('h');
    v.push('a');
    v.push('m');
    v.push('p');
    proof {
        reveal_strlit("poggers\npogchamp");
        assert(v@ =~= backdrop_text());
    }
    v
}

/// Decimal digits of `n`, most significant first.
pub open spec fn dec_chars(n: nat) -> Seq<char>
    decreases n,
{
    if n < 10 {
        seq![digit_char(n)]
    } else {
        dec_chars(n / 10).push(digit_char(n % 10))
    }
}

/// The decimal digit `d` as a character.
pub open spec fn digit_char(d: nat) -> char {
    if d == 0 {
        '0'
    } else if d == 1 {
        '1'
    } else if d == 2 {
        '2'
    } else if d == 3 {
        '3'
    } else if d == 4 {
        '4'
    } else if d == 5 {
        '5'
    } else if d == 6 {
        '6'
    } else if d == 7 {
        '7'
    } else if d == 8 {
        '8'
    } else {
        '9'
    }
}

/// The decimal digit `d` as a character.
fn digit_of(d: u64) -> (c: char)
    requires
        d < 10,
    ensures
        c == digit_char(d as nat),
{
    if d == 0 {
        '0'
    } else if d == 1 {
        '1'
    } else if d == 2 {
        '2'
    } else if d == 3 {
        '3'
    } else if d == 4 {
        '4'
    } else if d == 5 {
        '5'
    } else if d == 6 {
        '6'
    } else if d == 7 {
        '7'
    } else if d == 8 {
        '8'
    } else {
        '9'
    }
}

/// Append the decimal digits of `n` to `out`.
fn push_digits(n: u64, out: &mut Vec<char>)
    ensures
        final(out)@ == old(out)@ + dec_chars(n as nat),
    decreases n,
{
    if n < 10 {
        out.push(digit_of(n));
        proof {
            assert(out@ =~= old(out)@ + dec_chars(n as nat));
        }
    } else {
        push_digits(n / 10, out);
        out.push(digit_of(n % 10));
        proof {
            assert(out@ =~= old(out)@ + dec_chars(n as nat));
        }
    }
}

/// The decimal digits of `n` as character cells.
fn u64_chars(n: u64) -> (v: Vec<char>)
    ensures
        v@ == dec_chars(n as nat),
{
    let mut v: Vec<char> = Vec::new();
    push_digits(n, &mut v);
    proof {
        assert(v@ =~= dec_chars(n as nat));
    }
    v
}

/// Every decimal digit character is printable and is no newline.
pub proof fn lemma_dec_chars_printable(n: nat)
    ensures
        line_printable(dec_chars(n)),
        forall|k: int|
            0 <= k < dec_chars(n).len() ==> (#[trigger] dec_chars(n)[k]) as u32 != 0x0a,
    decreases n,
{
    if n >= 10 {
        lemma_dec_chars_printable(n / 10);
    }
}

/// A text without newlines splits into itself as the single line.
pub proof fn lemma_split_single_line(s: Seq<char>)
    requires
        forall|k: int| 0 <= k < s.len() ==> (#[trigger] s[k]) as u32 != 0x0a,
    ensures
        split_lines(s) =~~= seq![s],
    decreases s.len(),
{
    if s.len() != 0 {
        assert(s[0] as u32 != 0x0a);
        assert(s[0] != '\n');
        lemma_split_single_line(s.skip(1));
        assert(seq![s[0]] + s.skip(1) =~= s);
    }
}

/// The font covers the backdrop caption: it splits into two lines of
/// printable ASCII, so drawing the backdrop always succeeds.
pub proof fn lemma_backdrop_text_ok()
    ensures
        text_ok(split_lines(backdrop_text())),
{
    reveal_strlit("poggers\npogchamp");
    reveal_strlit("poggers");
    reveal_strlit("pogchamp");
    assert(split_lines(backdrop_text()) =~~= seq!["poggers"@, "pogchamp"@]) by {
        reveal_with_fuel(split_lines, 18);
    }
    assert(line_printable("poggers"@));
    assert(line_printable("pogchamp"@));
}

/// Pointwise effect of one whole frame: the buffer is cleared to black, the
/// backdrop and the scene are drawn, and the frame duration, in
/// hundred-microsecond units, is overlaid as white text.
pub open spec fn frame_pixel(shapes: Seq<Shape>, delta_nanos: u64, i: int, j: int) -> Color {
    let black = Color { r: 0, g: 0, b: 0, a: 0 };
    let white = Color { r: 0xff, g: 0xff, b: 0xff, a: 0xff };
    let c = backdrop_pixel(shapes, i, j, black);
    text_pixel(
        split_lines(dec_chars((delta_nanos / 10000) as nat)),
        50,
        50,
        white,
        i,
        j,
        c,
    )
}

/// Render one frame: clear to black, draw the backdrop and the scene, and
/// overlay the frame-duration readout. The backdrop caption and the duration
/// readout hold only characters the font covers, so a frame always succeeds.
pub fn draw(buf: &mut PixelBuffer, world: &World, _elapsed_nanos: u64, delta_nanos: u64) -> (r:
    Result<(), TextError>)
    requires
        old(buf).wf(),
    ensures
        final(buf).wf(),
        final(buf).same_dims(*old(buf)),
        r is Ok,
        forall|i: int, j: int|
            final(buf).in_bounds(i, j) ==> final(buf).pixel(i, j) == frame_pixel(
                world.shapes@,
                delta_nanos,
                i,
                j,
            ),
{
    buf.clear(Color { r: 0, g: 0, b: 0, a: 0 });
    let backdrop = draw_test(buf, world, _elapsed_nanos, delta_nanos);
    let digits = u64_chars(delta_nanos / 10000);
    proof {
        lemma_dec_chars_printable((delta_nanos / 10000) as nat);
        lemma_split_single_line(dec_chars((delta_nanos / 10000) as nat));
        assert(text_ok(split_lines(dec_chars((delta_nanos / 10000) as nat))));
    }
    let overlay = draw_text(buf, 50, 50, &digits, Color { r: 0xff, g: 0xff, b: 0xff, a: 0xff });
    proof {
        assert(overlay is Ok);
    }
    backdrop
}

} // verus!
