use rasterizer::frame::draw;
use rasterizer::interp::interpolate;
use rasterizer::line::draw_line;
use rasterizer::scene::draw_3d_world;
use rasterizer::scene::Shape;
use rasterizer::scene::Triangle2d;
use rasterizer::scene::World;
use rasterizer::text::draw_text;
use rasterizer::triangle::draw_filled_triangle;
use rasterizer::triangle::draw_shaded_triangle;
use rasterizer::triangle::draw_wire_triangle;
use rasterizer::triangle::INTENSITY_ONE;
use rasterizer::Color;
use rasterizer::Frac;
use rasterizer::PixelBuffer;
use rasterizer::Point;

fn pixel(buf: &PixelBuffer, x: u32, y: u32) -> [u8; 4] {
    let base = ((y as usize) * (buf.width as usize) + (x as usize)) * 4;
    [buf.data[base], buf.data[base + 1], buf.data[base + 2], buf.data[base + 3]]
}

fn bytes(c: Color) -> [u8; 4] {
    [c.r, c.g, c.b, c.a]
}

fn pt(x: i32, y: i32) -> Point {
    Point { x, y }
}

fn rgba(r: u8, g: u8, b: u8, a: u8) -> Color {
    Color { r, g, b, a }
}

#[test]
fn interpolate_degenerate_returns_single() {
    let v = interpolate(5, 7, 5, 9);
    assert_eq!(v.len(), 1);
    assert_eq!(v[0].num, 7);
    assert_eq!(v[0].den, 1);

    let w = interpolate(0, -3, 0, 100);
    assert_eq!(w.len(), 1);
    assert_eq!(w[0].num, -3);
    assert_eq!(w[0].den, 1);
}

#[test]
fn interpolate_ramp_length_start_step() {
    // Ramp from 0 toward 5 across [0, 10): length 10, first value exactly 0,
    // constant step 5/10 at every consecutive pair.
    let v = interpolate(0, 0, 10, 5);
    assert_eq!(v.len(), 10);
    assert_eq!(v[0].num, 0);
    assert_eq!(v[0].den, 10);
    for k in 0..9 {
        assert_eq!(v[k + 1].num - v[k].num, 5);
        assert_eq!(v[k + 1].den, v[k].den);
    }
}

#[test]
fn interpolate_negative_slope_ramp() {
    // Ramp from 3 toward -5 across [2, 6): numerators 12, 4, -4, -12 over 4.
    let v = interpolate(2, 3, 6, -5);
    assert_eq!(v.len(), 4);
    let nums: Vec<i128> = v.iter().map(|f| f.num).collect();
    assert_eq!(nums, vec![12, 4, -4, -12]);
    for f in &v {
        assert_eq!(f.den, 4);
    }
}

#[test]
fn frac_truncates_toward_zero() {
    assert_eq!(rasterizer::frac::frac_trunc(Frac { num: 7, den: 2 }), 3);
    assert_eq!(rasterizer::frac::frac_trunc(Frac { num: -7, den: 2 }), -3);
    assert_eq!(rasterizer::frac::frac_trunc(Frac { num: -1, den: 3 }), 0);
}

#[test]
fn line_horizontal_half_open() {
    // The segment (0,0)..(4,0) paints columns 0..3 of row 0 and leaves
    // (4,0) unpainted.
    let mut buf = PixelBuffer::new(8, 8);
    let c = rgba(10, 20, 30, 255);
    draw_line(&mut buf, pt(0, 0), pt(4, 0), c);
    for x in 0..4 {
        assert_eq!(pixel(&buf, x, 0), bytes(c));
    }
    assert_eq!(pixel(&buf, 4, 0), [0, 0, 0, 0]);
    // No other row is touched.
    for y in 1..8 {
        for x in 0..8 {
            assert_eq!(pixel(&buf, x, y), [0, 0, 0, 0]);
        }
    }
}

fn painted_row_widths(buf: &PixelBuffer, c: Color) -> Vec<u32> {
    let mut widths = Vec::new();
    for y in 0..buf.height {
        let mut w = 0;
        for x in 0..buf.width {
            if pixel(buf, x, y) == bytes(c) {
                w += 1;
            }
        }
        widths.push(w);
    }
    widths
}

#[test]
fn filled_triangle_monotone_region() {
    // A flat-top triangle: the painted region is non-empty, its row widths
    // widen then narrow monotonically, and the result is reproducible.
    let c = rgba(9, 9, 9, 255);
    let mut buf = PixelBuffer::new(16, 16);
    draw_filled_triangle(&mut buf, pt(0, 0), pt(10, 0), pt(5, 10), c);
    let widths = painted_row_widths(&buf, c);
    let total: u32 = widths.iter().sum();
    assert!(total > 0);
    let mut narrowing = false;
    let mut last = widths[0];
    for &w in &widths[1..] {
        if w < last {
            narrowing = true;
        }
        if w > last {
            assert!(!narrowing, "row widths widened again after narrowing");
        }
        last = w;
    }
    // Pure function of its inputs: a second run paints the same bytes.
    let mut buf2 = PixelBuffer::new(16, 16);
    draw_filled_triangle(&mut buf2, pt(0, 0), pt(10, 0), pt(5, 10), c);
    assert_eq!(buf.data, buf2.data);
}

#[test]
fn shaded_zero_intensity_transparent() {
    // All-zero intensities: the covered region is painted, but every painted
    // pixel is fully transparent.
    let c = rgba(50, 60, 70, 200);
    let mut buf = PixelBuffer::new(16, 16);
    buf.clear(rgba(1, 1, 1, 7));
    draw_shaded_triangle(&mut buf, pt(0, 0), pt(10, 0), pt(5, 10), c, [0, 0, 0]);
    let mut painted = 0;
    for y in 0..16 {
        for x in 0..16 {
            let p = pixel(&buf, x, y);
            if p != [1, 1, 1, 7] {
                assert_eq!(p, [50, 60, 70, 0]);
                painted += 1;
            }
        }
    }
    assert!(painted > 0);
}

#[test]
fn shaded_full_intensity_matches_fill() {
    // All intensities at one: the shaded fill writes byte-identical pixels
    // to the flat fill, alpha included.
    let c = rgba(50, 60, 70, 200);
    let one = INTENSITY_ONE;
    let mut shaded = PixelBuffer::new(16, 16);
    draw_shaded_triangle(&mut shaded, pt(0, 0), pt(10, 0), pt(5, 10), c, [one, one, one]);
    let mut filled = PixelBuffer::new(16, 16);
    draw_filled_triangle(&mut filled, pt(0, 0), pt(10, 0), pt(5, 10), c);
    assert_eq!(shaded.data, filled.data);
}

#[test]
fn shaded_half_intensity_halves_alpha() {
    // A uniform intensity of one half scales the alpha 200 to exactly 100 on
    // every covered pixel.
    let c = rgba(50, 60, 70, 200);
    let half = INTENSITY_ONE / 2;
    let mut buf = PixelBuffer::new(16, 16);
    buf.clear(rgba(1, 1, 1, 7));
    draw_shaded_triangle(&mut buf, pt(0, 0), pt(10, 0), pt(5, 10), c, [half, half, half]);
    let mut painted = 0;
    for y in 0..16 {
        for x in 0..16 {
            let p = pixel(&buf, x, y);
            if p != [1, 1, 1, 7] {
                assert_eq!(p, [50, 60, 70, 100]);
                painted += 1;
            }
        }
    }
    assert!(painted > 0);
}

#[test]
fn shaded_alpha_rounds_to_nearest() {
    // Alpha 3 at a uniform intensity of one half scales to 1.5, which rounds
    // to 2 on every covered pixel (to nearest, a tie away from zero).
    let c = rgba(50, 60, 70, 3);
    let half = INTENSITY_ONE / 2;
    let mut buf = PixelBuffer::new(16, 16);
    buf.clear(rgba(1, 1, 1, 7));
    draw_shaded_triangle(&mut buf, pt(0, 0), pt(10, 0), pt(5, 10), c, [half, half, half]);
    let mut painted = 0;
    for y in 0..16 {
        for x in 0..16 {
            let p = pixel(&buf, x, y);
            if p != [1, 1, 1, 7] {
                assert_eq!(p, [50, 60, 70, 2]);
                painted += 1;
            }
        }
    }
    assert!(painted > 0);
}

#[test]
fn clear_sets_every_pixel() {
    let mut buf = PixelBuffer::new(5, 7);
    let c = rgba(1, 2, 3, 4);
    buf.clear(c);
    for y in 0..7 {
        for x in 0..5 {
            assert_eq!(pixel(&buf, x, y), [1, 2, 3, 4]);
        }
    }
}

#[test]
fn put_pixel_bounds() {
    // The far corner is writable; (W, 0) and (0, H) are silent no-ops and
    // corrupt no adjacent row.
    let w = 6;
    let h = 4;
    let mut buf = PixelBuffer::new(w, h);
    let c = rgba(11, 22, 33, 44);
    buf.put_pixel(w - 1, h - 1, c);
    assert_eq!(pixel(&buf, w - 1, h - 1), bytes(c));

    let snapshot = buf.data.clone();
    buf.put_pixel(w, 0, rgba(99, 99, 99, 99));
    assert_eq!(buf.data, snapshot);
    buf.put_pixel(0, h, rgba(99, 99, 99, 99));
    assert_eq!(buf.data, snapshot);
}

fn count_painted(buf: &PixelBuffer, c: Color) -> u32 {
    let mut n = 0;
    for y in 0..buf.height {
        for x in 0..buf.width {
            if pixel(buf, x, y) == bytes(c) {
                n += 1;
            }
        }
    }
    n
}

#[test]
fn text_paints_glyph_and_rejects_unsupported() {
    let c = rgba(255, 0, 255, 255);
    let mut buf = PixelBuffer::new(32, 32);
    let text: Vec<char> = vec!['A'];
    let r = draw_text(&mut buf, 0, 0, &text, c);
    assert!(r.is_ok());
    assert!(count_painted(&buf, c) > 0);

    // A character outside the font fails the call and paints nothing.
    let mut buf2 = PixelBuffer::new(32, 32);
    let snapshot = buf2.data.clone();
    let bad: Vec<char> = vec!['\u{e9}'];
    let r2 = draw_text(&mut buf2, 0, 0, &bad, c);
    assert!(r2.is_err());
    assert_eq!(buf2.data, snapshot);
}

#[test]
fn text_second_line_below_first() {
    let c = rgba(255, 255, 255, 255);
    let mut one_line = PixelBuffer::new(32, 32);
    let t1: Vec<char> = vec!['A'];
    assert!(draw_text(&mut one_line, 0, 0, &t1, c).is_ok());
    let k = count_painted(&one_line, c);

    let mut two_lines = PixelBuffer::new(32, 32);
    let t2: Vec<char> = vec!['A', '\n', 'A'];
    assert!(draw_text(&mut two_lines, 0, 0, &t2, c).is_ok());
    assert_eq!(count_painted(&two_lines, c), 2 * k);
    // The second copy sits one bitmap height plus one blank row lower.
    for y in 0..9 {
        for x in 0..32 {
            let expect_lower = if y < 8 { pixel(&one_line, x, y) } else { [0, 0, 0, 0] };
            assert_eq!(pixel(&two_lines, x, y), expect_lower);
            if y + 9 < 32 && y < 8 {
                assert_eq!(pixel(&two_lines, x, y + 9), pixel(&one_line, x, y));
            }
        }
    }
}

#[test]
fn text_failure_keeps_earlier_lines() {
    // The first line is fully drawn before the second, unsupported line
    // fails the call.
    let c = rgba(200, 100, 50, 255);
    let mut good = PixelBuffer::new(32, 32);
    let t1: Vec<char> = vec!['B'];
    assert!(draw_text(&mut good, 0, 0, &t1, c).is_ok());

    let mut partial = PixelBuffer::new(32, 32);
    let t2: Vec<char> = vec!['B', '\n', '\u{e9}'];
    assert!(draw_text(&mut partial, 0, 0, &t2, c).is_err());
    assert_eq!(partial.data, good.data);
}

fn demo_triangle(x: i32) -> Shape {
    Shape::Triangle2d(Triangle2d {
        p0: pt(x, 10),
        p1: pt(x + 10, 10),
        p2: pt(x + 5, 20),
        col: rgba(255, 255, 255, 255),
        h: [INTENSITY_ONE, INTENSITY_ONE, INTENSITY_ONE],
    })
}

#[test]
fn world_update_moves_first_shape_only() {
    let mut world = World::new(vec![demo_triangle(10), demo_triangle(30)]);
    // Zero delta still moves one pixel per frame.
    world.update(0);
    match world.shapes[0] {
        Shape::Triangle2d(t) => {
            assert_eq!((t.p0.x, t.p1.x, t.p2.x), (11, 21, 16));
            assert_eq!((t.p0.y, t.p1.y, t.p2.y), (10, 10, 20));
        }
    }
    match world.shapes[1] {
        Shape::Triangle2d(t) => assert_eq!(t.p0.x, 30),
    }
    // A 1.5 second frame moves 1 + floor(10 * 1.5) = 16 pixels.
    world.update(1_500_000);
    match world.shapes[0] {
        Shape::Triangle2d(t) => assert_eq!(t.p0.x, 27),
    }
}

#[test]
fn world_renders_shapes_in_order() {
    // Two overlapping triangles: the later one draws on top.
    let first = Shape::Triangle2d(Triangle2d {
        p0: pt(0, 0),
        p1: pt(12, 0),
        p2: pt(6, 12),
        col: rgba(10, 0, 0, 255),
        h: [INTENSITY_ONE, INTENSITY_ONE, INTENSITY_ONE],
    });
    let second = Shape::Triangle2d(Triangle2d {
        p0: pt(0, 0),
        p1: pt(12, 0),
        p2: pt(6, 12),
        col: rgba(0, 20, 0, 255),
        h: [INTENSITY_ONE, INTENSITY_ONE, INTENSITY_ONE],
    });
    let world = World::new(vec![first, second]);
    let mut buf = PixelBuffer::new(16, 16);
    draw_3d_world(&world, &mut buf);
    assert!(count_painted(&buf, rgba(0, 20, 0, 255)) > 0);
    assert_eq!(count_painted(&buf, rgba(10, 0, 0, 255)), 0);
}

#[test]
fn wire_triangle_is_three_segments() {
    let c = rgba(77, 88, 99, 255);
    let (a, b, d) = (pt(1, 1), pt(12, 3), pt(6, 13));
    let mut wire = PixelBuffer::new(16, 16);
    draw_wire_triangle(&mut wire, a, b, d, c);
    let mut lines = PixelBuffer::new(16, 16);
    draw_line(&mut lines, a, b, c);
    draw_line(&mut lines, b, d, c);
    draw_line(&mut lines, d, a, c);
    assert_eq!(wire.data, lines.data);
}

#[test]
fn frame_draws_backdrop_and_clears() {
    let world = World::new(vec![demo_triangle(10)]);
    let mut buf = PixelBuffer::new(512, 512);
    buf.clear(rgba(9, 9, 9, 9));
    let r = draw(&mut buf, &world, 0, 12_345_678);
    assert!(r.is_ok());
    // The clear repaints the whole buffer black first.
    assert_eq!(pixel(&buf, 511, 511), [0, 0, 0, 0]);
    // A point inside the first backdrop triangle and outside every later
    // draw keeps that triangle's color.
    assert_eq!(pixel(&buf, 150, 200), [0xff, 0x60, 0x4f, 0xff]);
    // The frame-duration readout (1234 hundred-microsecond units) paints
    // white digit pixels near (50, 50).
    let mut white_near_readout = 0;
    for y in 50..58 {
        for x in 50..90 {
            if pixel(&buf, x, y) == [255, 255, 255, 255] {
                white_near_readout += 1;
            }
        }
    }
    assert!(white_near_readout > 0);
}
