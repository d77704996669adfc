//! Text overlay: draw a string as one pixel per "on" cell of the boolean
//! glyph bitmaps an external bitmap-font provider returns.
//!
//! The text may contain newline separators; each line is rendered as its own
//! bitmap, one pixel row per bitmap row, with one blank row between lines.
//! A character the provider does not support fails the whole call — the
//! lines before the failing one stay drawn, nothing of the failing line is —
//! so overlay text is either fully correct or loudly absent, never a partial
//! glyph.

use vstd::prelude::*;

use crate::buffer::Color;
use crate::buffer::PixelBuffer;

verus! {

/// Error of the text renderer: the bitmap provider cannot render a requested
/// character.
#[derive(Clone, Copy, PartialEq, Eq, Structural, Debug)]
pub enum TextError {
    UnsupportedGlyph,
}

/// The boolean glyph bitmap the font provider produces for one line of text.
pub uninterp spec fn glyph_rows(line: Seq<char>) -> Seq<Seq<bool>>;

/// Does the provider's font cover every character of the line? It holds the
/// printable ASCII characters and nothing else.
pub open spec fn line_printable(line: Seq<char>) -> bool {
    forall|k: int| 0 <= k < line.len() ==> 0x20 <= (#[trigger] line[k]) as u32 <= 0x7e
}

/// Relies on bitfont::bitmap_bool: for one line of text it returns a boolean
/// bitmap of eight rows with eight cells per character and row, and it
/// succeeds exactly when every character is printable ASCII. The DEL control
/// character must not be passed: on it, bitfont indexes its font table out
/// of bounds.
#[verifier::external_body]
fn line_bitmap(line: &Vec<char>) -> (r: Option<Vec<Vec<bool>>>)
    requires
        forall|k: int| 0 <= k < line@.len() ==> (#[trigger] line@[k]) as u32 != 0x7f,
    ensures
        r is Some <==> line_printable(line@),
        r is Some ==> r.unwrap().deep_view() == glyph_rows(line@),
        r is Some ==> glyph_rows(line@).len() == 8,
{
    let s: String = line.iter().collect();
    match bitfont::bitmap_bool(&s) {
        Ok(bm) => Some(bm),
        Err(_) => None,
    }
}

/// The text split at every newline: at least one line, none holding a
/// newline, and joining them with newlines gives back the text.
pub open spec fn split_lines(s: Seq<char>) -> Seq<Seq<char>>
    decreases s.len(),
{
    if s.len() == 0 {
        seq![Seq::<char>::empty()]
    } else if s[0] == '\n' {
        seq![Seq::<char>::empty()] + split_lines(s.skip(1))
    } else {
        let rest = split_lines(s.skip(1));
        seq![seq![s[0]] + rest[0]] + rest.skip(1)
    }
}

/// A split always yields at least one line.
pub proof fn lemma_split_lines_nonempty(s: Seq<char>)
    ensures
        split_lines(s).len() >= 1,
    decreases s.len(),
{
    if s.len() != 0 {
        lemma_split_lines_nonempty(s.skip(1));
    }
}

/// Does the bitmap, anchored at `(px, py)`, switch the pixel `(i, j)` on?
pub open spec fn bitmap_covers(bm: Seq<Seq<bool>>, px: int, py: int, i: int, j: int) -> bool {
    exists|r: int, c: int|
        0 <= r < bm.len() && 0 <= c < bm[r].len() && bm[r][c] && i == px + c && j == py + r
}

/// Like `bitmap_covers`, but only cells already visited by a row-major scan
/// that stands at row `rows`, cell `cells`.
pub open spec fn bitmap_covers_upto(
    bm: Seq<Seq<bool>>,
    px: int,
    py: int,
    i: int,
    j: int,
    rows: int,
    cells: int,
) -> bool {
    exists|r: int, c: int|
        0 <= r < bm.len() && 0 <= c < bm[r].len() && bm[r][c] && (r < rows || (r == rows && c
            < cells)) && i == px + c && j == py + r
}

/// Pointwise effect of drawing the lines in order, anchored at `(px, py)`,
/// each line one bitmap-height plus one blank row below the previous: the
/// color pixel `(i, j)` holds afterward, if it held `base` before. Drawing
/// stops at the first line the font does not cover.
pub open spec fn text_pixel(
    lines: Seq<Seq<char>>,
    px: int,
    py: int,
    col: Color,
    i: int,
    j: int,
    base: Color,
) -> Color
    decreases lines.len(),
{
    if lines.len() == 0 {
        base
    } else if !line_printable(lines[0]) {
        base
    } else {
        let bm = glyph_rows(lines[0]);
        let after = if bitmap_covers(bm, px, py, i, j) {
            col
        } else {
            base
        };
        text_pixel(lines.skip(1), px, py + bm.len() + 1, col, i, j, after)
    }
}

/// Does the font cover every line of the text?
pub open spec fn text_ok(lines: Seq<Seq<char>>) -> bool {
    forall|k: int| 0 <= k < lines.len() ==> line_printable(#[trigger] lines[k])
}

/// Split the text at every newline.
fn split_text(text: &Vec<char>) -> (lines: Vec<Vec<char>>)
    ensures
        lines.deep_view() == split_lines(text@),
{
    let mut lines: Vec<Vec<char>> = Vec::new();
    lines.push(Vec::new());
    proof {
        assert(text@.skip(text@.len() as int) =~= Seq::<char>::empty());
        assert(lines.deep_view() =~~= split_lines(text@.skip(text@.len() as int)));
    }
    let mut i: usize = text.len();
    while i > 0
        invariant
            i <= text@.len(),
            lines.deep_view() == split_lines(text@.skip(i as int)),
        decreases i,
    {
        i = i - 1;
        let ghost suffix = text@.skip(i as int);
        proof {
            assert(suffix.len() > 0);
            assert(suffix[0] == text@[i as int]);
            assert(suffix.skip(1) =~= text@.skip(i as int + 1));
        }
        let c = text[i];
        if c == '\n' {
            lines.insert(0, Vec::new());
            proof {
                assert(lines.deep_view() =~~= split_lines(suffix));
            }
        } else {
            proof {
                lemma_split_lines_nonempty(text@.skip(i as int + 1));
            }
            let mut first: Vec<char> = lines.remove(0);
            first.insert(0, c);
            lines.insert(0, first);
            proof {
                assert(lines.deep_view() =~~= split_lines(suffix));
            }
        }
    }
    proof {
        assert(text@.skip(0) =~= text@);
    }
    lines
}

/// Paint one pixel of `col` per "on" cell of the bitmap, anchored at
/// `(px, py)`; cells outside the buffer are silently dropped.
fn paint_bitmap(buf: &mut PixelBuffer, px: u32, py: u128, bm: &Vec<Vec<bool>>, col: Color)
    requires
        old(buf).wf(),
        py <= 0x1_0000_0000_0000_0000_0000u128,
    ensures
        final(buf).wf(),
        final(buf).same_dims(*old(buf)),
        forall|i: int, j: int|
            final(buf).in_bounds(i, j) ==> final(buf).pixel(i, j) == (if bitmap_covers(
                bm.deep_view(),
                px as int,
                py as int,
                i,
                j,
            ) {
                col
            } else {
                old(buf).pixel(i, j)
            }),
{
    let ghost bmv = bm.deep_view();
    let mut r: usize = 0;
    while r < bm.len()
        invariant
            buf.wf(),
            buf.same_dims(*old(buf)),
            r <= bm@.len(),
            py <= 0x1_0000_0000_0000_0000_0000u128,
            bmv == bm.deep_view(),
            bmv.len() == bm@.len(),
            forall|t: int| 0 <= t < bm@.len() ==> (#[trigger] bmv[t]) == bm@[t]@,
            forall|i: int, j: int|
                buf.in_bounds(i, j) ==> buf.pixel(i, j) == (if bitmap_covers_upto(
                    bmv,
                    px as int,
                    py as int,
                    i,
                    j,
                    r as int,
                    0,
                ) {
                    col
                } else {
                    old(buf).pixel(i, j)
                }),
        decreases bm@.len() - r,
    {
        let row = &bm[r];
        let mut c: usize = 0;
        while c < row.len()
            invariant
                buf.wf(),
                buf.same_dims(*old(buf)),
                r < bm@.len(),
                c <= row@.len(),
                py <= 0x1_0000_0000_0000_0000_0000u128,
                bmv == bm.deep_view(),
                bmv.len() == bm@.len(),
                forall|t: int| 0 <= t < bm@.len() ==> (#[trigger] bmv[t]) == bm@[t]@,
                row@ == bmv[r as int],
                forall|i: int, j: int|
                    buf.in_bounds(i, j) ==> buf.pixel(i, j) == (if bitmap_covers_upto(
                        bmv,
                        px as int,
                        py as int,
                        i,
                        j,
                        r as int,
                        c as int,
                    ) {
                        col
                    } else {
                        old(buf).pixel(i, j)
                    }),
            decreases row@.len() - c,
        {
            if row[c] {
                let x: u128 = (px as u128) + (c as u128);
                let y: u128 = py + (r as u128);
                if x <= u32::MAX as u128 && y <= u32::MAX as u128 {
                    buf.put_pixel(x as u32, y as u32, col);
                }
            }
            proof {
                assert forall|i: int, j: int| buf.in_bounds(i, j) implies buf.pixel(i, j) == (
                if bitmap_covers_upto(bmv, px as int, py as int, i, j, r as int, c as int + 1) {
                    col
                } else {
                    old(buf).pixel(i, j)
                }) by {
                    if bitmap_covers_upto(bmv, px as int, py as int, i, j, r as int, c as int + 1) {
                        let (rr, cc): (int, int) = choose|rr: int, cc: int|
                            0 <= rr < bmv.len() && 0 <= cc < bmv[rr].len() && bmv[rr][cc] && (rr
                                < r as int || (rr == r as int && cc < c as int + 1)) && i == px
                                + cc && j == py + rr;
                        if rr == r as int && cc == c as int {
                            assert(bmv[r as int][c as int]);
                        } else {
                            assert(bitmap_covers_upto(
                                bmv,
                                px as int,
                                py as int,
                                i,
                                j,
                                r as int,
                                c as int,
                            ));
                        }
                    } else {
                        assert(!bitmap_covers_upto(
                            bmv,
                            px as int,
                            py as int,
                            i,
                            j,
                            r as int,
                            c as int,
                        ));
                    }
                }
            }
            c = c + 1;
        }
        proof {
            assert forall|i: int, j: int| buf.in_bounds(i, j) implies buf.pixel(i, j) == (
            if bitmap_covers_upto(bmv, px as int, py as int, i, j, r as int + 1, 0) {
                col
            } else {
                old(buf).pixel(i, j)
            }) by {
                assert(forall|ii: int, jj: int|
                    bitmap_covers_upto(bmv, px as int, py as int, ii, jj, r as int + 1, 0)
                        == bitmap_covers_upto(
                        bmv,
                        px as int,
                        py as int,
                        ii,
                        jj,
                        r as int,
                        bmv[r as int].len() as int,
                    ));
            }
        }
        r = r + 1;
    }
    proof {
        assert forall|i: int, j: int| buf.in_bounds(i, j) implies buf.pixel(i, j) == (
        if bitmap_covers(bmv, px as int, py as int, i, j) {
            col
        } else {
            old(buf).pixel(i, j)
        }) by {
            assert(bitmap_covers(bmv, px as int, py as int, i, j) == bitmap_covers_upto(
                bmv,
                px as int,
                py as int,
                i,
                j,
                bmv.len() as int,
                0,
            ));
        }
    }
}

/// Draw the lines from index `li` on, the first anchored at `(px, ypos)`.
fn draw_lines(
    buf: &mut PixelBuffer,
    px: u32,
    ypos: u128,
    lines: &Vec<Vec<char>>,
    li: usize,
    col: Color,
) -> (r: Result<(), TextError>)
    requires
        old(buf).wf(),
        li <= lines@.len(),
        ypos + 9 * (lines@.len() - li) <= 0x1_0000_0000_0000_0000_0000u128,
    ensures
        final(buf).wf(),
        final(buf).same_dims(*old(buf)),
        r is Ok <==> text_ok(lines.deep_view().skip(li as int)),
        forall|i: int, j: int|
            final(buf).in_bounds(i, j) ==> final(buf).pixel(i, j) == text_pixel(
                lines.deep_view().skip(li as int),
                px as int,
                ypos as int,
                col,
                i,
                j,
                old(buf).pixel(i, j),
            ),
    decreases lines@.len() - li,
{
    let ghost rest = lines.deep_view().skip(li as int);
    if li == lines.len() {
        proof {
            assert(rest =~~= Seq::<Seq<char>>::empty());
        }
        return Ok(());
    }
    let line = &lines[li];
    proof {
        assert(rest[0] == line@);
        assert(rest.skip(1) =~~= lines.deep_view().skip(li as int + 1));
    }
    if line_has_del(line) {
        proof {
            let bad = choose|t: int| 0 <= t < line@.len() && (#[trigger] line@[t]) as u32 == 0x7f;
            assert(!(0x20 <= line@[bad] as u32 <= 0x7e));
            assert(!line_printable(line@));
        }
        return Err(TextError::UnsupportedGlyph);
    }
    match line_bitmap(line) {
        None => {
            proof {
                assert(!line_printable(line@));
            }
            Err(TextError::UnsupportedGlyph)
        },
        Some(bm) => {
            paint_bitmap(buf, px, ypos, &bm, col);
            let r = draw_lines(buf, px, ypos + 9, lines, li + 1, col);
            proof {
                assert(glyph_rows(line@).len() == 8);
                if r is Ok {
                    assert forall|b: int| 0 <= b < rest.len() implies line_printable(
                        #[trigger] rest[b],
                    ) by {
                        if b >= 1 {
                            assert(rest[b] == rest.skip(1)[b - 1]);
                        }
                    }
                    assert(text_ok(rest));
                }
                if !(r is Ok) {
                    assert(!text_ok(rest)) by {
                        let bad = choose|b: int|
                            0 <= b < rest.skip(1).len() && !line_printable(rest.skip(1)[b]);
                        assert(rest.skip(1)[bad] == rest[bad + 1]);
                    }
                }
            }
            r
        },
    }
}

/// Draw the text anchored at `(px, py)`: split it at newlines and render the
/// lines top to bottom, one blank pixel row between them, one `col` pixel per
/// "on" bitmap cell. Fails — after fully drawing the preceding lines — at the
/// first line with a character the font does not cover.
pub fn draw_text(buf: &mut PixelBuffer, px: u32, py: u32, text: &Vec<char>, col: Color) -> (r:
    Result<(), TextError>)
    requires
        old(buf).wf(),
    ensures
        final(buf).wf(),
        final(buf).same_dims(*old(buf)),
        r is Ok <==> text_ok(split_lines(text@)),
        forall|i: int, j: int|
            final(buf).in_bounds(i, j) ==> final(buf).pixel(i, j) == text_pixel(
                split_lines(text@),
                px as int,
                py as int,
                col,
                i,
                j,
                old(buf).pixel(i, j),
            ),
{
    let lines = split_text(text);
    let line_count: usize = lines.len();
    proof {
        assert(lines.deep_view().skip(0) =~~= split_lines(text@));
        assert(line_count <= usize::MAX);
    }
    draw_lines(buf, px, py as u128, &lines, 0, col)
}

/// Does the line hold the DEL control character?
fn line_has_del(line: &Vec<char>) -> (b: bool)
    ensures
        b == exists|t: int| 0 <= t < line@.len() && (#[trigger] line@[t]) as u32 == 0x7f,
{
    let mut k: usize = 0;
    while k < line.len()
        invariant
            k <= line@.len(),
            forall|t: int| 0 <= t < k ==> (#[trigger] line@[t]) as u32 != 0x7f,
        decreases line@.len() - k,
    {
        let ch = line[k];
        if ch as u32 == 0x7f {
            return true;
        }
        k = k + 1;
    }
    false
}

} // verus!
