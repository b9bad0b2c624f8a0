//! Drawing into layer buffers: filled rectangles, glyphs, the desktop
//! picture and a text cursor; and moving the pointer layer.
use vstd::prelude::*;

use crate::color::Color;
use vstd::string::StringSliceAdditionalSpecFns;
use crate::layer::{
    Layer, LayerCtl, MAX_LAYERS, SCREEN_HEIGHT, SCREEN_WIDTH, clamp_axis, in_rect, on_screen, span_end,
    starts_with,
};

verus! {

/// Index of the pixel `(x, y)` in a row-major buffer `w` pixels wide.
pub open spec fn cell(x: int, y: int, w: int) -> int {
    y * w + x
}

/// Pixels of distinct positions within a row width lie at distinct indices.
pub proof fn lemma_cell_injective(x1: int, y1: int, x2: int, y2: int, w: int)
    requires
        0 <= x1 < w,
        0 <= x2 < w,
        0 <= y1,
        0 <= y2,
        x1 != x2 || y1 != y2,
    ensures
        cell(x1, y1, w) != cell(x2, y2, w),
{
    if y1 == y2 {
    } else if y1 < y2 {
        assert(y1 * w + w <= y2 * w) by (nonlinear_arith)
            requires y1 < y2, w > 0;
    } else {
        assert(y2 * w + w <= y1 * w) by (nonlinear_arith)
            requires y2 < y1, w > 0;
    }
}

/// A pixel within a `w × h` image lies at an index below `w * h`.
pub proof fn lemma_cell_in(x: int, y: int, w: int, h: int)
    requires
        0 <= x < w,
        0 <= y < h,
    ensures
        0 <= cell(x, y, w) < w * h,
{
    assert(y * w + x < w * h) by (nonlinear_arith)
        requires 0 <= x < w, 0 <= y < h;
    assert(0 <= y * w) by (nonlinear_arith)
        requires 0 <= y, 0 <= w;
}

/// The pixel `(x, y)` lies in the inclusive rectangle `[x0, x1] × [y0, y1]`.
pub open spec fn in_box(x: int, y: int, x0: int, y0: int, x1: int, y1: int) -> bool {
    x0 <= x <= x1 && y0 <= y <= y1
}

/// `after` is `before` with the inclusive rectangle `[x0, x1] × [y0, y1]`
/// of an image `xsize` pixels wide painted `c`.
pub open spec fn box_filled(
    before: Seq<Color>,
    after: Seq<Color>,
    c: Color,
    x0: int,
    y0: int,
    x1: int,
    y1: int,
    xsize: int,
) -> bool {
    &&& after.len() == before.len()
    &&& forall|x: int, y: int|
        0 <= x < xsize && 0 <= y && cell(x, y, xsize) < before.len() ==> #[trigger] after[cell(x, y, xsize)]
            == if in_box(x, y, x0, y0, x1, y1) {
            c
        } else {
            before[cell(x, y, xsize)]
        }
}

/// Paints the inclusive rectangle `[x0, x1] × [y0, y1]` of the image
/// `buf`, `xsize` pixels wide, with `c`.
pub fn boxfill(buf: &mut Vec<Color>, c: Color, x0: usize, y0: usize, x1: usize, y1: usize, xsize: usize)
    requires
        x0 <= x1 && y0 <= y1 ==> x1 < xsize && cell(x1 as int, y1 as int, xsize as int) < old(buf)@.len(),
    ensures
        box_filled(old(buf)@, final(buf)@, c, x0 as int, y0 as int, x1 as int, y1 as int, xsize as int),
{
    if x0 > x1 || y0 > y1 {
        return;
    }
    let ghost start = buf@;
    let len = buf.len();
    proof {
        assert(y1 <= y1 * xsize) by (nonlinear_arith)
            requires xsize >= 1;
    }
    let mut y: usize = y0;
    while y <= y1
        invariant
            y0 <= y <= y1 + 1,
            x0 <= x1 < xsize,
            len == start.len(),
            y1 < len,
            cell(x1 as int, y1 as int, xsize as int) < start.len(),
            buf@.len() == start.len(),
            forall|px: int, py: int|
                0 <= px < xsize && 0 <= py && cell(px, py, xsize as int) < start.len() ==> #[trigger] buf@[cell(px, py, xsize as int)]
                    == if in_box(px, py, x0 as int, y0 as int, x1 as int, y as int - 1) {
                    c
                } else {
                    start[cell(px, py, xsize as int)]
                },
        decreases y1 + 1 - y,
    {
        let mut x: usize = x0;
        while x <= x1
            invariant
                y0 <= y <= y1,
                x0 <= x <= x1 + 1,
                x1 < xsize,
                len == start.len(),
                y1 < len,
                cell(x1 as int, y1 as int, xsize as int) < start.len(),
                buf@.len() == start.len(),
                forall|px: int, py: int|
                    0 <= px < xsize && 0 <= py && cell(px, py, xsize as int) < start.len() ==> #[trigger] buf@[cell(px, py, xsize as int)]
                        == if in_box(px, py, x0 as int, y0 as int, x1 as int, y as int - 1) || (py == y && x0 <= px < x) {
                        c
                    } else {
                        start[cell(px, py, xsize as int)]
                    },
            decreases x1 + 1 - x,
        {
            proof {
                assert(y * xsize <= y1 * xsize) by (nonlinear_arith)
                    requires y <= y1;
            }
            let ghost prev = buf@;
            buf.set(y * xsize + x, c);
            proof {
                assert forall|px: int, py: int|
                    0 <= px < xsize && 0 <= py && cell(px, py, xsize as int) < start.len() implies #[trigger] buf@[cell(px, py, xsize as int)]
                        == if in_box(px, py, x0 as int, y0 as int, x1 as int, y as int - 1) || (py == y && x0 <= px < x + 1) {
                        c
                    } else {
                        start[cell(px, py, xsize as int)]
                    } by {
                    if px != x || py != y {
                        lemma_cell_injective(px, py, x as int, y as int, xsize as int);
                        assert(buf@[cell(px, py, xsize as int)] == prev[cell(px, py, xsize as int)]);
                    }
                }
            }
            x += 1;
        }
        y += 1;
    }
}

/// Width of the pointer image.
pub const MOUSE_CURSOR_WIDTH: usize = 16;

/// Height of the pointer image.
pub const MOUSE_CURSOR_HEIGHT: usize = 16;

/// The colour of the desktop picture at `(x, y)`: a cyan desktop above a
/// light grey task bar with a bevelled start button at its left and a
/// sunken clock area at its right.
pub open spec fn desktop(x: int, y: int) -> Color {
    if in_box(x, y, 637, 456, 637, 477) {
        Color::White
    } else if in_box(x, y, 593, 477, 636, 477) {
        Color::White
    } else if in_box(x, y, 593, 457, 593, 476) {
        Color::DarkGrey
    } else if in_box(x, y, 593, 456, 636, 456) {
        Color::DarkGrey
    } else if in_box(x, y, 60, 456, 60, 477) {
        Color::Black
    } else if in_box(x, y, 2, 477, 59, 477) {
        Color::Black
    } else if in_box(x, y, 59, 457, 59, 475) {
        Color::DarkGrey
    } else if in_box(x, y, 3, 476, 59, 476) {
        Color::DarkGrey
    } else if in_box(x, y, 2, 456, 2, 476) {
        Color::White
    } else if in_box(x, y, 3, 456, 59, 456) {
        Color::White
    } else if y >= 454 {
        Color::LightGrey
    } else if y == 453 {
        Color::White
    } else if y == 452 {
        Color::LightGrey
    } else {
        Color::Cyan
    }
}

/// Paints the desktop picture into a full-screen buffer.
pub fn init_screen(buf: &mut Vec<Color>)
    requires
        old(buf)@.len() == SCREEN_WIDTH * SCREEN_HEIGHT,
    ensures
        final(buf)@.len() == old(buf)@.len(),
        forall|x: int, y: int|
            0 <= x < SCREEN_WIDTH && 0 <= y < SCREEN_HEIGHT ==> #[trigger] final(buf)@[cell(x, y, SCREEN_WIDTH as int)] == desktop(x, y),
{
    let xsize = SCREEN_WIDTH;
    let ysize = SCREEN_HEIGHT;
    // the desktop and the task bar
    boxfill(buf, Color::Cyan, 0, 0, xsize - 1, ysize - 29, xsize);
    boxfill(buf, Color::LightGrey, 0, ysize - 28, xsize - 1, ysize - 28, xsize);
    boxfill(buf, Color::White, 0, ysize - 27, xsize - 1, ysize - 27, xsize);
    boxfill(buf, Color::LightGrey, 0, ysize - 26, xsize - 1, ysize - 1, xsize);
    // the start button
    boxfill(buf, Color::White, 3, ysize - 24, 59, ysize - 24, xsize);
    boxfill(buf, Color::White, 2, ysize - 24, 2, ysize - 4, xsize);
    boxfill(buf, Color::DarkGrey, 3, ysize - 4, 59, ysize - 4, xsize);
    boxfill(buf, Color::DarkGrey, 59, ysize - 23, 59, ysize - 5, xsize);
    boxfill(buf, Color::Black, 2, ysize - 3, 59, ysize - 3, xsize);
    boxfill(buf, Color::Black, 60, ysize - 24, 60, ysize - 3, xsize);
    // the clock area
    boxfill(buf, Color::DarkGrey, xsize - 47, ysize - 24, xsize - 4, ysize - 24, xsize);
    boxfill(buf, Color::DarkGrey, xsize - 47, ysize - 23, xsize - 47, ysize - 4, xsize);
    boxfill(buf, Color::White, xsize - 47, ysize - 3, xsize - 4, ysize - 3, xsize);
    boxfill(buf, Color::White, xsize - 3, ysize - 24, xsize - 3, ysize - 3, xsize);
}

/// `a - b`, or `0` when `b` exceeds `a`.
fn sub_or_zero(a: usize, b: usize) -> (r: usize)
    ensures
        r == if a >= b { a - b } else { 0 },
{
    if a >= b { a - b } else { 0 }
}

/// `a + b`, held at the largest `usize`.
fn add_sat(a: usize, b: usize) -> (r: usize)
    ensures
        r as int == span_end(a as int, b as int),
{
    if a <= usize::MAX - b { a + b } else { usize::MAX }
}

/// Hides the pointer by repainting the background layer over the
/// pointer's rectangle, then moves the pointer layer by `(dx, dy)`, kept on
/// the screen, as `slide_by_diff` does.
pub fn update_mouse_cursor(ctl: &mut LayerCtl, bg_index: usize, mouse_layer_index: usize, dx: isize, dy: isize)
    requires
        old(ctl).wf(),
        bg_index < MAX_LAYERS,
        mouse_layer_index < MAX_LAYERS,
        old(ctl).slot(bg_index as int).is_used,
        old(ctl).slot(mouse_layer_index as int).is_used,
    ensures
        ({
            let m = old(ctl).slot(mouse_layer_index as int);
            let nx = clamp_axis(m.x0 as int, dx as int, MOUSE_CURSOR_WIDTH as int, SCREEN_WIDTH as int);
            let ny = clamp_axis(m.y0 as int, dy as int, MOUSE_CURSOR_HEIGHT as int, SCREEN_HEIGHT as int);
            &&& final(ctl).wf()
            &&& final(ctl).stack() == old(ctl).stack()
            &&& final(ctl).spec_z_max() == old(ctl).spec_z_max()
            &&& final(ctl).slot(mouse_layer_index as int) == (Layer { x0: nx as usize, y0: ny as usize, ..m })
            &&& forall|i: int|
                0 <= i < MAX_LAYERS && i != mouse_layer_index ==> #[trigger] final(ctl).slot(i) == old(ctl).slot(i)
            &&& starts_with(final(ctl).writes(), old(ctl).writes())
            &&& forall|i: int|
                old(ctl).writes().len() <= i < final(ctl).writes().len() ==> {
                    let p = #[trigger] final(ctl).writes()[i];
                    &&& on_screen(p.x as int, p.y as int)
                    &&& (in_rect(p.x as int, p.y as int, m.x0 as int, m.y0 as int, m.x0 + m.xsize, m.y0 + m.ysize)
                        || in_rect(p.x as int, p.y as int, nx, ny, nx + m.xsize, ny + m.ysize))
                }
        }),
{
    let m = ctl.layer(mouse_layer_index);
    let mx = m.x0;
    let my = m.y0;
    let mw = m.xsize;
    let mh = m.ysize;
    let bgl = ctl.layer(bg_index);
    let bx = bgl.x0;
    let by = bgl.y0;
    let hx0 = sub_or_zero(mx, bx);
    let hy0 = sub_or_zero(my, by);
    let hx1 = sub_or_zero(add_sat(mx, mw), bx);
    let hy1 = sub_or_zero(add_sat(my, mh), by);
    let ghost c0 = *ctl;
    ctl.refresh(bg_index, hx0, hy0, hx1, hy1);
    let ghost c1 = *ctl;
    proof {
        c1.lemma_same_but_writes_all(&c0);
        lemma_hidden_writes(&c0, &c1, bg_index as int, bx as int, by as int, hx0 as int, hy0 as int, hx1 as int, hy1 as int, mx as int, my as int, mw as int, mh as int);
    }
    ctl.slide_by_diff(mouse_layer_index, dx, dy, MOUSE_CURSOR_WIDTH as isize, MOUSE_CURSOR_HEIGHT as isize);
    proof {
        let nx = clamp_axis(mx as int, dx as int, MOUSE_CURSOR_WIDTH as int, SCREEN_WIDTH as int);
        let ny = clamp_axis(my as int, dy as int, MOUSE_CURSOR_HEIGHT as int, SCREEN_HEIGHT as int);
        lemma_slid_writes(&c1, ctl, mouse_layer_index as int, nx, ny);
        assert forall|i: int| c0.writes().len() <= i < ctl.writes().len() implies {
            let p = #[trigger] ctl.writes()[i];
            &&& on_screen(p.x as int, p.y as int)
            &&& (in_rect(p.x as int, p.y as int, mx as int, my as int, mx + mw, my + mh)
                || in_rect(p.x as int, p.y as int, nx, ny, nx + mw, ny + mh))
        } by {
            if i < c1.writes().len() {
                assert(ctl.writes()[i] == c1.writes()[i]);
            }
        }
    }
}

/// The writes of repainting the background over the pointer's rectangle
/// lie in that rectangle, on the screen.
proof fn lemma_hidden_writes(
    c0: &LayerCtl,
    c1: &LayerCtl,
    bg: int,
    bx: int,
    by: int,
    hx0: int,
    hy0: int,
    hx1: int,
    hy1: int,
    mx: int,
    my: int,
    mw: int,
    mh: int,
)
    requires
        0 <= bg < MAX_LAYERS,
        c0.slot(bg).x0 == bx,
        c0.slot(bg).y0 == by,
        0 <= mx <= usize::MAX,
        0 <= my <= usize::MAX,
        0 <= bx,
        0 <= by,
        0 <= mw,
        0 <= mh,
        hx0 == if mx >= bx { mx - bx } else { 0 },
        hy0 == if my >= by { my - by } else { 0 },
        hx1 == if span_end(mx, mw) >= bx { span_end(mx, mw) - bx } else { 0 },
        hy1 == if span_end(my, mh) >= by { span_end(my, mh) - by } else { 0 },
        starts_with(c1.writes(), c0.writes()),
        match c0.slot(bg).z {
            None => c1.writes() == c0.writes(),
            Some(z) => c1.painted(
                c0.writes().len() as int,
                c1.writes().len() as int,
                span_end(bx, hx0),
                span_end(by, hy0),
                span_end(bx, hx1),
                span_end(by, hy1),
                z as int,
                z as int,
            ),
        },
    ensures
        forall|i: int|
            c0.writes().len() <= i < c1.writes().len() ==> {
                let p = #[trigger] c1.writes()[i];
                &&& on_screen(p.x as int, p.y as int)
                &&& in_rect(p.x as int, p.y as int, mx, my, mx + mw, my + mh)
            },
{
    if c0.slot(bg).z is Some {
        let z = c0.slot(bg).z.unwrap();
        c1.lemma_painted_view(
            c0.writes().len() as int,
            c1.writes().len() as int,
            span_end(bx, hx0),
            span_end(by, hy0),
            span_end(bx, hx1),
            span_end(by, hy1),
            z as int,
            z as int,
        );
    }
}

/// The writes of a redraw lie, on the screen, in its rectangle.
proof fn lemma_segment_in(c: &LayerCtl, start: int, end: int, x0: int, y0: int, x1: int, y1: int, z0: int, z1: int)
    requires
        c.painted(start, end, x0, y0, x1, y1, z0, z1),
    ensures
        forall|i: int|
            start <= i < end ==> {
                let p = #[trigger] c.writes()[i];
                &&& on_screen(p.x as int, p.y as int)
                &&& in_rect(p.x as int, p.y as int, x0, y0, x1, y1)
            },
{
    c.lemma_painted_view(start, end, x0, y0, x1, y1, z0, z1);
}

/// The writes of a slide lie, on the screen, in the moved layer's old or
/// new rectangle.
#[verifier::rlimit(50)]
proof fn lemma_slid_writes(c1: &LayerCtl, c2: &LayerCtl, id: int, nx: int, ny: int)
    requires
        c2.slid(c1, id, nx, ny),
    ensures
        ({
            let l = c1.slot(id);
            forall|i: int|
                c1.writes().len() <= i < c2.writes().len() ==> {
                    let p = #[trigger] c2.writes()[i];
                    &&& on_screen(p.x as int, p.y as int)
                    &&& (in_rect(p.x as int, p.y as int, l.x0 as int, l.y0 as int, l.x0 + l.xsize, l.y0 + l.ysize)
                        || in_rect(p.x as int, p.y as int, nx, ny, nx + l.xsize, ny + l.ysize))
                }
        }),
{
    let l = c1.slot(id);
    if l.z is Some {
        let z = l.z.unwrap();
        let ox1 = span_end(l.x0 as int, l.xsize as int);
        let oy1 = span_end(l.y0 as int, l.ysize as int);
        let nx1 = span_end(nx, l.xsize as int);
        let ny1 = span_end(ny, l.ysize as int);
        let start = c1.writes().len() as int;
        let end = c2.writes().len() as int;
        let mid = choose|mid: int|
            #[trigger] c2.painted(start, mid, l.x0 as int, l.y0 as int, ox1, oy1, 0, z - 1)
                && c2.painted(mid, end, nx, ny, nx1, ny1, z as int, z as int);
        lemma_segment_in(c2, start, mid, l.x0 as int, l.y0 as int, ox1, oy1, 0, z - 1);
        lemma_segment_in(c2, mid, end, nx, ny, nx1, ny1, z as int, z as int);
        assert forall|i: int| start <= i < end implies {
            let p = #[trigger] c2.writes()[i];
            &&& on_screen(p.x as int, p.y as int)
            &&& (in_rect(p.x as int, p.y as int, l.x0 as int, l.y0 as int, l.x0 + l.xsize, l.y0 + l.ysize)
                || in_rect(p.x as int, p.y as int, nx, ny, nx + l.xsize, ny + l.ysize))
        } by {
            if i < mid {
                assert(in_rect(c2.writes()[i].x as int, c2.writes()[i].y as int, l.x0 as int, l.y0 as int, ox1, oy1));
            } else {
                assert(in_rect(c2.writes()[i].x as int, c2.writes()[i].y as int, nx, ny, nx1, ny1));
            }
        }
    }
}

/// Width of a glyph in pixels.
pub const FONT_WIDTH: usize = 8;

/// Height of a glyph in pixels.
pub const FONT_HEIGHT: usize = 16;

/// A glyph: one byte per row, top row first, the leftmost pixel in the
/// most significant bit.
pub type Glyph = [u8; 16];

/// Pixel `i` of a glyph row, counted from the left, is set.
pub open spec fn glyph_bit(row: u8, i: int) -> bool {
    (row >> ((7 - i) as u8)) & 1u8 == 1u8
}

/// The glyph `g` sets its pixel `(i, j)`.
pub open spec fn glyph_on(g: Seq<u8>, i: int, j: int) -> bool {
    0 <= i < FONT_WIDTH && 0 <= j < FONT_HEIGHT && glyph_bit(g[j], i)
}

/// Index `k` of an image `w` pixels wide is where the glyph `g`, placed
/// with its top-left corner at `(x, y)`, has a set pixel `(i, j)` among
/// those before row `j0`, or in row `j0` before column `i0`.
pub open spec fn glyph_hit_before(g: Seq<u8>, x: int, y: int, w: int, k: int, j0: int, i0: int) -> bool {
    exists|i: int, j: int|
        #[trigger] glyph_on(g, i, j) && (j < j0 || (j == j0 && i < i0)) && k == (y + j) * w + x + i
}

/// Index `k` of an image `w` pixels wide is where the glyph `g`, placed
/// with its top-left corner at `(x, y)`, has a set pixel.
pub open spec fn glyph_hit(g: Seq<u8>, x: int, y: int, w: int, k: int) -> bool {
    exists|i: int, j: int| #[trigger] glyph_on(g, i, j) && k == (y + j) * w + x + i
}

/// The image `b`, `w` pixels wide, with the set pixels of glyph `g`
/// painted `c` with the glyph's top-left corner at `(x, y)`.
pub open spec fn with_glyph(b: Seq<Color>, x: int, y: int, c: Color, g: Seq<u8>, w: int) -> Seq<Color> {
    Seq::new(b.len(), |k: int| if glyph_hit(g, x, y, w, k) { c } else { b[k] })
}

/// Paints the set pixels of `glyph` with `c` into the image `buf`, `xsize`
/// pixels wide, with the glyph's top-left corner at `(x, y)`; a glyph that
/// runs past the end of a row continues on the next, as the buffer is laid
/// out.
pub fn putfont(buf: &mut Vec<Color>, x: usize, y: usize, c: Color, glyph: &Glyph, xsize: usize)
    requires
        (y + FONT_HEIGHT - 1) * xsize + x + FONT_WIDTH - 1 < old(buf)@.len(),
    ensures
        final(buf)@ == with_glyph(old(buf)@, x as int, y as int, c, glyph@, xsize as int),
{
    let ghost start = buf@;
    let ghost g = glyph@;
    let len = buf.len();
    let mut j: usize = 0;
    while j < FONT_HEIGHT
        invariant
            j <= FONT_HEIGHT,
            g == glyph@,
            (y + FONT_HEIGHT - 1) * xsize + x + FONT_WIDTH - 1 < start.len(),
            len == start.len(),
            buf@.len() == start.len(),
            forall|k: int|
                0 <= k < start.len() ==> #[trigger] buf@[k] == if glyph_hit_before(g, x as int, y as int, xsize as int, k, j as int, 0) {
                    c
                } else {
                    start[k]
                },
        decreases FONT_HEIGHT - j,
    {
        let mut i: usize = 0;
        while i < FONT_WIDTH
            invariant
                j < FONT_HEIGHT,
                i <= FONT_WIDTH,
                g == glyph@,
                (y + FONT_HEIGHT - 1) * xsize + x + FONT_WIDTH - 1 < start.len(),
                len == start.len(),
                buf@.len() == start.len(),
                forall|k: int|
                    0 <= k < start.len() ==> #[trigger] buf@[k] == if glyph_hit_before(g, x as int, y as int, xsize as int, k, j as int, i as int) {
                        c
                    } else {
                        start[k]
                    },
            decreases FONT_WIDTH - i,
        {
            let row = glyph[j];
            let ghost prev = buf@;
            let ghost m = (y + j) * xsize + x + i;
            proof {
                assert((y + j) * xsize <= (y + FONT_HEIGHT - 1) * xsize) by (nonlinear_arith)
                    requires j < FONT_HEIGHT;
                assert(glyph_on(g, i as int, j as int) == ((row >> ((7 - i) as u8)) & 1 == 1));
            }
            if (row >> ((7 - i) as u8)) & 1 == 1 {
                let row_start: usize = if xsize == 0 {
                    0
                } else {
                    proof {
                        assert(y + j <= (y + j) * xsize) by (nonlinear_arith)
                            requires xsize >= 1;
                    }
                    (y + j) * xsize
                };
                buf.set(row_start + x + i, c);
            }
            proof {
                assert forall|k: int| 0 <= k < start.len() implies #[trigger] buf@[k] == if glyph_hit_before(g, x as int, y as int, xsize as int, k, j as int, i + 1) {
                    c
                } else {
                    start[k]
                } by {
                    if glyph_hit_before(g, x as int, y as int, xsize as int, k, j as int, i + 1) {
                        let (ii, jj) = choose|ii: int, jj: int|
                            #[trigger] glyph_on(g, ii, jj) && (jj < j || (jj == j && ii < i + 1)) && k == (y + jj) * xsize + x + ii;
                        if !(jj == j && ii == i) {
                            assert(glyph_hit_before(g, x as int, y as int, xsize as int, k, j as int, i as int));
                        }
                    } else {
                        if glyph_on(g, i as int, j as int) {
                            assert(k != m);
                        }
                    }
                }
            }
            i += 1;
        }
        proof {
            assert forall|k: int| 0 <= k < start.len() implies glyph_hit_before(g, x as int, y as int, xsize as int, k, j + 1, 0)
                == glyph_hit_before(g, x as int, y as int, xsize as int, k, j as int, FONT_WIDTH as int) by {
                if glyph_hit_before(g, x as int, y as int, xsize as int, k, j as int, FONT_WIDTH as int) {
                    let (ii, jj) = choose|ii: int, jj: int|
                        #[trigger] glyph_on(g, ii, jj) && (jj < j || (jj == j && ii < FONT_WIDTH)) && k == (y + jj) * xsize + x + ii;
                    assert(glyph_hit_before(g, x as int, y as int, xsize as int, k, j + 1, 0));
                }
                if glyph_hit_before(g, x as int, y as int, xsize as int, k, j + 1, 0) {
                    let (ii, jj) = choose|ii: int, jj: int|
                        #[trigger] glyph_on(g, ii, jj) && (jj < j + 1 || (jj == j + 1 && ii < 0)) && k == (y + jj) * xsize + x + ii;
                    assert(glyph_hit_before(g, x as int, y as int, xsize as int, k, j as int, FONT_WIDTH as int));
                }
            }
        }
        j += 1;
    }
    proof {
        assert forall|k: int| 0 <= k < start.len() implies glyph_hit(g, x as int, y as int, xsize as int, k)
            == glyph_hit_before(g, x as int, y as int, xsize as int, k, FONT_HEIGHT as int, 0) by {
            if glyph_hit(g, x as int, y as int, xsize as int, k) {
                let (ii, jj) = choose|ii: int, jj: int| #[trigger] glyph_on(g, ii, jj) && k == (y + jj) * xsize + x + ii;
                assert(glyph_hit_before(g, x as int, y as int, xsize as int, k, FONT_HEIGHT as int, 0));
            }
        }
        assert(buf@ =~= with_glyph(start, x as int, y as int, c, glyph@, xsize as int));
    }
}

/// `a + b`, held at the largest `usize`.
pub open spec fn sat_add(a: usize, b: usize) -> usize {
    if a + b <= usize::MAX {
        (a + b) as usize
    } else {
        usize::MAX
    }
}

/// A text cursor over an image `xsize × ysize` pixels: it writes glyphs
/// left to right from `(x, y)` and wraps to the next line at column
/// `init_x`.
#[derive(Debug, Clone, Copy, PartialEq, Eq, Structural)]
pub struct LineWriter {
    /// The column each new line starts at.
    pub init_x: usize,
    /// The cursor's column.
    pub x: usize,
    /// The cursor's row.
    pub y: usize,
    /// The image width.
    pub xsize: usize,
    /// The image height.
    pub ysize: usize,
    /// The colour glyphs are written in.
    pub color: Color,
}

/// The cursor moved to the start of the next line.
pub open spec fn next_line(w: LineWriter) -> LineWriter {
    LineWriter { x: w.init_x, y: sat_add(w.y, FONT_HEIGHT), ..w }
}

/// The cursor before a glyph is drawn for a byte other than a newline:
/// where the glyph fits it stays; else, if a further line fits, it moves to
/// the next line; else it stays and nothing is drawn.
pub open spec fn before_glyph(w: LineWriter) -> LineWriter {
    if w.x + FONT_WIDTH <= w.xsize && w.y + FONT_HEIGHT <= w.ysize {
        w
    } else if w.y + 2 * FONT_HEIGHT < w.ysize {
        next_line(w)
    } else {
        w
    }
}

/// Where the glyph of byte `b` is drawn from the cursor `w`, if it is.
pub open spec fn glyph_pos(w: LineWriter, b: u8) -> Option<(usize, usize)> {
    let v = before_glyph(w);
    if b != 10 && v.x + FONT_WIDTH <= v.xsize && v.y + FONT_HEIGHT <= v.ysize {
        Some((v.x, v.y))
    } else {
        None
    }
}

/// The cursor after byte `b`: a newline starts the next line; any other
/// byte advances one glyph, wrapping to the next line when no further glyph
/// fits, and parks at `(xsize, ysize)` when no further line fits either.
pub open spec fn step(w: LineWriter, b: u8) -> LineWriter {
    if b == 10 {
        next_line(w)
    } else {
        let v = before_glyph(w);
        if v.x + FONT_WIDTH < v.xsize {
            LineWriter { x: (v.x + FONT_WIDTH) as usize, ..v }
        } else if v.y + FONT_HEIGHT < v.ysize {
            next_line(v)
        } else {
            LineWriter { x: v.xsize, y: v.ysize, ..v }
        }
    }
}

/// The cursor and the image after writing `bytes` from the cursor `w` into
/// the image `buf` with the glyphs of `font`.
pub open spec fn typed(w: LineWriter, bytes: Seq<u8>, font: Seq<Glyph>, buf: Seq<Color>) -> (LineWriter, Seq<Color>)
    decreases bytes.len(),
{
    if bytes.len() == 0 {
        (w, buf)
    } else {
        let (w1, b1) = typed(w, bytes.drop_last(), font, buf);
        let b = bytes.last();
        let b2 = match glyph_pos(w1, b) {
            Some((gx, gy)) => with_glyph(b1, gx as int, gy as int, w1.color, font[b as int]@, w1.xsize as int),
            None => b1,
        };
        (step(w1, b), b2)
    }
}

/// Writing text keeps the image's length.
pub proof fn lemma_typed_len(w: LineWriter, bytes: Seq<u8>, font: Seq<Glyph>, buf: Seq<Color>)
    ensures
        typed(w, bytes, font, buf).1.len() == buf.len(),
    decreases bytes.len(),
{
    if bytes.len() > 0 {
        lemma_typed_len(w, bytes.drop_last(), font, buf);
    }
}

impl LineWriter {
    /// The cursor `new` makes.
    pub open spec fn new_spec(color: Color, x: usize, y: usize, xsize: usize, ysize: usize) -> LineWriter {
        LineWriter { init_x: x, x, y, xsize, ysize, color }
    }

    /// A cursor at `(x, y)`, wrapping to column `x`, writing in `color`.
    pub fn new(color: Color, x: usize, y: usize, xsize: usize, ysize: usize) -> (r: LineWriter)
        ensures
            r == LineWriter::new_spec(color, x, y, xsize, ysize),
    {
        LineWriter { init_x: x, x, y, xsize, ysize, color }
    }

    /// Moves to the start of the next line.
    fn new_line(&mut self)
        ensures
            *final(self) == next_line(*old(self)),
    {
        self.x = self.init_x;
        self.y = if self.y <= usize::MAX - FONT_HEIGHT { self.y + FONT_HEIGHT } else { usize::MAX };
    }

    /// Moves the cursor to `(new_x, new_y)`, now wrapping to column `new_x`,
    /// and writes in `color` from then on.
    pub fn set(&mut self, color: Color, new_x: usize, new_y: usize)
        ensures
            *final(self) == (LineWriter { init_x: new_x, x: new_x, y: new_y, color, ..*old(self) }),
    {
        self.init_x = new_x;
        self.x = new_x;
        self.y = new_y;
        self.color = color;
    }

    /// Writes the bytes of `s` into the image `buf` with the glyphs of
    /// `font`, one glyph per byte, a newline byte starting a new line.
    pub fn write_str(&mut self, s: &str, font: &[Glyph], buf: &mut Vec<Color>)
        requires
            font@.len() == 256,
            old(self).xsize * old(self).ysize <= old(buf)@.len(),
        ensures
            (*final(self), final(buf)@) == typed(*old(self), s.spec_bytes(), font@, old(buf)@),
    {
        let str_b = s.as_bytes();
        let height = self.ysize;
        let width = self.xsize;
        let ghost w0 = *self;
        let ghost buf0 = buf@;
        let mut i: usize = 0;
        while i < str_b.len()
            invariant
                i <= str_b@.len(),
                str_b@ == s.spec_bytes(),
                font@.len() == 256,
                height == self.ysize,
                width == self.xsize,
                self.xsize == w0.xsize,
                self.ysize == w0.ysize,
                self.init_x == w0.init_x,
                self.color == w0.color,
                width * height <= buf@.len(),
                (*self, buf@) == typed(w0, str_b@.subrange(0, i as int), font@, buf0),
            decreases str_b@.len() - i,
        {
            let b = str_b[i];
            let ghost wb = *self;
            let ghost bb = buf@;
            proof {
                assert(str_b@.subrange(0, i + 1).drop_last() =~= str_b@.subrange(0, i as int));
                assert(str_b@.subrange(0, i + 1).last() == b);
            }
            if b == 10 {
                self.new_line();
            } else {
                if self.x <= width && width - self.x >= FONT_WIDTH && self.y <= height && height - self.y >= FONT_HEIGHT {
                    proof {
                        assert((self.y + FONT_HEIGHT - 1) * width + self.x + FONT_WIDTH - 1 < width * height) by (nonlinear_arith)
                            requires self.y + FONT_HEIGHT <= height, self.x + FONT_WIDTH <= width;
                    }
                    putfont(buf, self.x, self.y, self.color, &font[b as usize], self.xsize);
                } else if self.y < height && height - self.y > 2 * FONT_HEIGHT {
                    self.new_line();
                    if self.x <= width && width - self.x >= FONT_WIDTH {
                        proof {
                            assert((self.y + FONT_HEIGHT - 1) * width + self.x + FONT_WIDTH - 1 < width * height) by (nonlinear_arith)
                                requires self.y + FONT_HEIGHT <= height, self.x + FONT_WIDTH <= width;
                        }
                        putfont(buf, self.x, self.y, self.color, &font[b as usize], self.xsize);
                    }
                }
                if self.x < width && width - self.x > FONT_WIDTH {
                    self.x = self.x + FONT_WIDTH;
                } else if self.y < height && height - self.y > FONT_HEIGHT {
                    self.new_line();
                } else {
                    self.x = width;
                    self.y = height;
                }
            }
            proof {
                assert(glyph_pos(wb, b) matches Some((gx, gy)) ==> gx == before_glyph(wb).x && gy == before_glyph(wb).y);
            }
            i += 1;
        }
        proof {
            assert(str_b@.subrange(0, str_b@.len() as int) =~= str_b@);
        }
    }
}

} // verus!
