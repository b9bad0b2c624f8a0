//! Drawing a window: a bevelled frame with a title bar, a caption and a
//! close button.
use vstd::prelude::*;

use crate::color::Color;
use crate::graphics::{boxfill, cell, in_box, typed, Glyph, LineWriter};
use vstd::string::StringSliceAdditionalSpecFns;

verus! {

/// The colour of the empty window frame, `w × h` pixels, at `(x, y)`: a
/// light grey face with a white top-left bevel, a dark bottom-right bevel,
/// and a blue title bar.
pub open spec fn frame(x: int, y: int, w: int, h: int) -> Color {
    if y == h - 1 {
        Color::Black
    } else if in_box(x, y, 1, h - 2, w - 2, h - 2) {
        Color::DarkGrey
    } else if in_box(x, y, 3, 3, w - 4, 20) {
        Color::Blue
    } else if in_box(x, y, 2, 2, w - 3, h - 3) {
        Color::LightGrey
    } else if x == w - 1 {
        Color::Black
    } else if in_box(x, y, w - 2, 1, w - 2, h - 2) {
        Color::LightGrey
    } else if in_box(x, y, 1, 1, 1, h - 2) {
        Color::White
    } else if x == 0 {
        Color::LightGrey
    } else if in_box(x, y, 1, 1, w - 2, 1) {
        Color::White
    } else {
        Color::LightGrey
    }
}

/// The close button's pixel `(i, j)`, in a 16 × 14 box: a white top-left
/// edge, a black bottom-right edge inside a dark grey one, and a black
/// cross on light grey.
pub open spec fn close_button(i: int, j: int) -> Color {
    let d = if j <= 6 { j - 3 } else { 9 - j };
    if j == 13 || i == 15 {
        Color::Black
    } else if j == 0 || i == 0 {
        Color::White
    } else if j == 12 || i == 14 {
        Color::DarkGrey
    } else if 3 <= j <= 9 && (i == 4 + d || i == 5 + d || i == 10 - d || i == 11 - d) {
        Color::Black
    } else {
        Color::LightGrey
    }
}

/// Computes `close_button`.
fn close_button_pixel(i: usize, j: usize) -> (r: Color)
    requires
        i < 16,
        j < 14,
    ensures
        r == close_button(i as int, j as int),
{
    let d: usize = if j <= 6 {
        if j >= 3 { j - 3 } else { 0 }
    } else if j <= 9 {
        9 - j
    } else {
        0
    };
    if j == 13 || i == 15 {
        Color::Black
    } else if j == 0 || i == 0 {
        Color::White
    } else if j == 12 || i == 14 {
        Color::DarkGrey
    } else if 3 <= j && j <= 9 && (i == 4 + d || i == 5 + d || i + d == 10 || i + d == 11) {
        Color::Black
    } else {
        Color::LightGrey
    }
}

/// The empty window frame as an image `w` pixels wide, `len` pixels long.
pub open spec fn frame_image(len: int, w: int, h: int) -> Seq<Color> {
    Seq::new(len as nat, |k: int| frame(k % w, k / w, w, h))
}

/// The image `b`, `w` pixels wide, with the close button drawn at
/// `(w - 21, 5)`.
pub open spec fn with_close_button(b: Seq<Color>, w: int) -> Seq<Color> {
    Seq::new(
        b.len(),
        |k: int|
            if 0 <= k % w - (w - 21) < 16 && 0 <= k / w - 5 < 14 {
                close_button(k % w - (w - 21), k / w - 5)
            } else {
                b[k]
            },
    )
}

/// The window image: the frame, then the caption in white from `(24, 4)`,
/// then the close button.
pub open spec fn window_image(len: int, w: int, h: int, caption: Seq<u8>, font: Seq<Glyph>) -> Seq<Color> {
    let writer = LineWriter { init_x: 24, x: 24, y: 4, xsize: w as usize, ysize: h as usize, color: Color::White };
    with_close_button(typed(writer, caption, font, frame_image(len, w, h)).1, w)
}

/// Draws a window `xsize × ysize` pixels, titled `caption`, into `buf`.
pub fn make_window(buf: &mut Vec<Color>, xsize: usize, ysize: usize, caption: &str, font: &[Glyph])
    requires
        old(buf)@.len() == xsize * ysize,
        xsize >= 21,
        ysize >= 21,
        font@.len() == 256,
    ensures
        final(buf)@ == window_image(xsize * ysize, xsize as int, ysize as int, caption.spec_bytes(), font@),
{
    proof {
        assert forall|a: int, b: int| 0 <= a < xsize && 0 <= b < ysize implies #[trigger] cell(a, b, xsize as int) < xsize * ysize by {
            crate::graphics::lemma_cell_in(a, b, xsize as int, ysize as int);
        }
    }
    let len = buf.len();
    boxfill(buf, Color::LightGrey, 0, 0, xsize - 1, 0, xsize);
    boxfill(buf, Color::White, 1, 1, xsize - 2, 1, xsize);
    boxfill(buf, Color::LightGrey, 0, 0, 0, ysize - 1, xsize);
    boxfill(buf, Color::White, 1, 1, 1, ysize - 2, xsize);
    boxfill(buf, Color::LightGrey, xsize - 2, 1, xsize - 2, ysize - 2, xsize);
    boxfill(buf, Color::Black, xsize - 1, 0, xsize - 1, ysize - 1, xsize);
    boxfill(buf, Color::LightGrey, 2, 2, xsize - 3, ysize - 3, xsize);
    boxfill(buf, Color::Blue, 3, 3, xsize - 4, 20, xsize);
    boxfill(buf, Color::DarkGrey, 1, ysize - 2, xsize - 2, ysize - 2, xsize);
    boxfill(buf, Color::Black, 0, ysize - 1, xsize - 1, ysize - 1, xsize);
    proof {
        let len = (xsize * ysize) as int;
        assert forall|k: int| 0 <= k < len implies #[trigger] buf@[k] == frame_image(len, xsize as int, ysize as int)[k] by {
            let px = k % (xsize as int);
            let py = k / (xsize as int);
            vstd::arithmetic::div_mod::lemma_fundamental_div_mod(k, xsize as int);
            vstd::arithmetic::mul::lemma_mul_is_commutative(xsize as int, py);
            vstd::arithmetic::div_mod::lemma_div_pos_is_pos(k, xsize as int);
            assert(k == cell(px, py, xsize as int));
            assert(py < ysize) by {
                if py >= ysize {
                    assert(py * xsize >= ysize * xsize) by (nonlinear_arith)
                        requires py >= ysize, xsize >= 0;
                    vstd::arithmetic::mul::lemma_mul_is_commutative(ysize as int, xsize as int);
                }
            }
            assert(buf@[cell(px, py, xsize as int)] == frame(px, py, xsize as int, ysize as int));
        }
        assert(buf@ =~= frame_image(len, xsize as int, ysize as int));
    }
    let mut writer = LineWriter::new(Color::White, 24, 4, xsize, ysize);
    let ghost framed = buf@;
    writer.write_str(caption, font, buf);
    let ghost captioned = buf@;
    proof {
        crate::graphics::lemma_typed_len(LineWriter::new_spec(Color::White, 24, 4, xsize, ysize), caption.spec_bytes(), font@, framed);
    }
    let mut j: usize = 0;
    while j < 14
        invariant
            j <= 14,
            xsize >= 21,
            ysize >= 21,
            captioned.len() == xsize * ysize,
            len == captioned.len(),
            buf@.len() == captioned.len(),
            forall|px: int, py: int|
                0 <= px < xsize && 0 <= py && cell(px, py, xsize as int) < captioned.len() ==> #[trigger] buf@[cell(px, py, xsize as int)]
                    == if 0 <= px - (xsize - 21) < 16 && 0 <= py - 5 < j {
                    close_button(px - (xsize - 21), py - 5)
                } else {
                    captioned[cell(px, py, xsize as int)]
                },
        decreases 14 - j,
    {
        let mut i: usize = 0;
        while i < 16
            invariant
                j < 14,
                i <= 16,
                xsize >= 21,
                ysize >= 21,
                captioned.len() == xsize * ysize,
                len == captioned.len(),
                buf@.len() == captioned.len(),
                forall|px: int, py: int|
                    0 <= px < xsize && 0 <= py && cell(px, py, xsize as int) < captioned.len() ==> #[trigger] buf@[cell(px, py, xsize as int)]
                        == if 0 <= px - (xsize - 21) < 16 && (0 <= py - 5 < j || (py - 5 == j && px - (xsize - 21) < i)) {
                        close_button(px - (xsize - 21), py - 5)
                    } else {
                        captioned[cell(px, py, xsize as int)]
                    },
            decreases 16 - i,
        {
            proof {
                assert((j + 5) * xsize + (xsize - 21 + i) < xsize * ysize) by (nonlinear_arith)
                    requires j + 5 < 21, ysize >= 21, i < 16, xsize >= 21;
                assert(j + 5 <= (j + 5) * xsize) by (nonlinear_arith)
                    requires xsize >= 1;
            }
            let c = close_button_pixel(i, j);
            let ghost prev = buf@;
            let row_start: usize = (j + 5) * xsize;
            buf.set(row_start + (xsize - 21 + i), c);
            proof {
                assert forall|px: int, py: int|
                    0 <= px < xsize && 0 <= py && cell(px, py, xsize as int) < captioned.len() implies #[trigger] buf@[cell(px, py, xsize as int)]
                        == if 0 <= px - (xsize - 21) < 16 && (0 <= py - 5 < j || (py - 5 == j && px - (xsize - 21) < i + 1)) {
                        close_button(px - (xsize - 21), py - 5)
                    } else {
                        captioned[cell(px, py, xsize as int)]
                    } by {
                    if px != xsize - 21 + i || py != j + 5 {
                        crate::graphics::lemma_cell_injective(px, py, (xsize - 21 + i) as int, (j + 5) as int, xsize as int);
                        assert(buf@[cell(px, py, xsize as int)] == prev[cell(px, py, xsize as int)]);
                    }
                }
            }
            i += 1;
        }
        j += 1;
    }
    proof {
        let len = (xsize * ysize) as int;
        assert forall|k: int| 0 <= k < len implies #[trigger] buf@[k] == with_close_button(captioned, xsize as int)[k] by {
            let px = k % (xsize as int);
            let py = k / (xsize as int);
            vstd::arithmetic::div_mod::lemma_fundamental_div_mod(k, xsize as int);
            vstd::arithmetic::mul::lemma_mul_is_commutative(xsize as int, py);
            vstd::arithmetic::div_mod::lemma_div_pos_is_pos(k, xsize as int);
            assert(k == cell(px, py, xsize as int));
        }
        assert(buf@ =~= with_close_button(captioned, xsize as int));
    }
}

} // verus!
