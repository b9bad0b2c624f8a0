use rin_os::graphics::{putfont, Glyph, LineWriter, FONT_HEIGHT, FONT_WIDTH};
use rin_os::window::make_window;
use rin_os::Color;

/// A font whose glyph for byte `b` has every row equal to `b`.
fn test_font() -> Vec<Glyph> {
    (0..256).map(|b| [b as u8; 16]).collect()
}

#[test]
fn putfont_paints_set_bits() {
    let mut buf = vec![Color::Black; 10 * 20];
    let mut glyph = [0u8; 16];
    glyph[0] = 0b1000_0001;
    glyph[15] = 0b0100_0000;
    putfont(&mut buf, 1, 2, Color::White, &glyph, 10);
    assert_eq!(buf[2 * 10 + 1], Color::White);
    assert_eq!(buf[2 * 10 + 8], Color::White);
    assert_eq!(buf[2 * 10 + 2], Color::Black);
    assert_eq!(buf[17 * 10 + 2], Color::White);
    assert_eq!(buf.iter().filter(|c| **c == Color::White).count(), 3);
}

#[test]
fn write_str_advances_and_wraps() {
    let font = test_font();
    let mut buf = vec![Color::Black; 20 * 64];
    let mut w = LineWriter::new(Color::Red, 0, 0, 20, 64);
    w.write_str("ab", &font, &mut buf);
    assert_eq!((w.x, w.y), (2 * FONT_WIDTH, 0));
    // 'a' = 0x61 sets columns 1, 2 and 7
    assert_eq!(buf[1], Color::Red);
    assert_eq!(buf[0], Color::Black);
    assert_eq!(buf[FONT_WIDTH + 1], Color::Red);
    // a third glyph does not fit on the 20-pixel line: it goes on the next
    w.write_str("c", &font, &mut buf);
    assert_eq!((w.x, w.y), (FONT_WIDTH, FONT_HEIGHT));
    assert_eq!(buf[FONT_HEIGHT * 20 + 1], Color::Red);
    w.write_str("\nd", &font, &mut buf);
    assert_eq!((w.x, w.y), (FONT_WIDTH, 2 * FONT_HEIGHT));
    assert_eq!(buf[2 * FONT_HEIGHT * 20 + 1], Color::Red);
    w.set(Color::Blue, 4, 0);
    assert_eq!((w.init_x, w.x, w.y, w.color), (4, 4, 0, Color::Blue));
}

#[test]
fn write_str_parks_when_full() {
    let font = test_font();
    let mut buf = vec![Color::Black; 16 * 16];
    let mut w = LineWriter::new(Color::Red, 0, 0, 16, 16);
    w.write_str("abc", &font, &mut buf);
    assert_eq!((w.x, w.y), (16, 16));
}

#[test]
fn counter_text_fills_its_box() {
    let font = test_font();
    let mut buf = vec![Color::LightGrey; 160 * 52];
    let mut w = LineWriter::new(Color::Black, 40, 28, 160, 52);
    w.write_str(&format!("{:>010}", 42), &font, &mut buf);
    assert_eq!((w.x, w.y), (120, 28));
    // '0' = 0x30 sets columns 2 and 3 of each glyph
    assert_eq!(buf[28 * 160 + 42], Color::Black);
    assert_eq!(buf[28 * 160 + 41], Color::LightGrey);
}

#[test]
fn make_window_draws_frame_caption_and_button() {
    let font = test_font();
    let mut buf = vec![Color::Red; 160 * 52];
    make_window(&mut buf, 160, 52, "counter", &font);
    let at = |x: usize, y: usize| buf[y * 160 + x];
    assert_eq!(at(0, 0), Color::LightGrey);
    assert_eq!(at(159, 0), Color::Black);
    assert_eq!(at(1, 1), Color::White);
    assert_eq!(at(1, 30), Color::White);
    assert_eq!(at(158, 30), Color::LightGrey);
    assert_eq!(at(5, 5), Color::Blue);
    assert_eq!(at(80, 30), Color::LightGrey);
    assert_eq!(at(80, 50), Color::DarkGrey);
    assert_eq!(at(80, 51), Color::Black);
    // 'c' = 0x63 sets columns 1, 2, 6 and 7 of the first glyph at (24, 4)
    assert_eq!(at(25, 4), Color::White);
    assert_eq!(at(24, 4), Color::Blue);
    // the close button's box is 139..155 × 5..19
    assert_eq!(at(139, 5), Color::White);
    assert_eq!(at(154, 5), Color::Black);
    assert_eq!(at(143, 8), Color::Black);
    assert_eq!(at(140, 6), Color::LightGrey);
    assert_eq!(at(153, 6), Color::DarkGrey);
    assert_eq!(at(140, 18), Color::Black);
    assert!(buf.iter().all(|c| *c != Color::Red));
}

#[test]
fn putfont_wraps_past_row_end() {
    let mut buf = vec![Color::Black; 4 * 20];
    let mut glyph = [0u8; 16];
    glyph[0] = 0b1000_0001;
    putfont(&mut buf, 0, 0, Color::White, &glyph, 4);
    // column 7 of a glyph in a 4-pixel-wide image falls in the next row
    assert_eq!(buf[0], Color::White);
    assert_eq!(buf[7], Color::White);
    assert_eq!(buf.iter().filter(|c| **c == Color::White).count(), 2);
}
