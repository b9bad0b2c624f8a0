use rin_os::graphics::{boxfill, init_screen, update_mouse_cursor};
use rin_os::interrupts::InterruptIndex;
use rin_os::layer::{LayerCtl, SCREEN_HEIGHT, SCREEN_WIDTH};
use rin_os::qemu::QemuExitCode;
use rin_os::Color;

#[test]
fn boxfill_paints_inclusive_rectangle() {
    let mut buf = vec![Color::Black; 4 * 3];
    boxfill(&mut buf, Color::Red, 1, 0, 2, 1, 4);
    let want = [
        Color::Black, Color::Red, Color::Red, Color::Black,
        Color::Black, Color::Red, Color::Red, Color::Black,
        Color::Black, Color::Black, Color::Black, Color::Black,
    ];
    assert_eq!(buf, want.to_vec());
    boxfill(&mut buf, Color::White, 3, 2, 2, 2, 4);
    assert_eq!(buf, want.to_vec());
}

#[test]
fn init_screen_draws_desktop() {
    let mut buf = vec![Color::Black; SCREEN_WIDTH * SCREEN_HEIGHT];
    init_screen(&mut buf);
    let at = |x: usize, y: usize| buf[y * SCREEN_WIDTH + x];
    assert_eq!(at(0, 0), Color::Cyan);
    assert_eq!(at(639, 451), Color::Cyan);
    assert_eq!(at(0, 452), Color::LightGrey);
    assert_eq!(at(0, 453), Color::White);
    assert_eq!(at(0, 479), Color::LightGrey);
    assert_eq!(at(2, 460), Color::White);
    assert_eq!(at(10, 456), Color::White);
    assert_eq!(at(10, 476), Color::DarkGrey);
    assert_eq!(at(59, 460), Color::DarkGrey);
    assert_eq!(at(10, 477), Color::Black);
    assert_eq!(at(60, 470), Color::Black);
    assert_eq!(at(600, 456), Color::DarkGrey);
    assert_eq!(at(593, 470), Color::DarkGrey);
    assert_eq!(at(600, 477), Color::White);
    assert_eq!(at(637, 460), Color::White);
    assert_eq!(at(620, 470), Color::LightGrey);
}

#[test]
fn mouse_cursor_moves_and_stays_on_screen() {
    let mut ctl = LayerCtl::new();
    let bg = ctl.allocate().unwrap();
    let mouse = ctl.allocate().unwrap();
    ctl.set_buf(bg, vec![Color::Cyan; SCREEN_WIDTH * SCREEN_HEIGHT], SCREEN_WIDTH, SCREEN_HEIGHT, None);
    ctl.set_buf(mouse, vec![Color::Black; 16 * 16], 16, 16, Some(Color::Cyan));
    ctl.slide(mouse, 312, 218);
    ctl.up_down(bg, Some(0));
    ctl.up_down(mouse, Some(1));
    update_mouse_cursor(&mut ctl, bg, mouse, 5, -3);
    assert_eq!(ctl.layer(mouse).x0, 317);
    assert_eq!(ctl.layer(mouse).y0, 215);
    update_mouse_cursor(&mut ctl, bg, mouse, -1000, 1000);
    assert_eq!(ctl.layer(mouse).x0, 0);
    assert_eq!(ctl.layer(mouse).y0, SCREEN_HEIGHT - 16);
    assert_eq!(ctl.owner_at(0, SCREEN_HEIGHT - 16), mouse as u16);
    assert_eq!(ctl.owner_at(317, 215), bg as u16);
}

#[test]
fn interrupt_vectors() {
    assert_eq!(InterruptIndex::Timer.as_u8(), 32);
    assert_eq!(InterruptIndex::Keyboard.as_u8(), 33);
    assert_eq!(InterruptIndex::Mouse.as_u8(), 44);
    assert_eq!(InterruptIndex::Mouse.as_usize(), 44);
}

#[test]
fn qemu_exit_codes() {
    assert_eq!(QemuExitCode::Success.code(), 0x10);
    assert_eq!(QemuExitCode::Failed.code(), 0x11);
}

#[test]
fn mouse_cursor_writes_stay_in_old_and_new_footprints() {
    let mut ctl = LayerCtl::new();
    let bg = ctl.allocate().unwrap();
    let mouse = ctl.allocate().unwrap();
    ctl.set_buf(bg, vec![Color::Cyan; SCREEN_WIDTH * SCREEN_HEIGHT], SCREEN_WIDTH, SCREEN_HEIGHT, None);
    ctl.set_buf(mouse, vec![Color::Black; 16 * 16], 16, 16, Some(Color::Cyan));
    ctl.slide(mouse, 200, 100);
    ctl.up_down(bg, Some(0));
    ctl.up_down(mouse, Some(1));
    ctl.take_writes();
    update_mouse_cursor(&mut ctl, bg, mouse, 40, 30);
    let w = ctl.take_writes();
    let in_old = |x: usize, y: usize| (200..216).contains(&x) && (100..116).contains(&y);
    let in_new = |x: usize, y: usize| (240..256).contains(&x) && (130..146).contains(&y);
    assert!(w.iter().all(|p| in_old(p.x, p.y) || in_new(p.x, p.y)));
    // the old footprint is repainted with the background
    assert!(w.iter().any(|p| p.x == 200 && p.y == 100 && p.color == Color::Cyan));
    assert!(w.iter().any(|p| p.x == 240 && p.y == 130 && p.color == Color::Black));
}
