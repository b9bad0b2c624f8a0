use rin_os::layer::{LayerCtl, BACKGROUND, MAX_LAYERS, SCREEN_HEIGHT, SCREEN_WIDTH};
use rin_os::Color;

/// A 16×16 pointer image: black on and below the diagonal, cyan elsewhere.
fn cursor_image() -> Vec<Color> {
    let mut v = vec![Color::Cyan; 16 * 16];
    for j in 0..16 {
        for i in 0..16 {
            if i <= j {
                v[j * 16 + i] = Color::Black;
            }
        }
    }
    v
}

/// Background (0), pointer (1) and window (2), attached as the kernel does.
fn three_layers() -> (LayerCtl, usize, usize, usize) {
    let mut ctl = LayerCtl::new();
    let bg = ctl.allocate().unwrap();
    let mouse = ctl.allocate().unwrap();
    let win = ctl.allocate().unwrap();
    ctl.set_buf(bg, vec![Color::Cyan; SCREEN_WIDTH * SCREEN_HEIGHT], SCREEN_WIDTH, SCREEN_HEIGHT, None);
    ctl.set_buf(mouse, cursor_image(), 16, 16, Some(Color::Cyan));
    ctl.set_buf(win, vec![Color::LightGrey; 160 * 52], 160, 52, None);
    (ctl, bg, mouse, win)
}

#[test]
fn allocate_hands_out_ids_in_order() {
    let mut ctl = LayerCtl::new();
    assert_eq!(ctl.allocate(), Some(0));
    assert_eq!(ctl.allocate(), Some(1));
    assert_eq!(ctl.allocate(), Some(2));
    assert!(ctl.layer(1).is_used);
    assert_eq!(ctl.layer(1).z, None);
}

#[test]
fn allocate_fails_when_every_slot_is_used() {
    let mut ctl = LayerCtl::new();
    for i in 0..MAX_LAYERS {
        assert_eq!(ctl.allocate(), Some(i));
    }
    assert_eq!(ctl.allocate(), None);
    ctl.free(7);
    assert_eq!(ctl.allocate(), Some(7));
}

#[test]
fn restack_window_over_cursor() {
    let (mut ctl, bg, mouse, win) = three_layers();
    ctl.slide(mouse, 100, 80);
    ctl.slide(win, 80, 72);
    ctl.up_down(bg, Some(0));
    ctl.up_down(win, Some(1));
    ctl.up_down(mouse, Some(2));
    assert_eq!(ctl.z_max(), Some(2));
    // an opaque pointer pixel over the window belongs to the pointer
    assert_eq!(ctl.owner_at(100, 85), mouse as u16);
    // a transparent pointer pixel shows the window below it
    assert_eq!(ctl.owner_at(110, 80), win as u16);
    ctl.up_down(win, Some(2));
    assert_eq!(ctl.layer(win).z, Some(2));
    assert_eq!(ctl.layer(mouse).z, Some(1));
    assert_eq!(ctl.layer(bg).z, Some(0));
    assert_eq!(ctl.layer_at(0), bg);
    assert_eq!(ctl.layer_at(1), mouse);
    assert_eq!(ctl.layer_at(2), win);
    ctl.refresh_map(80, 72, 240, 124, 0);
    for j in 0..16 {
        for i in 0..16 {
            if i <= j {
                assert_eq!(ctl.owner_at(100 + i, 80 + j), win as u16);
            }
        }
    }
    // outside the window the pointer still shows
    ctl.slide(mouse, 300, 300);
    assert_eq!(ctl.owner_at(300, 305), mouse as u16);
}

#[test]
fn free_mid_stack_closes_gap() {
    let mut ctl = LayerCtl::new();
    let ids: Vec<usize> = (0..4).map(|_| ctl.allocate().unwrap()).collect();
    for (k, id) in ids.iter().enumerate() {
        ctl.set_buf(*id, vec![Color::Blue; 4], 2, 2, None);
        ctl.up_down(*id, Some(k));
    }
    assert_eq!(ctl.z_max(), Some(3));
    ctl.free(ids[1]);
    assert_eq!(ctl.z_max(), Some(2));
    assert!(!ctl.layer(ids[1]).is_used);
    assert_eq!(ctl.layer(ids[1]).z, None);
    assert_eq!(ctl.layer(ids[0]).z, Some(0));
    assert_eq!(ctl.layer(ids[2]).z, Some(1));
    assert_eq!(ctl.layer(ids[3]).z, Some(2));
    assert_eq!(ctl.layer_at(1), ids[2]);
    assert_eq!(ctl.layer_at(2), ids[3]);
}

#[test]
fn slide_by_diff_clamps_to_zero() {
    let (mut ctl, _bg, mouse, _win) = three_layers();
    ctl.slide(mouse, 50, 60);
    ctl.slide_by_diff(mouse, -10000, 0, 16, 16);
    assert_eq!(ctl.layer(mouse).x0, 0);
    assert_eq!(ctl.layer(mouse).y0, 60);
}

#[test]
fn slide_by_diff_clamps_to_far_edge() {
    let (mut ctl, _bg, mouse, _win) = three_layers();
    ctl.slide(mouse, 50, 60);
    ctl.slide_by_diff(mouse, 10000, 10000, 16, 16);
    assert_eq!(ctl.layer(mouse).x0, SCREEN_WIDTH - 16);
    assert_eq!(ctl.layer(mouse).y0, SCREEN_HEIGHT - 16);
    ctl.slide_by_diff(mouse, -4, -10, 16, 16);
    assert_eq!(ctl.layer(mouse).x0, SCREEN_WIDTH - 20);
    assert_eq!(ctl.layer(mouse).y0, SCREEN_HEIGHT - 26);
}

#[test]
fn up_down_to_current_index_changes_nothing() {
    let (mut ctl, bg, mouse, win) = three_layers();
    ctl.up_down(bg, Some(0));
    ctl.up_down(win, Some(1));
    ctl.up_down(mouse, Some(2));
    ctl.take_writes();
    ctl.up_down(win, Some(1));
    assert!(ctl.take_writes().is_empty());
    assert_eq!(ctl.layer(win).z, Some(1));
    assert_eq!(ctl.z_max(), Some(2));
    // a request beyond the top is lowered to the top index
    ctl.up_down(mouse, Some(99));
    assert!(ctl.take_writes().is_empty());
    ctl.up_down(bg, None);
    ctl.take_writes();
    ctl.up_down(bg, None);
    assert!(ctl.take_writes().is_empty());
}

#[test]
fn stacking_indices_stay_dense() {
    let mut ctl = LayerCtl::new();
    let ids: Vec<usize> = (0..6).map(|_| ctl.allocate().unwrap()).collect();
    for id in &ids {
        ctl.set_buf(*id, vec![Color::Red; 1], 1, 1, None);
    }
    ctl.up_down(ids[0], Some(0));
    ctl.up_down(ids[1], Some(0));
    ctl.up_down(ids[2], Some(7));
    ctl.up_down(ids[3], Some(1));
    ctl.up_down(ids[0], Some(3));
    ctl.up_down(ids[4], Some(2));
    ctl.free(ids[3]);
    ctl.up_down(ids[2], None);
    ctl.up_down(ids[5], Some(0));
    let top = ctl.z_max().unwrap();
    let mut seen = vec![false; top + 1];
    for id in &ids {
        if let Some(z) = ctl.layer(*id).z {
            assert!(z <= top);
            assert!(!seen[z]);
            seen[z] = true;
            assert_eq!(ctl.layer_at(z), *id);
        }
    }
    assert!(seen.iter().all(|s| *s));
    assert_eq!(top, 3);
}

#[test]
fn ownership_names_topmost_visible_layer() {
    let (mut ctl, bg, mouse, win) = three_layers();
    ctl.slide(mouse, 100, 80);
    ctl.slide(win, 80, 72);
    // nothing displayed: every pixel is background
    assert_eq!(ctl.owner_at(0, 0), BACKGROUND);
    ctl.up_down(win, Some(0));
    ctl.up_down(mouse, Some(1));
    assert_eq!(ctl.owner_at(0, 0), BACKGROUND);
    assert_eq!(ctl.owner_at(80, 72), win as u16);
    assert_eq!(ctl.owner_at(239, 123), win as u16);
    assert_eq!(ctl.owner_at(240, 123), BACKGROUND);
    assert_eq!(ctl.owner_at(101, 81), mouse as u16);
    assert_eq!(ctl.owner_at(115, 80), win as u16);
    ctl.up_down(bg, Some(0));
    assert_eq!(ctl.owner_at(0, 0), bg as u16);
    assert_eq!(ctl.owner_at(101, 81), mouse as u16);
    // hiding the window uncovers the background under it
    ctl.up_down(win, None);
    assert_eq!(ctl.owner_at(80, 72), bg as u16);
    assert_eq!(ctl.owner_at(115, 80), bg as u16);
    assert_eq!(ctl.owner_at(101, 81), mouse as u16);
}

#[test]
fn refresh_writes_only_inside_its_rectangle() {
    let (mut ctl, bg, _mouse, win) = three_layers();
    ctl.slide(win, 80, 72);
    ctl.up_down(bg, Some(0));
    ctl.up_down(win, Some(1));
    ctl.take_writes();
    ctl.refresh(win, 40, 28, 120, 44);
    let w = ctl.take_writes();
    assert_eq!(w.len(), 80 * 16);
    for p in &w {
        assert!(p.x >= 120 && p.x < 200);
        assert!(p.y >= 100 && p.y < 116);
        assert_eq!(p.color, Color::LightGrey);
    }
    let mut pos: Vec<(usize, usize)> = w.iter().map(|p| (p.x, p.y)).collect();
    pos.sort();
    pos.dedup();
    assert_eq!(pos.len(), 80 * 16);
    // a rectangle off the screen draws nothing
    ctl.refresh(win, 1000, 1000, 2000, 2000);
    assert!(ctl.take_writes().is_empty());
    // a hidden layer draws nothing
    ctl.up_down(win, None);
    ctl.take_writes();
    ctl.refresh(win, 0, 0, 160, 52);
    assert!(ctl.take_writes().is_empty());
}

#[test]
fn refresh_part_paints_each_owned_pixel_once() {
    let (mut ctl, bg, mouse, win) = three_layers();
    ctl.slide(mouse, 100, 80);
    ctl.slide(win, 80, 72);
    ctl.up_down(bg, Some(0));
    ctl.up_down(win, Some(1));
    ctl.up_down(mouse, Some(2));
    ctl.take_writes();
    ctl.refresh_part(0, 0, SCREEN_WIDTH, SCREEN_HEIGHT, 0, 2);
    let w = ctl.take_writes();
    assert_eq!(w.len(), SCREEN_WIDTH * SCREEN_HEIGHT);
    let mut screen = vec![None; SCREEN_WIDTH * SCREEN_HEIGHT];
    for p in &w {
        assert!(screen[p.y * SCREEN_WIDTH + p.x].is_none());
        screen[p.y * SCREEN_WIDTH + p.x] = Some(p.color);
    }
    assert_eq!(screen[0], Some(Color::Cyan));
    assert_eq!(screen[72 * SCREEN_WIDTH + 80], Some(Color::LightGrey));
    assert_eq!(screen[85 * SCREEN_WIDTH + 100], Some(Color::Black));
    assert_eq!(screen[80 * SCREEN_WIDTH + 110], Some(Color::LightGrey));
    // only the pointer's pixels for the top index
    ctl.refresh_part(0, 0, SCREEN_WIDTH, SCREEN_HEIGHT, 2, 2);
    assert_eq!(ctl.take_writes().len(), 16 * 17 / 2);
}

#[test]
fn raising_a_layer_redraws_its_rectangle() {
    let (mut ctl, bg, mouse, win) = three_layers();
    ctl.slide(mouse, 100, 80);
    ctl.slide(win, 80, 72);
    ctl.up_down(bg, Some(0));
    ctl.up_down(mouse, Some(1));
    ctl.up_down(win, Some(2));
    let w = ctl.take_writes();
    // the last call drew the whole window on top
    let last: Vec<_> = w.iter().rev().take(160 * 52).collect();
    assert!(last.iter().all(|p| p.color == Color::LightGrey));
    ctl.up_down(win, Some(1));
    let w = ctl.take_writes();
    // lowering redraws the pointer's visible pixels over the window
    assert_eq!(w.iter().filter(|p| p.color == Color::Black).count(), 16 * 17 / 2);
}

#[test]
fn set_buf_returns_previous_buffer() {
    let (mut ctl, bg, _mouse, win) = three_layers();
    ctl.slide(win, 10, 10);
    ctl.up_down(bg, Some(0));
    ctl.up_down(win, Some(1));
    ctl.take_writes();
    let prev = ctl.set_buf(win, vec![Color::Red; 4 * 2], 4, 2, None);
    assert_eq!(prev.len(), 160 * 52);
    assert!(prev.iter().all(|c| *c == Color::LightGrey));
    assert_eq!(ctl.layer(win).xsize, 4);
    assert_eq!(ctl.layer(win).z, Some(1));
    assert_eq!(ctl.owner_at(10, 10), win as u16);
    assert_eq!(ctl.owner_at(20, 10), bg as u16);
    // the old rectangle, which holds the new one, and then the new one are redrawn
    let w = ctl.take_writes();
    assert_eq!(w.iter().filter(|p| p.color == Color::Red).count(), 2 * 8);
    assert!(w.iter().any(|p| p.x == 20 && p.y == 10 && p.color == Color::Cyan));
}

#[test]
fn layer_new_is_unused() {
    let l = rin_os::layer::Layer::new();
    assert!(!l.is_used);
    assert_eq!(l.z, None);
    assert_eq!(l.xsize, 0);
}
