use terminal_gl::canvas::{Canvas, ColoredCoord, Coord};

fn px(x: i32, y: i32, r: u8, g: u8, b: u8) -> ColoredCoord {
    ColoredCoord { x, y, r, g, b }
}

#[test]
fn new_canvas_is_black_and_unchanged() {
    let c = Canvas::new(3, 2);
    assert_eq!(c.r.len(), 6);
    assert!(c.r.iter().chain(c.g.iter()).chain(c.b.iter()).all(|v| *v == 0));
    assert!(c.changed_coords.is_empty());
}

#[test]
fn set_pixel_writes_and_records() {
    let mut c = Canvas::new(3, 2);
    c.set_pixel(2, 1, 1, 2, 3);
    assert_eq!((c.r[5], c.g[5], c.b[5]), (1, 2, 3));
    assert_eq!(c.changed_coords, vec![Coord { x: 2, y: 1 }]);
}

#[test]
fn set_pixel_outside_is_dropped() {
    let mut c = Canvas::new(3, 2);
    c.set_pixel(3, 0, 9, 9, 9);
    c.set_pixel(0, 2, 9, 9, 9);
    c.set_pixel(-1, 0, 9, 9, 9);
    assert!(c.r.iter().all(|v| *v == 0));
    assert!(c.changed_coords.is_empty());
}

#[test]
fn set_pixels_takes_from_the_end() {
    let mut c = Canvas::new(2, 2);
    let mut pixels = vec![px(0, 0, 10, 0, 0), px(1, 1, 0, 5, 0), px(0, 0, 20, 0, 0)];
    c.set_pixels(&mut pixels);
    assert!(pixels.is_empty());
    // The earlier entry for (0, 0) is written last.
    assert_eq!(c.r[0], 10);
    assert_eq!(c.g[3], 5);
    assert_eq!(
        c.changed_coords,
        vec![Coord { x: 0, y: 0 }, Coord { x: 1, y: 1 }, Coord { x: 0, y: 0 }]
    );
}

#[test]
fn clear_blackens_changed_only() {
    let mut c = Canvas::new(2, 1);
    c.set_pixel(0, 0, 7, 7, 7);
    c.r[1] = 4;
    c.clear();
    assert_eq!(c.r[0], 0);
    assert_eq!(c.r[1], 4);
    assert_eq!(c.changed_coords.len(), 1);
}

#[test]
fn present_emits_cell_with_black_partner() {
    let mut c = Canvas::new(2, 3);
    c.set_pixel(1, 2, 10, 20, 30);
    let out = c.present();
    let expected = "\x1b[2;2H\x1b[38;2;10;20;30m\x1b[48;2;0;0;0m\u{2580}\x1b[0m";
    assert_eq!(String::from_utf8(out).unwrap(), expected);
    assert_eq!(c.changed_coords, vec![Coord { x: 1, y: 2 }]);
}

#[test]
fn present_lower_pixel_is_background() {
    let mut c = Canvas::new(1, 2);
    c.set_pixel(0, 0, 255, 0, 0);
    c.set_pixel(0, 1, 0, 0, 255);
    let out = String::from_utf8(c.present()).unwrap();
    let cell = "\x1b[1;1H\x1b[38;2;255;0;0m\x1b[48;2;0;0;255m\u{2580}";
    assert_eq!(out, format!("{cell}{cell}\x1b[0m"));
}

#[test]
fn present_prunes_black_pixels() {
    let mut c = Canvas::new(2, 2);
    c.set_pixel(0, 0, 0, 0, 0);
    c.set_pixel(1, 1, 1, 1, 1);
    c.present();
    assert_eq!(c.changed_coords, vec![Coord { x: 1, y: 1 }]);
}

#[test]
fn present_with_nothing_changed_only_resets() {
    let mut c = Canvas::new(4, 4);
    assert_eq!(c.present(), b"\x1b[0m".to_vec());
}

#[test]
fn clear_then_present_returns_pixel_to_black() {
    let mut c = Canvas::new(8, 8);
    let mut pixels = vec![px(3, 5, 200, 100, 50)];
    c.set_pixels(&mut pixels);
    c.present();
    c.clear();
    let mut none = Vec::new();
    c.set_pixels(&mut none);
    let out = String::from_utf8(c.present()).unwrap();
    assert_eq!(out, "\x1b[3;4H\x1b[38;2;0;0;0m\x1b[48;2;0;0;0m\u{2580}\x1b[0m");
    let i = 5 * 8 + 3;
    assert_eq!((c.r[i], c.g[i], c.b[i]), (0, 0, 0));
    assert!(c.changed_coords.is_empty());
}

#[test]
fn repeated_present_is_idempotent() {
    let mut c = Canvas::new(4, 4);
    c.set_pixel(1, 1, 9, 8, 7);
    c.set_pixel(2, 3, 0, 0, 0);
    c.present();
    let second = c.present();
    let third = c.present();
    assert_eq!(second, third);
    assert_eq!(c.changed_coords, vec![Coord { x: 1, y: 1 }]);
}

#[test]
fn set_black_paints_every_row_pair() {
    let c = Canvas::new(1, 3);
    let out = String::from_utf8(c.set_black()).unwrap();
    let cell = "\x1b[38;2;0;0;0m\x1b[48;2;0;0;0m\u{2580}";
    assert_eq!(out, format!("\x1b[2J\x1b[H{cell}\x1b[0m\n{cell}\x1b[0m\n"));
}

#[test]
fn init_blackens_and_forgets() {
    let mut c = Canvas::new(2, 2);
    c.set_pixel(1, 0, 5, 5, 5);
    let out = String::from_utf8(c.init()).unwrap();
    assert!(c.r.iter().all(|v| *v == 0));
    assert!(c.changed_coords.is_empty());
    let cell = "\x1b[38;2;0;0;0m\x1b[48;2;0;0;0m\u{2580}";
    assert_eq!(out, format!("\x1b[2J\x1b[H{cell}{cell}\x1b[0m\n"));
}
