use terminal_gl::canvas::{Canvas, ColoredCoord, Coord};
use terminal_gl::geometry::{draw_circle, draw_line, draw_triangle_wireframe, fill_span, Color};

fn points(pixels: &[ColoredCoord]) -> Vec<(i32, i32)> {
    pixels.iter().map(|p| (p.x, p.y)).collect()
}

#[test]
fn line_shallow_rounds_to_nearest() {
    let canvas = Canvas::new(20, 20);
    let mut pixels = Vec::new();
    draw_line(0, 0, 5, 2, &canvas, Color::red(), &mut pixels);
    assert_eq!(points(&pixels), vec![(0, 0), (1, 0), (2, 1), (3, 1), (4, 2), (5, 2)]);
    assert!(pixels.iter().all(|p| p.r == 255 && p.g == 0 && p.b == 0));
}

#[test]
fn line_steep_steps_along_y() {
    let canvas = Canvas::new(20, 20);
    let mut pixels = Vec::new();
    draw_line(1, 1, 3, 7, &canvas, Color::white(), &mut pixels);
    assert_eq!(points(&pixels), vec![(1, 1), (1, 2), (2, 3), (2, 4), (2, 5), (3, 6), (3, 7)]);
}

#[test]
fn line_reversed_runs_from_lower_x() {
    let canvas = Canvas::new(20, 20);
    let mut pixels = Vec::new();
    draw_line(6, 4, 0, 0, &canvas, Color::white(), &mut pixels);
    assert_eq!(points(&pixels), vec![(0, 0), (1, 1), (2, 1), (3, 2), (4, 3), (5, 3), (6, 4)]);
}

#[test]
fn line_horizontal_count() {
    let canvas = Canvas::new(40, 10);
    let mut pixels = Vec::new();
    draw_line(30, 7, 3, 7, &canvas, Color::blue(), &mut pixels);
    assert_eq!(pixels.len(), 28);
    assert!(pixels.iter().all(|p| p.y == 7));
}

#[test]
fn line_single_point() {
    let canvas = Canvas::new(4, 4);
    let mut pixels = Vec::new();
    draw_line(2, 3, 2, 3, &canvas, Color::green(), &mut pixels);
    assert_eq!(points(&pixels), vec![(2, 3)]);
}

#[test]
fn line_outside_points_are_skipped() {
    let canvas = Canvas::new(4, 10);
    let mut pixels = Vec::new();
    draw_line(-3, 2, 3, 2, &canvas, Color::white(), &mut pixels);
    assert_eq!(points(&pixels), vec![(0, 2), (1, 2), (2, 2), (3, 2)]);
}

#[test]
fn line_is_connected() {
    let canvas = Canvas::new(100, 100);
    let mut pixels = Vec::new();
    draw_line(90, 3, 7, 61, &canvas, Color::white(), &mut pixels);
    let pts = points(&pixels);
    assert_eq!(pts.first(), Some(&(7, 61)));
    assert_eq!(pts.last(), Some(&(90, 3)));
    for w in pts.windows(2) {
        assert!((w[1].0 - w[0].0).abs() <= 1 && (w[1].1 - w[0].1).abs() <= 1);
    }
}

#[test]
fn line_extreme_endpoints_do_not_overflow() {
    let canvas = Canvas::new(3, 3);
    let mut pixels = Vec::new();
    draw_line(i32::MIN, 0, i32::MIN + 5, 1, &canvas, Color::white(), &mut pixels);
    assert!(pixels.is_empty());
}

#[test]
fn wireframe_draws_three_edges() {
    let canvas = Canvas::new(20, 20);
    let mut pixels = Vec::new();
    draw_triangle_wireframe(
        Coord { x: 0, y: 0 },
        Coord { x: 4, y: 0 },
        Coord { x: 0, y: 4 },
        &canvas,
        Color::cyan(),
        &mut pixels,
    );
    // 5 + 5 + 5 pixels, corners drawn twice.
    assert_eq!(pixels.len(), 15);
    let pts = points(&pixels);
    assert_eq!(&pts[0..5], &[(0, 0), (1, 0), (2, 0), (3, 0), (4, 0)]);
    assert_eq!(&pts[5..10], &[(0, 4), (1, 3), (2, 2), (3, 1), (4, 0)]);
    assert_eq!(&pts[10..15], &[(0, 0), (0, 1), (0, 2), (0, 3), (0, 4)]);
}

#[test]
fn span_fills_inclusive_columns() {
    let canvas = Canvas::new(5, 5);
    let mut pixels = Vec::new();
    fill_span(2, -1, 3, &canvas, Color::yellow(), &mut pixels);
    assert_eq!(points(&pixels), vec![(0, 2), (1, 2), (2, 2), (3, 2)]);
    let mut none = Vec::new();
    fill_span(2, 3, 1, &canvas, Color::yellow(), &mut none);
    assert!(none.is_empty());
    fill_span(9, 0, 4, &canvas, Color::yellow(), &mut none);
    assert!(none.is_empty());
}

#[test]
fn circle_radius_zero() {
    let canvas = Canvas::new(20, 20);
    let mut pixels = Vec::new();
    draw_circle(5, 5, 0, &canvas, Color::white(), &mut pixels);
    let pts = points(&pixels);
    assert_eq!(pts.len(), 16);
    assert!(pts[0..8].iter().all(|p| *p == (5, 5)));
    assert_eq!(
        &pts[8..16],
        &[(6, 4), (4, 4), (6, 6), (4, 6), (4, 6), (6, 6), (4, 4), (6, 4)]
    );
}

#[test]
fn circle_radius_three() {
    let canvas = Canvas::new(30, 30);
    let mut pixels = Vec::new();
    draw_circle(10, 10, 3, &canvas, Color::white(), &mut pixels);
    let pts = points(&pixels);
    assert_eq!(pts.len(), 32);
    assert_eq!(&pts[0..8], &[(10, 13), (10, 13), (10, 7), (10, 7), (13, 10), (7, 10), (13, 10), (7, 10)]);
    assert_eq!(&pts[16..20], &[(12, 12), (8, 12), (12, 8), (8, 8)]);
}

#[test]
fn circle_clipped_at_corner() {
    let canvas = Canvas::new(20, 20);
    let mut pixels = Vec::new();
    draw_circle(0, 0, 2, &canvas, Color::white(), &mut pixels);
    assert_eq!(
        points(&pixels),
        vec![(0, 2), (0, 2), (2, 0), (2, 0), (1, 2), (2, 1), (2, 1), (1, 2)]
    );
}
