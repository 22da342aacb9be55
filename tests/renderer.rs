use terminal_gl::geometry::Color;
use terminal_gl::mesh::{cube_triangles, plane_triangles, pyramid_triangles};
use terminal_gl::renderer::{RenderMode, Renderer};

#[test]
fn new_renderer_starts_in_wireframe() {
    let r = Renderer::new();
    assert_eq!(r.render_mode, RenderMode::Wireframe);
    assert!(!r.show_fps);
}

#[test]
fn toggle_render_mode_twice_is_identity() {
    let mut r = Renderer::new();
    r.toggle_render_mode();
    assert_eq!(r.render_mode, RenderMode::Filled);
    r.toggle_render_mode();
    assert_eq!(r.render_mode, RenderMode::Wireframe);
}

#[test]
fn toggle_fps_display_flips() {
    let mut r = Renderer::new();
    r.toggle_fps_display();
    assert!(r.show_fps);
    r.toggle_fps_display();
    assert!(!r.show_fps);
}

#[test]
fn fps_window_closes_after_one_second() {
    let mut r = Renderer::new();
    assert_eq!(r.update_fps(10), None);
    assert_eq!(r.update_fps(999_999), None);
    assert_eq!(r.update_fps(1_000_000), Some(3));
    assert_eq!(r.frame_count, 0);
    assert_eq!(r.update_fps(5), None);
    assert_eq!(r.frame_count, 1);
}

#[test]
fn fps_count_saturates() {
    let mut r = Renderer::new();
    r.frame_count = u32::MAX;
    assert_eq!(r.update_fps(0), None);
    assert_eq!(r.frame_count, u32::MAX);
}

#[test]
fn render_text_positions_and_colors() {
    let r = Renderer::new();
    let out = r.render_text(b"FPS: 59.9", 2, 2, Color::white());
    assert_eq!(
        String::from_utf8(out).unwrap(),
        "\x1b[3;3H\x1b[38;2;255;255;255mFPS: 59.9\x1b[0m"
    );
}

#[test]
fn render_text_negative_position() {
    let r = Renderer::new();
    let out = r.render_text(b"", -5, 0, Color::new(1, 22, 133));
    assert_eq!(String::from_utf8(out).unwrap(), "\x1b[1;-4H\x1b[38;2;1;22;133m\x1b[0m");
}

#[test]
fn cube_faces_index_eight_vertices() {
    let faces = cube_triangles();
    assert_eq!(faces.len(), 12);
    assert!(faces.iter().all(|t| t.vertices.iter().all(|i| *i < 8)));
    assert_eq!(faces[2].vertices, [4, 6, 5]);
    assert_eq!(faces[11].color, Color::magenta());
}

#[test]
fn plane_and_pyramid_faces() {
    let plane = plane_triangles();
    assert_eq!(plane.len(), 2);
    assert!(plane.iter().all(|t| t.color == Color::white()));
    let pyramid = pyramid_triangles();
    assert_eq!(pyramid.len(), 6);
    assert!(pyramid.iter().all(|t| t.vertices.iter().all(|i| *i < 5)));
    assert_eq!(pyramid[5].vertices, [3, 0, 4]);
}

#[test]
fn color_constructors() {
    assert_eq!(Color::new(1, 2, 3), Color { r: 1, g: 2, b: 3 });
    assert_eq!(Color::black(), Color { r: 0, g: 0, b: 0 });
    assert_eq!(Color::yellow(), Color { r: 255, g: 255, b: 0 });
}
