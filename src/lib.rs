//! A software rasterizer for character terminals: integer line, circle and
//! span drawing, a framebuffer that tracks the pixels written in a frame,
//! and the ANSI truecolor byte stream that shows it two pixels per cell.
pub mod canvas;
pub mod escape;
pub mod geometry;
pub mod mesh;
pub mod renderer;
