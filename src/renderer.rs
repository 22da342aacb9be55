//! Frame-level state: which path meshes are drawn with, whether the frame
//! rate is shown, the count of frames in the current one-second window,
//! and the text overlay drawn over a frame.
use vstd::prelude::*;

use crate::escape::{cursor_to, fg, push_cursor, push_fg, push_reset, reset};
use crate::geometry::Color;

verus! {

/// How meshes are drawn: edges only, or filled faces with back faces culled.
#[derive(Clone, Copy, Debug, PartialEq, Eq, Structural)]
pub enum RenderMode {
    Wireframe,
    Filled,
}

/// The other render mode.
pub open spec fn toggled(m: RenderMode) -> RenderMode {
    match m {
        RenderMode::Wireframe => RenderMode::Filled,
        RenderMode::Filled => RenderMode::Wireframe,
    }
}

/// Toggling the render mode twice gives back the mode one started from.
pub proof fn lemma_toggle_involution(m: RenderMode)
    ensures
        toggled(toggled(m)) == m,
{
}

/// The length of a frame-rate window: one second, in microseconds.
pub const FPS_WINDOW_MICROS: u64 = 1_000_000;

pub struct Renderer {
    pub render_mode: RenderMode,
    pub show_fps: bool,
    /// Frames counted in the current frame-rate window.
    pub frame_count: u32,
}

impl Renderer {
    /// Wireframe mode, frame rate hidden, no frames counted.
    pub fn new() -> (r: Renderer)
        ensures
            r.render_mode == RenderMode::Wireframe,
            !r.show_fps,
            r.frame_count == 0,
    {
        Renderer { render_mode: RenderMode::Wireframe, show_fps: false, frame_count: 0 }
    }

    pub fn toggle_render_mode(&mut self)
        ensures
            final(self).render_mode == toggled(old(self).render_mode),
            final(self).show_fps == old(self).show_fps,
            final(self).frame_count == old(self).frame_count,
    {
        self.render_mode = match self.render_mode {
            RenderMode::Wireframe => RenderMode::Filled,
            RenderMode::Filled => RenderMode::Wireframe,
        };
    }

    pub fn toggle_fps_display(&mut self)
        ensures
            final(self).show_fps == !old(self).show_fps,
            final(self).render_mode == old(self).render_mode,
            final(self).frame_count == old(self).frame_count,
    {
        self.show_fps = !self.show_fps;
    }

    /// Counts one frame, given the time since the current window opened.
    /// Once a second or more has passed the window closes: the count,
    /// this frame included, is returned and starts again from zero.
    /// The count saturates at u32::MAX.
    pub fn update_fps(&mut self, elapsed_micros: u64) -> (closed: Option<u32>)
        ensures
            final(self).render_mode == old(self).render_mode,
            final(self).show_fps == old(self).show_fps,
            ({
                let counted = if old(self).frame_count == u32::MAX {
                    u32::MAX
                } else {
                    (old(self).frame_count + 1) as u32
                };
                if elapsed_micros >= FPS_WINDOW_MICROS {
                    closed == Some(counted) && final(self).frame_count == 0
                } else {
                    closed.is_none() && final(self).frame_count == counted
                }
            }),
    {
        self.frame_count = self.frame_count.saturating_add(1);
        if elapsed_micros >= FPS_WINDOW_MICROS {
            let n = self.frame_count;
            self.frame_count = 0;
            Some(n)
        } else {
            None
        }
    }

    /// The bytes that write text at column x, row y (0-based) in the color,
    /// then reset the style.
    pub fn render_text(&self, text: &[u8], x: i32, y: i32, color: Color) -> (out: Vec<u8>)
        ensures
            out@ == cursor_to(y + 1, x + 1) + fg(color) + text@ + reset(),
    {
        let mut out: Vec<u8> = Vec::new();
        push_cursor(&mut out, y as i64 + 1, x as i64 + 1);
        push_fg(&mut out, color);
        let ghost head = out@;
        let mut i: usize = 0;
        while i < text.len()
            invariant
                i <= text@.len(),
                out@ == head + text@.take(i as int),
            decreases text@.len() - i,
        {
            out.push(text[i]);
            assert(text@.take(i + 1) =~= text@.take(i as int).push(text@[i as int]));
            i = i + 1;
        }
        assert(text@.take(i as int) =~= text@);
        push_reset(&mut out);
        assert(out@ =~= cursor_to(y + 1, x + 1) + fg(color) + text@ + reset());
        out
    }
}

} // verus!
