use vstd::prelude::*;

use crate::escape::{
    cell, clear_screen, cursor_to, push_cell, push_clear_screen, push_cursor, push_reset, reset,
};
use crate::geometry::Color;

verus! {

/// A pixel position on a canvas; the origin is the top-left corner.
#[derive(Clone, Copy, Debug, PartialEq, Eq, Structural)]
pub struct Coord {
    pub x: i32,
    pub y: i32,
}

/// A pixel position together with the color to write there.
#[derive(Clone, Copy, Debug, PartialEq, Eq, Structural)]
pub struct ColoredCoord {
    pub x: i32,
    pub y: i32,
    pub r: u8,
    pub g: u8,
    pub b: u8,
}

/// The framebuffer: one byte per channel and pixel, row by row, and the
/// pixels written since the buffers were last cleared.
pub struct Canvas {
    pub width: usize,
    pub height: usize,
    pub r: Vec<u8>,
    pub g: Vec<u8>,
    pub b: Vec<u8>,
    pub changed_coords: Vec<Coord>,
}

/// What a canvas holds, as mathematical values.
#[verifier::ext_equal]
pub struct CanvasView {
    pub width: nat,
    pub height: nat,
    pub r: Seq<u8>,
    pub g: Seq<u8>,
    pub b: Seq<u8>,
    pub changed: Seq<Coord>,
}

pub open spec fn in_bounds(x: int, y: int, width: int, height: int) -> bool {
    0 <= x < width && 0 <= y < height
}

impl CanvasView {
    pub open spec fn contains(self, x: int, y: int) -> bool {
        in_bounds(x, y, self.width as int, self.height as int)
    }

    /// Position of pixel (x, y) in the channel buffers.
    pub open spec fn index(self, x: int, y: int) -> int {
        y * self.width + x
    }

    pub open spec fn color_at(self, x: int, y: int) -> Color {
        let i = self.index(x, y);
        Color { r: self.r[i], g: self.g[i], b: self.b[i] }
    }

    pub open spec fn wf(self) -> bool {
        &&& self.width * self.height <= usize::MAX
        &&& self.r.len() == self.width * self.height
        &&& self.g.len() == self.width * self.height
        &&& self.b.len() == self.width * self.height
        &&& forall|k: int|
            0 <= k < self.changed.len() ==> self.contains(
                #[trigger] self.changed[k].x as int,
                self.changed[k].y as int,
            )
    }

    /// Writing one pixel: in bounds, the buffers take the color and the
    /// position joins the changed list; out of bounds, nothing happens.
    pub open spec fn put(self, p: ColoredCoord) -> CanvasView {
        if self.contains(p.x as int, p.y as int) {
            let i = self.index(p.x as int, p.y as int);
            CanvasView {
                r: self.r.update(i, p.r),
                g: self.g.update(i, p.g),
                b: self.b.update(i, p.b),
                changed: self.changed.push(Coord { x: p.x, y: p.y }),
                ..self
            }
        } else {
            self
        }
    }

    /// Writing a list of pixels from its last element to its first.
    pub open spec fn put_all_rev(self, ps: Seq<ColoredCoord>) -> CanvasView
        decreases ps.len(),
    {
        if ps.len() == 0 {
            self
        } else {
            self.put(ps.last()).put_all_rev(ps.drop_last())
        }
    }

    /// Whether buffer position i belongs to one of the first n pixels of
    /// the changed list.
    pub open spec fn touched_before(self, n: int, i: int) -> bool {
        exists|k: int|
            0 <= k < n && self.index(self.changed[k].x as int, self.changed[k].y as int) == i
    }

    /// Whether buffer position i belongs to a pixel of the changed list.
    pub open spec fn touched(self, i: int) -> bool {
        self.touched_before(self.changed.len() as int, i)
    }

    /// The canvas after every pixel of the changed list is set to black.
    pub open spec fn cleared(self) -> CanvasView {
        CanvasView {
            r: Seq::new(self.r.len(), |i: int| if self.touched(i) { 0u8 } else { self.r[i] }),
            g: Seq::new(self.g.len(), |i: int| if self.touched(i) { 0u8 } else { self.g[i] }),
            b: Seq::new(self.b.len(), |i: int| if self.touched(i) { 0u8 } else { self.b[i] }),
            ..self
        }
    }

    /// The coordinates of cs whose pixel is not black, in order.
    pub open spec fn lit(self, cs: Seq<Coord>) -> Seq<Coord>
        decreases cs.len(),
    {
        if cs.len() == 0 {
            cs
        } else if self.color_at(cs.last().x as int, cs.last().y as int).is_black() {
            self.lit(cs.drop_last())
        } else {
            self.lit(cs.drop_last()).push(cs.last())
        }
    }

    /// The color of pixel (x, y), or black outside the canvas.
    pub open spec fn pixel_or_black(self, x: int, y: int) -> Color {
        if self.contains(x, y) {
            self.color_at(x, y)
        } else {
            Color { r: 0, g: 0, b: 0 }
        }
    }

    /// The terminal cell at (row, col): pixel rows 2 row and 2 row + 1.
    pub open spec fn cell_at(self, row: int, col: int) -> Seq<u8> {
        cell(self.pixel_or_black(col, 2 * row), self.pixel_or_black(col, 2 * row + 1))
    }

    /// What presenting emits for one changed coordinate: the cursor moves
    /// to the cell that holds it, which is redrawn.
    pub open spec fn redraw(self, c: Coord) -> Seq<u8> {
        if self.contains(c.x as int, c.y as int) {
            let row = c.y / 2;
            cursor_to(row + 1, c.x + 1) + self.cell_at(row as int, c.x as int)
        } else {
            Seq::empty()
        }
    }

    pub open spec fn redraw_all(self, cs: Seq<Coord>) -> Seq<u8>
        decreases cs.len(),
    {
        if cs.len() == 0 {
            Seq::empty()
        } else {
            self.redraw_all(cs.drop_last()) + self.redraw(cs.last())
        }
    }

    /// The bytes presenting emits: a redraw per changed coordinate, in
    /// order, then a style reset.
    pub open spec fn presented(self) -> Seq<u8> {
        self.redraw_all(self.changed) + reset()
    }

    /// The first n cells of terminal row `row`.
    pub open spec fn paint_cells(self, row: int, n: int) -> Seq<u8>
        decreases n,
    {
        if n <= 0 {
            Seq::empty()
        } else {
            self.paint_cells(row, n - 1) + self.cell_at(row, n - 1)
        }
    }

    /// The first n terminal rows, each ended by a style reset and a newline.
    pub open spec fn paint_rows(self, n: int) -> Seq<u8>
        decreases n,
    {
        if n <= 0 {
            Seq::empty()
        } else {
            self.paint_rows(n - 1) + self.paint_cells(n - 1, self.width as int) + reset() + seq![
                10u8,
            ]
        }
    }

    /// A full paint: clear the screen, then every terminal row; an odd last
    /// pixel row gets a black partner.
    pub open spec fn full_paint(self) -> Seq<u8> {
        clear_screen() + self.paint_rows((self.height as int + 1) / 2)
    }

    /// The canvas after presenting: black pixels leave the changed list.
    pub open spec fn pruned(self) -> CanvasView {
        CanvasView { changed: self.lit(self.changed), ..self }
    }
}

impl View for Canvas {
    type V = CanvasView;

    open spec fn view(&self) -> CanvasView {
        CanvasView {
            width: self.width as nat,
            height: self.height as nat,
            r: self.r@,
            g: self.g@,
            b: self.b@,
            changed: self.changed_coords@,
        }
    }
}

proof fn lemma_index_in_buffer(w: int, h: int, x: int, y: int)
    requires
        in_bounds(x, y, w, h),
    ensures
        0 <= y * w + x < w * h,
{
    assert(y * w + x < w * h) by (nonlinear_arith)
        requires
            0 <= x < w,
            0 <= y < h,
    ;
    assert(0 <= y * w) by (nonlinear_arith)
        requires
            0 <= y,
            0 <= w,
    ;
}

fn zeroed(n: usize) -> (v: Vec<u8>)
    ensures
        v@ == Seq::new(n as nat, |i: int| 0u8),
{
    let mut v: Vec<u8> = Vec::with_capacity(n);
    let mut i: usize = 0;
    while i < n
        invariant
            i <= n,
            v@ == Seq::new(i as nat, |k: int| 0u8),
        decreases n - i,
    {
        v.push(0);
        i = i + 1;
    }
    v
}

impl Canvas {
    pub open spec fn wf(&self) -> bool {
        self@.wf()
    }

    /// An all-black canvas of the given size with nothing changed.
    pub fn new(width: usize, height: usize) -> (c: Canvas)
        requires
            width * height <= usize::MAX,
        ensures
            c.wf(),
            c@.width == width,
            c@.height == height,
            c@.changed.len() == 0,
            forall|i: int|
                0 <= i < width * height ==> c@.r[i] == 0 && c@.g[i] == 0 && c@.b[i] == 0,
    {
        let n = width * height;
        Canvas {
            width,
            height,
            r: zeroed(n),
            g: zeroed(n),
            b: zeroed(n),
            changed_coords: Vec::with_capacity(2000),
        }
    }

    fn in_canvas(&self, x: i64, y: i64) -> (b: bool)
        ensures
            b == self@.contains(x as int, y as int),
    {
        x >= 0 && (x as u64 as u128) < self.width as u128 && y >= 0 && (y as u64 as u128)
            < self.height as u128
    }

    fn buffer_index(&self, x: i32, y: i32) -> (i: usize)
        requires
            self.wf(),
            self@.contains(x as int, y as int),
        ensures
            i == self@.index(x as int, y as int),
            i < self@.r.len(),
    {
        let xu = x as usize;
        let yu = y as usize;
        proof {
            lemma_index_in_buffer(self.width as int, self.height as int, xu as int, yu as int);
        }
        yu * self.width + xu
    }

    /// Writes one pixel; a position outside the canvas is ignored.
    pub fn set_pixel(&mut self, x: i32, y: i32, r: u8, g: u8, b: u8)
        requires
            old(self).wf(),
        ensures
            final(self).wf(),
            final(self)@ == old(self)@.put(ColoredCoord { x, y, r, g, b }),
    {
        if !self.in_canvas(x as i64, y as i64) {
            return;
        }
        let idx = self.buffer_index(x, y);
        self.r.set(idx, r);
        self.g.set(idx, g);
        self.b.set(idx, b);
        self.changed_coords.push(Coord { x, y });
        assert(self@ =~= old(self)@.put(ColoredCoord { x, y, r, g, b }));
        assert forall|k: int| 0 <= k < self@.changed.len() implies self@.contains(
            #[trigger] self@.changed[k].x as int,
            self@.changed[k].y as int,
        ) by {
            if k < old(self)@.changed.len() {
                assert(self@.changed[k] == old(self)@.changed[k]);
            }
        }
    }

    /// Writes every pixel of the list, taking them from its end, and leaves
    /// the list empty. Where a position occurs twice the earlier entry wins.
    pub fn set_pixels(&mut self, pixels: &mut Vec<ColoredCoord>)
        requires
            old(self).wf(),
        ensures
            final(self).wf(),
            final(self)@ == old(self)@.put_all_rev(old(pixels)@),
            final(pixels)@.len() == 0,
    {
        while pixels.len() > 0
            invariant
                self.wf(),
                self@.put_all_rev(pixels@) == old(self)@.put_all_rev(old(pixels)@),
            decreases pixels.len(),
        {
            let ghost before = pixels@;
            let p = pixels.pop().unwrap();
            assert(before.drop_last() =~= pixels@);
            self.set_pixel(p.x, p.y, p.r, p.g, p.b);
        }
    }

    /// Sets every pixel of the changed list back to black. The list itself
    /// is kept; presenting prunes it.
    pub fn clear(&mut self)
        requires
            old(self).wf(),
        ensures
            final(self).wf(),
            final(self)@ == old(self)@.cleared(),
    {
        let ghost v0 = self@;
        let n = self.changed_coords.len();
        let mut k: usize = 0;
        while k < n
            invariant
                self.wf(),
                k <= n,
                n == v0.changed.len(),
                self@.width == v0.width,
                self@.height == v0.height,
                self@.changed == v0.changed,
                self@.r.len() == v0.r.len(),
                self@.g.len() == v0.g.len(),
                self@.b.len() == v0.b.len(),
                forall|i: int|
                    0 <= i < v0.r.len() ==> #[trigger] self@.r[i] == if v0.touched_before(
                        k as int,
                        i,
                    ) {
                        0u8
                    } else {
                        v0.r[i]
                    },
                forall|i: int|
                    0 <= i < v0.g.len() ==> #[trigger] self@.g[i] == if v0.touched_before(
                        k as int,
                        i,
                    ) {
                        0u8
                    } else {
                        v0.g[i]
                    },
                forall|i: int|
                    0 <= i < v0.b.len() ==> #[trigger] self@.b[i] == if v0.touched_before(
                        k as int,
                        i,
                    ) {
                        0u8
                    } else {
                        v0.b[i]
                    },
            decreases n - k,
        {
            let c = self.changed_coords[k];
            assert(self@.contains(self@.changed[k as int].x as int, self@.changed[k as int].y as int));
            if self.in_canvas(c.x as i64, c.y as i64) {
                let idx = self.buffer_index(c.x, c.y);
                self.r.set(idx, 0);
                self.g.set(idx, 0);
                self.b.set(idx, 0);
            }
            proof {
                assert forall|i: int| #![auto]
                    v0.touched_before(k + 1, i) == (v0.touched_before(k as int, i) || i
                        == v0.index(c.x as int, c.y as int)) by {
                    if v0.touched_before(k + 1, i) {
                        let j = choose|j: int|
                            0 <= j < k + 1 && v0.index(
                                v0.changed[j].x as int,
                                v0.changed[j].y as int,
                            ) == i;
                        if j < k {
                            assert(v0.touched_before(k as int, i));
                        }
                    }
                    if i == v0.index(c.x as int, c.y as int) {
                        assert(v0.index(v0.changed[k as int].x as int, v0.changed[k as int].y as int) == i);
                    }
                }
            }
            k = k + 1;
        }
        assert(self@ =~= v0.cleared());
    }
}

impl Canvas {
    fn pixel_or_black(&self, x: usize, y: usize) -> (c: Color)
        requires
            self.wf(),
            x < self.width,
        ensures
            c == self@.pixel_or_black(x as int, y as int),
    {
        if y < self.height {
            proof {
                lemma_index_in_buffer(self.width as int, self.height as int, x as int, y as int);
            }
            let i = y * self.width + x;
            Color { r: self.r[i], g: self.g[i], b: self.b[i] }
        } else {
            Color { r: 0, g: 0, b: 0 }
        }
    }

    /// The bytes that repaint the whole canvas, row pair by row pair.
    pub fn set_black(&self) -> (out: Vec<u8>)
        requires
            self.wf(),
        ensures
            out@ == self@.full_paint(),
    {
        let mut out: Vec<u8> = Vec::new();
        push_clear_screen(&mut out);
        let rows = self.height / 2 + self.height % 2;
        assert(rows == (self.height as int + 1) / 2);
        let mut row: usize = 0;
        while row < rows
            invariant
                self.wf(),
                row <= rows,
                rows == (self.height as int + 1) / 2,
                out@ == clear_screen() + self@.paint_rows(row as int),
            decreases rows - row,
        {
            let ghost start = out@;
            let mut col: usize = 0;
            while col < self.width
                invariant
                    self.wf(),
                    row < rows,
                    rows == (self.height as int + 1) / 2,
                    col <= self.width,
                    out@ == start + self@.paint_cells(row as int, col as int),
                decreases self.width - col,
            {
                let upper = self.pixel_or_black(col, row * 2);
                let lower = self.pixel_or_black(col, row * 2 + 1);
                push_cell(&mut out, upper, lower);
                col = col + 1;
            }
            push_reset(&mut out);
            out.push(10);
            assert(out@ =~= clear_screen() + self@.paint_rows(row + 1));
            row = row + 1;
        }
        out
    }

    /// Blackens every pixel, forgets the changed list, and returns the bytes
    /// of a full paint of the result.
    pub fn init(&mut self) -> (out: Vec<u8>)
        requires
            old(self).wf(),
        ensures
            final(self).wf(),
            final(self)@.width == old(self)@.width,
            final(self)@.height == old(self)@.height,
            final(self)@.changed.len() == 0,
            forall|i: int|
                0 <= i < final(self)@.r.len() ==> final(self)@.r[i] == 0 && final(self)@.g[i] == 0
                    && final(self)@.b[i] == 0,
            out@ == final(self)@.full_paint(),
    {
        let n = self.r.len();
        self.r = zeroed(n);
        self.g = zeroed(n);
        self.b = zeroed(n);
        self.changed_coords.clear();
        self.set_black()
    }

    /// The bytes that redraw every cell holding a changed pixel, followed by
    /// a style reset; afterwards the changed pixels that are black leave the
    /// list. The buffers are left as they are.
    pub fn present(&mut self) -> (out: Vec<u8>)
        requires
            old(self).wf(),
        ensures
            final(self).wf(),
            final(self)@ == old(self)@.pruned(),
            out@ == old(self)@.presented(),
    {
        let ghost v = self@;
        let mut out: Vec<u8> = Vec::new();
        let mut kept: Vec<Coord> = Vec::new();
        let n = self.changed_coords.len();
        let mut k: usize = 0;
        while k < n
            invariant
                self@ == v,
                v.wf(),
                n == v.changed.len(),
                k <= n,
                out@ == v.redraw_all(v.changed.take(k as int)),
                kept@ == v.lit(v.changed.take(k as int)),
                forall|j: int| 0 <= j < kept@.len() ==> v.contains(
                    #[trigger] kept@[j].x as int,
                    kept@[j].y as int,
                ),
            decreases n - k,
        {
            let c = self.changed_coords[k];
            assert(v.changed.take(k + 1).drop_last() =~= v.changed.take(k as int));
            assert(v.changed.take(k + 1).last() == c);
            assert(v.contains(v.changed[k as int].x as int, v.changed[k as int].y as int));
            if self.in_canvas(c.x as i64, c.y as i64) {
                let x = c.x as usize;
                let row = c.y as usize / 2;
                push_cursor(&mut out, row as i64 + 1, c.x as i64 + 1);
                let upper = self.pixel_or_black(x, row * 2);
                let lower = self.pixel_or_black(x, row * 2 + 1);
                push_cell(&mut out, upper, lower);
                let here = self.pixel_or_black(x, c.y as usize);
                if !(here.r == 0 && here.g == 0 && here.b == 0) {
                    kept.push(c);
                }
            }
            k = k + 1;
        }
        push_reset(&mut out);
        assert(v.changed.take(n as int) =~= v.changed);
        self.changed_coords = kept;
        assert(self@ =~= v.pruned());
        out
    }
}

proof fn lemma_put_wf(v: CanvasView, p: ColoredCoord)
    requires
        v.wf(),
    ensures
        v.put(p).wf(),
        v.put(p).width == v.width,
        v.put(p).height == v.height,
        v.changed.len() <= v.put(p).changed.len(),
        forall|k: int| 0 <= k < v.changed.len() ==> #[trigger] v.put(p).changed[k] == v.changed[k],
{
    let u = v.put(p);
    if v.contains(p.x as int, p.y as int) {
        lemma_index_in_buffer(v.width as int, v.height as int, p.x as int, p.y as int);
        assert forall|k: int| 0 <= k < u.changed.len() implies u.contains(
            #[trigger] u.changed[k].x as int,
            u.changed[k].y as int,
        ) by {
            if k < v.changed.len() {
                assert(u.changed[k] == v.changed[k]);
            }
        }
    }
}

proof fn lemma_put_all_rev_grows(v: CanvasView, ps: Seq<ColoredCoord>)
    requires
        v.wf(),
    ensures
        v.put_all_rev(ps).wf(),
        v.put_all_rev(ps).width == v.width,
        v.put_all_rev(ps).height == v.height,
        v.changed.len() <= v.put_all_rev(ps).changed.len(),
        forall|k: int|
            0 <= k < v.changed.len() ==> #[trigger] v.put_all_rev(ps).changed[k] == v.changed[k],
    decreases ps.len(),
{
    if ps.len() > 0 {
        let u = v.put(ps.last());
        lemma_put_wf(v, ps.last());
        lemma_put_all_rev_grows(u, ps.drop_last());
        assert forall|k: int| 0 <= k < v.changed.len() implies #[trigger] v.put_all_rev(
            ps,
        ).changed[k] == v.changed[k] by {
            assert(u.changed[k] == v.changed[k]);
        }
    }
}

proof fn lemma_put_all_rev_records(v: CanvasView, ps: Seq<ColoredCoord>, j: int)
    requires
        v.wf(),
        0 <= j < ps.len(),
        v.contains(ps[j].x as int, ps[j].y as int),
    ensures
        v.put_all_rev(ps).changed.contains(Coord { x: ps[j].x, y: ps[j].y }),
    decreases ps.len(),
{
    let u = v.put(ps.last());
    lemma_put_wf(v, ps.last());
    if j == ps.len() - 1 {
        let n = v.changed.len() as int;
        assert(u.changed[n] == Coord { x: ps[j].x, y: ps[j].y });
        lemma_put_all_rev_grows(u, ps.drop_last());
        assert(u.put_all_rev(ps.drop_last()).changed[n] == u.changed[n]);
    } else {
        assert(ps.drop_last()[j] == ps[j]);
        lemma_put_all_rev_records(u, ps.drop_last(), j);
    }
}

proof fn lemma_lit_members(v: CanvasView, cs: Seq<Coord>)
    ensures
        forall|c: Coord| #[trigger] v.lit(cs).contains(c) ==> cs.contains(c),
        forall|c: Coord|
            #[trigger] cs.contains(c) && !v.color_at(c.x as int, c.y as int).is_black() ==> v.lit(
                cs,
            ).contains(c),
    decreases cs.len(),
{
    if cs.len() > 0 {
        let init = cs.drop_last();
        lemma_lit_members(v, init);
        assert forall|c: Coord| #[trigger] v.lit(cs).contains(c) implies cs.contains(c) by {
            let m = choose|m: int| 0 <= m < v.lit(cs).len() && v.lit(cs)[m] == c;
            if m < v.lit(init).len() {
                assert(v.lit(init)[m] == c);
                assert(v.lit(init).contains(c));
                let k = choose|k: int| 0 <= k < init.len() && init[k] == c;
                assert(cs[k] == c);
            } else {
                assert(c == cs.last());
                assert(cs[cs.len() - 1] == c);
            }
        }
        assert forall|c: Coord|
            #[trigger] cs.contains(c) && !v.color_at(c.x as int, c.y as int).is_black() implies v.lit(
            cs,
        ).contains(c) by {
            let k = choose|k: int| 0 <= k < cs.len() && cs[k] == c;
            if k < cs.len() - 1 {
                assert(init[k] == c);
                assert(init.contains(c));
                let m = choose|m: int| 0 <= m < v.lit(init).len() && v.lit(init)[m] == c;
                if v.color_at(cs.last().x as int, cs.last().y as int).is_black() {
                    assert(v.lit(cs) == v.lit(init));
                } else {
                    assert(v.lit(cs) == v.lit(init).push(cs.last()));
                }
                assert(v.lit(cs)[m] == c);
            } else {
                assert(v.lit(cs).last() == c);
            }
        }
    }
}

proof fn lemma_lit_all_black(v: CanvasView, cs: Seq<Coord>)
    requires
        forall|k: int|
            0 <= k < cs.len() ==> v.color_at(#[trigger] cs[k].x as int, cs[k].y as int).is_black(),
    ensures
        v.lit(cs).len() == 0,
    decreases cs.len(),
{
    if cs.len() > 0 {
        assert(cs[cs.len() - 1] == cs.last());
        assert forall|k: int| 0 <= k < cs.drop_last().len() implies v.color_at(
            #[trigger] cs.drop_last()[k].x as int,
            cs.drop_last()[k].y as int,
        ).is_black() by {
            assert(cs.drop_last()[k] == cs[k]);
        }
        lemma_lit_all_black(v, cs.drop_last());
    }
}

proof fn lemma_lit_all_lit(v: CanvasView, cs: Seq<Coord>)
    requires
        forall|k: int|
            0 <= k < cs.len() ==> !v.color_at(#[trigger] cs[k].x as int, cs[k].y as int).is_black(),
    ensures
        v.lit(cs) == cs,
    decreases cs.len(),
{
    if cs.len() > 0 {
        assert(cs[cs.len() - 1] == cs.last());
        assert forall|k: int| 0 <= k < cs.drop_last().len() implies !v.color_at(
            #[trigger] cs.drop_last()[k].x as int,
            cs.drop_last()[k].y as int,
        ).is_black() by {
            assert(cs.drop_last()[k] == cs[k]);
        }
        lemma_lit_all_lit(v, cs.drop_last());
        assert(cs.drop_last().push(cs.last()) =~= cs);
    }
}

proof fn lemma_pruned_wf(v: CanvasView)
    requires
        v.wf(),
    ensures
        v.pruned().wf(),
{
    lemma_lit_members(v, v.changed);
    let u = v.pruned();
    assert forall|k: int| 0 <= k < u.changed.len() implies u.contains(
        #[trigger] u.changed[k].x as int,
        u.changed[k].y as int,
    ) by {
        assert(v.lit(v.changed).contains(u.changed[k]));
        let m = choose|m: int| 0 <= m < v.changed.len() && v.changed[m] == u.changed[k];
        assert(v.contains(v.changed[m].x as int, v.changed[m].y as int));
    }
}

/// Presenting, clearing and presenting again returns every pixel that a
/// list of writes put on the canvas to black, and leaves nothing to redraw.
pub proof fn lemma_clear_returns_to_black(v: CanvasView, ps: Seq<ColoredCoord>, j: int)
    requires
        v.wf(),
        0 <= j < ps.len(),
        v.contains(ps[j].x as int, ps[j].y as int),
    ensures
        ({
            let end = v.put_all_rev(ps).pruned().cleared().pruned();
            &&& end.color_at(ps[j].x as int, ps[j].y as int).is_black()
            &&& end.changed.len() == 0
        }),
{
    let c1 = v.put_all_rev(ps);
    let c2 = c1.pruned();
    let c3 = c2.cleared();
    let p = Coord { x: ps[j].x, y: ps[j].y };
    let (x, y) = (ps[j].x as int, ps[j].y as int);
    lemma_put_all_rev_grows(v, ps);
    lemma_put_all_rev_records(v, ps, j);
    lemma_pruned_wf(c1);
    lemma_lit_members(c1, c1.changed);
    let i = c1.index(x, y);
    assert(0 <= i < c1.r.len()) by {
        lemma_index_in_buffer(c1.width as int, c1.height as int, x, y);
    }
    if c2.changed.contains(p) {
        let k = choose|k: int| 0 <= k < c2.changed.len() && c2.changed[k] == p;
        assert(c2.touched(i));
    }
    assert(c3.color_at(x, y).is_black());
    assert forall|k: int| 0 <= k < c3.changed.len() implies c3.color_at(
        #[trigger] c3.changed[k].x as int,
        c3.changed[k].y as int,
    ).is_black() by {
        let q = c3.changed[k];
        assert(c2.contains(q.x as int, q.y as int));
        lemma_index_in_buffer(c2.width as int, c2.height as int, q.x as int, q.y as int);
        assert(c2.touched(c2.index(q.x as int, q.y as int)));
    }
    lemma_lit_all_black(c3, c3.changed);
}

/// Presenting prunes the changed list once and for all: a second present
/// without writes in between changes nothing more and emits the same bytes
/// as any later one.
pub proof fn lemma_present_settles(v: CanvasView)
    requires
        v.wf(),
    ensures
        v.pruned().pruned() == v.pruned(),
        v.pruned().pruned().presented() == v.pruned().presented(),
{
    let u = v.pruned();
    lemma_lit_members(v, v.changed);
    assert forall|k: int| 0 <= k < u.changed.len() implies !u.color_at(
        #[trigger] u.changed[k].x as int,
        u.changed[k].y as int,
    ).is_black() by {
        lemma_lit_entries_lit(v, v.changed, k);
    }
    lemma_lit_all_lit(u, u.changed);
    assert(u.pruned() =~= u);
}

proof fn lemma_lit_entries_lit(v: CanvasView, cs: Seq<Coord>, k: int)
    requires
        0 <= k < v.lit(cs).len(),
    ensures
        !v.color_at(v.lit(cs)[k].x as int, v.lit(cs)[k].y as int).is_black(),
    decreases cs.len(),
{
    if cs.len() > 0 {
        let init = cs.drop_last();
        if k < v.lit(init).len() {
            lemma_lit_entries_lit(v, init, k);
        }
    }
}

/// When every changed pixel is lit, presenting twice emits the same bytes
/// and leaves the canvas as it was.
pub proof fn lemma_present_idempotent(v: CanvasView)
    requires
        v.wf(),
        forall|k: int|
            0 <= k < v.changed.len() ==> !v.color_at(
                #[trigger] v.changed[k].x as int,
                v.changed[k].y as int,
            ).is_black(),
    ensures
        v.pruned() == v,
        v.pruned().presented() == v.presented(),
{
    lemma_lit_all_lit(v, v.changed);
    assert(v.pruned() =~= v);
}

} // verus!
