use vstd::prelude::*;

use crate::canvas::{in_bounds, Canvas, ColoredCoord, Coord};

verus! {

/// An RGB color with one byte per channel.
#[derive(Clone, Copy, Debug, PartialEq, Eq, Structural)]
pub struct Color {
    pub r: u8,
    pub g: u8,
    pub b: u8,
}

impl Color {
    pub fn new(r: u8, g: u8, b: u8) -> (c: Color)
        ensures
            c == (Color { r, g, b }),
    {
        Color { r, g, b }
    }

    pub open spec fn is_black(self) -> bool {
        self.r == 0 && self.g == 0 && self.b == 0
    }

    pub fn black() -> (c: Color)
        ensures
            c == (Color { r: 0, g: 0, b: 0 }),
    {
        Color { r: 0, g: 0, b: 0 }
    }

    pub fn white() -> (c: Color)
        ensures
            c == (Color { r: 255, g: 255, b: 255 }),
    {
        Color { r: 255, g: 255, b: 255 }
    }

    pub fn red() -> (c: Color)
        ensures
            c == (Color { r: 255, g: 0, b: 0 }),
    {
        Color { r: 255, g: 0, b: 0 }
    }

    pub fn green() -> (c: Color)
        ensures
            c == (Color { r: 0, g: 255, b: 0 }),
    {
        Color { r: 0, g: 255, b: 0 }
    }

    pub fn blue() -> (c: Color)
        ensures
            c == (Color { r: 0, g: 0, b: 255 }),
    {
        Color { r: 0, g: 0, b: 255 }
    }

    pub fn yellow() -> (c: Color)
        ensures
            c == (Color { r: 255, g: 255, b: 0 }),
    {
        Color { r: 255, g: 255, b: 0 }
    }

    pub fn cyan() -> (c: Color)
        ensures
            c == (Color { r: 0, g: 255, b: 255 }),
    {
        Color { r: 0, g: 255, b: 255 }
    }

    pub fn magenta() -> (c: Color)
        ensures
            c == (Color { r: 255, g: 0, b: 255 }),
    {
        Color { r: 255, g: 0, b: 255 }
    }
}

pub open spec fn abs(v: int) -> int {
    if v < 0 {
        -v
    } else {
        v
    }
}

pub open spec fn colored(p: (int, int), c: Color) -> ColoredCoord {
    ColoredCoord { x: p.0 as i32, y: p.1 as i32, r: c.r, g: c.g, b: c.b }
}

/// The pixels that drawing the points pts on a width x height canvas
/// emits: the points inside the canvas, in order, in color c.
pub open spec fn visible(pts: Seq<(int, int)>, width: int, height: int, c: Color) -> Seq<
    ColoredCoord,
>
    decreases pts.len(),
{
    if pts.len() == 0 {
        Seq::empty()
    } else {
        let rest = visible(pts.drop_last(), width, height, c);
        let p = pts.last();
        if in_bounds(p.0, p.1, width, height) {
            rest.push(colored(p, c))
        } else {
            rest
        }
    }
}

pub proof fn lemma_visible_append(a: Seq<(int, int)>, b: Seq<(int, int)>, w: int, h: int, c: Color)
    ensures
        visible(a + b, w, h, c) == visible(a, w, h, c) + visible(b, w, h, c),
    decreases b.len(),
{
    if b.len() == 0 {
        assert(a + b =~= a);
        assert(visible(b, w, h, c) =~= Seq::empty());
        assert(visible(a, w, h, c) + visible(b, w, h, c) =~= visible(a, w, h, c));
    } else {
        assert((a + b).drop_last() =~= a + b.drop_last());
        lemma_visible_append(a, b.drop_last(), w, h, c);
        let rest = visible(b.drop_last(), w, h, c);
        let p = b.last();
        if in_bounds(p.0, p.1, w, h) {
            assert(visible(a, w, h, c) + rest.push(colored(p, c)) =~= (visible(a, w, h, c)
                + rest).push(colored(p, c)));
        }
    }
}

/// Every point of pts lies inside the canvas: nothing is dropped.
pub proof fn lemma_visible_all_inside(pts: Seq<(int, int)>, w: int, h: int, c: Color)
    requires
        forall|i: int| 0 <= i < pts.len() ==> in_bounds(#[trigger] pts[i].0, pts[i].1, w, h),
    ensures
        visible(pts, w, h, c).len() == pts.len(),
        forall|i: int|
            0 <= i < pts.len() ==> #[trigger] visible(pts, w, h, c)[i] == colored(pts[i], c),
    decreases pts.len(),
{
    if pts.len() > 0 {
        let init = pts.drop_last();
        assert forall|i: int| 0 <= i < init.len() implies in_bounds(
            #[trigger] init[i].0,
            init[i].1,
            w,
            h,
        ) by {
            assert(init[i] == pts[i]);
        }
        lemma_visible_all_inside(init, w, h, c);
        assert(in_bounds(pts[pts.len() - 1].0, pts[pts.len() - 1].1, w, h));
    }
}

// Bresenham's line. The endpoints are first brought to a frame where the
// first coordinate is the major axis and runs upward; the minor coordinate
// then advances after the i-th step by the rounded share line_offset.
/// Whether the line rises more than it runs.
pub open spec fn is_steep(x0: int, y0: int, x1: int, y1: int) -> bool {
    abs(x0 - x1) < abs(y0 - y1)
}

/// The endpoints (a0, b0, a1, b1) in the frame where a is the major axis
/// and a0 <= a1.
pub open spec fn line_frame(x0: int, y0: int, x1: int, y1: int) -> (int, int, int, int) {
    let (a0, b0, a1, b1) = if is_steep(x0, y0, x1, y1) {
        (y0, x0, y1, x1)
    } else {
        (x0, y0, x1, y1)
    };
    if a0 > a1 {
        (a1, b1, a0, b0)
    } else {
        (a0, b0, a1, b1)
    }
}

/// How far the minor coordinate has moved at step i of a line that runs
/// da along the major axis and adb (at most da) along the minor one:
/// adb * i / da, rounded to nearest with halves rounded down.
pub open spec fn line_offset(i: int, da: int, adb: int) -> int {
    if da == 0 {
        0
    } else {
        (2 * i * adb + da - 1) / (2 * da)
    }
}

/// The number of points on the line: one per step of the major axis.
pub open spec fn line_len(x0: int, y0: int, x1: int, y1: int) -> int {
    let f = line_frame(x0, y0, x1, y1);
    f.2 - f.0 + 1
}

/// The i-th point of the line, in canvas coordinates.
pub open spec fn line_point(x0: int, y0: int, x1: int, y1: int, i: int) -> (int, int) {
    frame_point(line_frame(x0, y0, x1, y1), is_steep(x0, y0, x1, y1), i)
}

/// The i-th point of the line with frame f, swapped back to canvas
/// coordinates when the line is steep.
pub open spec fn frame_point(f: (int, int, int, int), steep: bool, i: int) -> (int, int) {
    let a = f.0 + i;
    let off = line_offset(i, f.2 - f.0, abs(f.3 - f.1));
    let b = if f.3 > f.1 {
        f.1 + off
    } else {
        f.1 - off
    };
    if steep {
        (b, a)
    } else {
        (a, b)
    }
}

pub open spec fn line_points(x0: int, y0: int, x1: int, y1: int) -> Seq<(int, int)> {
    Seq::new(line_len(x0, y0, x1, y1) as nat, |i: int| line_point(x0, y0, x1, y1, i))
}

proof fn lemma_offset_exact(i: int, da: int, adb: int, k: int)
    requires
        da > 0,
        2 * i * adb - da <= 2 * da * k,
        2 * da * k <= 2 * i * adb + da - 1,
    ensures
        line_offset(i, da, adb) == k,
{
    let n = 2 * i * adb + da - 1;
    assert(n == k * (2 * da) + (n - 2 * da * k)) by (nonlinear_arith);
    vstd::arithmetic::div_mod::lemma_fundamental_div_mod_converse(n, 2 * da, k, n - 2 * da * k);
}

proof fn lemma_frame_shallow(x0: int, y0: int, x1: int, y1: int)
    ensures
        ({
            let f = line_frame(x0, y0, x1, y1);
            &&& f.0 <= f.2
            &&& abs(f.3 - f.1) <= f.2 - f.0
        }),
{
}

fn abs64(v: i64) -> (r: i64)
    requires
        v > i64::MIN,
    ensures
        r == abs(v as int),
{
    if v < 0 {
        -v
    } else {
        v
    }
}

fn push_visible(px: i64, py: i64, canvas: &Canvas, color: Color, pixels: &mut Vec<ColoredCoord>)
    requires
        i32::MIN <= px <= i32::MAX,
        i32::MIN <= py <= i32::MAX,
    ensures
        final(pixels)@ == old(pixels)@ + visible(
            seq![(px as int, py as int)],
            canvas.width as int,
            canvas.height as int,
            color,
        ),
{
    let ghost one = seq![(px as int, py as int)];
    let ghost w = canvas.width as int;
    let ghost h = canvas.height as int;
    proof {
        assert(one.drop_last() =~= Seq::<(int, int)>::empty());
        assert(visible(one.drop_last(), w, h, color) =~= Seq::empty());
        assert(one.last() == (px as int, py as int));
    }
    if px >= 0 && (px as u64 as u128) < canvas.width as u128 && py >= 0 && (py as u64 as u128)
        < canvas.height as u128 {
        pixels.push(ColoredCoord { x: px as i32, y: py as i32, r: color.r, g: color.g, b: color.b });
        assert(visible(one, w, h, color) =~= seq![colored((px as int, py as int), color)]);
        assert(pixels@ =~= old(pixels)@ + visible(one, w, h, color));
    } else {
        assert(visible(one, w, h, color) =~= Seq::empty());
        assert(pixels@ =~= old(pixels)@ + visible(one, w, h, color));
    }
}

proof fn lemma_offset_start(da: int, adb: int)
    requires
        da >= 0,
    ensures
        line_offset(0, da, adb) == 0,
{
    if da > 0 {
        assert(2 * 0 * adb == 0) by (nonlinear_arith);
        assert(2 * da * 0 == 0) by (nonlinear_arith);
        lemma_offset_exact(0, da, adb, 0);
    }
}

/// Appends the pixels of the line from (x0, y0) to (x1, y1) that fall on
/// the canvas, one per step along the major axis.
pub fn draw_line(
    x0: i32,
    y0: i32,
    x1: i32,
    y1: i32,
    canvas: &Canvas,
    color: Color,
    pixels: &mut Vec<ColoredCoord>,
)
    ensures
        final(pixels)@ == old(pixels)@ + visible(
            line_points(x0 as int, y0 as int, x1 as int, y1 as int),
            canvas.width as int,
            canvas.height as int,
            color,
        ),
{
    let ghost (gx0, gy0, gx1, gy1) = (x0 as int, y0 as int, x1 as int, y1 as int);
    let ghost w = canvas.width as int;
    let ghost h = canvas.height as int;
    let mut a0 = x0 as i64;
    let mut b0 = y0 as i64;
    let mut a1 = x1 as i64;
    let mut b1 = y1 as i64;
    let steep = abs64(a0 - a1) < abs64(b0 - b1);
    if steep {
        let t = a0;
        a0 = b0;
        b0 = t;
        let t = a1;
        a1 = b1;
        b1 = t;
    }
    if a0 > a1 {
        let t = a0;
        a0 = a1;
        a1 = t;
        let t = b0;
        b0 = b1;
        b1 = t;
    }
    proof {
        lemma_frame_shallow(gx0, gy0, gx1, gy1);
    }
    let ghost f = line_frame(gx0, gy0, gx1, gy1);
    assert(f == (a0 as int, b0 as int, a1 as int, b1 as int));
    let da = a1 - a0;
    let adb = abs64(b1 - b0);
    let step: i64 = if b1 > b0 {
        1
    } else {
        -1
    };
    let ghost pts = line_points(gx0, gy0, gx1, gy1);
    let mut err: i64 = 0;
    let mut b = b0;
    let mut a = a0;
    let ghost mut k: int = 0;
    let ghost mut i: int = 0;
    proof {
        lemma_offset_start(da as int, adb as int);
        assert(2 * i * adb == 0) by (nonlinear_arith)
            requires
                i == 0,
        ;
        assert(2 * da * k == 0) by (nonlinear_arith)
            requires
                k == 0,
        ;
    }
    while a <= a1
        invariant
            i32::MIN <= a0 <= a1 <= i32::MAX,
            i32::MIN <= b0 <= i32::MAX,
            i32::MIN <= b1 <= i32::MAX,
            a0 <= a <= a1 + 1,
            i == a - a0,
            da == a1 - a0,
            0 <= adb <= da,
            adb == abs(b1 - b0),
            step == (if b1 > b0 {
                1int
            } else {
                -1int
            }),
            f == (a0 as int, b0 as int, a1 as int, b1 as int),
            f == line_frame(gx0, gy0, gx1, gy1),
            steep == is_steep(gx0, gy0, gx1, gy1),
            pts == line_points(gx0, gy0, gx1, gy1),
            pts.len() == da + 1,
            w == canvas.width,
            h == canvas.height,
            err == 2 * i * adb - 2 * da * k,
            da > 0 ==> -da < err <= da,
            da == 0 ==> err == 0 && k == 0,
            b == (if b1 > b0 {
                b0 + k
            } else {
                b0 - k
            }),
            a <= a1 ==> k == line_offset(i, da as int, adb as int) && 0 <= k <= adb,
            pixels@ == old(pixels)@ + visible(pts.take(i), w, h, color),
        decreases a1 + 1 - a,
    {
        assert(pts[i] == line_point(gx0, gy0, gx1, gy1, i));
        let px = if steep {
            b
        } else {
            a
        };
        let py = if steep {
            a
        } else {
            b
        };
        assert(line_offset(i, f.2 - f.0, abs(f.3 - f.1)) == k);
        assert(pts[i] == (px as int, py as int));
        push_visible(px, py, canvas, color, pixels);
        proof {
            assert(pts.take(i + 1) =~= pts.take(i) + seq![(px as int, py as int)]);
            lemma_visible_append(pts.take(i), seq![(px as int, py as int)], w, h, color);
        }
        let ghost err0 = err;
        let ghost k0 = k;
        err = err + 2 * adb;
        if err > da {
            b = b + step;
            err = err - 2 * da;
            proof {
                k = k + 1;
            }
        }
        a = a + 1;
        proof {
            i = i + 1;
            assert(2 * i * adb == 2 * (i - 1) * adb + 2 * adb) by (nonlinear_arith);
            assert(2 * da * (k0 + 1) == 2 * da * k0 + 2 * da) by (nonlinear_arith);
            if da == 0 {
                assert(err == 0);
                assert(k == 0);
            }
            if a <= a1 {
                lemma_offset_exact(i, da as int, adb as int, k);
                assert(k <= adb) by (nonlinear_arith)
                    requires
                        2 * da * k <= 2 * i * adb + da - 1,
                        i <= da,
                        0 <= adb,
                        da > 0,
                ;
            }
        }
    }
    assert(pts.take(i) =~= pts);
}

proof fn lemma_offset_bounds(i: int, da: int, adb: int)
    requires
        da > 0,
        i >= 0,
        adb >= 0,
    ensures
        2 * da * line_offset(i, da, adb) <= 2 * i * adb + da - 1,
        2 * i * adb + da - 1 < 2 * da * (line_offset(i, da, adb) + 1),
{
    let n = 2 * i * adb + da - 1;
    assert(n >= 0) by (nonlinear_arith)
        requires
            i >= 0,
            adb >= 0,
            da > 0,
            n == 2 * i * adb + da - 1,
    ;
    vstd::arithmetic::div_mod::lemma_fundamental_div_mod(n, 2 * da);
    vstd::arithmetic::div_mod::lemma_mod_pos_bound(n, 2 * da);
    let q = line_offset(i, da, adb);
    assert(q == n / (2 * da));
    assert(2 * da * (q + 1) == 2 * da * q + 2 * da) by (nonlinear_arith);
}

/// A line is a connected run of pixels from one endpoint to the other:
/// its first and last points are the two endpoints, and consecutive points
/// advance by exactly one step along the major axis and by at most one
/// along the other.
pub proof fn lemma_line_connected(x0: int, y0: int, x1: int, y1: int)
    ensures
        ({
            let pts = line_points(x0, y0, x1, y1);
            &&& pts.len() >= 1
            &&& (pts[0] == (x0, y0) && pts.last() == (x1, y1)) || (pts[0] == (x1, y1)
                && pts.last() == (x0, y0))
            &&& forall|i: int|
                0 <= i < pts.len() - 1 ==> {
                    &&& abs(#[trigger] pts[i + 1].0 - pts[i].0) <= 1
                    &&& abs(pts[i + 1].1 - pts[i].1) <= 1
                    &&& if is_steep(x0, y0, x1, y1) {
                        pts[i + 1].1 == pts[i].1 + 1
                    } else {
                        pts[i + 1].0 == pts[i].0 + 1
                    }
                }
        }),
{
    let pts = line_points(x0, y0, x1, y1);
    let f = line_frame(x0, y0, x1, y1);
    let da = f.2 - f.0;
    let adb = abs(f.3 - f.1);
    lemma_frame_shallow(x0, y0, x1, y1);
    lemma_offset_start(da, adb);
    if da > 0 {
        assert(2 * da * adb == 2 * da * adb + 0) by (nonlinear_arith);
        lemma_offset_exact(da, da, adb, adb);
    }
    assert(pts[0] == line_point(x0, y0, x1, y1, 0));
    assert(pts.last() == line_point(x0, y0, x1, y1, da));
    assert forall|i: int| 0 <= i < pts.len() - 1 implies {
        &&& abs(#[trigger] pts[i + 1].0 - pts[i].0) <= 1
        &&& abs(pts[i + 1].1 - pts[i].1) <= 1
        &&& if is_steep(x0, y0, x1, y1) {
            pts[i + 1].1 == pts[i].1 + 1
        } else {
            pts[i + 1].0 == pts[i].0 + 1
        }
    } by {
        assert(pts[i] == line_point(x0, y0, x1, y1, i));
        assert(pts[i + 1] == line_point(x0, y0, x1, y1, i + 1));
        lemma_offset_bounds(i, da, adb);
        lemma_offset_bounds(i + 1, da, adb);
        let k = line_offset(i, da, adb);
        let k1 = line_offset(i + 1, da, adb);
        assert(2 * (i + 1) * adb == 2 * i * adb + 2 * adb) by (nonlinear_arith);
        assert(k <= k1 <= k + 1) by (nonlinear_arith)
            requires
                2 * da * k <= 2 * i * adb + da - 1,
                2 * i * adb + da - 1 < 2 * da * (k + 1),
                2 * da * k1 <= 2 * i * adb + 2 * adb + da - 1,
                2 * i * adb + 2 * adb + da - 1 < 2 * da * (k1 + 1),
                0 <= adb <= da,
                da > 0,
        ;
    }
}

/// A horizontal line inside the canvas gives |x1 - x0| + 1 pixels, all on
/// its row.
pub proof fn lemma_horizontal_line(x0: i32, x1: i32, y: i32, w: int, h: int, c: Color)
    requires
        in_bounds(x0 as int, y as int, w, h),
        in_bounds(x1 as int, y as int, w, h),
    ensures
        visible(line_points(x0 as int, y as int, x1 as int, y as int), w, h, c).len() == abs(
            x1 - x0,
        ) + 1,
        forall|i: int|
            0 <= i < abs(x1 - x0) + 1 ==> #[trigger] visible(
                line_points(x0 as int, y as int, x1 as int, y as int),
                w,
                h,
                c,
            )[i].y == y,
{
    let (x0, x1, y) = (x0 as int, x1 as int, y as int);
    let pts = line_points(x0, y, x1, y);
    let f = line_frame(x0, y, x1, y);
    assert forall|i: int| 0 <= i < pts.len() implies pts[i].1 == y && in_bounds(
        #[trigger] pts[i].0,
        pts[i].1,
        w,
        h,
    ) by {
        assert(pts[i] == line_point(x0, y, x1, y, i));
        if f.2 - f.0 > 0 {
            lemma_offset_bounds(i, f.2 - f.0, 0);
            assert(2 * i * 0 == 0) by (nonlinear_arith);
            let k = line_offset(i, f.2 - f.0, 0);
            assert(k == 0) by (nonlinear_arith)
                requires
                    2 * (f.2 - f.0) * k <= f.2 - f.0 - 1,
                    f.2 - f.0 - 1 < 2 * (f.2 - f.0) * (k + 1),
                    f.2 - f.0 > 0,
            ;
        }
    }
    lemma_visible_all_inside(pts, w, h, c);
}

/// Appends the three edges of the triangle p0 p1 p2 as lines, in the
/// order p0 to p1, p1 to p2, p2 to p0; pixels shared by two edges appear
/// twice.
pub fn draw_triangle_wireframe(
    p0: Coord,
    p1: Coord,
    p2: Coord,
    canvas: &Canvas,
    color: Color,
    pixels: &mut Vec<ColoredCoord>,
)
    ensures
        final(pixels)@ == old(pixels)@ + visible(
            line_points(p0.x as int, p0.y as int, p1.x as int, p1.y as int),
            canvas.width as int,
            canvas.height as int,
            color,
        ) + visible(
            line_points(p1.x as int, p1.y as int, p2.x as int, p2.y as int),
            canvas.width as int,
            canvas.height as int,
            color,
        ) + visible(
            line_points(p2.x as int, p2.y as int, p0.x as int, p0.y as int),
            canvas.width as int,
            canvas.height as int,
            color,
        ),
{
    draw_line(p0.x, p0.y, p1.x, p1.y, canvas, color, pixels);
    draw_line(p1.x, p1.y, p2.x, p2.y, canvas, color, pixels);
    draw_line(p2.x, p2.y, p0.x, p0.y, canvas, color, pixels);
}

/// The points of row y from column xa to column xb inclusive; none when
/// xb < xa.
pub open spec fn span_points(y: int, xa: int, xb: int) -> Seq<(int, int)> {
    Seq::new(if xb >= xa { (xb - xa + 1) as nat } else { 0 }, |i: int| (xa + i, y))
}

/// Appends the pixels of one scanline of a filled shape: every column
/// from xa to xb inclusive on row y that lies on the canvas.
pub fn fill_span(
    y: i32,
    xa: i32,
    xb: i32,
    canvas: &Canvas,
    color: Color,
    pixels: &mut Vec<ColoredCoord>,
)
    ensures
        final(pixels)@ == old(pixels)@ + visible(
            span_points(y as int, xa as int, xb as int),
            canvas.width as int,
            canvas.height as int,
            color,
        ),
{
    let ghost pts = span_points(y as int, xa as int, xb as int);
    let ghost w = canvas.width as int;
    let ghost h = canvas.height as int;
    let mut x: i64 = xa as i64;
    while x <= xb as i64
        invariant
            xa <= x,
            x <= xb + 1 || x == xa,
            pts == span_points(y as int, xa as int, xb as int),
            w == canvas.width,
            h == canvas.height,
            pixels@ == old(pixels)@ + visible(pts.take(x - xa), w, h, color),
        decreases xb + 1 - x,
    {
        let ghost i = x - xa;
        assert(pts[i] == (x as int, y as int));
        push_visible(x, y as i64, canvas, color, pixels);
        proof {
            assert(pts.take(i + 1) =~= pts.take(i) + seq![(x as int, y as int)]);
            lemma_visible_append(pts.take(i), seq![(x as int, y as int)], w, h, color);
        }
        x = x + 1;
    }
    assert(pts.take(x - xa) =~= pts);
}

/// Every pixel that drawing pts emits is the colored form of one of the
/// points, and that point lies on the canvas.
pub proof fn lemma_visible_from_points(pts: Seq<(int, int)>, w: int, h: int, c: Color)
    ensures
        forall|k: int|
            0 <= k < visible(pts, w, h, c).len() ==> exists|j: int|
                0 <= j < pts.len() && #[trigger] visible(pts, w, h, c)[k] == colored(pts[j], c)
                    && in_bounds(pts[j].0, pts[j].1, w, h),
    decreases pts.len(),
{
    if pts.len() > 0 {
        let init = pts.drop_last();
        lemma_visible_from_points(init, w, h, c);
        assert forall|k: int| 0 <= k < visible(pts, w, h, c).len() implies exists|j: int|
            0 <= j < pts.len() && #[trigger] visible(pts, w, h, c)[k] == colored(pts[j], c)
                && in_bounds(pts[j].0, pts[j].1, w, h) by {
            if k < visible(init, w, h, c).len() {
                let j = choose|j: int|
                    0 <= j < init.len() && #[trigger] visible(init, w, h, c)[k] == colored(
                        init[j],
                        c,
                    ) && in_bounds(init[j].0, init[j].1, w, h);
                assert(pts[j] == init[j]);
                assert(visible(pts, w, h, c)[k] == visible(init, w, h, c)[k]);
            } else {
                assert(visible(pts, w, h, c)[k] == colored(pts[pts.len() - 1], c));
            }
        }
    }
}

/// A span only emits pixels of its own row, between its two columns, and
/// on the canvas.
pub proof fn lemma_span_within(y: i32, xa: i32, xb: i32, w: int, h: int, c: Color)
    ensures
        forall|k: int|
            0 <= k < visible(span_points(y as int, xa as int, xb as int), w, h, c).len() ==> {
                let p = #[trigger] visible(span_points(y as int, xa as int, xb as int), w, h, c)[k];
                &&& p.y == y
                &&& xa <= p.x <= xb
                &&& in_bounds(p.x as int, p.y as int, w, h)
            },
{
    let pts = span_points(y as int, xa as int, xb as int);
    lemma_visible_from_points(pts, w, h, c);
    assert forall|k: int| 0 <= k < visible(pts, w, h, c).len() implies {
        let p = #[trigger] visible(pts, w, h, c)[k];
        &&& p.y == y
        &&& xa <= p.x <= xb
        &&& in_bounds(p.x as int, p.y as int, w, h)
    } by {
        let j = choose|j: int|
            0 <= j < pts.len() && #[trigger] visible(pts, w, h, c)[k] == colored(pts[j], c)
                && in_bounds(pts[j].0, pts[j].1, w, h);
        assert(pts[j] == (xa + j, y as int));
    }
}

/// The eight points symmetric to (x, y) about the center (cx, cy), in the
/// order in which they are drawn.
pub open spec fn octants(cx: int, cy: int, x: int, y: int) -> Seq<(int, int)> {
    seq![
        (cx + x, cy + y),
        (cx - x, cy + y),
        (cx + x, cy - y),
        (cx - x, cy - y),
        (cx + y, cy + x),
        (cx - y, cy + x),
        (cx + y, cy - x),
        (cx - y, cy - x),
    ]
}

/// One step of the midpoint circle algorithm on (x, y, decision).
pub open spec fn circle_step(x: int, y: int, d: int) -> (int, int, int) {
    let x1 = x + 1;
    if d > 0 {
        (x1, y - 1, d + 4 * (x1 - (y - 1)) + 10)
    } else {
        (x1, y, d + 4 * x1 + 6)
    }
}

/// The points plotted from state (x, y, d) on, while y >= x.
pub open spec fn circle_rest(cx: int, cy: int, x: int, y: int, d: int) -> Seq<(int, int)>
    decreases y - x + 2,
{
    if y < x {
        Seq::empty()
    } else {
        let s = circle_step(x, y, d);
        octants(cx, cy, s.0, s.1) + circle_rest(cx, cy, s.0, s.1, s.2)
    }
}

/// Every point the midpoint algorithm plots for a circle of the given
/// radius, in order.
pub open spec fn circle_points(cx: int, cy: int, radius: int) -> Seq<(int, int)> {
    octants(cx, cy, 0, radius) + circle_rest(cx, cy, 0, radius, 3 - 2 * radius)
}

fn push_next(
    px: i64,
    py: i64,
    canvas: &Canvas,
    color: Color,
    pixels: &mut Vec<ColoredCoord>,
    Ghost(base): Ghost<Seq<ColoredCoord>>,
    Ghost(pts): Ghost<Seq<(int, int)>>,
    Ghost(j): Ghost<int>,
)
    requires
        0 <= j < pts.len(),
        pts[j] == (px as int, py as int),
        i32::MIN <= px <= i32::MAX,
        i32::MIN <= py <= i32::MAX,
        old(pixels)@ == base + visible(pts.take(j), canvas.width as int, canvas.height as int, color),
    ensures
        final(pixels)@ == base + visible(
            pts.take(j + 1),
            canvas.width as int,
            canvas.height as int,
            color,
        ),
{
    let ghost w = canvas.width as int;
    let ghost h = canvas.height as int;
    push_visible(px, py, canvas, color, pixels);
    proof {
        assert(pts.take(j + 1) =~= pts.take(j) + seq![(px as int, py as int)]);
        lemma_visible_append(pts.take(j), seq![(px as int, py as int)], w, h, color);
        assert(pixels@ =~= base + visible(pts.take(j + 1), w, h, color));
    }
}

fn plot_octants(
    cx: i64,
    cy: i64,
    x: i64,
    y: i64,
    canvas: &Canvas,
    color: Color,
    pixels: &mut Vec<ColoredCoord>,
)
    requires
        i32::MIN <= cx - x && cx + x <= i32::MAX,
        i32::MIN <= cx + x && cx - x <= i32::MAX,
        i32::MIN <= cy - x && cy + x <= i32::MAX,
        i32::MIN <= cy + x && cy - x <= i32::MAX,
        i32::MIN <= cx - y && cx + y <= i32::MAX,
        i32::MIN <= cx + y && cx - y <= i32::MAX,
        i32::MIN <= cy - y && cy + y <= i32::MAX,
        i32::MIN <= cy + y && cy - y <= i32::MAX,
    ensures
        final(pixels)@ == old(pixels)@ + visible(
            octants(cx as int, cy as int, x as int, y as int),
            canvas.width as int,
            canvas.height as int,
            color,
        ),
{
    let ghost base = pixels@;
    let ghost pts = octants(cx as int, cy as int, x as int, y as int);
    proof {
        assert(pts.take(0) =~= Seq::<(int, int)>::empty());
        assert(base =~= base + visible(pts.take(0), canvas.width as int, canvas.height as int, color));
    }
    push_next(cx + x, cy + y, canvas, color, pixels, Ghost(base), Ghost(pts), Ghost(0));
    push_next(cx - x, cy + y, canvas, color, pixels, Ghost(base), Ghost(pts), Ghost(1));
    push_next(cx + x, cy - y, canvas, color, pixels, Ghost(base), Ghost(pts), Ghost(2));
    push_next(cx - x, cy - y, canvas, color, pixels, Ghost(base), Ghost(pts), Ghost(3));
    push_next(cx + y, cy + x, canvas, color, pixels, Ghost(base), Ghost(pts), Ghost(4));
    push_next(cx - y, cy + x, canvas, color, pixels, Ghost(base), Ghost(pts), Ghost(5));
    push_next(cx + y, cy - x, canvas, color, pixels, Ghost(base), Ghost(pts), Ghost(6));
    push_next(cx - y, cy - x, canvas, color, pixels, Ghost(base), Ghost(pts), Ghost(7));
    assert(pts.take(8) =~= pts);
}

/// Appends the pixels of the midpoint circle of the given radius around
/// (center_x, center_y) that fall on the canvas: the eight symmetric
/// points of each step, in the order circle_points gives.
pub fn draw_circle(
    center_x: i32,
    center_y: i32,
    radius: i32,
    canvas: &Canvas,
    color: Color,
    pixels: &mut Vec<ColoredCoord>,
)
    requires
        i32::MIN <= center_x - abs(radius as int) - 2,
        center_x + abs(radius as int) + 2 <= i32::MAX,
        i32::MIN <= center_y - abs(radius as int) - 2,
        center_y + abs(radius as int) + 2 <= i32::MAX,
    ensures
        final(pixels)@ == old(pixels)@ + visible(
            circle_points(center_x as int, center_y as int, radius as int),
            canvas.width as int,
            canvas.height as int,
            color,
        ),
{
    let ghost w = canvas.width as int;
    let ghost h = canvas.height as int;
    let ghost rr = abs(radius as int);
    let ghost (gcx, gcy) = (center_x as int, center_y as int);
    let cx = center_x as i64;
    let cy = center_y as i64;
    let mut x: i64 = 0;
    let mut y: i64 = radius as i64;
    let mut d: i64 = 3 - 2 * (radius as i64);
    plot_octants(cx, cy, x, y, canvas, color, pixels);
    proof {
        lemma_visible_append(
            octants(gcx, gcy, 0, radius as int),
            circle_rest(gcx, gcy, 0, radius as int, 3 - 2 * radius),
            w,
            h,
            color,
        );
    }
    while y >= x
        invariant
            w == canvas.width,
            h == canvas.height,
            cx == gcx,
            cy == gcy,
            rr == abs(radius as int),
            i32::MIN <= gcx - rr - 2,
            gcx + rr + 2 <= i32::MAX,
            i32::MIN <= gcy - rr - 2,
            gcy + rr + 2 <= i32::MAX,
            0 <= x <= rr + 1,
            -rr - 2 <= y <= rr,
            -4 * rr - 16 <= d <= 2 * rr + 24 * x + 10,
            pixels@ + visible(circle_rest(gcx, gcy, x as int, y as int, d as int), w, h, color)
                == old(pixels)@ + visible(circle_points(gcx, gcy, radius as int), w, h, color),
        decreases y - x + 2,
    {
        let ghost s = circle_step(x as int, y as int, d as int);
        x = x + 1;
        if d > 0 {
            y = y - 1;
            d = d + 4 * (x - y) + 10;
        } else {
            d = d + 4 * x + 6;
        }
        assert(s == (x as int, y as int, d as int));
        let ghost before = pixels@;
        plot_octants(cx, cy, x, y, canvas, color, pixels);
        proof {
            lemma_visible_append(
                octants(gcx, gcy, x as int, y as int),
                circle_rest(gcx, gcy, x as int, y as int, d as int),
                w,
                h,
                color,
            );
            assert(pixels@ + visible(circle_rest(gcx, gcy, x as int, y as int, d as int), w, h, color)
                =~= before + visible(
                    octants(gcx, gcy, x as int, y as int) + circle_rest(
                        gcx,
                        gcy,
                        x as int,
                        y as int,
                        d as int,
                    ),
                    w,
                    h,
                    color,
                ));
        }
    }
    assert(visible(circle_rest(gcx, gcy, x as int, y as int, d as int), w, h, color) =~= Seq::empty());
    assert(pixels@ + Seq::<ColoredCoord>::empty() =~= pixels@);
}

} // verus!
