//! Packed colors and a bounds-checked canvas over a borrowed pixel buffer.
use crate::raster::{
    disk, in_bounds, in_disk, lemma_index_in_buffer, lemma_paint_congruent,
    lemma_paint_extend, lemma_paint_nothing, lemma_paint_twice, lemma_stroke_prefix_next,
    lemma_stroke_prefix_whole, lemma_pixel_coords, lemma_walk_reaches_end, lemma_walk_start, lemma_walk_stays,
    lemma_walk_step, abs, max, ordered_stroke, paint, precedes, pixel_index, stroke, stroke_prefix, union, walk, walk_inv, WalkState,
    with_pixel,
};
use vstd::prelude::*;

verus! {

/// The packed pixel word `0x00RRGGBB` for the three channels.
pub open spec fn packed_rgb(r: u8, g: u8, b: u8) -> u32 {
    ((r as u32) << 16u32) | ((g as u32) << 8u32) | (b as u32)
}

/// Pack 8-bit red, green and blue into one pixel word: red in bits 23..16,
/// green in bits 15..8, blue in bits 7..0, the top byte zero.
pub fn color_rgb(r: u8, g: u8, b: u8) -> (c: u32)
    ensures
        c == packed_rgb(r, g, b),
        c == r as u32 * 0x10000 + g as u32 * 0x100 + b as u32,
{
    let red = r as u32;
    let green = g as u32;
    let blue = b as u32;
    let red_bits = red << 16u32;
    let green_bits = green << 8u32;
    let c = red_bits | green_bits | blue;
    assert(c == red * 0x10000 + green * 0x100 + blue) by (bit_vector)
        requires
            c == (red << 16u32) | (green << 8u32) | blue,
            red < 256,
            green < 256,
            blue < 256,
    ;
    c
}

/// Reading the channels back out of a packed color gives the channels that went in,
/// and the top byte is zero.
pub proof fn lemma_color_channels(r: u8, g: u8, b: u8)
    ensures
        (packed_rgb(r, g, b) >> 16u32) & 0xffu32 == r as u32,
        (packed_rgb(r, g, b) >> 8u32) & 0xffu32 == g as u32,
        packed_rgb(r, g, b) & 0xffu32 == b as u32,
        packed_rgb(r, g, b) >> 24u32 == 0,
{
    let rr = r as u32;
    let gg = g as u32;
    let bb = b as u32;
    assert(((((rr << 16u32) | (gg << 8u32) | bb) >> 16u32) & 0xffu32 == rr) && ((((rr << 16u32) | (gg
        << 8u32) | bb) >> 8u32) & 0xffu32 == gg) && ((((rr << 16u32) | (gg << 8u32) | bb) & 0xffu32)
        == bb) && ((((rr << 16u32) | (gg << 8u32) | bb) >> 24u32) == 0)) by (bit_vector)
        requires
            rr < 256,
            gg < 256,
            bb < 256,
    ;
}

/// A signed pixel coordinate; it may lie off the canvas.
#[derive(Copy, Clone, Debug, PartialEq, Eq, Structural)]
pub struct Point {
    pub x: isize,
    pub y: isize,
}

impl Point {
    pub fn new(x: isize, y: isize) -> (p: Self)
        ensures
            p.x == x,
            p.y == y,
    {
        Point { x, y }
    }
}

/// Width and height of a canvas in pixels.
#[derive(Copy, Clone, Debug, PartialEq, Eq, Structural)]
pub struct Dimensions {
    pub width: usize,
    pub height: usize,
}

/// Largest magnitude of a coordinate that the internal drawing routines accept.
pub open spec fn coord_limit() -> int {
    0x4_0000_0000_0000_0000
}

/// The disk radius that a stroke of `thickness` is swept with: half the
/// thickness rounded half away from zero, and at least one.
pub open spec fn stroke_radius(thickness: int) -> int {
    let half = if thickness >= 0 {
        (thickness + 1) / 2
    } else {
        -((-thickness + 1) / 2)
    };
    max(1, half)
}

/// The pixels of a thick line between `a` and `b`, the same in either order.
pub open spec fn line_shape(ax: int, ay: int, bx: int, by: int, thickness: int) -> spec_fn(int, int) -> bool {
    ordered_stroke(ax, ay, bx, by, stroke_radius(thickness))
}

/// The four sides of the rectangle inset by `padding` on a `width` by `height` canvas.
pub open spec fn frame_shape(width: nat, height: nat, padding: int, thickness: int) -> spec_fn(int, int) -> bool {
    let l = padding;
    let t = padding;
    let r = width - 1 - padding;
    let b = height - 1 - padding;
    union(
        union(line_shape(l, t, r, t, thickness), line_shape(l, t, l, b, thickness)),
        union(line_shape(l, b, r, b, thickness), line_shape(r, b, r, t, thickness)),
    )
}

/// A mutably borrowed pixel buffer of `size.width * size.height` packed colors,
/// row-major: pixel `(x, y)` is at index `y * width + x`.
pub struct Canvas<'a> {
    pub buf: &'a mut [u32],
    pub size: Dimensions,
}

impl<'a> Canvas<'a> {
    /// The buffer holds exactly one word per pixel.
    pub open spec fn wf(&self) -> bool {
        self.buf@.len() == self.size.width * self.size.height
    }

    pub open spec fn w(&self) -> nat {
        self.size.width as nat
    }

    pub open spec fn h(&self) -> nat {
        self.size.height as nat
    }

    /// A canvas over `buf`; what is drawn on it ends up in `buf`.
    pub fn new(buf: &'a mut [u32], size: Dimensions) -> (c: Self)
        requires
            old(buf)@.len() == size.width * size.height,
        ensures
            c.wf(),
            c.size == size,
            c.buf@ == old(buf)@,
            final(c.buf)@ == final(buf)@,
    {
        Canvas { buf, size }
    }

    pub fn width(&self) -> (w: usize)
        ensures
            w == self.size.width,
    {
        self.size.width
    }

    pub fn height(&self) -> (h: usize)
        ensures
            h == self.size.height,
    {
        self.size.height
    }

    /// Largest x coordinate on the canvas.
    pub fn max_x(&self) -> (m: usize)
        requires
            self.size.width > 0,
        ensures
            m == self.size.width - 1,
    {
        self.width() - 1
    }

    /// Largest y coordinate on the canvas.
    pub fn max_y(&self) -> (m: usize)
        requires
            self.size.height > 0,
        ensures
            m == self.size.height - 1,
    {
        self.height() - 1
    }

    /// The pixel at half the width and half the height, rounded down.
    pub fn center(&self) -> (p: Point)
        ensures
            p.x == self.size.width / 2,
            p.y == self.size.height / 2,
    {
        Point::new((self.width() / 2) as isize, (self.height() / 2) as isize)
    }

    /// The smaller of width and height.
    pub fn min_dim(&self) -> (m: usize)
        ensures
            m == if self.size.width <= self.size.height {
                self.size.width
            } else {
                self.size.height
            },
    {
        if self.width() <= self.height() {
            self.width()
        } else {
            self.height()
        }
    }

    /// Set every pixel to `color`.
    pub fn clear(&mut self, color: u32)
        requires
            old(self).wf(),
        ensures
            final(self).wf(),
            final(self).size == old(self).size,
            final(self).buf@ == Seq::new(old(self).buf@.len(), |i: int| color),
            final(final(self).buf)@ == final(old(self).buf)@,
    {
        let n = self.buf.len();
        let mut i: usize = 0;
        while i < n
            invariant
                0 <= i <= n,
                n == self.buf@.len(),
                self.size == old(self).size,
                self.buf@.len() == old(self).buf@.len(),
                forall|j: int| 0 <= j < i ==> self.buf@[j] == color,
                final(self.buf)@ == final(old(self).buf)@,
            decreases n - i,
        {
            self.buf[i] = color;
            i = i + 1;
        }
        assert(self.buf@ =~= Seq::new(old(self).buf@.len(), |i: int| color));
    }

    /// Set pixel `(x, y)` to `color`; a pixel off the canvas is ignored.
    pub fn put_pixel(&mut self, x: isize, y: isize, color: u32)
        requires
            old(self).wf(),
        ensures
            final(self).wf(),
            final(self).size == old(self).size,
            final(self).buf@ == with_pixel(old(self).buf@, old(self).w(), old(self).h(), x as int, y as int, color),
            final(final(self).buf)@ == final(old(self).buf)@,
    {
        if x < 0 || y < 0 {
            return;
        }
        let xu = x as usize;
        let yu = y as usize;
        if xu >= self.width() || yu >= self.height() {
            return;
        }
        let len = self.buf.len();
        proof {
            lemma_index_in_buffer(self.w(), self.h(), x as int, y as int);
            assert(pixel_index(self.w(), x as int, y as int) < len);
        }
        let idx = yu * self.width() + xu;
        self.buf[idx] = color;
    }

    /// Plot every pixel within `radius` of `center`; a negative radius draws nothing.
    pub fn draw_filled_circle(&mut self, center: Point, radius: isize, color: u32)
        requires
            old(self).wf(),
        ensures
            final(self).wf(),
            final(self).size == old(self).size,
            final(self).buf@ == paint(
                old(self).buf@,
                old(self).w(),
                disk(center.x as int, center.y as int, radius as int),
                color,
            ),
            final(final(self).buf)@ == final(old(self).buf)@,
    {
        if radius < 0 {
            proof {
                lemma_paint_nothing(self.buf@, self.w(), self.h(), disk(center.x as int, center.y as int, radius as int), color);
            }
            return;
        }
        self.fill_disk(center.x as i128, center.y as i128, radius as i128, color);
    }

    /// Draw a line from `a` to `b`, both included, as a disk of the stroke radius
    /// on every point of the integer line walk between them.
    pub fn draw_line(&mut self, a: Point, b: Point, thickness: isize, color: u32)
        requires
            old(self).wf(),
        ensures
            final(self).wf(),
            final(self).size == old(self).size,
            final(self).buf@ == paint(
                old(self).buf@,
                old(self).w(),
                line_shape(a.x as int, a.y as int, b.x as int, b.y as int, thickness as int),
                color,
            ),
            final(final(self).buf)@ == final(old(self).buf)@,
    {
        let radius = stroke_radius_of(thickness as i128);
        self.stroke_line(a.x as i128, a.y as i128, b.x as i128, b.y as i128, radius, color);
    }

    /// Stroke the rectangle inset by `padding` from each edge: its top, left,
    /// bottom and right sides, each with `draw_line` at `thickness`.
    pub fn draw_frame(&mut self, padding: isize, thickness: isize, color: u32)
        requires
            old(self).wf(),
        ensures
            final(self).wf(),
            final(self).size == old(self).size,
            final(self).buf@ == paint(
                old(self).buf@,
                old(self).w(),
                frame_shape(old(self).w(), old(self).h(), padding as int, thickness as int),
                color,
            ),
            final(final(self).buf)@ == final(old(self).buf)@,
    {
        let ghost orig = self.buf@;
        let ghost w = self.w();
        let ghost h = self.h();
        let radius = stroke_radius_of(thickness as i128);
        let l = padding as i128;
        let t = padding as i128;
        let r = self.size.width as i128 - 1 - padding as i128;
        let b = self.size.height as i128 - 1 - padding as i128;
        self.stroke_line(l, t, r, t, radius, color);
        self.stroke_line(l, t, l, b, radius, color);
        self.stroke_line(l, b, r, b, radius, color);
        self.stroke_line(r, b, r, t, radius, color);
        proof {
            let th = thickness as int;
            let top = line_shape(l as int, t as int, r as int, t as int, th);
            let left = line_shape(l as int, t as int, l as int, b as int, th);
            let bottom = line_shape(l as int, b as int, r as int, b as int, th);
            let right = line_shape(r as int, b as int, r as int, t as int, th);
            lemma_paint_twice(orig, w, top, left, color);
            lemma_paint_twice(orig, w, union(top, left), bottom, color);
            lemma_paint_twice(orig, w, union(union(top, left), bottom), right, color);
            assert(union(union(union(top, left), bottom), right) =~= frame_shape(w, h, padding as int, th));
        }
    }

    /// Sweep a disk of `radius` along the line between `(x0, y0)` and `(x1, y1)`,
    /// walking from the one that comes first in row-major order.
    pub(crate) fn stroke_line(&mut self, x0: i128, y0: i128, x1: i128, y1: i128, radius: i128, color: u32)
        requires
            old(self).wf(),
            -coord_limit() <= x0 <= coord_limit(),
            -coord_limit() <= y0 <= coord_limit(),
            -coord_limit() <= x1 <= coord_limit(),
            -coord_limit() <= y1 <= coord_limit(),
            0 <= radius <= isize::MAX,
        ensures
            final(self).wf(),
            final(self).size == old(self).size,
            final(self).buf@ == paint(
                old(self).buf@,
                old(self).w(),
                ordered_stroke(x0 as int, y0 as int, x1 as int, y1 as int, radius as int),
                color,
            ),
            final(final(self).buf)@ == final(old(self).buf)@,
    {
        if y0 < y1 || (y0 == y1 && x0 <= x1) {
            self.walk_line(x0, y0, x1, y1, radius, color);
        } else {
            self.walk_line(x1, y1, x0, y0, radius, color);
        }
    }

    /// Sweep a disk of `radius` along the integer line walk from `(x0, y0)` to `(x1, y1)`.
    #[verifier::loop_isolation(false)]
    fn walk_line(&mut self, x0: i128, y0: i128, x1: i128, y1: i128, radius: i128, color: u32)
        requires
            old(self).wf(),
            -coord_limit() <= x0 <= coord_limit(),
            -coord_limit() <= y0 <= coord_limit(),
            -coord_limit() <= x1 <= coord_limit(),
            -coord_limit() <= y1 <= coord_limit(),
            0 <= radius <= isize::MAX,
        ensures
            final(self).wf(),
            final(self).size == old(self).size,
            final(self).buf@ == paint(
                old(self).buf@,
                old(self).w(),
                stroke(x0 as int, y0 as int, x1 as int, y1 as int, radius as int),
                color,
            ),
            final(final(self).buf)@ == final(old(self).buf)@,
    {
        let ghost orig = self.buf@;
        let ghost w = self.w();
        let ghost h = self.h();
        let ghost (gx0, gy0, gx1, gy1, gr) = (x0 as int, y0 as int, x1 as int, y1 as int, radius as int);
        let dx: i128 = if x1 >= x0 { x1 - x0 } else { x0 - x1 };
        let sx: i128 = if x0 < x1 { 1 } else { -1 };
        let dy: i128 = if y1 >= y0 { y0 - y1 } else { y1 - y0 };
        let sy: i128 = if y0 < y1 { 1 } else { -1 };
        let mut x = x0;
        let mut y = y0;
        let mut err = dx + dy;
        let ghost mut k: nat = 0;
        proof {
            lemma_walk_start(gx0, gy0, gx1, gy1);
            lemma_paint_nothing(orig, w, h, stroke_prefix(gx0, gy0, gx1, gy1, gr, 0), color);
        }
        while !(x == x1 && y == y1)
            invariant
                walk(gx0, gy0, gx1, gy1, k) == (WalkState { x: x as int, y: y as int, err: err as int }),
                walk_inv(gx0, gy0, gx1, gy1, walk(gx0, gy0, gx1, gy1, k)),
                self.wf(),
                self.size == old(self).size,
                self.buf@ == paint(orig, w, stroke_prefix(gx0, gy0, gx1, gy1, gr, k), color),
                final(self.buf)@ == final(old(self).buf)@,
            decreases abs(x1 - x) + abs(y1 - y),
        {
            self.fill_disk(x, y, radius, color);
            proof {
                lemma_paint_twice(orig, w, stroke_prefix(gx0, gy0, gx1, gy1, gr, k), disk(x as int, y as int, gr), color);
                lemma_stroke_prefix_next(gx0, gy0, gx1, gy1, gr, k);
                lemma_paint_congruent(
                    orig,
                    w,
                    h,
                    union(stroke_prefix(gx0, gy0, gx1, gy1, gr, k), disk(x as int, y as int, gr)),
                    stroke_prefix(gx0, gy0, gx1, gy1, gr, k + 1),
                    color,
                );
                lemma_walk_step(gx0, gy0, gx1, gy1, walk(gx0, gy0, gx1, gy1, k));
            }
            let e2 = 2 * err;
            if e2 >= dy {
                err = err + dy;
                x = x + sx;
            }
            if e2 <= dx {
                err = err + dx;
                y = y + sy;
            }
            proof {
                k = k + 1;
            }
        }
        self.fill_disk(x, y, radius, color);
        proof {
            lemma_paint_twice(orig, w, stroke_prefix(gx0, gy0, gx1, gy1, gr, k), disk(x as int, y as int, gr), color);
            lemma_stroke_prefix_next(gx0, gy0, gx1, gy1, gr, k);
            lemma_stroke_prefix_whole(gx0, gy0, gx1, gy1, gr, k);
            assert forall|px: int, py: int| in_bounds(w, h, px, py) implies union(
                stroke_prefix(gx0, gy0, gx1, gy1, gr, k),
                disk(x as int, y as int, gr),
            )(px, py) == stroke(gx0, gy0, gx1, gy1, gr)(px, py) by {
                assert(stroke_prefix(gx0, gy0, gx1, gy1, gr, k + 1)(px, py) == stroke(gx0, gy0, gx1, gy1, gr)(
                    px,
                    py,
                ));
            }
            lemma_paint_congruent(
                orig,
                w,
                h,
                union(stroke_prefix(gx0, gy0, gx1, gy1, gr, k), disk(x as int, y as int, gr)),
                stroke(gx0, gy0, gx1, gy1, gr),
                color,
            );
        }
    }

    /// Set every on-canvas pixel of the closed disk of `radius` around
    /// `(cx, cy)`; only the rows and columns that meet the canvas are visited.
    #[verifier::loop_isolation(false)]
    fn fill_disk(&mut self, cx: i128, cy: i128, radius: i128, color: u32)
        requires
            old(self).wf(),
            -coord_limit() <= cx <= coord_limit(),
            -coord_limit() <= cy <= coord_limit(),
            -(isize::MAX as int) <= radius <= isize::MAX,
        ensures
            final(self).wf(),
            final(self).size == old(self).size,
            final(self).buf@ == paint(old(self).buf@, old(self).w(), disk(cx as int, cy as int, radius as int), color),
            final(final(self).buf)@ == final(old(self).buf)@,
    {
        let ghost orig = self.buf@;
        let ghost w = self.w();
        let ghost h = self.h();
        let len = self.buf.len();
        let width = self.size.width;
        let height = self.size.height;
        if width == 0 || height == 0 || radius < 0 {
            proof {
                lemma_paint_nothing(orig, w, h, disk(cx as int, cy as int, radius as int), color);
            }
            return;
        }
        let wi = width as i128;
        let hi = height as i128;
        let y_lo: i128 = if cy - radius > 0 { cy - radius } else { 0 };
        let y_hi: i128 = if cy + radius < hi - 1 { cy + radius } else { hi - 1 };
        let x_lo: i128 = if cx - radius > 0 { cx - radius } else { 0 };
        let x_hi: i128 = if cx + radius < wi - 1 { cx + radius } else { wi - 1 };
        let ghost c = (cx as int, cy as int, radius as int);
        proof {
            assert forall|px: int, py: int| in_bounds(w, h, px, py) && #[trigger] in_disk(c.0, c.1, c.2, px, py)
                implies x_lo <= px <= x_hi && y_lo <= py <= y_hi by {
                lemma_disk_box(c.0, c.1, c.2, px, py);
            }
            lemma_paint_nothing(orig, w, h, |px: int, py: int| in_disk(c.0, c.1, c.2, px, py) && py < y_lo, color);
        }
        let mut y: i128 = y_lo;
        while y <= y_hi
            invariant
                y_lo <= y,
                y_lo <= y_hi + 1 ==> y <= y_hi + 1,
                self.wf(),
                self.size == old(self).size,
                self.buf@ == paint(orig, w, |px: int, py: int| in_disk(c.0, c.1, c.2, px, py) && py < y, color),
                final(self.buf)@ == final(old(self).buf)@,
            decreases y_hi + 1 - y,
        {
            proof {
                lemma_paint_congruent(
                    orig,
                    w,
                    h,
                    |px: int, py: int| in_disk(c.0, c.1, c.2, px, py) && py < y,
                    |px: int, py: int| in_disk(c.0, c.1, c.2, px, py) && (py < y || (py == y && px < x_lo)),
                    color,
                );
            }
            let mut x: i128 = x_lo;
            while x <= x_hi
                invariant
                    x_lo <= x,
                    x_lo <= x_hi + 1 ==> x <= x_hi + 1,
                    0 <= y <= y_hi,
                    self.wf(),
                    self.size == old(self).size,
                    self.buf@ == paint(
                        orig,
                        w,
                        |px: int, py: int| in_disk(c.0, c.1, c.2, px, py) && (py < y || (py == y && px < x)),
                        color,
                    ),
                    final(self.buf)@ == final(old(self).buf)@,
                decreases x_hi + 1 - x,
            {
                let dx = x - cx;
                let dy = y - cy;
                proof {
                    lemma_square_bound(dx as int, radius as int);
                    lemma_square_bound(dy as int, radius as int);
                }
                let ghost before = |px: int, py: int| in_disk(c.0, c.1, c.2, px, py) && (py < y || (py == y && px < x));
                let ghost after = |px: int, py: int| in_disk(c.0, c.1, c.2, px, py) && (py < y || (py == y && px < x + 1));
                if dx * dx + dy * dy <= radius * radius {
                    proof {
                        lemma_index_in_buffer(w, h, x as int, y as int);
                        assert(pixel_index(w, x as int, y as int) < len);
                        lemma_paint_extend(orig, w, h, before, after, x as int, y as int, color);
                    }
                    let idx = (y as usize) * width + (x as usize);
                    self.buf[idx] = color;
                } else {
                    proof {
                        lemma_paint_congruent(orig, w, h, before, after, color);
                    }
                }
                x = x + 1;
            }
            proof {
                lemma_paint_congruent(
                    orig,
                    w,
                    h,
                    |px: int, py: int| in_disk(c.0, c.1, c.2, px, py) && (py < y || (py == y && px < x)),
                    |px: int, py: int| in_disk(c.0, c.1, c.2, px, py) && py < y + 1,
                    color,
                );
            }
            y = y + 1;
        }
        proof {
            lemma_paint_congruent(
                orig,
                w,
                h,
                |px: int, py: int| in_disk(c.0, c.1, c.2, px, py) && py < y,
                disk(c.0, c.1, c.2),
                color,
            );
        }
    }
}



/// After `put_pixel` an on-canvas pixel reads back as the color written and no
/// other pixel changes; an off-canvas write leaves the buffer as it was.
pub proof fn lemma_put_pixel_reads_back(buf: Seq<u32>, width: nat, height: nat, x: int, y: int, color: u32)
    requires
        buf.len() == width * height,
    ensures
        with_pixel(buf, width, height, x, y, color).len() == buf.len(),
        in_bounds(width, height, x, y) ==> with_pixel(buf, width, height, x, y, color)[pixel_index(width, x, y)] == color,
        forall|i: int|
            0 <= i < buf.len() && i != pixel_index(width, x, y) ==> #[trigger] with_pixel(buf, width, height, x, y, color)[i]
                == buf[i],
        !in_bounds(width, height, x, y) ==> with_pixel(buf, width, height, x, y, color) == buf,
{
    if in_bounds(width, height, x, y) {
        lemma_index_in_buffer(width, height, x, y);
    }
}

/// A filled circle of radius zero sets exactly its center pixel, when that pixel is on the canvas.
pub proof fn lemma_circle_radius_zero(buf: Seq<u32>, width: nat, height: nat, cx: int, cy: int, color: u32)
    requires
        buf.len() == width * height,
    ensures
        paint(buf, width, disk(cx, cy, 0), color) == with_pixel(buf, width, height, cx, cy, color),
{
    assert forall|x: int, y: int| #[trigger] in_disk(cx, cy, 0, x, y) <==> (x == cx && y == cy) by {
        if in_disk(cx, cy, 0, x, y) {
            assert(x == cx && y == cy) by (nonlinear_arith)
                requires
                    (x - cx) * (x - cx) + (y - cy) * (y - cy) <= 0 * 0,
            ;
        }
    }
    let nothing = |x: int, y: int| false;
    lemma_paint_nothing(buf, width, height, nothing, color);
    if in_bounds(width, height, cx, cy) {
        lemma_paint_extend(buf, width, height, nothing, disk(cx, cy, 0), cx, cy, color);
    } else {
        lemma_paint_nothing(buf, width, height, disk(cx, cy, 0), color);
    }
}

/// A line from a point to itself covers the same pixels as one filled circle
/// of the stroke radius around that point.
pub proof fn lemma_line_to_itself(ax: int, ay: int, thickness: int)
    ensures
        line_shape(ax, ay, ax, ay, thickness) == disk(ax, ay, stroke_radius(thickness)),
{
    let r = stroke_radius(thickness);
    assert forall|x: int, y: int| #[trigger] line_shape(ax, ay, ax, ay, thickness)(x, y) == disk(ax, ay, r)(x, y) by {
        if line_shape(ax, ay, ax, ay, thickness)(x, y) {
            let k = choose|k: nat| #[trigger] in_disk(walk(ax, ay, ax, ay, k).x, walk(ax, ay, ax, ay, k).y, r, x, y);
            lemma_walk_stays(ax, ay, ax, ay, 0, k);
        }
        if disk(ax, ay, r)(x, y) {
            assert(in_disk(walk(ax, ay, ax, ay, 0).x, walk(ax, ay, ax, ay, 0).y, r, x, y));
        }
    }
    assert(line_shape(ax, ay, ax, ay, thickness) =~= disk(ax, ay, r));
}

/// A line covers both of its end points, whatever its direction.
pub proof fn lemma_line_endpoints(ax: int, ay: int, bx: int, by: int, thickness: int)
    ensures
        line_shape(ax, ay, bx, by, thickness)(ax, ay),
        line_shape(ax, ay, bx, by, thickness)(bx, by),
{
    let r = stroke_radius(thickness);
    let n = (abs(bx - ax) + abs(by - ay)) as nat;
    lemma_walk_reaches_end(ax, ay, bx, by);
    lemma_walk_reaches_end(bx, by, ax, ay);
    assert(0 * 0 + 0 * 0 <= r * r) by (nonlinear_arith)
        requires
            r >= 1,
    ;
    assert(in_disk(walk(ax, ay, bx, by, 0).x, walk(ax, ay, bx, by, 0).y, r, ax, ay));
    assert(in_disk(walk(ax, ay, bx, by, n).x, walk(ax, ay, bx, by, n).y, r, bx, by));
    assert(in_disk(walk(bx, by, ax, ay, 0).x, walk(bx, by, ax, ay, 0).y, r, bx, by));
    assert(in_disk(walk(bx, by, ax, ay, n).x, walk(bx, by, ax, ay, n).y, r, ax, ay));
}

/// A line covers the same pixels whichever of its end points is given first.
pub proof fn lemma_line_symmetric(ax: int, ay: int, bx: int, by: int, thickness: int)
    ensures
        line_shape(ax, ay, bx, by, thickness) == line_shape(bx, by, ax, ay, thickness),
{
    if ax == bx && ay == by {
    } else if precedes(ax, ay, bx, by) {
        assert(!precedes(bx, by, ax, ay));
    } else {
        assert(precedes(bx, by, ax, ay));
    }
}

/// After `draw_frame` the four inset corners hold the stroke color, when they are on the canvas.
pub proof fn lemma_frame_corners(buf: Seq<u32>, width: nat, height: nat, padding: int, thickness: int, color: u32)
    requires
        buf.len() == width * height,
        in_bounds(width, height, padding, padding),
        in_bounds(width, height, width - 1 - padding, height - 1 - padding),
    ensures
        ({
            let painted = paint(buf, width, frame_shape(width, height, padding, thickness), color);
            let (l, t, r, b) = (padding, padding, width - 1 - padding, height - 1 - padding);
            &&& painted[pixel_index(width, l, t)] == color
            &&& painted[pixel_index(width, r, t)] == color
            &&& painted[pixel_index(width, l, b)] == color
            &&& painted[pixel_index(width, r, b)] == color
        }),
{
    let (l, t, r, b) = (padding, padding, width - 1 - padding, height - 1 - padding);
    lemma_line_endpoints(l, t, r, t, thickness);
    lemma_line_endpoints(l, b, r, b, thickness);
    lemma_pixel_coords(width, l, t);
    lemma_pixel_coords(width, r, t);
    lemma_pixel_coords(width, l, b);
    lemma_pixel_coords(width, r, b);
    lemma_index_in_buffer(width, height, l, t);
    lemma_index_in_buffer(width, height, r, t);
    lemma_index_in_buffer(width, height, l, b);
    lemma_index_in_buffer(width, height, r, b);
}

/// The stroke radius for `thickness`: half of it rounded half away from zero, at least one.
pub(crate) fn stroke_radius_of(thickness: i128) -> (r: i128)
    requires
        isize::MIN <= thickness <= isize::MAX,
    ensures
        r == stroke_radius(thickness as int),
        1 <= r <= isize::MAX,
{
    if thickness <= 1 {
        1
    } else {
        (thickness + 1) / 2
    }
}

/// A point of the closed disk lies in its bounding box.
proof fn lemma_disk_box(cx: int, cy: int, radius: int, x: int, y: int)
    requires
        in_disk(cx, cy, radius, x, y),
    ensures
        cx - radius <= x <= cx + radius,
        cy - radius <= y <= cy + radius,
{
    assert(cx - radius <= x <= cx + radius) by (nonlinear_arith)
        requires
            radius >= 0,
            (x - cx) * (x - cx) + (y - cy) * (y - cy) <= radius * radius,
    ;
    assert(cy - radius <= y <= cy + radius) by (nonlinear_arith)
        requires
            radius >= 0,
            (x - cx) * (x - cx) + (y - cy) * (y - cy) <= radius * radius,
    ;
}

proof fn lemma_square_bound(d: int, radius: int)
    requires
        -radius <= d <= radius,
        radius <= 0x7fff_ffff_ffff_ffff,
    ensures
        0 <= d * d <= radius * radius <= 0x3fff_ffff_ffff_ffff_0000_0000_0000_0001,
{
    assert(0 <= d * d <= radius * radius) by (nonlinear_arith)
        requires
            -radius <= d <= radius,
    ;
    assert(radius * radius <= 0x7fff_ffff_ffff_ffff * 0x7fff_ffff_ffff_ffff) by (nonlinear_arith)
        requires
            0 <= radius <= 0x7fff_ffff_ffff_ffff,
    ;
}

} // verus!
