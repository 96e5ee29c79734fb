//! Mathematical model of a row-major pixel buffer and of the shapes drawn on it.
use vstd::arithmetic::div_mod::{lemma_fundamental_div_mod, lemma_fundamental_div_mod_converse};
use vstd::prelude::*;

verus! {

/// Index of pixel `(x, y)` in a row-major buffer `width` pixels wide.
pub open spec fn pixel_index(width: nat, x: int, y: int) -> int {
    y * width + x
}

/// Whether `(x, y)` addresses a pixel of a `width` by `height` canvas.
pub open spec fn in_bounds(width: nat, height: nat, x: int, y: int) -> bool {
    0 <= x < width && 0 <= y < height
}

/// `buf` with every pixel that `covered` holds of set to `color`, all others kept.
pub open spec fn paint(buf: Seq<u32>, width: nat, covered: spec_fn(int, int) -> bool, color: u32) -> Seq<u32> {
    Seq::new(
        buf.len(),
        |i: int|
            if covered(i % (width as int), i / (width as int)) {
                color
            } else {
                buf[i]
            },
    )
}

/// `buf` with pixel `(x, y)` set to `color` when it is on the canvas, else `buf` itself.
pub open spec fn with_pixel(buf: Seq<u32>, width: nat, height: nat, x: int, y: int, color: u32) -> Seq<u32> {
    if in_bounds(width, height, x, y) {
        buf.update(pixel_index(width, x, y), color)
    } else {
        buf
    }
}

/// Whether `(x, y)` lies in the closed disk of `radius` around `(cx, cy)`.
/// A negative radius gives the empty disk.
pub open spec fn in_disk(cx: int, cy: int, radius: int, x: int, y: int) -> bool {
    radius >= 0 && (x - cx) * (x - cx) + (y - cy) * (y - cy) <= radius * radius
}

/// The closed disk of `radius` around `(cx, cy)` as a pixel predicate.
pub open spec fn disk(cx: int, cy: int, radius: int) -> spec_fn(int, int) -> bool {
    |x: int, y: int| in_disk(cx, cy, radius, x, y)
}

/// Union of two pixel predicates.
pub open spec fn union(a: spec_fn(int, int) -> bool, b: spec_fn(int, int) -> bool) -> spec_fn(int, int) -> bool {
    |x: int, y: int| a(x, y) || b(x, y)
}

pub open spec fn abs(v: int) -> int {
    if v < 0 {
        -v
    } else {
        v
    }
}

pub open spec fn max(a: int, b: int) -> int {
    if a >= b {
        a
    } else {
        b
    }
}

/// Unit step from `from` toward `to` (`-1` when they are equal).
pub open spec fn unit_step(from: int, to: int) -> int {
    if from < to {
        1
    } else {
        -1
    }
}

/// A state of the integer line walk: position and error accumulator.
pub struct WalkState {
    pub x: int,
    pub y: int,
    pub err: int,
}

/// One step of the two-branch integer line walk from `(x0, y0)` to `(x1, y1)`.
/// Once the walk stands on `(x1, y1)` it stays there.
pub open spec fn walk_step(x0: int, y0: int, x1: int, y1: int, s: WalkState) -> WalkState {
    let dx = abs(x1 - x0);
    let dy = -abs(y1 - y0);
    if s.x == x1 && s.y == y1 {
        s
    } else {
        let e2 = 2 * s.err;
        let xs = if e2 >= dy { s.x + unit_step(x0, x1) } else { s.x };
        let e1 = if e2 >= dy { s.err + dy } else { s.err };
        let ys = if e2 <= dx { s.y + unit_step(y0, y1) } else { s.y };
        let e = if e2 <= dx { e1 + dx } else { e1 };
        WalkState { x: xs, y: ys, err: e }
    }
}

/// The state of the line walk from `(x0, y0)` to `(x1, y1)` after `k` steps.
pub open spec fn walk(x0: int, y0: int, x1: int, y1: int, k: nat) -> WalkState
    decreases k,
{
    if k == 0 {
        WalkState { x: x0, y: y0, err: abs(x1 - x0) - abs(y1 - y0) }
    } else {
        walk_step(x0, y0, x1, y1, walk(x0, y0, x1, y1, (k - 1) as nat))
    }
}

/// The pixels covered by a disk of `radius` centred on every point of the walk
/// from `(x0, y0)` to `(x1, y1)`.
pub open spec fn stroke(x0: int, y0: int, x1: int, y1: int, radius: int) -> spec_fn(int, int) -> bool {
    |x: int, y: int|
        exists|k: nat| #[trigger]
            in_disk(walk(x0, y0, x1, y1, k).x, walk(x0, y0, x1, y1, k).y, radius, x, y)
}

/// Whether `(x0, y0)` comes no later than `(x1, y1)` in row-major order.
pub open spec fn precedes(x0: int, y0: int, x1: int, y1: int) -> bool {
    y0 < y1 || (y0 == y1 && x0 <= x1)
}

/// The stroke between two points, walked from whichever comes first in
/// row-major order, so that it does not depend on the order they are given in.
pub open spec fn ordered_stroke(x0: int, y0: int, x1: int, y1: int, radius: int) -> spec_fn(int, int) -> bool {
    if precedes(x0, y0, x1, y1) {
        stroke(x0, y0, x1, y1, radius)
    } else {
        stroke(x1, y1, x0, y0, radius)
    }
}

/// Whether `v` lies between `p` and `q`, both included.
pub open spec fn between(p: int, v: int, q: int) -> bool {
    (p <= v <= q) || (q <= v <= p)
}

/// Taxicab distance from the walk's position to its end point.
pub open spec fn walk_distance(x1: int, y1: int, s: WalkState) -> int {
    abs(x1 - s.x) + abs(y1 - s.y)
}

/// What holds of every state of the walk: it stays within the box spanned by the
/// end points, and the error term tracks the signed distance from the ideal line,
/// which never exceeds half of the longer side.
pub open spec fn walk_inv(x0: int, y0: int, x1: int, y1: int, s: WalkState) -> bool {
    let d = abs(x1 - x0);
    let a = abs(y1 - y0);
    let i = abs(s.x - x0);
    let j = abs(s.y - y0);
    &&& between(x0, s.x, x1)
    &&& between(y0, s.y, y1)
    &&& s.err == d - a + d * j - a * i
    &&& -max(d, a) <= 2 * (d * j - a * i) <= max(d, a)
}

pub proof fn lemma_walk_start(x0: int, y0: int, x1: int, y1: int)
    ensures
        walk_inv(x0, y0, x1, y1, walk(x0, y0, x1, y1, 0)),
{
    let s = walk(x0, y0, x1, y1, 0);
    assert(abs(s.x - x0) == 0 && abs(s.y - y0) == 0);
    let d = abs(x1 - x0);
    let a = abs(y1 - y0);
    assert(d * 0 == 0 && a * 0 == 0) by (nonlinear_arith);
}

/// A step from a state away from the end keeps the invariant and moves closer.
pub proof fn lemma_walk_step(x0: int, y0: int, x1: int, y1: int, s: WalkState)
    requires
        walk_inv(x0, y0, x1, y1, s),
        !(s.x == x1 && s.y == y1),
    ensures
        walk_inv(x0, y0, x1, y1, walk_step(x0, y0, x1, y1, s)),
        walk_distance(x1, y1, walk_step(x0, y0, x1, y1, s)) < walk_distance(x1, y1, s),
{
    let d = abs(x1 - x0);
    let a = abs(y1 - y0);
    let m = max(d, a);
    let i = abs(s.x - x0);
    let j = abs(s.y - y0);
    let f = d * j - a * i;
    let e2 = 2 * s.err;
    let ex = e2 >= -a;
    let ey = e2 <= d;
    assert(i <= d && j <= a);
    assert(0 <= i && 0 <= j);
    // no x step once x has arrived
    if ex && i == d {
        assert(j < a);
        assert(d * j - a * d <= -d) by (nonlinear_arith)
            requires
                0 <= d,
                j < a,
        ;
    }
    // no y step once y has arrived
    if ey && j == a {
        assert(i < d);
        assert(d * a - a * i >= a) by (nonlinear_arith)
            requires
                0 <= a,
                i < d,
        ;
    }
    assert(ex || ey);
    let n = walk_step(x0, y0, x1, y1, s);
    let i2 = if ex { i + 1 } else { i };
    let j2 = if ey { j + 1 } else { j };
    assert(abs(n.x - x0) == i2);
    assert(abs(n.y - y0) == j2);
    assert(d * (j + 1) == d * j + d) by (nonlinear_arith);
    assert(a * (i + 1) == a * i + a) by (nonlinear_arith);
    let f2 = d * j2 - a * i2;
    assert(n.err == d - a + f2);
    assert(-m <= 2 * f2 <= m);
}

/// Every state of the walk keeps the invariant, and the walk is at its end point
/// after at most the taxicab distance between its end points in steps.
pub proof fn lemma_walk_progress(x0: int, y0: int, x1: int, y1: int, k: nat)
    ensures
        walk_inv(x0, y0, x1, y1, walk(x0, y0, x1, y1, k)),
        (walk(x0, y0, x1, y1, k).x == x1 && walk(x0, y0, x1, y1, k).y == y1) || walk_distance(
            x1,
            y1,
            walk(x0, y0, x1, y1, k),
        ) + k <= abs(x1 - x0) + abs(y1 - y0),
    decreases k,
{
    if k == 0 {
        lemma_walk_start(x0, y0, x1, y1);
    } else {
        lemma_walk_progress(x0, y0, x1, y1, (k - 1) as nat);
        let s = walk(x0, y0, x1, y1, (k - 1) as nat);
        if !(s.x == x1 && s.y == y1) {
            lemma_walk_step(x0, y0, x1, y1, s);
        }
    }
}

/// Once the walk stands on its end point it stays there.
pub proof fn lemma_walk_stays(x0: int, y0: int, x1: int, y1: int, k: nat, n: nat)
    requires
        walk(x0, y0, x1, y1, k).x == x1,
        walk(x0, y0, x1, y1, k).y == y1,
        k <= n,
    ensures
        walk(x0, y0, x1, y1, n) == walk(x0, y0, x1, y1, k),
    decreases n - k,
{
    if k < n {
        lemma_walk_stays(x0, y0, x1, y1, k, (n - 1) as nat);
    }
}

/// The walk reaches its end point.
pub proof fn lemma_walk_reaches_end(x0: int, y0: int, x1: int, y1: int)
    ensures
        walk(x0, y0, x1, y1, (abs(x1 - x0) + abs(y1 - y0)) as nat).x == x1,
        walk(x0, y0, x1, y1, (abs(x1 - x0) + abs(y1 - y0)) as nat).y == y1,
{
    lemma_walk_progress(x0, y0, x1, y1, (abs(x1 - x0) + abs(y1 - y0)) as nat);
}

/// Row-major coordinates of an index and back.
pub proof fn lemma_pixel_coords(width: nat, x: int, y: int)
    requires
        0 <= x < width,
    ensures
        pixel_index(width, x, y) % (width as int) == x,
        pixel_index(width, x, y) / (width as int) == y,
{
    lemma_fundamental_div_mod_converse(pixel_index(width, x, y), width as int, y, x);
}

pub proof fn lemma_index_coords(width: nat, height: nat, i: int)
    requires
        0 <= i < width * height,
    ensures
        in_bounds(width, height, i % (width as int), i / (width as int)),
        i == pixel_index(width, i % (width as int), i / (width as int)),
{
    let w = width as int;
    if width == 0 {
        assert(width * height == 0);
    }
    lemma_fundamental_div_mod(i, w);
    let q = i / w;
    let r = i % w;
    assert(0 <= r < w) by {
        vstd::arithmetic::div_mod::lemma_mod_bound(i, w);
    }
    assert(i == q * w + r) by (nonlinear_arith)
        requires
            i == w * q + r,
    ;
    assert(0 <= q < height) by (nonlinear_arith)
        requires
            i == q * w + r,
            0 <= r < w,
            0 <= i < w * height,
            w > 0,
    ;
}

/// An index of an in-bounds pixel lies inside a buffer of `width * height` pixels.
pub proof fn lemma_index_in_buffer(width: nat, height: nat, x: int, y: int)
    requires
        in_bounds(width, height, x, y),
    ensures
        0 <= pixel_index(width, x, y) < width * height,
{
    assert(0 <= y * width + x < width * height) by (nonlinear_arith)
        requires
            0 <= x < width,
            0 <= y < height,
    ;
}

/// Painting depends only on what the predicate says of on-canvas pixels.
pub proof fn lemma_paint_congruent(
    buf: Seq<u32>,
    width: nat,
    height: nat,
    a: spec_fn(int, int) -> bool,
    b: spec_fn(int, int) -> bool,
    color: u32,
)
    requires
        buf.len() == width * height,
        forall|x: int, y: int| in_bounds(width, height, x, y) ==> a(x, y) == b(x, y),
    ensures
        paint(buf, width, a, color) == paint(buf, width, b, color),
{
    assert forall|i: int| 0 <= i < buf.len() implies paint(buf, width, a, color)[i] == paint(
        buf,
        width,
        b,
        color,
    )[i] by {
        lemma_index_coords(width, height, i);
    }
    assert(paint(buf, width, a, color) =~= paint(buf, width, b, color));
}

/// Painting with a predicate that holds of no on-canvas pixel changes nothing.
pub proof fn lemma_paint_nothing(buf: Seq<u32>, width: nat, height: nat, a: spec_fn(int, int) -> bool, color: u32)
    requires
        buf.len() == width * height,
        forall|x: int, y: int| in_bounds(width, height, x, y) ==> !a(x, y),
    ensures
        paint(buf, width, a, color) == buf,
{
    assert forall|i: int| 0 <= i < buf.len() implies paint(buf, width, a, color)[i] == buf[i] by {
        lemma_index_coords(width, height, i);
    }
    assert(paint(buf, width, a, color) =~= buf);
}

/// Two paints in one color are one paint of the union.
pub proof fn lemma_paint_twice(buf: Seq<u32>, width: nat, a: spec_fn(int, int) -> bool, b: spec_fn(int, int) -> bool, color: u32)
    ensures
        paint(paint(buf, width, a, color), width, b, color) == paint(buf, width, union(a, b), color),
{
    assert(paint(paint(buf, width, a, color), width, b, color) =~= paint(buf, width, union(a, b), color));
}

/// Setting one more pixel extends the painted predicate by that pixel.
pub proof fn lemma_paint_extend(
    buf: Seq<u32>,
    width: nat,
    height: nat,
    a: spec_fn(int, int) -> bool,
    b: spec_fn(int, int) -> bool,
    x: int,
    y: int,
    color: u32,
)
    requires
        buf.len() == width * height,
        in_bounds(width, height, x, y),
        forall|px: int, py: int|
            in_bounds(width, height, px, py) ==> b(px, py) == (a(px, py) || (px == x && py == y)),
    ensures
        paint(buf, width, a, color).update(pixel_index(width, x, y), color) == paint(buf, width, b, color),
{
    lemma_index_in_buffer(width, height, x, y);
    lemma_pixel_coords(width, x, y);
    let idx = pixel_index(width, x, y);
    let lhs = paint(buf, width, a, color).update(idx, color);
    assert forall|i: int| 0 <= i < buf.len() implies lhs[i] == paint(buf, width, b, color)[i] by {
        lemma_index_coords(width, height, i);
    }
    assert(lhs =~= paint(buf, width, b, color));
}


/// The pixels covered by the disks on the first `k` states of the walk.
pub open spec fn stroke_prefix(x0: int, y0: int, x1: int, y1: int, radius: int, k: nat) -> spec_fn(
    int,
    int,
) -> bool {
    |x: int, y: int|
        exists|j: nat|
            j < k && #[trigger] in_disk(walk(x0, y0, x1, y1, j).x, walk(x0, y0, x1, y1, j).y, radius, x, y)
}

/// One more state of the walk adds its disk to the prefix.
pub proof fn lemma_stroke_prefix_next(x0: int, y0: int, x1: int, y1: int, radius: int, k: nat)
    ensures
        forall|x: int, y: int|
            #[trigger] stroke_prefix(x0, y0, x1, y1, radius, k + 1)(x, y) == union(
                stroke_prefix(x0, y0, x1, y1, radius, k),
                disk(walk(x0, y0, x1, y1, k).x, walk(x0, y0, x1, y1, k).y, radius),
            )(x, y),
{
    assert forall|x: int, y: int|
        #[trigger] stroke_prefix(x0, y0, x1, y1, radius, k + 1)(x, y) implies union(
            stroke_prefix(x0, y0, x1, y1, radius, k),
            disk(walk(x0, y0, x1, y1, k).x, walk(x0, y0, x1, y1, k).y, radius),
        )(x, y) by {
        let j = choose|j: nat|
            j < k + 1 && #[trigger] in_disk(
                walk(x0, y0, x1, y1, j).x,
                walk(x0, y0, x1, y1, j).y,
                radius,
                x,
                y,
            );
        if j < k {
            assert(stroke_prefix(x0, y0, x1, y1, radius, k)(x, y));
        }
    }
}

/// Once the walk has reached its end point, a prefix that includes that state is the whole stroke.
pub proof fn lemma_stroke_prefix_whole(x0: int, y0: int, x1: int, y1: int, radius: int, k: nat)
    requires
        walk(x0, y0, x1, y1, k).x == x1,
        walk(x0, y0, x1, y1, k).y == y1,
    ensures
        forall|x: int, y: int|
            #[trigger] stroke_prefix(x0, y0, x1, y1, radius, k + 1)(x, y) == stroke(x0, y0, x1, y1, radius)(x, y),
{
    assert forall|x: int, y: int| #[trigger] stroke(x0, y0, x1, y1, radius)(x, y) implies stroke_prefix(
        x0,
        y0,
        x1,
        y1,
        radius,
        k + 1,
    )(x, y) by {
        let j = choose|j: nat| #[trigger]
            in_disk(walk(x0, y0, x1, y1, j).x, walk(x0, y0, x1, y1, j).y, radius, x, y);
        if j > k {
            lemma_walk_stays(x0, y0, x1, y1, k, j);
            assert(in_disk(walk(x0, y0, x1, y1, k).x, walk(x0, y0, x1, y1, k).y, radius, x, y));
        }
    }
}

} // verus!
