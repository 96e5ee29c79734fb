//! The animated scene: sizes proportional to the canvas, the quantized tick of
//! the sweeping hand, and the drawing of one frame of each display variant.
use crate::draw::{
    color_rgb, frame_shape, line_shape, packed_rgb, stroke_radius_of, Canvas,
};
use crate::pacing::{RateLimits, NANOS_PER_SEC};
use crate::raster::{lemma_paint_twice, max, paint, union};
use vstd::prelude::*;

verus! {

/// `pct` percent of `n`, rounded half up.
pub open spec fn percent_rounded(n: int, pct: int) -> int {
    (n * pct + 50) / 100
}

/// Stroke width of every line of the scene: 3% of the smaller side, at least one pixel.
pub open spec fn thickness_for(min_dim: int) -> int {
    max(1, percent_rounded(min_dim, 3))
}

/// Inset of the frame from each edge: 4% of the smaller side, at least one pixel.
pub open spec fn padding_for(min_dim: int) -> int {
    max(1, percent_rounded(min_dim, 4))
}

/// Length of the hand: half the smaller side less twice the padding, never negative.
pub open spec fn hand_length_for(min_dim: int, padding: int) -> int {
    max(0, min_dim / 2 - 2 * padding)
}

pub open spec fn min_side(width: nat, height: nat) -> int {
    if width <= height {
        width as int
    } else {
        height as int
    }
}

fn percent_of(n: usize, pct: u128) -> (r: usize)
    requires
        pct <= 4,
    ensures
        r == percent_rounded(n as int, pct as int),
        r <= n / 20 + 1,
{
    assert(n * pct <= 4 * 0xffff_ffff_ffff_ffffint) by (nonlinear_arith)
        requires
            pct <= 4,
            0 <= n <= 0xffff_ffff_ffff_ffffint,
    ;
    let v = (n as u128 * pct + 50) / 100;
    assert(v <= n / 20 + 1) by (nonlinear_arith)
        requires
            v == (n * pct + 50) / 100,
            pct <= 4,
            n >= 0,
    ;
    v as usize
}

/// Stroke width for a canvas whose smaller side is `min_dim`.
pub fn stroke_thickness(min_dim: usize) -> (t: usize)
    ensures
        t == thickness_for(min_dim as int),
        t <= min_dim / 20 + 1,
{
    let t = percent_of(min_dim, 3);
    if t < 1 {
        1
    } else {
        t
    }
}

/// Frame inset for a canvas whose smaller side is `min_dim`.
pub fn frame_padding(min_dim: usize) -> (p: usize)
    ensures
        p == padding_for(min_dim as int),
        p <= min_dim / 20 + 1,
{
    let p = percent_of(min_dim, 4);
    if p < 1 {
        1
    } else {
        p
    }
}

/// Length of the hand for a canvas whose smaller side is `min_dim`.
pub fn hand_length(min_dim: usize, padding: usize) -> (l: usize)
    ensures
        l == hand_length_for(min_dim as int, padding as int),
{
    let half = min_dim / 2;
    if padding <= half / 2 {
        half - 2 * padding
    } else {
        0
    }
}

/// Seconds in one turn of the sweeping hand.
pub const PERIOD_SECS: u64 = 60;

/// The tick the sweeping hand shows `elapsed_nanos` after the start, at `rate`
/// ticks per second: the position within the minute rounded half up to a whole
/// tick, the tick at the full minute taken back to zero.
pub open spec fn tick_at(elapsed_nanos: int, rate: int) -> int {
    let period = PERIOD_SECS * NANOS_PER_SEC;
    let phase = elapsed_nanos % (period as int);
    ((phase * rate + NANOS_PER_SEC / 2) / (NANOS_PER_SEC as int)) % (PERIOD_SECS * rate)
}

/// The tick of the sweeping hand, in `[0, 60 * rate)`; the hand points at
/// `tick / (60 * rate)` of a full turn clockwise from twelve o'clock.
pub fn hand_tick(elapsed_nanos: u64, rate: u32) -> (t: u64)
    requires
        rate >= 1,
    ensures
        t == tick_at(elapsed_nanos as int, rate as int),
        t < PERIOD_SECS * rate,
{
    let period: u64 = PERIOD_SECS * NANOS_PER_SEC;
    let phase = elapsed_nanos % period;
    let ticks_in_period: u64 = PERIOD_SECS * rate as u64;
    assert(phase < 60_000_000_000u64);
    assert(phase * rate <= 60_000_000_000int * 0x1_0000_0000int) by (nonlinear_arith)
        requires
            0 <= phase < 60_000_000_000int,
            0 <= rate < 0x1_0000_0000int,
    ;
    let scaled: u128 = phase as u128 * rate as u128 + (NANOS_PER_SEC / 2) as u128;
    let rounded = scaled / (NANOS_PER_SEC as u128);
    assert(rounded <= 0x1_0000_0000_0000_0000_0000);
    ((rounded % ticks_in_period as u128) as u64)
}

/// The pixels of the clock face: the frame and the hand from the center to the
/// center moved by `(dx, dy)`.
pub open spec fn clock_shape(width: nat, height: nat, dx: int, dy: int) -> spec_fn(int, int) -> bool {
    let m = min_side(width, height);
    let t = thickness_for(m);
    let cx = width as int / 2;
    let cy = height as int / 2;
    union(frame_shape(width, height, padding_for(m), t), line_shape(cx, cy, cx + dx, cy + dy, t))
}

/// The pixels of the metronome face: the frame, the outline of a triangle with its
/// apex above the center, and the pendulum from the center to the center moved by `(dx, dy)`.
pub open spec fn metronome_shape(width: nat, height: nat, dx: int, dy: int) -> spec_fn(int, int) -> bool {
    let m = min_side(width, height);
    let t = thickness_for(m);
    let p = padding_for(m);
    let cx = width as int / 2;
    let cy = height as int / 2;
    let (tx, ty) = (cx, 2 * p);
    let (lx, ly) = (4 * p, height - 2 * p);
    let (rx, ry) = (width - 4 * p, height - 2 * p);
    union(
        union(frame_shape(width, height, p, t), line_shape(tx, ty, lx, ly, t)),
        union(
            union(line_shape(tx, ty, rx, ry, t), line_shape(rx, ry, lx, ly, t)),
            line_shape(cx, cy, cx + dx, cy + dy, t),
        ),
    )
}

/// Clear to `background`, then draw the frame and the clock hand in `accent`.
/// The hand runs from the center to the center moved by `(hand_dx, hand_dy)`.
pub fn draw_clock_face(canvas: &mut Canvas, hand_dx: isize, hand_dy: isize, accent: u32, background: u32)
    requires
        old(canvas).wf(),
    ensures
        final(canvas).wf(),
        final(canvas).size == old(canvas).size,
        final(canvas).buf@ == paint(
            Seq::new(old(canvas).buf@.len(), |i: int| background),
            old(canvas).w(),
            clock_shape(old(canvas).w(), old(canvas).h(), hand_dx as int, hand_dy as int),
            accent,
        ),
        final(final(canvas).buf)@ == final(old(canvas).buf)@,
{
    let ghost w = canvas.w();
    let ghost h = canvas.h();
    canvas.clear(background);
    let ghost cleared = canvas.buf@;
    let m = canvas.min_dim();
    let thick = stroke_thickness(m);
    let pad = frame_padding(m);
    canvas.draw_frame(pad as isize, thick as isize, accent);
    let center = canvas.center();
    let cx = center.x as i128;
    let cy = center.y as i128;
    let radius = stroke_radius_of(thick as i128);
    canvas.stroke_line(cx, cy, cx + hand_dx as i128, cy + hand_dy as i128, radius, accent);
    proof {
        let t = thick as int;
        lemma_paint_twice(
            cleared,
            w,
            frame_shape(w, h, pad as int, t),
            line_shape(cx as int, cy as int, cx + hand_dx, cy + hand_dy, t),
            accent,
        );
    }
}

/// Clear to `background`, then draw the frame, the triangle and the pendulum in
/// `accent`. The pendulum runs from the center to the center moved by `(hand_dx, hand_dy)`.
pub fn draw_metronome_face(canvas: &mut Canvas, hand_dx: isize, hand_dy: isize, accent: u32, background: u32)
    requires
        old(canvas).wf(),
    ensures
        final(canvas).wf(),
        final(canvas).size == old(canvas).size,
        final(canvas).buf@ == paint(
            Seq::new(old(canvas).buf@.len(), |i: int| background),
            old(canvas).w(),
            metronome_shape(old(canvas).w(), old(canvas).h(), hand_dx as int, hand_dy as int),
            accent,
        ),
        final(final(canvas).buf)@ == final(old(canvas).buf)@,
{
    let ghost w = canvas.w();
    let ghost h = canvas.h();
    canvas.clear(background);
    let ghost cleared = canvas.buf@;
    let m = canvas.min_dim();
    let thick = stroke_thickness(m);
    let pad = frame_padding(m);
    canvas.draw_frame(pad as isize, thick as isize, accent);
    let ghost framed = canvas.buf@;
    let center = canvas.center();
    let cx = center.x as i128;
    let cy = center.y as i128;
    let p = pad as i128;
    let (tx, ty) = (cx, 2 * p);
    let (lx, ly) = (4 * p, canvas.size.height as i128 - 2 * p);
    let (rx, ry) = (canvas.size.width as i128 - 4 * p, canvas.size.height as i128 - 2 * p);
    let radius = stroke_radius_of(thick as i128);
    canvas.stroke_line(tx, ty, lx, ly, radius, accent);
    canvas.stroke_line(tx, ty, rx, ry, radius, accent);
    canvas.stroke_line(rx, ry, lx, ly, radius, accent);
    canvas.stroke_line(cx, cy, cx + hand_dx as i128, cy + hand_dy as i128, radius, accent);
    proof {
        let t = thick as int;
        let frame = frame_shape(w, h, pad as int, t);
        let left = line_shape(tx as int, ty as int, lx as int, ly as int, t);
        let right = line_shape(tx as int, ty as int, rx as int, ry as int, t);
        let base = line_shape(rx as int, ry as int, lx as int, ly as int, t);
        let hand = line_shape(cx as int, cy as int, cx + hand_dx, cy + hand_dy, t);
        lemma_paint_twice(cleared, w, frame, left, accent);
        lemma_paint_twice(cleared, w, union(frame, left), right, accent);
        lemma_paint_twice(cleared, w, union(union(frame, left), right), base, accent);
        lemma_paint_twice(cleared, w, union(union(union(frame, left), right), base), hand, accent);
        assert(union(union(union(union(frame, left), right), base), hand) =~= metronome_shape(
            w,
            h,
            hand_dx as int,
            hand_dy as int,
        ));
    }
}

/// The two displays: a clock whose second hand ticks at the chosen rate, and a
/// metronome whose pendulum swings at the chosen beats per minute.
#[derive(Copy, Clone, Debug, PartialEq, Eq, Structural)]
pub enum Variant {
    Clock,
    Metronome,
}

/// The background color of both displays.
pub fn background_color() -> (c: u32)
    ensures
        c == packed_rgb(75, 95, 100),
{
    color_rgb(75, 95, 100)
}

impl Variant {
    /// Ticks per second for the clock, beats per minute for the metronome.
    pub fn rate_limits(&self) -> (l: RateLimits)
        ensures
            l.min <= l.max,
            *self == Variant::Clock ==> l == (RateLimits { min: 1, max: 20, step: 2 }),
            *self == Variant::Metronome ==> l == (RateLimits { min: 20, max: 200, step: 5 }),
    {
        match self {
            Variant::Clock => RateLimits { min: 1, max: 20, step: 2 },
            Variant::Metronome => RateLimits { min: 20, max: 200, step: 5 },
        }
    }

    /// The rate a display starts with.
    pub fn initial_rate(&self) -> (r: u32)
        ensures
            *self == Variant::Clock ==> r == 1,
            *self == Variant::Metronome ==> r == 60,
    {
        match self {
            Variant::Clock => 1,
            Variant::Metronome => 60,
        }
    }

    /// The stroke color of the display.
    pub fn accent_color(&self) -> (c: u32)
        ensures
            *self == Variant::Clock ==> c == packed_rgb(0, 200, 255),
            *self == Variant::Metronome ==> c == packed_rgb(0, 255, 30),
    {
        match self {
            Variant::Clock => color_rgb(0, 200, 255),
            Variant::Metronome => color_rgb(0, 255, 30),
        }
    }

    /// Whether the display asks for a frame on every idle moment rather than on
    /// the tick schedule.
    pub fn redraws_continuously(&self) -> (b: bool)
        ensures
            b == (*self == Variant::Metronome),
    {
        match self {
            Variant::Clock => false,
            Variant::Metronome => true,
        }
    }

    /// Draw one frame of the display with its hand at `(hand_dx, hand_dy)` from the center.
    pub fn draw_scene(&self, canvas: &mut Canvas, hand_dx: isize, hand_dy: isize)
        requires
            old(canvas).wf(),
        ensures
            final(canvas).wf(),
            final(canvas).size == old(canvas).size,
            final(canvas).buf@ == paint(
                Seq::new(old(canvas).buf@.len(), |i: int| packed_rgb(75, 95, 100)),
                old(canvas).w(),
                match *self {
                    Variant::Clock => clock_shape(old(canvas).w(), old(canvas).h(), hand_dx as int, hand_dy as int),
                    Variant::Metronome => metronome_shape(
                        old(canvas).w(),
                        old(canvas).h(),
                        hand_dx as int,
                        hand_dy as int,
                    ),
                },
                match *self {
                    Variant::Clock => packed_rgb(0, 200, 255),
                    Variant::Metronome => packed_rgb(0, 255, 30),
                },
            ),
            final(final(canvas).buf)@ == final(old(canvas).buf)@,
    {
        let accent = self.accent_color();
        let background = background_color();
        match self {
            Variant::Clock => draw_clock_face(canvas, hand_dx, hand_dy, accent, background),
            Variant::Metronome => draw_metronome_face(canvas, hand_dx, hand_dy, accent, background),
        }
    }
}

} // verus!
