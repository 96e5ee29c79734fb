//! Frame pacing: when to request a redraw, and how the tick rate is adjusted.
//! Times are nanoseconds on a monotonic clock.
use vstd::prelude::*;

verus! {

pub const NANOS_PER_SEC: u64 = 1_000_000_000;

/// Slowest and fastest tick rate of the sweeping hand, in ticks per second.
pub const MIN_TICK_RATE: u32 = 1;

pub const MAX_TICK_RATE: u32 = 20;

pub open spec fn clamp(v: int, lo: int, hi: int) -> int {
    if v < lo {
        lo
    } else if v > hi {
        hi
    } else {
        v
    }
}

/// The length of one tick at `rate` ticks per second, in whole nanoseconds.
pub open spec fn interval_of(rate: int) -> int {
    (NANOS_PER_SEC as int) / rate
}

/// The first wake time after `now`: on whole seconds from `start` at one tick
/// per second, else whole intervals on from `next_wake`.
pub open spec fn wake_after(start: int, next_wake: int, now: int, rate: int) -> int {
    if rate == 1 {
        start + ((now - start) / (NANOS_PER_SEC as int) + 1) * NANOS_PER_SEC
    } else {
        next_wake + ((now - next_wake) / interval_of(rate) + 1) * interval_of(rate)
    }
}

/// The interval between frames at `rate` ticks per second.
pub fn frame_interval(rate: u32) -> (n: u64)
    requires
        rate >= 1,
    ensures
        n == interval_of(rate as int),
        n <= NANOS_PER_SEC,
        rate <= NANOS_PER_SEC ==> n >= 1,
{
    let n = NANOS_PER_SEC / (rate as u64);
    assert(n <= NANOS_PER_SEC && (rate <= NANOS_PER_SEC ==> n >= 1)) by (nonlinear_arith)
        requires
            rate >= 1,
            n == 1_000_000_000int / (rate as int),
            NANOS_PER_SEC == 1_000_000_000,
    ;
    n
}

/// The schedule of one animation: its fixed start and its next wake time.
pub struct FramePacer {
    pub start: u64,
    pub next_wake: u64,
}

impl FramePacer {
    /// The schedule never wakes before the animation started.
    pub open spec fn wf(&self) -> bool {
        self.start <= self.next_wake
    }

    /// A schedule for an animation that started at `start`, first waking at `first_wake`.
    pub fn new(start: u64, first_wake: u64) -> (p: Self)
        requires
            start <= first_wake,
        ensures
            p.wf(),
            p.start == start,
            p.next_wake == first_wake,
    {
        FramePacer { start, next_wake: first_wake }
    }

    /// Decide on an idle moment at `now` with the hand's current `rate`, clamped
    /// to the tick rate bounds. When the wake time has come, ask for exactly one
    /// redraw and move the wake time past `now` by whole intervals at once, however
    /// many were missed; otherwise ask for nothing and keep the schedule.
    pub fn on_idle(&mut self, now: u64, rate: u32) -> (redraw: bool)
        requires
            old(self).wf(),
            now <= u64::MAX - NANOS_PER_SEC,
        ensures
            final(self).wf(),
            final(self).start == old(self).start,
            redraw == (now >= old(self).next_wake),
            redraw ==> final(self).next_wake == wake_after(
                old(self).start as int,
                old(self).next_wake as int,
                now as int,
                clamp(rate as int, MIN_TICK_RATE as int, MAX_TICK_RATE as int),
            ),
            redraw ==> old(self).next_wake < final(self).next_wake,
            redraw ==> now < final(self).next_wake <= now + interval_of(
                clamp(rate as int, MIN_TICK_RATE as int, MAX_TICK_RATE as int),
            ),
            !redraw ==> final(self).next_wake == old(self).next_wake,
    {
        if now < self.next_wake {
            return false;
        }
        let r = if rate < MIN_TICK_RATE {
            MIN_TICK_RATE
        } else if rate > MAX_TICK_RATE {
            MAX_TICK_RATE
        } else {
            rate
        };
        if r == 1 {
            let since = now - self.start;
            let whole = since / NANOS_PER_SEC;
            proof {
                lemma_next_multiple(since as int, NANOS_PER_SEC as int);
            }
            self.next_wake = self.start + (whole + 1) * NANOS_PER_SEC;
        } else {
            let step = frame_interval(r);
            let late = now - self.next_wake;
            let missed = late / step;
            proof {
                lemma_next_multiple(late as int, step as int);
            }
            self.next_wake = self.next_wake + (missed + 1) * step;
        }
        true
    }
}

/// The next multiple of `step` after `v` lies in `(v, v + step]`.
proof fn lemma_next_multiple(v: int, step: int)
    requires
        0 <= v,
        0 < step,
    ensures
        v < (v / step + 1) * step <= v + step,
{
    vstd::arithmetic::div_mod::lemma_fundamental_div_mod(v, step);
    vstd::arithmetic::div_mod::lemma_mod_bound(v, step);
    assert(v < (v / step + 1) * step <= v + step) by (nonlinear_arith)
        requires
            0 <= v,
            0 < step,
            v == step * (v / step) + v % step,
            0 <= v % step < step,
    ;
}

/// Slower or faster by one step.
#[derive(Copy, Clone, Debug, PartialEq, Eq, Structural)]
pub enum RateChange {
    Increase,
    Decrease,
}

/// The range a rate is kept in and the step it changes by.
#[derive(Copy, Clone, Debug, PartialEq, Eq, Structural)]
pub struct RateLimits {
    pub min: u32,
    pub max: u32,
    pub step: u32,
}

impl RateLimits {
    /// The rate after `change`: one step up or down, clamped to `[min, max]`.
    pub open spec fn adjusted(&self, rate: int, change: RateChange) -> int {
        let moved = match change {
            RateChange::Increase => rate + self.step,
            RateChange::Decrease => rate - self.step,
        };
        clamp(moved, self.min as int, self.max as int)
    }

    pub fn adjust(&self, rate: u32, change: RateChange) -> (r: u32)
        requires
            self.min <= self.max,
        ensures
            r == self.adjusted(rate as int, change),
    {
        let moved: i64 = match change {
            RateChange::Increase => rate as i64 + self.step as i64,
            RateChange::Decrease => rate as i64 - self.step as i64,
        };
        if moved < self.min as i64 {
            self.min
        } else if moved > self.max as i64 {
            self.max
        } else {
            moved as u32
        }
    }
}

} // verus!
