use watchrs::pacing::{frame_interval, FramePacer, RateChange, RateLimits, NANOS_PER_SEC};

#[test]
fn interval_is_a_whole_fraction_of_a_second() {
    assert_eq!(frame_interval(1), 1_000_000_000);
    assert_eq!(frame_interval(5), 200_000_000);
    assert_eq!(frame_interval(3), 333_333_333);
    assert_eq!(frame_interval(20), 50_000_000);
}

#[test]
fn catch_up_after_a_stall_requests_one_redraw() {
    let t: u64 = 7 * NANOS_PER_SEC + 123;
    let mut p = FramePacer::new(0, t);
    let now = t + NANOS_PER_SEC;
    assert!(p.on_idle(now, 5));
    assert!(p.next_wake > t);
    assert!(p.next_wake > now);
    assert!(p.next_wake <= now + 200_000_000);
    assert_eq!(p.next_wake, t + 6 * 200_000_000);
    // the same moment again asks for nothing
    assert!(!p.on_idle(now, 5));
    assert_eq!(p.next_wake, t + 6 * 200_000_000);
}

#[test]
fn not_yet_due_keeps_schedule() {
    let mut p = FramePacer::new(0, 1_000);
    assert!(!p.on_idle(999, 5));
    assert_eq!(p.next_wake, 1_000);
    assert_eq!(p.start, 0);
}

#[test]
fn due_exactly_on_time_advances_one_interval() {
    let mut p = FramePacer::new(0, 400_000_000);
    assert!(p.on_idle(400_000_000, 5));
    assert_eq!(p.next_wake, 600_000_000);
}

#[test]
fn one_tick_per_second_aligns_to_start() {
    let start = 250_000_000;
    let mut p = FramePacer::new(start, 900_000_000);
    assert!(p.on_idle(2_300_000_000, 1));
    assert_eq!(p.next_wake, start + 3 * NANOS_PER_SEC);
}

#[test]
fn rate_is_clamped_to_tick_bounds() {
    let mut slow = FramePacer::new(0, 0);
    assert!(slow.on_idle(10, 0));
    assert_eq!(slow.next_wake, NANOS_PER_SEC);
    let mut fast = FramePacer::new(0, 0);
    assert!(fast.on_idle(10, 1000));
    assert_eq!(fast.next_wake, 50_000_000);
}

#[test]
fn rate_adjustments_are_clamped() {
    let clock = RateLimits { min: 1, max: 20, step: 2 };
    assert_eq!(clock.adjust(1, RateChange::Increase), 3);
    assert_eq!(clock.adjust(19, RateChange::Increase), 20);
    assert_eq!(clock.adjust(20, RateChange::Increase), 20);
    assert_eq!(clock.adjust(1, RateChange::Decrease), 1);
    assert_eq!(clock.adjust(2, RateChange::Decrease), 1);
    assert_eq!(clock.adjust(9, RateChange::Decrease), 7);
    let metronome = RateLimits { min: 20, max: 200, step: 5 };
    assert_eq!(metronome.adjust(60, RateChange::Increase), 65);
    assert_eq!(metronome.adjust(200, RateChange::Increase), 200);
    assert_eq!(metronome.adjust(20, RateChange::Decrease), 20);
    assert_eq!(metronome.adjust(u32::MAX, RateChange::Increase), 200);
    assert_eq!(metronome.adjust(0, RateChange::Decrease), 20);
}
