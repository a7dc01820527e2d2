use async_kartoffel::{ClockBackend, Cooldown, CooldownType, Duration, Instant, StatsDog, Timer};

struct TestClock;

impl ClockBackend for TestClock {
    fn ticks_per_milli_spec() -> u32 {
        64
    }

    fn now() -> u32 {
        1_000
    }

    fn ticks_per_milli() -> u32 {
        64
    }
}

#[test]
fn duration_conversions() {
    let d: Duration<TestClock> = Duration::from_millis(3);
    assert_eq!(d.as_ticks(), 192);
    assert_eq!(d.as_millis_floor(), 3);
    let e: Duration<TestClock> = Duration::from_ticks(100);
    assert_eq!(e.as_millis_floor(), 1);
    assert_eq!(e.as_millis_ceil(), 2);
    let s: Duration<TestClock> = Duration::from_secs(2);
    assert_eq!(s.as_ticks(), 128_000);
    assert_eq!(s.as_secs_floor(), 2);
    assert_eq!(Duration::<TestClock>::from_ticks(64_001).as_secs_ceil(), 2);
    assert_eq!(Duration::<TestClock>::from_ticks(64_001).as_secs_floor(), 1);
}

#[test]
fn instant_arithmetic() {
    let a: Instant<TestClock> = Instant::from_ticks(500);
    let b = a + Duration::from_ticks(250);
    assert_eq!(b.as_ticks(), 750);
    assert_eq!((b - a).unwrap().as_ticks(), 250);
    assert!((a - b).is_none());
    let d = Duration::<TestClock>::from_ticks(10) + Duration::from_ticks(5);
    assert_eq!(d.as_ticks(), 15);
    assert!((Duration::<TestClock>::from_ticks(1) - Duration::from_ticks(2)).is_none());
    assert_eq!(Instant::<TestClock>::now().as_ticks(), 1_000);
}

#[test]
fn timer_expiry() {
    let now: Instant<TestClock> = Instant::from_ticks(100);
    let mut t = Timer::after_instant(now, Duration::from_ticks(50));
    assert_eq!(t.expires_at().as_ticks(), 150);
    assert!(!t.is_expired(Instant::from_ticks(149)));
    assert!(t.is_expired(Instant::from_ticks(150)));
    assert!(!t.poll_at(Instant::from_ticks(120)));
    assert!(t.poll_at(Instant::from_ticks(151)));
    let at = Timer::at(Instant::<TestClock>::from_ticks(7));
    assert_eq!(at.expires_at().as_ticks(), 7);
    let after = Timer::<TestClock>::after_millis(2);
    assert_eq!(after.expires_at().as_ticks(), 1_000 + 128);
}

#[test]
fn cooldown_durations() {
    assert_eq!(CooldownType::Stab.expected_duration::<TestClock>().as_ticks(), 60_000);
    assert_eq!(CooldownType::Radar7.expected_duration::<TestClock>().as_ticks(), 22_000);
    let c: Cooldown<TestClock> = Cooldown::start_new(CooldownType::Turn);
    assert_eq!(c.expected_done().as_ticks(), 1_000 + 10_000);
}

#[test]
fn stats_dog_mean_and_std_dev() {
    let mut s: StatsDog<TestClock> = StatsDog::new();
    s.restart_timer_at(Instant::from_ticks(0));
    // durations 2, 4, 4, 4, 5, 5, 7, 9: mean 5, (232 - 1600 / 8) / 7 = 4, root 2
    let mut t = 0;
    for d in [2u32, 4, 4, 4, 5, 5, 7, 9] {
        t += d;
        s.feed_at(Instant::from_ticks(t));
    }
    assert_eq!(s.count(), 8);
    assert_eq!(s.total().as_ticks(), 40);
    assert_eq!(s.mean(), 5);
    assert_eq!(s.std_dev(), 2);
}

#[test]
fn stats_dog_std_dev_rounds_down() {
    let mut s: StatsDog<TestClock> = StatsDog::new();
    s.restart_timer_at(Instant::from_ticks(0));
    // durations 0 and 10: (100 - 100 / 2) / 1 = 50, rounded down root 7
    s.feed_at(Instant::from_ticks(0));
    s.feed_at(Instant::from_ticks(10));
    assert_eq!(s.std_dev(), 7);
    // durations 0, 10, 1: mean 11 / 3 = 3, (101 - 121 / 3) / 2 = 30, rounded down root 5
    s.feed_at(Instant::from_ticks(11));
    assert_eq!(s.mean(), 3);
    assert_eq!(s.std_dev(), 5);
}

#[test]
fn stats_dog_tracks_extremes() {
    let mut s: StatsDog<TestClock> = StatsDog::new();
    s.restart_timer_at(Instant::from_ticks(0));
    s.feed_at(Instant::from_ticks(3));
    s.feed_at(Instant::from_ticks(10));
    s.feed_at(Instant::from_ticks(12));
    assert_eq!(s.max_duration().as_ticks(), 7);
    // the running minimum starts at zero
    assert_eq!(s.min_duration().as_ticks(), 0);
}
