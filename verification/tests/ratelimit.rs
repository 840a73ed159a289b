use std::time::{Duration, Instant};

use qw_core::ratelimit::{RateLimited, RateLimiter};

/// Wait out `d` on the monotonic clock.
fn pause(d: Duration) {
    let start = Instant::now();
    while start.elapsed() < d {}
}

/// A duration as the limiter takes it: whole nanoseconds.
fn nanos(d: Duration) -> u64 {
    u64::try_from(d.as_nanos()).unwrap()
}

#[test]
fn allows_up_to_the_limit_then_rejects() {
    let mut rl = RateLimiter::new();
    let window = Duration::from_secs(60);
    for _ in 0..3 {
        assert!(rl.check("k", 3, nanos(window)).is_ok());
    }
    let err = rl.check("k", 3, nanos(window)).unwrap_err();
    assert!(err.retry_after_secs >= 1 && err.retry_after_secs <= 60);
}

#[test]
fn independent_keys_do_not_share_a_budget() {
    let mut rl = RateLimiter::new();
    let window = Duration::from_secs(60);
    for _ in 0..3 {
        assert!(rl.check("a", 3, nanos(window)).is_ok());
    }
    assert!(rl.check("a", 3, nanos(window)).is_err());
    // a fresh key still has its own full budget
    assert!(rl.check("b", 3, nanos(window)).is_ok());
}

const SEC: u64 = 1_000_000_000;

#[test]
fn a_window_rolls_over() {
    let mut rl = RateLimiter::new();
    // a window of one millisecond, already elapsed by the second attempt
    let window = 1_000_000;
    assert!(rl.check_at("k", 1, window, 0).is_ok());
    assert!(rl.check_at("k", 1, window, 5_000_000).is_ok(), "new window, budget reset");
}

#[test]
fn the_retry_hint_counts_down_the_rest_of_the_window() {
    let mut rl = RateLimiter::new();
    let window = 60 * SEC;
    assert!(rl.check_at("k", 1, window, 0).is_ok());
    assert_eq!(
        rl.check_at("k", 1, window, 15 * SEC),
        Err(RateLimited { retry_after_secs: 45 })
    );
    // under a second left still says one, never zero
    assert_eq!(
        rl.check_at("k", 1, window, 59 * SEC + 500_000_000),
        Err(RateLimited { retry_after_secs: 1 })
    );
    // once the window has closed the budget is back
    assert!(rl.check_at("k", 1, window, 60 * SEC).is_ok());
}

#[test]
fn sweep_drops_only_windows_older_than_max_age() {
    let mut rl = RateLimiter::new();
    rl.check("stale", 5, nanos(Duration::from_millis(1))).unwrap();
    pause(Duration::from_millis(10));
    rl.check("fresh", 5, nanos(Duration::from_secs(60))).unwrap();

    rl.sweep(nanos(Duration::from_millis(5)));

    assert!(rl.holds("fresh"));
    assert!(!rl.holds("stale"));
}

#[test]
fn sweep_at_keeps_a_window_that_is_still_open() {
    let mut rl = RateLimiter::new();
    let window = 60 * SEC;
    assert!(rl.check_at("open", 1, window, 0).is_ok());
    assert!(rl.check_at("closed", 1, SEC, 0).is_ok());
    // ten seconds in: "open" runs for fifty more, "closed" closed nine ago
    rl.sweep_at(5 * SEC, 10 * SEC);
    assert!(rl.holds("open"));
    assert!(!rl.holds("closed"));
    // the open window keeps its spent budget
    assert!(rl.check_at("open", 1, window, 11 * SEC).is_err());
}

#[test]
fn sweep_at_keeps_a_window_closed_for_less_than_max_age() {
    let mut rl = RateLimiter::new();
    assert!(rl.check_at("k", 1, SEC, 0).is_ok());
    // closed at one second; at five seconds it has been closed for four
    rl.sweep_at(5 * SEC, 5 * SEC);
    assert!(rl.holds("k"));
    // at six seconds it has been closed for five: gone
    rl.sweep_at(5 * SEC, 6 * SEC);
    assert!(!rl.holds("k"));
}

#[test]
fn a_zero_limit_refuses_the_first_attempt() {
    let mut rl = RateLimiter::new();
    assert!(rl.check_at("k", 0, 60 * SEC, 0).is_err());
}

#[test]
fn sweep_with_the_clock_keeps_a_recent_window() {
    let mut rl = RateLimiter::new();
    let window = nanos(Duration::from_secs(60));
    assert!(rl.check("k", 1, window).is_ok());
    rl.sweep(nanos(Duration::from_secs(3600)));
    assert!(rl.check("k", 1, window).is_err());
}
