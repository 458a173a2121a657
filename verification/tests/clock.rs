use statsdproxy::clock::{seconds_of, unix_seconds};
use std::time::Duration;

#[test]
fn seconds_of_a_reading() {
    assert_eq!(seconds_of(None), 0);
    assert_eq!(seconds_of(Some(Duration::ZERO)), 0);
    assert_eq!(seconds_of(Some(Duration::from_millis(999))), 0);
    assert_eq!(seconds_of(Some(Duration::from_millis(2_999))), 2);
    assert_eq!(seconds_of(Some(Duration::new(1_700_000_000, 999_999_999))), 1_700_000_000);
    assert_eq!(seconds_of(Some(Duration::from_secs(u64::MAX))), u64::MAX);
}

#[test]
fn unix_seconds_does_not_run_back() {
    let first = unix_seconds();
    let second = unix_seconds();
    // Later than the day on which this was written, and not before the
    // reading that came first, give or take a step of the clock.
    assert!(first > 1_600_000_000);
    assert!(second + 60 > first);
}
