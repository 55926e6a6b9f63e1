//! Reading the time.

use quota_gate::clock::{clock_time, default_clock};
use quota_gate::{Clock, WallClock};
use std::time::{SystemTime, UNIX_EPOCH};

/// The billionths of a second since the epoch.
fn nanos() -> u128 {
    SystemTime::now().duration_since(UNIX_EPOCH).unwrap().as_nanos()
}

#[test]
fn a_reading_stands_for_a_time() {
    assert_eq!(clock_time(None), 0);
    assert_eq!(clock_time(Some(0)), 0);
    assert_eq!(clock_time(Some(1_500_000_000)), 1_500_000_000);
    assert_eq!(clock_time(Some(i64::MAX as u128)), i64::MAX);
    assert_eq!(clock_time(Some(i64::MAX as u128 + 1)), i64::MAX);
    assert_eq!(clock_time(Some(u128::MAX)), i64::MAX);
}

#[test]
fn the_wall_clock_shows_the_time_of_the_system() {
    // A system clock may be set back between two readings, by less than an hour here.
    let hour = 3_600_000_000_000;
    for read in [default_clock(), WallClock.now()] {
        let off = (nanos() as i128 - read as i128).abs();
        assert!(off < hour);
    }
}
