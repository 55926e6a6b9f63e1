//! Reading the time.

use vstd::prelude::*;

verus! {

/// A source of the current time, in seconds.
pub trait Clock: Send + Sync {
    /// The current time.
    fn now(&self) -> i64;
}

/// The wall clock of the system, counting from the Unix epoch.
#[derive(Debug, Clone, Copy)]
pub struct WallClock;

/// `SystemTime::elapsed` of the standard library, from the Unix epoch: the billionths of
/// a second since then, or nothing when the system clock stands before it. Nothing is
/// claimed of the number, which is whatever the system clock shows.
#[verifier::external_body]
fn since_epoch() -> Option<u128> {
    std::time::UNIX_EPOCH.elapsed().ok().map(|elapsed| elapsed.as_nanos())
}

/// The time that a reading of the system clock stands for: the epoch itself for a clock
/// that stands before it, and the largest time for one that stands beyond it.
pub open spec fn shown(reading: Option<u128>) -> int {
    match reading {
        None => 0,
        Some(nanos) => if nanos > i64::MAX {
            i64::MAX as int
        } else {
            nanos as int
        },
    }
}

/// Whether a time is what some reading of the system clock stands for.
pub closed spec fn read_from_system(time: i64) -> bool {
    exists|reading: Option<u128>| #[trigger]
        call_ensures(since_epoch, (), reading) && time == shown(reading)
}

/// Turns a reading of the system clock into a time.
pub fn clock_time(reading: Option<u128>) -> (time: i64)
    ensures
        time == shown(reading),
{
    match reading {
        None => 0,
        Some(nanos) => if nanos > i64::MAX as u128 {
            i64::MAX
        } else {
            nanos as i64
        },
    }
}

/// The time that the system clock shows.
pub fn default_clock() -> (time: i64)
    ensures
        read_from_system(time),
        time >= 0,
{
    clock_time(since_epoch())
}

impl Clock for WallClock {
    fn now(&self) -> (time: i64)
        ensures
            read_from_system(time),
            time >= 0,
    {
        default_clock()
    }
}

/// The wall clock shows what the system clock does: nothing before the epoch, the
/// billionths of a second since then after it, and no more than a time can hold.
proof fn the_wall_clock_shows_the_time_of_the_system(clock: &WallClock, time: i64, other: i64)
    requires
        call_ensures(WallClock::now, (clock,), time),
        call_ensures(default_clock, (), other),
    ensures
        exists|reading: Option<u128>| #[trigger]
            call_ensures(since_epoch, (), reading) && match reading {
                Some(nanos) => time == nanos || (nanos > i64::MAX && time == i64::MAX),
                None => time == 0,
            },
        exists|reading: Option<u128>| #[trigger]
            call_ensures(since_epoch, (), reading) && match reading {
                Some(nanos) => other == nanos || (nanos > i64::MAX && other == i64::MAX),
                None => other == 0,
            },
{
}

} // verus!
