//! The wall clock, in whole milliseconds since the Unix epoch.
//!
//! Nothing is known of what the clock shows: it may show any time, and it
//! need not move forward between two readings.  What depends on time is
//! therefore proved for every time, in functions that are given one.

use vstd::prelude::*;
use std::time::{Duration, SystemTime, UNIX_EPOCH};

verus! {

/// Makes `std::time::SystemTime` known to the verifier, as a value that is
/// carried from one call to the next and never looked into.
#[verifier::external_type_specification]
#[verifier::external_body]
pub struct ExSystemTime(SystemTime);

/// Calls `SystemTime::now`.  Trusted; nothing is claimed of the result.
#[verifier::external_body]
fn system_now() -> SystemTime {
    SystemTime::now()
}

/// Calls `SystemTime::duration_since` with the Unix epoch, and gives `None`
/// where it reports that `time` lies before the epoch.  Trusted; nothing is
/// claimed of the result.
#[verifier::external_body]
fn since_epoch(time: &SystemTime) -> Option<Duration> {
    time.duration_since(UNIX_EPOCH).ok()
}

/// Calls `Duration::as_millis`.  Trusted; nothing is claimed of the result.
#[verifier::external_body]
fn whole_millis(duration: &Duration) -> u128 {
    duration.as_millis()
}

/// Reads the clock.  A clock set before the epoch reads as zero, and one
/// set too far ahead for 64 bits reads as the largest time.
pub(crate) fn clock_millis() -> u64 {
    let time = system_now();
    let elapsed = match since_epoch(&time) {
        Some(elapsed) => Some(whole_millis(&elapsed)),
        None => None,
    };
    time_of_reading(elapsed)
}

/// The time that a reading of the clock stands for.  The reading is the
/// number of milliseconds since the epoch, or nothing where the clock is
/// set before the epoch.
pub open spec fn reading_time(elapsed: Option<u128>) -> u64 {
    match elapsed {
        Some(millis) => if millis > u64::MAX {
            u64::MAX
        } else {
            millis as u64
        },
        None => 0,
    }
}

/// Turns a reading of the clock into a time: a clock set before the epoch
/// reads as zero, and one set too far ahead for 64 bits as the largest
/// time.
pub fn time_of_reading(elapsed: Option<u128>) -> (now: u64)
    ensures
        now == reading_time(elapsed),
{
    match elapsed {
        Some(millis) => {
            if millis > u64::MAX as u128 {
                u64::MAX
            } else {
                millis as u64
            }
        },
        None => 0,
    }
}

} // verus!
