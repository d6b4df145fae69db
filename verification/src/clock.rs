//! The monotonic clock that join times and waiting times are measured on.

use std::time::Instant;

use vstd::prelude::*;

verus! {

/// Nanoseconds in a millisecond.
pub const NANOS_PER_MILLI: u64 = 1_000_000;

/// Nanoseconds in a second.
pub const NANOS_PER_SEC: u64 = 1_000_000_000;

/// `std::time::Instant`, a reading of the system's monotonic clock. Nothing is
/// stated of what a value of it holds.
#[verifier::external_type_specification]
#[verifier::external_body]
pub struct ExInstant(std::time::Instant);

/// `std::time::Instant::now` reads the monotonic clock. Nothing is promised of
/// the reading.
pub assume_specification[ Instant::now ]() -> Instant;

/// `std::time::Instant::elapsed`, in whole nanoseconds. How much time has
/// passed is up to the machine, so nothing is promised of the number.
#[verifier::external_body]
fn nanos_since(anchor: &Instant) -> u64 {
    anchor.elapsed().as_nanos() as u64
}

/// A monotonic clock that counts nanoseconds from the moment it was started.
///
/// Times taken from one clock (and its copies) can be compared with each other.
#[derive(Debug, Clone, Copy)]
pub struct Clock {
    anchor: Instant,
}

impl Clock {
    /// Start a clock at zero. Nothing is said of the moment at which it starts.
    pub fn start() -> Clock {
        Clock { anchor: Instant::now() }
    }

    /// The nanoseconds since this clock was started: how many is up to the machine.
    pub fn now(&self) -> u64 {
        nanos_since(&self.anchor)
    }
}

/// The whole milliseconds from `earlier` to `later`, or `0` if `later` comes first.
pub open spec fn millis_between_spec(earlier: u64, later: u64) -> u64 {
    if later <= earlier {
        0
    } else {
        ((later - earlier) / NANOS_PER_MILLI as int) as u64
    }
}

/// The whole milliseconds from `earlier` to `later`, or `0` if `later` comes first.
#[verifier::when_used_as_spec(millis_between_spec)]
pub fn millis_between(earlier: u64, later: u64) -> (millis: u64)
    ensures
        millis == millis_between_spec(earlier, later),
        earlier <= later ==> millis * 1_000_000 <= later - earlier < (millis + 1) * 1_000_000,
{
    later.saturating_sub(earlier) / NANOS_PER_MILLI
}

/// The whole seconds in a number of nanoseconds.
pub fn whole_seconds(nanos: u64) -> (seconds: u64)
    ensures
        seconds == nanos / NANOS_PER_SEC,
        seconds * 1_000_000_000 <= nanos < (seconds + 1) * 1_000_000_000,
{
    nanos / NANOS_PER_SEC
}

/// Waiting time never shrinks as the clock advances, and a later joiner has
/// never waited longer.
pub proof fn law_waits_never_shrink(earlier: u64, later: u64, earlier2: u64, later2: u64)
    requires
        earlier2 <= earlier,
        later <= later2,
    ensures
        millis_between_spec(earlier, later) <= millis_between_spec(earlier2, later2),
{
}

/// A wait in milliseconds is the true elapsed time, rounded down, however long it
/// is; a time that has not come yet is no wait at all.
pub proof fn law_wait_is_the_elapsed_time_rounded_down(earlier: u64, later: u64)
    ensures
        earlier <= later ==> millis_between_spec(earlier, later) * 1_000_000 <= later - earlier < (
        millis_between_spec(earlier, later) + 1) * 1_000_000,
        later <= earlier ==> millis_between_spec(earlier, later) == 0,
{
}

} // verus!
