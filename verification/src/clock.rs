//! The clocks: the system clock for frame timestamps and the monotonic
//! clock for the age of cached prices. Nothing is claimed of a reading;
//! durations are taken in nanoseconds and compared as numbers.

use std::time::{Duration, Instant, SystemTime};

use vstd::prelude::*;

verus! {

/// A reading of the system clock.
#[verifier::external_type_specification]
#[verifier::external_body]
pub struct ExSystemTime(SystemTime);

/// A point in time on the monotonic clock.
#[verifier::external_type_specification]
#[verifier::external_body]
pub struct ExInstant(Instant);

/// The system clock now.
///
/// Trusted: calls `std::time::SystemTime::now`; nothing is claimed of the
/// value, which is the clock's.
#[verifier::external_body]
pub(crate) fn system_clock_now() -> SystemTime {
    SystemTime::now()
}

/// The time from the Unix epoch to `t`, or `None` when `t` is before the
/// epoch.
///
/// Trusted: calls `std::time::SystemTime::duration_since` with
/// `UNIX_EPOCH`, keeping the duration when there is one. Nothing is claimed
/// of the value: this crate holds no model of a clock reading.
#[verifier::external_body]
pub(crate) fn since_epoch(t: &SystemTime) -> Option<Duration> {
    t.duration_since(std::time::UNIX_EPOCH).ok()
}

/// The monotonic clock now.
///
/// Trusted: calls `std::time::Instant::now`; nothing is claimed of the
/// value, which is the clock's.
#[verifier::external_body]
pub(crate) fn monotonic_now() -> Instant {
    Instant::now()
}

/// The time that has passed since `t`.
///
/// Trusted: calls `std::time::Instant::elapsed`; nothing is claimed of the
/// value, which depends on when the call is made.
#[verifier::external_body]
pub(crate) fn elapsed_since(t: &Instant) -> Duration {
    t.elapsed()
}

/// The length of `d` in nanoseconds.
///
/// Trusted: calls `std::time::Duration::as_nanos`. Nothing is claimed of
/// the value: this crate holds no model of a `Duration`. Two durations
/// compare as their nanosecond counts do.
#[verifier::external_body]
pub(crate) fn duration_nanos(d: &Duration) -> u128 {
    d.as_nanos()
}

} // verus!
