//! Time sources: the `Timer` capability and its system-clock implementation.

use vstd::prelude::*;

verus! {

/// A source of timestamps, measured in whole seconds.
///
/// A timestamp is an opaque counter; implementations are expected to be
/// monotonically nondecreasing, but nothing here relies on it. Nothing can be
/// promised of the reading, so the method carries no contract: callers state
/// what holds of their own state whatever value comes back.
pub trait Timer {
    /// Returns the current timestamp in seconds.
    fn get_time(&self) -> i64;
}

/// The default time source: reads the real system clock.
pub struct StandardTimer;

/// Relies on `time::OffsetDateTime::now_utc` and `unix_timestamp`: the current
/// wall-clock time as whole seconds since the Unix epoch. The reading depends
/// on the machine's clock, so nothing is promised of it.
#[verifier::external_body]
fn unix_time_now() -> i64 {
    time::OffsetDateTime::now_utc().unix_timestamp()
}

impl Timer for StandardTimer {
    fn get_time(&self) -> i64 {
        unix_time_now()
    }
}

impl Default for StandardTimer {
    fn default() -> (r: Self)
        ensures
            r == (StandardTimer {}),
    {
        StandardTimer {}
    }
}

} // verus!
