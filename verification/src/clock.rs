//! The clocks of the standard library.

use std::time::{Duration, Instant, SystemTime, SystemTimeError};

use vstd::prelude::*;

verus! {

/// A point of the wall clock.
#[verifier::external_type_specification]
#[verifier::external_body]
pub struct ExSystemTime(std::time::SystemTime);

/// The error of a wall clock that stands before the time it is compared with.
#[verifier::external_type_specification]
#[verifier::external_body]
pub struct ExSystemTimeError(std::time::SystemTimeError);

/// A point of the monotonic clock.
#[verifier::external_type_specification]
#[verifier::external_body]
pub struct ExInstant(std::time::Instant);

/// The length of a duration in nanoseconds.
pub uninterp spec fn nanos_of(d: Duration) -> u128;

/// `SystemTime::now`: whatever the wall clock shows.
#[verifier::external_body]
pub(crate) fn system_now() -> (t: SystemTime) {
    SystemTime::now()
}

/// The time from the Unix epoch to a point of the wall clock in nanoseconds, if
/// the point does not lie before it.
pub uninterp spec fn unix_nanos(t: SystemTime) -> Option<u128>;

/// `SystemTime::duration_since`, from the Unix epoch: a function of the point
/// alone. It fails for a point before the epoch.
#[verifier::external_body]
pub(crate) fn since_unix_epoch(t: SystemTime) -> (r: Result<Duration, SystemTimeError>)
    ensures
        match r {
            Ok(d) => unix_nanos(t) == Some(nanos_of(d)),
            Err(_) => unix_nanos(t) is None,
        },
{
    t.duration_since(SystemTime::UNIX_EPOCH)
}

/// `Duration::as_nanos`: the whole length in nanoseconds.
#[verifier::external_body]
pub(crate) fn duration_nanos(d: Duration) -> (n: u128)
    ensures
        n == nanos_of(d),
{
    d.as_nanos()
}

/// `Instant::now`: whatever the monotonic clock shows.
#[verifier::external_body]
pub(crate) fn instant_now() -> (t: Instant) {
    Instant::now()
}

/// The time from one point of the monotonic clock to another in nanoseconds.
pub uninterp spec fn nanos_between(earlier: Instant, later: Instant) -> u128;

/// `Instant::duration_since`: the time from `earlier` to `later`, a function of
/// the two points alone.
#[verifier::external_body]
pub(crate) fn instant_since(later: Instant, earlier: Instant) -> (d: Duration)
    ensures
        nanos_of(d) == nanos_between(earlier, later),
{
    later.duration_since(earlier)
}

} // verus!
