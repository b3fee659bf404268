//! The wall clock.
use std::time::{Duration, SystemTimeError};
use vstd::prelude::*;

verus! {

/// `std::time::SystemTimeError`: the clock stands before the epoch.
#[verifier::external_type_specification]
#[verifier::external_body]
pub struct ExSystemTimeError(std::time::SystemTimeError);

/// `std::time::Duration::as_secs`: whole seconds of a span of time. Nothing is
/// claimed of the number: the only span it is asked of comes from the clock.
pub assume_specification[ core::time::Duration::as_secs ](d: &Duration) -> u64;

/// `std::time::SystemTime::elapsed`, asked of the Unix epoch: the time since
/// then, or an error when the clock stands before it. Nothing is claimed of the
/// result, which only the clock decides.
#[verifier::external_body]
fn since_epoch() -> Result<Duration, SystemTimeError> {
    std::time::UNIX_EPOCH.elapsed()
}

/// Seconds since the Unix epoch; `None` when the clock stands before it.
pub(crate) fn unix_now() -> (r: Option<u64>)
    ensures
        exists|reading: Result<Duration, SystemTimeError>| #[trigger] seconds_of(reading, r),
{
    whole_seconds(since_epoch())
}

/// `r` is what a reading of the clock comes to: its whole seconds, or `None` when
/// the clock stands before the epoch.
pub open spec fn seconds_of(reading: Result<Duration, SystemTimeError>, r: Option<u64>) -> bool {
    match reading {
        Ok(d) => r matches Some(secs) && call_ensures(Duration::as_secs, (&d,), secs),
        Err(_) => r is None,
    }
}

/// What a reading of the clock comes to.
pub fn whole_seconds(reading: Result<Duration, SystemTimeError>) -> (r: Option<u64>)
    ensures
        seconds_of(reading, r),
{
    match reading {
        Ok(d) => Some(d.as_secs()),
        Err(_) => None,
    }
}

} // verus!
