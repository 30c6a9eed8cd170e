//! The wall clock that stamps trades.

use std::time::{Duration, SystemTime, SystemTimeError, UNIX_EPOCH};
use vstd::prelude::*;

verus! {

/// `std::time::SystemTime`, a reading of the system clock. Nothing is known
/// of what a value holds.
#[verifier::external_type_specification]
#[verifier::external_body]
pub struct ExSystemTime(SystemTime);

/// `std::time::SystemTimeError`, the error of a clock reading that lies
/// before the instant it is measured from.
#[verifier::external_type_specification]
#[verifier::external_body]
pub struct ExSystemTimeError(SystemTimeError);

/// `SystemTime::now` reads the system clock. It always returns, and nothing
/// is claimed of the reading.
pub assume_specification[ SystemTime::now ]() -> (now: SystemTime)
;

/// `Duration::as_secs` gives the whole seconds of a duration. It always
/// returns, and nothing is claimed of the number.
pub assume_specification[ Duration::as_secs ](elapsed: &Duration) -> (secs: u64)
;

/// Calls `SystemTime::duration_since` with `UNIX_EPOCH`: the time from the
/// epoch to `now`, or an error where `now` lies before the epoch. Nothing is
/// claimed of which of the two comes back.
#[verifier::external_body]
fn since_epoch(now: &SystemTime) -> (elapsed: Result<Duration, SystemTimeError>) {
    now.duration_since(UNIX_EPOCH)
}

/// The current time in whole seconds since the Unix epoch. A clock that is
/// set before the epoch reads as 0.
pub fn current_timestamp() -> (secs: u64) {
    let now = SystemTime::now();
    match since_epoch(&now) {
        Ok(elapsed) => elapsed.as_secs(),
        Err(_) => 0,
    }
}

} // verus!
