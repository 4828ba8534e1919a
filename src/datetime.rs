use vstd::prelude::*;
use std::time::{Duration, SystemTimeError};

verus! {

#[verifier::external_type_specification]
#[verifier::external_body]
pub struct ExSystemTimeError(SystemTimeError);

/// Relies on `SystemTime::elapsed` applied to `UNIX_EPOCH`: the time since the
/// epoch, or an error when the clock stands before it. The clock is read, so
/// nothing is promised of the value.
#[verifier::external_body]
fn epoch_elapsed() -> (r: Result<Duration, SystemTimeError>) {
    std::time::UNIX_EPOCH.elapsed()
}

/// Relies on `Duration::as_secs`: the whole seconds of a duration.
pub assume_specification[ Duration::as_secs ](d: &Duration) -> (r: u64);

/// Relies on `Duration::as_millis`: the whole milliseconds of a duration.
pub assume_specification[ Duration::as_millis ](d: &Duration) -> (r: u128);

/// Wall-clock seconds since the Unix epoch (0 when the clock stands before it).
pub fn get_current_time() -> u64 {
    match epoch_elapsed() {
        Ok(d) => d.as_secs(),
        Err(_) => 0,
    }
}

/// Wall-clock milliseconds since the Unix epoch (0 when the clock stands before it).
pub fn get_current_time_with_ms() -> u128 {
    match epoch_elapsed() {
        Ok(d) => d.as_millis(),
        Err(_) => 0,
    }
}

} // verus!
