use vstd::prelude::*;
use std::time::{Duration, SystemTime, UNIX_EPOCH};

verus! {

/// Relies on `SystemTime::now` and `SystemTime::duration_since`: the time elapsed
/// since the Unix epoch, or zero if the clock reads earlier than the epoch.
#[verifier::external_body]
pub fn current_time() -> Duration {
    SystemTime::now().duration_since(UNIX_EPOCH).unwrap_or(Duration::ZERO)
}

/// Relies on `Duration::as_millis`: the whole milliseconds of the duration.
pub assume_specification[ Duration::as_millis ](d: &Duration) -> u128;

/// Relies on `Duration::as_secs`: the whole seconds of the duration.
pub assume_specification[ Duration::as_secs ](d: &Duration) -> u64;

/// Milliseconds since the Unix epoch.
pub fn current_time_millis() -> u128 {
    current_time().as_millis()
}

/// Seconds since the Unix epoch.
pub fn current_time_secs() -> u64 {
    current_time().as_secs()
}

} // verus!
