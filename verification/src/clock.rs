//! The wall clock, read as nanoseconds since the Unix epoch.
use vstd::prelude::*;

use crate::types::Timestamp;

verus! {

#[verifier::external_type_specification]
#[verifier::external_body]
pub struct ExSystemTime(std::time::SystemTime);

/// `SystemTime::now()`: a reading of the wall clock. Nothing is stated of it.
#[verifier::external_body]
fn system_now() -> std::time::SystemTime {
    std::time::SystemTime::now()
}

/// `SystemTime::duration_since(UNIX_EPOCH)`: how long after the epoch the reading
/// is; `None` for a reading before the epoch. Nothing is stated of the value: it is
/// whatever the clock said.
#[verifier::external_body]
fn since_epoch(t: &std::time::SystemTime) -> Option<std::time::Duration> {
    match t.duration_since(std::time::UNIX_EPOCH) {
        Ok(d) => Some(d),
        Err(_) => None,
    }
}

/// `Duration::as_nanos`: the length of a duration in whole nanoseconds. Nothing is
/// stated of it, since nothing is stated of the durations it is given.
#[verifier::external_body]
pub(crate) fn duration_nanos(d: &std::time::Duration) -> u128 {
    d.as_nanos()
}

/// The current time in nanoseconds since the Unix epoch, truncated to 64 bits;
/// zero when the clock reads before the epoch.
pub(crate) fn now_ns() -> Timestamp {
    match since_epoch(&system_now()) {
        Some(d) => duration_nanos(&d) as u64,
        None => 0,
    }
}

} // verus!
