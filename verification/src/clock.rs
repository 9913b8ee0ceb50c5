//! The wall clock that stamps new blocks.

use vstd::prelude::*;

verus! {

/// `SystemTime::elapsed` of the standard library, asked of `UNIX_EPOCH`: the
/// time that has passed since the Unix epoch, or `None` where the clock
/// reads a time before it. Nothing is claimed of the value: two calls may
/// give any two readings.
#[verifier::external_body]
pub(crate) fn since_epoch() -> (elapsed: Option<core::time::Duration>) {
    match std::time::UNIX_EPOCH.elapsed() {
        Ok(elapsed) => Some(elapsed),
        Err(_) => None,
    }
}

/// `Duration::as_millis` of the standard library: the whole milliseconds in
/// a duration. Nothing is claimed of the number.
pub assume_specification[ core::time::Duration::as_millis ](
    duration: &core::time::Duration,
) -> (millis: u128)
;

/// The timestamp that a reading of the clock stands for: the milliseconds
/// since the epoch, or 0 where the clock reads a time before it.
pub open spec fn timestamp_of(reading: Option<u128>) -> nat {
    match reading {
        Some(millis) => millis as nat,
        None => 0,
    }
}

/// Turns a reading of the clock into a timestamp: the milliseconds since the
/// Unix epoch, or 0 where the clock reads a time before it.
pub fn timestamp_from_reading(reading: Option<u128>) -> (timestamp: u128)
    ensures
        timestamp == timestamp_of(reading),
{
    match reading {
        Some(millis) => millis,
        None => 0,
    }
}

} // verus!
