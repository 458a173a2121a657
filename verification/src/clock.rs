//! The wall clock, in whole seconds.

use std::time::Duration;
use vstd::prelude::*;

verus! {

/// Calls `Duration::as_secs`, which gives the number of whole seconds that
/// the span holds; what is left of a second does not count.
#[verifier::external_body]
pub(crate) fn as_secs(span: &Duration) -> (secs: u64)
    ensures
        secs == whole_seconds(*span),
{
    span.as_secs()
}

/// Calls `SystemTime::elapsed` on the Unix epoch, which gives the time that
/// has passed since then by the system clock, or fails where the clock
/// stands before the epoch. Nothing is claimed of the span.
#[verifier::external_body]
pub(crate) fn since_epoch() -> (span: Option<Duration>) {
    match std::time::UNIX_EPOCH.elapsed() {
        Ok(span) => Some(span),
        Err(_) => None,
    }
}

/// The seconds since the Unix epoch by the system clock: what `seconds_of`
/// makes of a reading of the clock. Nothing is known of the reading.
pub fn unix_seconds() -> (now: u64) {
    seconds_of(since_epoch())
}

/// The number of whole seconds in a span of time.
pub uninterp spec fn whole_seconds(span: Duration) -> u64;

/// The second that a reading of the clock stands for: the whole seconds of
/// the time since the epoch. A clock that stands before the epoch, of which
/// there is no reading, reads as second zero.
pub fn seconds_of(reading: Option<Duration>) -> (now: u64)
    ensures
        now == match reading {
            Some(span) => whole_seconds(span),
            None => 0,
        },
{
    match reading {
        Some(span) => as_secs(&span),
        None => 0,
    }
}

} // verus!
