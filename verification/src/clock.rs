//! Wall-clock time in whole seconds.

use vstd::prelude::*;

verus! {

/// Seconds from `then` to `now`, or zero when `then` lies in the future.
pub open spec fn age(now: u64, then: u64) -> u64 {
    if now >= then {
        (now - then) as u64
    } else {
        0
    }
}

/// Reads the system clock through `std::time::SystemTime::now` and gives
/// the whole seconds since the Unix epoch, or zero for a clock set before
/// it. Nothing is claimed of the value: it differs from call to call.
#[verifier::external_body]
fn system_seconds() -> u64 {
    match std::time::SystemTime::now().duration_since(std::time::UNIX_EPOCH) {
        Ok(elapsed) => elapsed.as_secs(),
        Err(_) => 0,
    }
}

/// The current time in seconds since the Unix epoch.
pub fn unix_time() -> u64 {
    system_seconds()
}

/// How long ago `then` was, seen from `now`; a timestamp in the future
/// counts as no time at all.
pub fn time_delta(now: u64, then: u64) -> (r: u64)
    ensures
        r == age(now, then),
        r <= now,
        then <= now ==> r + then == now,
{
    now.saturating_sub(then)
}

} // verus!
