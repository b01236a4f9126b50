//! Wall-clock access. The time is read here and nowhere else; every
//! decision that depends on it is a verified function of the value read.

use vstd::prelude::*;

verus! {

/// Seconds since the Unix epoch, or 0 when the system clock reads a time
/// before the epoch. Calls `SystemTime::now` and `duration_since`; nothing
/// is promised of the value, which depends on the clock.
#[verifier::external_body]
pub(crate) fn unix_time_secs() -> (t: u64) {
    std::time::SystemTime::now()
        .duration_since(std::time::UNIX_EPOCH)
        .map(|d| d.as_secs())
        .unwrap_or(0)
}

} // verus!
