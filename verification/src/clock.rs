//! Wall-clock readings for record and block timestamps.

use vstd::prelude::*;

verus! {

/// Relies on `std::time::SystemTime::now` and `duration_since`: the number of
/// whole seconds since the Unix epoch. Nothing more can be promised of the
/// machine clock; aborts if the clock reads earlier than the epoch.
#[verifier::external_body]
pub fn now_seconds() -> u64 {
    std::time::SystemTime::now()
        .duration_since(std::time::SystemTime::UNIX_EPOCH)
        .unwrap()
        .as_secs()
}

/// Relies on `std::time::SystemTime::now` and `Duration::as_millis`: the
/// number of whole milliseconds since the Unix epoch, truncated to 64 bits.
/// Nothing more can be promised of the machine clock; aborts if the clock
/// reads earlier than the epoch.
#[verifier::external_body]
pub fn now_millis() -> u64 {
    std::time::SystemTime::now()
        .duration_since(std::time::SystemTime::UNIX_EPOCH)
        .unwrap()
        .as_millis() as u64
}

} // verus!
