//! The wall clock, behind trusted wrappers.
//!
//! A fresh record's id is the time in milliseconds and its timestamp the
//! time in seconds.  Nothing can be promised of a clock reading, so the
//! wrappers carry no contract; everything that depends on the values —
//! ages, ordering, compaction — takes them as arguments and is verified
//! for every value.

use vstd::prelude::*;

use std::time::SystemTime;
use std::time::UNIX_EPOCH;

verus! {

/// Relies on `std::time::SystemTime::now` and `duration_since`: whole
/// seconds since the Unix epoch, zero if the clock reads before it.
#[verifier::external_body]
pub fn now_secs() -> i64 {
    SystemTime::now().duration_since(UNIX_EPOCH).unwrap_or_default().as_secs() as i64
}

/// Relies on `std::time::SystemTime::now` and `duration_since`: whole
/// milliseconds since the Unix epoch, zero if the clock reads before it.
#[verifier::external_body]
pub fn now_millis() -> u128 {
    SystemTime::now().duration_since(UNIX_EPOCH).unwrap_or_default().as_millis()
}

} // verus!
