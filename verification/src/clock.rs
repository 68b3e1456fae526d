//! The wall clock.

use vstd::prelude::*;

verus! {

/// Calls `std::time::SystemTime::now` and counts the whole seconds since the
/// Unix epoch; a clock set before the epoch reads as 0. Nothing is promised
/// of the number: two calls may differ.
#[verifier::external_body]
pub(crate) fn unix_now() -> (secs: i64) {
    std::time::SystemTime::now()
        .duration_since(std::time::UNIX_EPOCH)
        .map(|d| d.as_secs() as i64)
        .unwrap_or(0)
}

} // verus!
