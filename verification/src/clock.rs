//! A monotonic clock for measuring how long hashing takes (std's `Instant`).

use vstd::prelude::*;

verus! {

#[verifier::external_type_specification]
#[verifier::external_body]
pub struct ExInstant(std::time::Instant);

/// `std::time::Instant::now`: the current monotonic time. Nothing is known of it.
#[verifier::external_body]
pub(crate) fn start_timer() -> std::time::Instant {
    std::time::Instant::now()
}

/// `Instant::elapsed` in whole milliseconds, cut to 64 bits. Nothing is known of it.
#[verifier::external_body]
pub(crate) fn millis_since(start: &std::time::Instant) -> u64 {
    start.elapsed().as_millis() as u64
}

} // verus!
