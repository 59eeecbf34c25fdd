//! The monotonic clock that the rate limiter reads.

use vstd::prelude::*;
use std::time::{Duration, Instant};

verus! {

/// `std::time::Instant`, carried through as an opaque value.
#[verifier::external_type_specification]
#[verifier::external_body]
pub struct ExInstant(Instant);

/// Calls `Instant::now`. It reads the machine's clock: nothing is stated of the result.
#[verifier::external_body]
pub(crate) fn instant_now() -> (r: Instant) {
    Instant::now()
}

/// Calls `Instant::elapsed`. It reads the machine's clock: nothing is stated of the result.
#[verifier::external_body]
pub(crate) fn instant_elapsed(start: &Instant) -> (r: Duration) {
    start.elapsed()
}

/// Calls `Duration::as_secs`, the whole seconds of `d`. `Duration` is opaque here,
/// so nothing is stated of the result.
#[verifier::external_body]
pub(crate) fn duration_secs(d: &Duration) -> (r: u64) {
    d.as_secs()
}

} // verus!
