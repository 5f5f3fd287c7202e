//! Reading the monotonic clock, for searches bounded by time.
use std::time::{Duration, Instant};
use vstd::prelude::*;

verus! {

#[verifier::external_type_specification]
#[verifier::external_body]
pub struct ExInstant(Instant);

/// Relies on std's `Instant::now`: the current reading of the monotonic
/// clock. Nothing is promised of the value.
#[verifier::external_body]
pub(crate) fn now() -> Instant {
    Instant::now()
}

/// Relies on std's `Instant::elapsed`: the time since `start`. Nothing is
/// promised of the value.
#[verifier::external_body]
pub(crate) fn elapsed(start: &Instant) -> Duration {
    start.elapsed()
}

/// Relies on std's ordering of `Duration` (`>=`).
#[verifier::external_body]
pub(crate) fn at_least(a: &Duration, b: &Duration) -> bool {
    *a >= *b
}

} // verus!
