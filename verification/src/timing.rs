use vstd::prelude::*;
use std::time::{Duration, Instant};

verus! {

/// std's monotonic clock reading, carried through opaquely.
#[verifier::external_type_specification]
#[verifier::external_body]
pub struct ExInstant(Instant);

/// std's `Instant::now`. Nothing is promised of the reading.
#[verifier::external_body]
pub(crate) fn clock_now() -> Instant {
    Instant::now()
}

/// std's `Instant::elapsed`: the time since `start`. Nothing is promised of it.
#[verifier::external_body]
pub(crate) fn clock_elapsed(start: &Instant) -> Duration {
    start.elapsed()
}

/// std's `Duration::as_nanos`. The duration is opaque here, so nothing is
/// promised of the number.
#[verifier::external_body]
pub(crate) fn duration_as_nanos(d: &Duration) -> u128 {
    d.as_nanos()
}

} // verus!
