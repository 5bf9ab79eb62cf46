//! The wall clock, which the heuristics read to time themselves.

use std::time::Duration;
use std::time::Instant;
use vstd::prelude::*;

verus! {

/// `std::time::Instant`, a reading of the monotonic clock. Nothing is known of
/// what it holds.
#[verifier::external_type_specification]
#[verifier::external_body]
pub struct ExInstant(Instant);

/// `Instant::now` reads the clock. Nothing is claimed of the reading.
pub assume_specification[ Instant::now ]() -> (now: Instant);

/// `Instant::saturating_duration_since` gives the time from `earlier` to
/// `later`, or no time at all if `earlier` is the later of the two; it does not
/// panic. Nothing is claimed of the length.
pub assume_specification[ Instant::saturating_duration_since ](
    later: &Instant,
    earlier: Instant,
) -> (elapsed: Duration);

/// The time that has passed since `start`.
pub(crate) fn time_since(start: Instant) -> (elapsed: Duration) {
    let now = Instant::now();
    now.saturating_duration_since(start)
}

} // verus!
