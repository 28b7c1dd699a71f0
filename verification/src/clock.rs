//! Readings of the monotonic clock.
use vstd::prelude::*;
use std::time::{Duration, Instant};

verus! {

#[verifier::external_type_specification]
#[verifier::external_body]
pub struct ExInstant(Instant);

/// `Instant::now`: a reading of the monotonic clock. Nothing is stated of it.
#[verifier::external_body]
pub(crate) fn instant_now() -> Instant {
    Instant::now()
}

/// `Instant::checked_sub` of `ms` milliseconds (`Duration::from_millis`) from `t`:
/// the instant that much earlier, or none where the monotonic clock does not
/// reach back that far. Where that limit lies depends on the machine, so nothing
/// is stated of the result.
#[verifier::external_body]
pub(crate) fn instant_checked_sub_millis(t: &Instant, ms: u64) -> Option<Instant> {
    t.checked_sub(Duration::from_millis(ms))
}

/// `Instant::elapsed` of `since`, in whole milliseconds (`Duration::as_millis`).
/// It depends on the time of the call, so nothing is stated of it.
#[verifier::external_body]
pub(crate) fn elapsed_millis(since: &Instant) -> u128 {
    since.elapsed().as_millis()
}

} // verus!
