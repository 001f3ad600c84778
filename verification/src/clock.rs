//! The monotonic clock that timers are measured against.

use vstd::prelude::*;

verus! {

/// A point on the monotonic clock that timers are measured against.
#[verifier::external_type_specification]
#[verifier::external_body]
pub struct ExInstant(std::time::Instant);

/// Calls `std::time::Instant::now`. Nothing is claimed of the instant.
#[verifier::external_body]
pub(crate) fn instant_now() -> std::time::Instant {
    std::time::Instant::now()
}

/// Calls `Instant::elapsed`: the time passed since `origin`. Nothing is
/// claimed: the value rests on the clock.
#[verifier::external_body]
pub(crate) fn elapsed_since(origin: &std::time::Instant) -> core::time::Duration {
    origin.elapsed()
}

/// Calls `Duration::as_millis`: the whole milliseconds of `d`. Nothing is
/// claimed of the value.
#[verifier::external_body]
pub(crate) fn whole_millis(d: &core::time::Duration) -> u128 {
    d.as_millis()
}

} // verus!
