//! Wall-clock readings for the test budget. Reading the clock is inherently
//! outside what can be verified, so the readings come through trusted
//! wrappers; the budget decision itself is a verified function of the
//! reading.

use vstd::prelude::*;

verus! {

#[verifier::external_type_specification]
#[verifier::external_body]
pub struct ExInstant(std::time::Instant);

/// The wall-clock budget of one test run, measured from construction of the
/// cluster configuration, in milliseconds.
pub const BUDGET_MILLIS: u128 = 120_000;

/// Relies on std::time::Instant::now: an opaque reading of the monotonic
/// clock. Nothing is assumed of its value.
#[verifier::external_body]
pub fn instant_now() -> std::time::Instant {
    std::time::Instant::now()
}

/// Relies on std::time::Instant::elapsed: the time since the reading was
/// taken. The result depends on the clock, so nothing is assumed of it.
#[verifier::external_body]
pub fn instant_elapsed(since: &std::time::Instant) -> core::time::Duration {
    since.elapsed()
}

/// Relies on core::time::Duration::as_millis: the duration in whole
/// milliseconds. Nothing is assumed of its value.
#[verifier::external_body]
pub fn duration_millis(d: &core::time::Duration) -> u128 {
    d.as_millis()
}

/// Whether an elapsed wall-clock reading exceeds the test budget.
pub fn budget_exceeded(elapsed_millis: u128) -> (r: bool)
    ensures
        r == (elapsed_millis > BUDGET_MILLIS),
{
    elapsed_millis > BUDGET_MILLIS
}

/// The milliseconds elapsed since a clock reading, as the clock reports them.
pub fn elapsed_millis(since: &std::time::Instant) -> u128 {
    let d = instant_elapsed(since);
    duration_millis(&d)
}

} // verus!
