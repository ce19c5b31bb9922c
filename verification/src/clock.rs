//! Wall-clock deadlines for the solvers, from `web_time` (which is
//! `std::time` outside the browser).
//!
//! Instants are opaque to the verifier: nothing is claimed of what the
//! clock reads, so no verified result depends on it.

use vstd::prelude::*;

use std::time::Duration;

verus! {

#[verifier::external_type_specification]
#[verifier::external_body]
pub struct ExInstant(web_time::Instant);

/// Calls `web_time::Instant::now`. Nothing is claimed of the instant.
#[verifier::external_body]
pub(crate) fn instant_now() -> web_time::Instant {
    web_time::Instant::now()
}

/// Calls `Instant::checked_add`: `duration` after `at`, or `None` when that
/// instant cannot be represented. Nothing more is claimed.
#[verifier::external_body]
pub(crate) fn instant_checked_add(at: web_time::Instant, duration: Duration) -> Option<web_time::Instant> {
    at.checked_add(duration)
}

/// Calls `>=` on instants. Nothing is claimed of the answer.
#[verifier::external_body]
pub(crate) fn instant_at_or_after(a: web_time::Instant, b: web_time::Instant) -> bool {
    a >= b
}

/// Calls `Instant::saturating_duration_since`: the time from `earlier` to
/// `at`, zero when `earlier` is later. Nothing is claimed of the duration.
#[verifier::external_body]
pub(crate) fn instant_saturating_since(at: web_time::Instant, earlier: web_time::Instant) -> Duration {
    at.saturating_duration_since(earlier)
}

/// Calls `Duration / u32`, which panics only on a zero divisor (excluded).
/// Nothing is claimed of the quotient.
#[verifier::external_body]
pub(crate) fn duration_div(d: Duration, by: u32) -> Duration
    requires
        by > 0,
{
    d / by
}

/// The instant `duration` from now; `None` (no limit) when that instant
/// cannot be represented.
pub fn deadline_after(duration: Duration) -> Option<web_time::Instant> {
    let now = instant_now();
    instant_checked_add(now, duration)
}

/// Whether the clock has reached `deadline`; never, for no deadline.
pub fn deadline_passed(deadline: Option<web_time::Instant>) -> (r: bool)
    ensures
        deadline is None ==> !r,
{
    match deadline {
        None => false,
        Some(d) => {
            let now = instant_now();
            instant_at_or_after(now, d)
        },
    }
}

} // verus!
