//! Thin trusted wrappers around the `instant` crate, which supplies the
//! wall-clock timestamps for the search budget. A timestamp is opaque and
//! elapsed time depends on the clock, so nothing is promised of the values.

use vstd::prelude::*;

verus! {

/// Declares instant's `Instant` so a timestamp, opaque to the verifier, can
/// pass through verified code.
#[verifier::external_type_specification]
#[verifier::external_body]
pub struct ExInstant(instant::Instant);

/// Relies on instant's `Instant::now`: an opaque timestamp of the present
/// moment, usable only for measuring elapsed time.
#[verifier::external_body]
pub(crate) fn clock_now() -> instant::Instant {
    instant::Instant::now()
}

/// Relies on instant's `Instant::elapsed`: the wall-clock time since
/// `start`, here converted to whole milliseconds.
#[verifier::external_body]
pub(crate) fn millis_since(start: &instant::Instant) -> u128 {
    start.elapsed().as_millis()
}

} // verus!
