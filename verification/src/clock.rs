//! Trusted boundary to the process clock, used only to report how long a
//! solve took. Nothing is assumed about the measured values.

use vstd::prelude::*;

verus! {

#[verifier::external_type_specification]
#[verifier::external_body]
pub struct ExInstant(std::time::Instant);

/// Relies on `std::time::Instant::now`; nothing is assumed of the value.
#[verifier::external_body]
pub fn clock_now() -> std::time::Instant {
    std::time::Instant::now()
}

/// Relies on `std::time::Instant::elapsed`; nothing is assumed of the
/// value.
#[verifier::external_body]
pub fn clock_elapsed(t: &std::time::Instant) -> core::time::Duration {
    t.elapsed()
}

/// Relies on `core::time::Duration::as_millis`; nothing is assumed of
/// the value.
#[verifier::external_body]
pub fn duration_millis(d: &core::time::Duration) -> u128 {
    d.as_millis()
}

} // verus!
