//! The clock.

use vstd::prelude::*;

verus! {

#[verifier::external_type_specification]
#[verifier::external_body]
pub struct ExInstant(std::time::Instant);

/// `std::time::Instant::now`: the present moment. Nothing is believed of it.
#[verifier::external_body]
pub(crate) fn now() -> std::time::Instant {
    std::time::Instant::now()
}

/// `std::time::Instant::elapsed`: the time gone since `start`. Nothing is
/// believed of it.
#[verifier::external_body]
pub(crate) fn elapsed(start: &std::time::Instant) -> std::time::Duration {
    start.elapsed()
}

/// `std::time::Duration::as_millis`: the whole milliseconds of `span`.
/// Nothing is believed of them.
#[verifier::external_body]
pub(crate) fn millis(span: &std::time::Duration) -> u128 {
    span.as_millis()
}

} // verus!
