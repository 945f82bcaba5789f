//! The monotonic clock that the cache reads its instants from.
use std::time::Instant;
use vstd::prelude::*;

verus! {

#[verifier::external_type_specification]
#[verifier::external_body]
pub struct ExInstant(Instant);

/// Relies on std::time::Instant::now: a reading of the monotonic clock,
/// of which nothing is assumed.
pub assume_specification[ Instant::now ]() -> Instant;

/// Relies on std::time::Instant::elapsed: the whole milliseconds that have
/// passed since `origin`. The reading depends on the time, so nothing is
/// stated of it.
#[verifier::external_body]
pub(crate) fn millis_since(origin: &Instant) -> u64 {
    origin.elapsed().as_millis() as u64
}

} // verus!
