//! The monotonic clock, as far as the library reads it.
//!
//! Nothing is promised of what the clock returns: the code that asks for the
//! time is verified for every answer.

use std::time::{Duration, Instant};
use vstd::prelude::*;

verus! {

/// `std::time::Instant`: a point on the monotonic clock, carried as is.
#[verifier::external_type_specification]
#[verifier::external_body]
pub struct ExInstant(Instant);

/// `std::time::Instant::now`: the current point on the monotonic clock.
pub assume_specification[ Instant::now ]() -> (r: Instant)
;

/// `std::time::Instant::elapsed`: the time that has passed since `at`.
pub assume_specification[ Instant::elapsed ](at: &Instant) -> (r: Duration)
;

/// `std::time::Duration::as_millis`: the whole milliseconds in `d`.
pub assume_specification[ Duration::as_millis ](d: &Duration) -> (r: u128)
;

/// The whole milliseconds since `at`.
pub fn millis_since(at: &Instant) -> (r: u128) {
    at.elapsed().as_millis()
}

/// A count of milliseconds in 64 bits: the largest there is, where the
/// count does not fit.
pub open spec fn capped_millis(millis: u128) -> u64 {
    if millis > u64::MAX {
        u64::MAX
    } else {
        millis as u64
    }
}

/// Brings a count of milliseconds to 64 bits.
pub fn millis_in_u64(millis: u128) -> (r: u64)
    ensures
        r == capped_millis(millis),
{
    if millis > u64::MAX as u128 {
        u64::MAX
    } else {
        millis as u64
    }
}

} // verus!
