//! Wall-clock measurement of a call.

use std::time::Duration;
use std::time::Instant;
use vstd::prelude::*;

verus! {

/// `std::time::Instant`, a moment on the monotonic clock. Nothing is known
/// of a value.
#[verifier::external_type_specification]
#[verifier::external_body]
pub struct ExInstant(Instant);

/// `Instant::now` gives the present moment; nothing is known of it.
pub assume_specification[ Instant::now ]() -> (now: Instant);

/// `Instant::elapsed` gives the time since the instant; nothing is known of it.
pub assume_specification[ Instant::elapsed ](start: &Instant) -> (elapsed: Duration);

/// `Duration::as_millis` gives the whole milliseconds of a duration; nothing
/// is known of the number.
pub assume_specification[ Duration::as_millis ](duration: &Duration) -> (millis: u128);

/// The whole milliseconds that went by since `start`.
pub(crate) fn millis_since(start: &Instant) -> (millis: u128) {
    start.elapsed().as_millis()
}

} // verus!
