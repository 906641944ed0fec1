//! The monotonic and the wall clock, as the limiter, the server and the
//! dashboard read them.

use std::time::{Instant, SystemTime, UNIX_EPOCH};
use vstd::prelude::*;

verus! {

/// `std::time::Instant`, a point of the monotonic clock, held opaquely.
#[verifier::external_type_specification]
#[verifier::external_body]
pub struct ExInstant(Instant);

/// The current instant (`Instant::now`). Nothing is stated of it: it is the time.
#[verifier::external_body]
pub(crate) fn instant_now() -> Instant {
    Instant::now()
}

/// Whole seconds elapsed since `start` (`Instant::elapsed`, then
/// `Duration::as_secs`). Nothing is stated of it: it is the time.
#[verifier::external_body]
pub(crate) fn elapsed_secs(start: &Instant) -> u64 {
    start.elapsed().as_secs()
}

/// Whole milliseconds elapsed since `start` (`Instant::elapsed`, then
/// `Duration::as_millis`). Nothing is stated of it: it is the time.
#[verifier::external_body]
pub(crate) fn elapsed_millis(start: &Instant) -> u128 {
    start.elapsed().as_millis()
}

/// Whole nanoseconds elapsed since `start` (`Instant::elapsed`, then
/// `Duration::as_nanos`). Nothing is stated of it: it is the time.
#[verifier::external_body]
pub(crate) fn elapsed_nanos(start: &Instant) -> u128 {
    start.elapsed().as_nanos()
}

/// Whole seconds since the Unix epoch by the system clock
/// (`SystemTime::now().duration_since(UNIX_EPOCH)`, zero when the clock reads
/// before the epoch). Nothing is stated of it: it is the time.
#[verifier::external_body]
pub(crate) fn unix_time_secs() -> u64 {
    SystemTime::now().duration_since(UNIX_EPOCH).unwrap_or_default().as_secs()
}

} // verus!
