//! Wall-clock time.
use std::time::Instant;
use vstd::prelude::*;

verus! {

/// A reading of the monotonic clock, `std::time::Instant`.
#[verifier::external_type_specification]
#[verifier::external_body]
pub struct ExInstant(Instant);

/// `std::time::Instant::now` reads the monotonic clock. Nothing is claimed of the
/// reading.
#[verifier::external_body]
pub(crate) fn clock_now() -> (r: Instant)
{
    Instant::now()
}

/// `std::time::Instant::elapsed` measures the time since `start`, taken here in whole
/// milliseconds. Nothing is claimed of the result.
#[verifier::external_body]
pub(crate) fn elapsed_since(start: &Instant) -> (r: u128)
{
    start.elapsed().as_millis()
}

/// Milliseconds, at most the largest number that fits.
pub fn clamp_millis(ms: u128) -> (r: u64)
    ensures
        r == (if ms > u64::MAX { u64::MAX as int } else { ms as int }),
{
    if ms > u64::MAX as u128 {
        u64::MAX
    } else {
        ms as u64
    }
}

} // verus!
