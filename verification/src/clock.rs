//! The system clock.

use crate::numbers::is_time;
use std::time::{SystemTime, UNIX_EPOCH};
use vstd::prelude::*;

verus! {

/// Reads `SystemTime::now` as whole seconds since the Unix epoch; a clock set
/// before the epoch reads as zero. The clock decides the value, so nothing is
/// claimed of it.
#[verifier::external_body]
pub(crate) fn clock_seconds() -> u64 {
    SystemTime::now().duration_since(UNIX_EPOCH).unwrap_or_default().as_secs()
}

/// Reads `SystemTime::now` as seconds since the Unix epoch, as the bit pattern
/// of a double; a clock set before the epoch reads as zero. Of the value it is
/// claimed only that it is a finite number and not negative.
#[verifier::external_body]
pub(crate) fn clock_bits() -> (bits: u64)
    ensures
        is_time(bits),
{
    SystemTime::now().duration_since(UNIX_EPOCH).unwrap_or_default().as_secs_f64().to_bits()
}

} // verus!
