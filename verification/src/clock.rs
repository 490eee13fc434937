//! The time source. Every timestamp in the library derives from this one
//! reading of the wall clock.

use vstd::prelude::*;
use std::time::SystemTime;
use std::time::UNIX_EPOCH;

verus! {

/// Relies on `std::time::SystemTime::now` and `duration_since(UNIX_EPOCH)`:
/// the wall clock as whole seconds since the Unix epoch. Nothing is promised
/// of the value — clocks jump, forwards and backwards — and a clock before
/// the epoch reads as zero.
#[verifier::external_body]
fn read_clock() -> u64 {
    match SystemTime::now().duration_since(UNIX_EPOCH) {
        Ok(d) => d.as_secs(),
        Err(_) => 0,
    }
}

/// The current time as whole seconds since the Unix epoch. No contract can
/// pin a wall clock down: callers state what holds of every reading, and the
/// monitor guards each cycle with `can_step` instead of trusting the clock.
pub fn current_time() -> u64 {
    read_clock()
}

} // verus!
