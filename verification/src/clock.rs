//! The wall clock.

use vstd::prelude::*;

verus! {

/// Relies on `std::time::SystemTime::now` and `SystemTime::duration_since`:
/// the current wall-clock time as nanoseconds since the Unix epoch, or
/// `None` on a machine whose clock stands before the epoch or past the
/// unsigned range. Every branch is total — `duration_since` reports a
/// pre-epoch clock as an `Err` value — so the call cannot panic, whatever
/// the clock holds. Nothing is promised of the value: it depends on the
/// machine.
#[verifier::external_body]
fn system_now_nanos() -> (r: Option<u64>) {
    match std::time::SystemTime::now().duration_since(std::time::UNIX_EPOCH) {
        Ok(d) => u64::try_from(d.as_nanos()).ok(),
        Err(_) => None,
    }
}

/// The current instant in nanoseconds, clamped to zero when the clock
/// cannot be read as a point after the epoch.
pub fn current_instant() -> (r: u64) {
    match system_now_nanos() {
        Some(n) => n,
        None => 0,
    }
}

} // verus!
