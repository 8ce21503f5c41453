//! The poll clock: the timestamp source for reconciliation cycles.

use vstd::prelude::*;

verus! {

/// Relies on std::time::SystemTime::now and its duration_since: the
/// current wall-clock time, of which nothing can be promised.  A clock
/// standing before the epoch is reported as zero.
#[verifier::external_body]
fn epoch_millis() -> u128 {
    match std::time::SystemTime::now().duration_since(std::time::UNIX_EPOCH) {
        Ok(d) => d.as_millis(),
        Err(_) => 0,
    }
}

/// Milliseconds since the Unix epoch, read from the wall clock.  Two
/// reads may return anything; a caller that needs the reconciler's
/// non-decreasing timestamps must order them itself.
pub fn now() -> u128 {
    epoch_millis()
}

} // verus!
