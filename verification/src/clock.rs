//! The wall clock, reduced to a plain microsecond count.

use vstd::prelude::*;

verus! {

/// Relies on std::time::SystemTime::now for the current wall-clock time,
/// converted to microseconds since the Unix epoch.  Nothing can be promised
/// of a clock reading, so nothing is: callers treat the value as arbitrary.
#[verifier::external_body]
pub(crate) fn now_unix_microseconds() -> i64 {
    match std::time::SystemTime::now().duration_since(std::time::UNIX_EPOCH) {
        Ok(elapsed) => elapsed.as_micros() as i64,
        Err(_) => 0,
    }
}

} // verus!
