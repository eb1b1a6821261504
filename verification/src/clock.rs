//! The current time, read from the system clock.

use vstd::prelude::*;

use crate::model::Timestamp;

verus! {

/// Reads the clock with `chrono::Utc::now` and hands the moment back in
/// microseconds since the Unix epoch, as `DateTime::timestamp_micros` gives
/// it. Nothing is claimed of the moment: two calls may differ in any way.
/// `Utc::now` panics where the system clock stands before 1970.
#[verifier::external_body]
pub(crate) fn current_time() -> (now: Timestamp) {
    Timestamp { micros: chrono::Utc::now().timestamp_micros() }
}

} // verus!
