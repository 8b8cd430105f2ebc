//! The wall clock that write timestamps come from.
use vstd::prelude::*;

verus! {

/// Relies on chrono's `From<SystemTime> for DateTime<Utc>` and
/// `DateTime::timestamp_micros`: the current time as microseconds since the
/// Unix epoch, negative for a clock set before it. Nothing is known of the
/// value.
#[verifier::external_body]
fn utc_now_micros() -> i64 {
    chrono::DateTime::<chrono::Utc>::from(std::time::SystemTime::now()).timestamp_micros()
}

/// The current time in microseconds since the Unix epoch; a clock set before
/// the epoch reads as 0.
pub fn now_micros() -> u64 {
    let t = utc_now_micros();
    if t < 0 {
        0
    } else {
        t as u64
    }
}

} // verus!
