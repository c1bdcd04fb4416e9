//! The wall clock.

use vstd::prelude::*;

verus! {

/// The current time in milliseconds since the Unix epoch.
///
/// Calls `chrono::Utc::now` and `DateTime::timestamp_millis`. Nothing is said
/// of the time that is read but that it is not before the epoch: with a system
/// clock set before the epoch `Utc::now` panics.
#[verifier::external_body]
pub(crate) fn now_ms() -> (ms: i64)
    ensures
        ms >= 0,
{
    chrono::Utc::now().timestamp_millis()
}

/// Whether a time came from the wall clock: a reading of it gave that time.
pub open(crate) spec fn clock_reading(now: i64) -> bool {
    call_ensures(now_ms, (), now)
}

/// A time is a clock reading only where the wall clock gave it, and then it is
/// not before the epoch: no other time can pass for the present one.
pub(crate) proof fn law_readings_come_from_the_clock(now: i64)
    ensures
        clock_reading(now) ==> call_ensures(now_ms, (), now),
        clock_reading(now) ==> now >= 0,
{
}

} // verus!
