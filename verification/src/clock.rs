//! The system clock, read for relative ages and to seed the shuffle.

use vstd::prelude::*;
use std::time::{Duration, SystemTime};

verus! {

#[verifier::external_type_specification]
#[verifier::external_body]
pub struct ExSystemTime(std::time::SystemTime);

/// `SystemTime::now`: the current time of the system clock. Nothing is
/// stated of it; it changes from call to call.
#[verifier::external_body]
fn system_now() -> SystemTime {
    SystemTime::now()
}

/// `SystemTime::duration_since` from the Unix epoch: `None` when the
/// clock is set before the epoch. Nothing is stated of the duration.
#[verifier::external_body]
fn since_epoch(t: &SystemTime) -> Option<Duration> {
    match t.duration_since(std::time::UNIX_EPOCH) {
        Ok(d) => Some(d),
        Err(_) => None,
    }
}

/// `Duration::as_secs`: the whole seconds of a duration.
#[verifier::external_body]
fn whole_secs(d: &Duration) -> u64 {
    d.as_secs()
}

/// `Duration::subsec_nanos`: the fraction of a second of a duration, in
/// nanoseconds, which its documentation bounds below one second.
#[verifier::external_body]
fn subsec_nanos(d: &Duration) -> (r: u32)
    ensures
        r < 1_000_000_000,
{
    d.subsec_nanos()
}

/// Seconds since the Unix epoch on the system clock; 0 when the clock is
/// set before the epoch.
pub fn now_unix_secs() -> u64 {
    match since_epoch(&system_now()) {
        Some(d) => whole_secs(&d),
        None => 0,
    }
}

/// The nanoseconds within the current second of the system clock (0 when
/// the clock is set before the epoch).
pub fn clock_subsec_nanos() -> (r: u32)
    ensures
        r < 1_000_000_000,
{
    match since_epoch(&system_now()) {
        Some(d) => subsec_nanos(&d),
        None => 0,
    }
}

} // verus!
