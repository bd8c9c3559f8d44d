//! The wall clock, read in nanoseconds since the Unix epoch.
use std::time::{Duration, SystemTime, UNIX_EPOCH};
use vstd::prelude::*;

verus! {

#[verifier::external_type_specification]
#[verifier::external_body]
pub struct ExSystemTime(std::time::SystemTime);

/// Calls `SystemTime::now`. The reading depends on the machine's clock, so nothing
/// is claimed of it.
#[verifier::external_body]
fn system_now() -> SystemTime {
    SystemTime::now()
}

/// Calls `SystemTime::duration_since` with `UNIX_EPOCH`: the time from the epoch to
/// `t`, or `None` where `t` lies before the epoch. Nothing is claimed of the result.
#[verifier::external_body]
fn since_unix_epoch(t: &SystemTime) -> Option<Duration> {
    match t.duration_since(UNIX_EPOCH) {
        Ok(d) => Some(d),
        Err(_) => None,
    }
}

/// Calls `Duration::as_nanos`: the duration in whole nanoseconds. Nothing is claimed
/// of the result.
#[verifier::external_body]
fn whole_nanos(d: &Duration) -> u128 {
    d.as_nanos()
}

/// The low 64 bits of `n`.
pub fn low_64_bits(n: u128) -> (r: u64)
    ensures
        r == n % 0x1_0000_0000_0000_0000,
{
    (n % 0x1_0000_0000_0000_0000u128) as u64
}

/// The clock's reading in nanoseconds since the Unix epoch, cut to 64 bits; `None`
/// where the clock stands before the epoch.
pub(crate) fn now_nanos() -> Option<u64> {
    let t = system_now();
    match since_unix_epoch(&t) {
        Some(d) => Some(low_64_bits(whole_nanos(&d))),
        None => None,
    }
}

} // verus!
