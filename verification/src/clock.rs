use std::time::{SystemTime, SystemTimeError, UNIX_EPOCH};
use vstd::prelude::*;

verus! {

#[verifier::external_type_specification]
#[verifier::external_body]
pub struct ExSystemTime(SystemTime);

#[verifier::external_type_specification]
#[verifier::external_body]
pub struct ExSystemTimeError(SystemTimeError);

/// `SystemTime::now`: the current time of the system clock. Nothing is
/// claimed of it.
#[verifier::external_body]
fn system_now() -> SystemTime {
    SystemTime::now()
}

/// `SystemTime::duration_since(UNIX_EPOCH)`: the time elapsed since the
/// Unix epoch, or an error when `t` lies before it. Nothing is claimed of
/// the value.
#[verifier::external_body]
fn since_unix_epoch(t: SystemTime) -> Result<core::time::Duration, SystemTimeError> {
    t.duration_since(UNIX_EPOCH)
}

/// `Duration::as_millis`: the whole milliseconds of `d`. Nothing is
/// claimed of the value.
#[verifier::external_body]
fn whole_millis(d: core::time::Duration) -> u128 {
    d.as_millis()
}

/// The low 64 bits of a count of milliseconds (what `as u64` keeps).
pub fn low_64_bits(ms: u128) -> (r: u64)
    ensures
        r == ms % 0x1_0000_0000_0000_0000,
{
    (ms % 0x1_0000_0000_0000_0000) as u64
}

/// The current time in milliseconds since the Unix epoch, cut to 64 bits
/// as `as u64` does; `None` when the system clock is before the epoch.
/// The value comes from the system clock: nothing more is claimed of it.
pub fn now_millis() -> (r: Option<u64>) {
    match since_unix_epoch(system_now()) {
        Ok(d) => Some(low_64_bits(whole_millis(d))),
        Err(_) => None,
    }
}

} // verus!
