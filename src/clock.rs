//! The wall clock, read in milliseconds since the Unix epoch.

use vstd::prelude::*;

verus! {

#[verifier::external_type_specification]
#[verifier::external_body]
pub struct ExSystemTime(std::time::SystemTime);

/// Relies on `SystemTime::now`: the current wall-clock time, whatever it is.
#[verifier::external_body]
fn system_now() -> std::time::SystemTime {
    std::time::SystemTime::now()
}

/// Relies on `SystemTime::duration_since`: the time elapsed since the Unix
/// epoch, or `None` for a time before it.
#[verifier::external_body]
fn since_epoch(t: &std::time::SystemTime) -> Option<std::time::Duration> {
    match t.duration_since(std::time::UNIX_EPOCH) {
        Ok(d) => Some(d),
        Err(_) => None,
    }
}

/// Relies on `Duration::as_millis`: the whole milliseconds of a duration,
/// which holds at most `u64::MAX` whole seconds and less than one more.
#[verifier::external_body]
fn whole_millis(d: &std::time::Duration) -> (r: u128)
    ensures
        r <= u64::MAX as u128 * 1000 + 999,
{
    d.as_millis()
}

/// The current Unix time in milliseconds. A clock set before the epoch reads
/// as the epoch itself.
pub fn get_unix_timestamp() -> (r: u128)
    ensures
        r <= u64::MAX as u128 * 1000 + 999,
{
    let now = system_now();
    match since_epoch(&now) {
        Some(d) => whole_millis(&d),
        None => 0,
    }
}

} // verus!
