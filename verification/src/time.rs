//! Wall-clock helpers for expiry timestamps, in milliseconds.

use vstd::prelude::*;

verus! {

/// Relies on `std::time::SystemTime::now`: the wall clock's present reading,
/// converted to whole milliseconds since the Unix epoch (`0` if the clock
/// reads earlier than the epoch). Nothing is assumed of the value: two calls
/// may return anything, in any order.
#[verifier::external_body]
pub fn current_milliseconds() -> u64 {
    let now = std::time::SystemTime::now();
    let duration_since_epoch = now.duration_since(std::time::SystemTime::UNIX_EPOCH)
        .unwrap_or_default();
    duration_since_epoch.as_millis() as u64
}

/// `sec` seconds as milliseconds, capped at `u64::MAX`.
pub fn sec_to_millisec(sec: u64) -> (r: u64)
    ensures
        r == if sec * 1000 <= u64::MAX {
            sec * 1000
        } else {
            u64::MAX as int
        },
{
    match sec.checked_mul(1000) {
        Some(ms) => ms,
        None => u64::MAX,
    }
}

/// The deadline `sec` seconds after the present clock reading, capped at
/// `u64::MAX`. The clock is read once.
pub fn get_millisec_from_sec(sec: u64) -> u64 {
    let now = current_milliseconds();
    now.saturating_add(sec_to_millisec(sec))
}

/// The deadline `millisec` milliseconds after the present clock reading,
/// capped at `u64::MAX`. The clock is read once.
pub fn get_millisec(millisec: u64) -> u64 {
    let now = current_milliseconds();
    now.saturating_add(millisec)
}

/// Whole seconds from the present clock reading until `expire_millisec`
/// (`0` if the deadline has passed). The clock is read once.
pub fn get_lifetime_sec(expire_millisec: u64) -> u64 {
    let now = current_milliseconds();
    expire_millisec.saturating_sub(now) / 1000
}

/// Milliseconds from the present clock reading until `expire_millisec`
/// (`0` if the deadline has passed). The clock is read once.
pub fn get_lifetime_millisec(expire_millisec: u64) -> u64 {
    let now = current_milliseconds();
    expire_millisec.saturating_sub(now)
}

} // verus!
