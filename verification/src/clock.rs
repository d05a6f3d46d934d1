//! The wall clock the log stamps entries with. The std calls stand behind
//! trusted declarations; the one verified function turns whatever they
//! report into a non-zero microsecond count.

use vstd::prelude::*;

verus! {

/// Declares the std wall-clock type so it can stand in trusted signatures.
#[verifier::external_type_specification]
#[verifier::external_body]
pub struct ExSystemTime(std::time::SystemTime);

/// Relies on std::time::SystemTime::now for a reading of the wall clock;
/// nothing is assumed of the value.
#[verifier::external_body]
fn system_now() -> std::time::SystemTime {
    std::time::SystemTime::now()
}

/// Relies on SystemTime::duration_since: the span from the epoch to `t`,
/// or nothing for a reading before the epoch.
#[verifier::external_body]
fn since_epoch(t: &std::time::SystemTime) -> Option<std::time::Duration> {
    match t.duration_since(std::time::UNIX_EPOCH) {
        Ok(d) => Some(d),
        Err(_) => None,
    }
}

/// Relies on Duration::as_micros, truncated to 64 bits.
#[verifier::external_body]
fn micros_of(d: &std::time::Duration) -> u64 {
    d.as_micros() as u64
}

/// The clock's reading in microseconds since the epoch, never zero: a
/// reading of zero, or a clock standing before the epoch, is reported as
/// one.
pub fn now_micros() -> (r: u64)
    ensures
        r > 0,
{
    let t: u64 = match since_epoch(&system_now()) {
        Some(d) => micros_of(&d),
        None => 0,
    };
    if t == 0 {
        1
    } else {
        t
    }
}

} // verus!
