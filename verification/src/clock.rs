//! The current time.

use std::time::{Duration, SystemTime, SystemTimeError};
use vstd::prelude::*;

verus! {

/// An instant of the system's clock (`std::time::SystemTime`).
#[verifier::external_type_specification]
#[verifier::external_body]
pub struct ExSystemTime(SystemTime);

/// The distance to an instant that lies ahead (`std::time::SystemTimeError`).
#[verifier::external_type_specification]
#[verifier::external_body]
pub struct ExSystemTimeError(SystemTimeError);

/// The time from the Unix epoch to an instant of the clock; none if the instant
/// lies before it.
pub uninterp spec fn elapsed(t: SystemTime) -> Option<Duration>;

/// The whole microseconds of a duration.
pub uninterp spec fn whole_micros(d: Duration) -> u128;

/// `SystemTime::now`: the clock's instant. Nothing is claimed of it.
pub assume_specification[ SystemTime::now ]() -> (r: SystemTime)
;

/// `Duration::as_micros`: the whole microseconds of a duration, which depend on
/// the duration alone.
pub assume_specification[ Duration::as_micros ](d: &Duration) -> (r: u128)
    ensures
        r == whole_micros(*d),
;

/// `SystemTime::duration_since`, from the Unix epoch: the time that has passed
/// since, or an error if the instant lies before it. Either depends on the
/// instant alone.
#[verifier::external_body]
fn since_epoch(t: SystemTime) -> (r: Result<Duration, SystemTimeError>)
    ensures
        match r {
            Ok(d) => elapsed(t) == Some(d),
            Err(_) => elapsed(t) is None,
        },
{
    t.duration_since(SystemTime::UNIX_EPOCH)
}

/// The clock reading for a time since the epoch in microseconds: its low 64 bits.
/// There is none if the clock stands before the epoch.
pub open spec fn reading(since_epoch: Option<u128>) -> Option<u64> {
    match since_epoch {
        Some(us) => Some((us % 0x1_0000_0000_0000_0000) as u64),
        None => None,
    }
}

/// The microseconds from the epoch to an instant of the clock.
pub open spec fn elapsed_micros(t: SystemTime) -> Option<u128> {
    match elapsed(t) {
        Some(d) => Some(whole_micros(d)),
        None => None,
    }
}

/// The clock reading for a time since the epoch in microseconds.
pub fn clock_reading(since_epoch: Option<u128>) -> (r: Option<u64>)
    ensures
        r == reading(since_epoch),
{
    match since_epoch {
        Some(us) => Some((us % 0x1_0000_0000_0000_0000) as u64),
        None => None,
    }
}

/// The current time in microseconds since the epoch, unless the clock stands
/// before it: the reading of an instant of the clock, of which nothing says that
/// it is the present one.
pub fn now_us() -> (r: Option<u64>)
    ensures
        exists|t: SystemTime| r == reading(#[trigger] elapsed_micros(t)),
{
    let t = SystemTime::now();
    let ghost instant = t;
    let r = match since_epoch(t) {
        Ok(d) => clock_reading(Some(d.as_micros())),
        Err(_) => clock_reading(None),
    };
    assert(r == reading(elapsed_micros(instant)));
    r
}

/// A count of microseconds is read as it is where it fits, and otherwise without
/// what lies beyond 64 bits.
pub proof fn law_reading(us: u128)
    ensures
        us <= u64::MAX ==> (reading(Some(us)) matches Some(r) && r == us),
        us + 0x1_0000_0000_0000_0000 <= u128::MAX ==> reading(
            Some((us + 0x1_0000_0000_0000_0000) as u128),
        ) == reading(Some(us)),
        reading(None) is None,
{
}

/// An instant of the clock has a reading if it does not lie before the epoch.
pub proof fn law_elapsed_micros(t: SystemTime)
    ensures
        elapsed_micros(t) is None <==> elapsed(t) is None,
        elapsed(t) matches Some(d) ==> elapsed_micros(t) == Some(whole_micros(d)),
{
}

} // verus!
