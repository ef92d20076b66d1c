//! Instants in UTC as the continuation store keeps them: whole seconds since the
//! Unix epoch and the nanoseconds within that second, as `chrono::DateTime<Utc>`
//! reports them through `timestamp()` and `timestamp_subsec_nanos()`.

use vstd::prelude::*;

verus! {

/// Seconds in a day.
pub const SECS_PER_DAY: i64 = 86400;

/// One billion: the nanoseconds of a whole second.
pub const NANOS_PER_SEC: u32 = 1000000000;

/// A UTC instant: `secs` since the Unix epoch and `nanos` within that second
/// (at or above one billion for an instant inside a leap second).
#[derive(Clone, Copy, Debug, PartialEq, Eq, Structural)]
pub struct Timestamp {
    pub secs: i64,
    pub nanos: u32,
}

/// `a` is at or before `b`: instants are ordered by their seconds, then by the
/// nanoseconds within the second.
pub open spec fn ts_le(a: Timestamp, b: Timestamp) -> bool {
    a.secs < b.secs || (a.secs == b.secs && a.nanos <= b.nanos)
}

/// Whether `a` is at or before `b`.
pub fn at_or_before(a: Timestamp, b: Timestamp) -> (r: bool)
    ensures
        r == ts_le(a, b),
{
    a.secs < b.secs || (a.secs == b.secs && a.nanos <= b.nanos)
}

/// The first second of chrono's range of instants: the start of January 1 of the
/// year -262143, in seconds since the Unix epoch.
pub const CHRONO_MIN_SECS: i64 = -8334601228800;

/// The last second of chrono's range of instants: the last second of December 31 of
/// the year 262142, in seconds since the Unix epoch.
pub const CHRONO_MAX_SECS: i64 = 8210266876799;

/// The second `secs` lies within chrono's range.
pub open spec fn in_chrono_range(secs: int) -> bool {
    CHRONO_MIN_SECS <= secs <= CHRONO_MAX_SECS
}

/// What `chrono` gives for the instant `(secs, nanos)` plus `days` whole days, as
/// `(timestamp, subsec_nanos)`. The instant must be within chrono's range, with its
/// nanoseconds below two billion and at or above one billion (a leap second) only
/// in the last second of a minute. Moving a leap second by a nonzero number of days
/// leaves the leap second: its nanoseconds drop by one billion, and moving it back
/// starts from the following second. `None` where the instant is invalid or the
/// result leaves chrono's range.
pub open spec fn datetime_plus_days(secs: i64, nanos: u32, days: i64) -> Option<(i64, u32)> {
    let leap = nanos >= NANOS_PER_SEC;
    if !in_chrono_range(secs as int) || nanos >= 2 * NANOS_PER_SEC || (leap && secs % 60 != 59) {
        None
    } else {
        let moved = secs + days * SECS_PER_DAY + (if leap && days < 0 {
            1int
        } else {
            0int
        });
        let sub = if leap && days != 0 {
            nanos - NANOS_PER_SEC
        } else {
            nanos as int
        };
        if in_chrono_range(moved) {
            Some((moved as i64, sub as u32))
        } else {
            None
        }
    }
}

/// The instant `t` plus `days` days, computed by `chrono`
/// (`DateTime::from_timestamp`, `TimeDelta::try_days`, `DateTime::checked_add_signed`).
/// Trusted: the result is `datetime_plus_days` of the instant and the days, as the
/// range checks of `NaiveDate` and the leap-second handling of
/// `NaiveTime::overflowing_add_signed` give it.
#[verifier::external_body]
pub(crate) fn plus_days(t: Timestamp, days: i64) -> (r: Option<Timestamp>)
    ensures
        r == (match datetime_plus_days(t.secs, t.nanos, days) {
            Some(v) => Some(Timestamp { secs: v.0, nanos: v.1 }),
            None => None,
        }),
{
    let start = chrono::DateTime::from_timestamp(t.secs, t.nanos)?;
    let delta = chrono::TimeDelta::try_days(days)?;
    let end = start.checked_add_signed(delta)?;
    Some(Timestamp { secs: end.timestamp(), nanos: end.timestamp_subsec_nanos() })
}

} // verus!
