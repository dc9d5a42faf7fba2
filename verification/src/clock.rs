//! The local wall clock.

use vstd::prelude::*;
use chrono::{Datelike, Timelike};
use crate::calendar::{CalendarDate, Timestamp};

verus! {

/// Reads the local wall clock with `chrono::Local::now` and copies what
/// chrono reports of that moment into a [`Timestamp`]: the year, month, day,
/// hour, minute, second and nanosecond of the local time, and the seconds
/// that the local time is ahead of UTC.
///
/// Trusted, not proved:
/// - that those fields name a moment that exists. chrono documents the month
///   as 1 to 12, the day as a day of that month, the hour as 0 to 23, minute
///   and second as 0 to 59, the nanosecond as below 2,000,000,000, and makes
///   an offset only of less than a day either way;
/// - that the year lies from -262,144 to 262,143. chrono keeps the year of
///   a date in the upper 19 bits of an `i32`.
///
/// Nothing is claimed of which moment it is: two readings may differ in any
/// way. chrono panics where the system clock stands before 1970 or beyond
/// the years it can hold.
#[verifier::external_body]
pub(crate) fn local_now() -> (now: Timestamp)
    ensures
        now.is_clock_reading(),
{
    let t = chrono::Local::now();
    Timestamp {
        date: CalendarDate { year: t.year(), month: t.month() as u8, day: t.day() as u8 },
        hour: t.hour() as u8,
        minute: t.minute() as u8,
        second: t.second() as u8,
        nanos: t.nanosecond(),
        offset: t.offset().local_minus_utc(),
    }
}

} // verus!
