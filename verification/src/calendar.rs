//! Days of the proleptic Gregorian calendar and moments of local wall-clock
//! time.
//!
//! A [`CalendarDate`] or a [`Timestamp`] is plain data: any field values can
//! be written down, and `is_valid` says whether they name a day that exists.
//! The checked constructors hand out valid values only.

use vstd::prelude::*;
use crate::error::Error;

verus! {

/// Whether year `y` has a 29th of February.
pub open spec fn is_leap_year(y: int) -> bool {
    y % 4 == 0 && (y % 100 != 0 || y % 400 == 0)
}

/// The number of days of month `m` in year `y`.
pub open spec fn days_in_month(y: int, m: int) -> int {
    if m == 2 {
        if is_leap_year(y) {
            29
        } else {
            28
        }
    } else if m == 4 || m == 6 || m == 9 || m == 11 {
        30
    } else {
        31
    }
}

/// Whether `(y, m, d)` names a day that exists.
pub open spec fn is_calendar_date(y: int, m: int, d: int) -> bool {
    1 <= m <= 12 && 1 <= d <= days_in_month(y, m)
}

/// The number of days from the first of January of the year 0 to the first
/// of January of the year `y`; below zero for a year before 0.
pub open spec fn days_before_year(y: int) -> int {
    365 * y + (y + 3) / 4 - (y + 99) / 100 + (y + 399) / 400
}

/// The number of days of the year `y` that lie before its month `m`.
pub open spec fn days_before_month(y: int, m: int) -> int {
    (if m <= 1 {
        0int
    } else if m == 2 {
        31
    } else if m == 3 {
        59
    } else if m == 4 {
        90
    } else if m == 5 {
        120
    } else if m == 6 {
        151
    } else if m == 7 {
        181
    } else if m == 8 {
        212
    } else if m == 9 {
        243
    } else if m == 10 {
        273
    } else if m == 11 {
        304
    } else {
        334
    }) + if m > 2 && is_leap_year(y) {
        1int
    } else {
        0
    }
}

/// Tells whether `year` is a leap year.
pub fn leap_year(year: i32) -> (leap: bool)
    ensures
        leap == is_leap_year(year as int),
{
    year % 4 == 0 && (year % 100 != 0 || year % 400 == 0)
}

/// The length of a month in days; 31 for a month number that is none.
pub fn month_length(year: i32, month: u8) -> (days: u8)
    ensures
        days == days_in_month(year as int, month as int),
{
    if month == 2 {
        if leap_year(year) {
            29
        } else {
            28
        }
    } else if month == 4 || month == 6 || month == 9 || month == 11 {
        30
    } else {
        31
    }
}

/// A day, written as year, month and day of the month.
#[derive(Clone, Copy, Debug, PartialEq, Eq, Structural)]
pub struct CalendarDate {
    pub year: i32,
    pub month: u8,
    pub day: u8,
}

impl CalendarDate {
    /// The fields name a day that exists.
    pub open spec fn is_valid(self) -> bool {
        is_calendar_date(self.year as int, self.month as int, self.day as int)
    }

    /// A number that grows with the calendar: an earlier day has the smaller
    /// ordinal, and two days with one ordinal are the same day.
    pub open spec fn ordinal(self) -> int {
        (self.year * 256 + self.month) * 256 + self.day
    }

    /// The number of days from the first of January of the year 0 to this
    /// day.
    pub open spec fn day_number(self) -> int {
        days_before_year(self.year as int) + days_before_month(self.year as int, self.month as int)
            + self.day - 1
    }

    /// The day after this one, where the year still fits.
    pub open spec fn following_day(self) -> CalendarDate {
        if self.day < days_in_month(self.year as int, self.month as int) {
            CalendarDate { year: self.year, month: self.month, day: (self.day + 1) as u8 }
        } else {
            self.following_month()
        }
    }

    /// The first day of the month after this day's month.
    pub open spec fn following_month(self) -> CalendarDate {
        if self.month < 12 {
            CalendarDate { year: self.year, month: (self.month + 1) as u8, day: 1 }
        } else {
            self.following_year()
        }
    }

    /// The first day of the year after this day's year.
    pub open spec fn following_year(self) -> CalendarDate {
        CalendarDate { year: (self.year + 1) as i32, month: 1, day: 1 }
    }

    /// The day `(year, month, day)` if it exists, `InvalidDate` if not.
    pub fn new(year: i32, month: u8, day: u8) -> (made: Result<CalendarDate, Error>)
        ensures
            is_calendar_date(year as int, month as int, day as int) ==> made == Ok::<
                CalendarDate,
                Error,
            >(CalendarDate { year, month, day }),
            !is_calendar_date(year as int, month as int, day as int) ==> made == Err::<
                CalendarDate,
                Error,
            >(Error::InvalidDate),
    {
        if 1 <= month && month <= 12 && 1 <= day && day <= month_length(year, month) {
            Ok(CalendarDate { year, month, day })
        } else {
            Err(Error::InvalidDate)
        }
    }

    /// Tells whether the fields name a day that exists.
    pub fn check(&self) -> (valid: bool)
        ensures
            valid == self.is_valid(),
    {
        1 <= self.month && self.month <= 12 && 1 <= self.day && self.day <= month_length(
            self.year,
            self.month,
        )
    }

    /// Counts the days from the first of January of the year 0 to this day.
    pub fn count_days(&self) -> (days: i64)
        ensures
            days == self.day_number(),
            -785_000_000_000 < days < 785_000_000_000,
    {
        let before_year = count_days_before_year(self.year);
        let before_month = count_days_before_month(self.year, self.month);
        before_year + before_month + self.day as i64 - 1
    }

    /// Whether this day comes before `other`.
    pub fn is_before(&self, other: &CalendarDate) -> (before: bool)
        ensures
            before == (self.ordinal() < other.ordinal()),
    {
        self.year < other.year || (self.year == other.year && (self.month < other.month || (
        self.month == other.month && self.day < other.day)))
    }

    /// The first day of the next year; `None` where that year is beyond `i32`.
    pub fn next_year(&self) -> (next: Option<CalendarDate>)
        ensures
            self.year < i32::MAX ==> next == Some(self.following_year()),
            self.year == i32::MAX ==> next.is_none(),
    {
        if self.year < i32::MAX {
            Some(CalendarDate { year: self.year + 1, month: 1, day: 1 })
        } else {
            None
        }
    }

    /// The first day of the next month; `None` where that day's year is
    /// beyond `i32`.
    pub fn next_month(&self) -> (next: Option<CalendarDate>)
        ensures
            self.month < 12 || self.year < i32::MAX ==> next == Some(self.following_month()),
            self.month >= 12 && self.year == i32::MAX ==> next.is_none(),
    {
        if self.month < 12 {
            Some(CalendarDate { year: self.year, month: self.month + 1, day: 1 })
        } else {
            self.next_year()
        }
    }

    /// The next day; `None` where that day's year is beyond `i32`.
    pub fn next_day(&self) -> (next: Option<CalendarDate>)
        ensures
            !self.ends_the_calendar() ==> next == Some(self.following_day()),
            self.ends_the_calendar() ==> next.is_none(),
    {
        if self.day < month_length(self.year, self.month) {
            Some(CalendarDate { year: self.year, month: self.month, day: self.day + 1 })
        } else {
            self.next_month()
        }
    }

    /// No day follows that an `i32` year can hold.
    pub open spec fn ends_the_calendar(self) -> bool {
        self.year == i32::MAX && self.month >= 12 && self.day >= days_in_month(
            self.year as int,
            self.month as int,
        )
    }
}

/// A minute of a day: what a note is filed under when notes are shown.
#[derive(Clone, Copy, Debug, PartialEq, Eq, Structural)]
pub struct Slot {
    pub day: CalendarDate,
    pub hour: u8,
    pub minute: u8,
}

impl Slot {
    /// A number that grows with time: an earlier minute has the smaller
    /// ordinal, and two slots with one ordinal are the same slot.
    pub open spec fn ordinal(self) -> int {
        (self.day.ordinal() * 256 + self.hour) * 256 + self.minute
    }

    /// Whether this minute comes before `other`.
    pub fn is_before(&self, other: &Slot) -> (before: bool)
        ensures
            before == (self.ordinal() < other.ordinal()),
    {
        self.day.is_before(&other.day) || (self.day == other.day && (self.hour < other.hour || (
        self.hour == other.hour && self.minute < other.minute)))
    }
}

/// A point in time as a local clock shows it: the day and the time of day
/// on that clock, down to the nanosecond, and how far the clock is ahead of
/// UTC.
#[derive(Clone, Copy, Debug, PartialEq, Eq, Structural)]
pub struct Timestamp {
    pub date: CalendarDate,
    pub hour: u8,
    pub minute: u8,
    pub second: u8,
    /// Nanoseconds into the second; a leap second counts on from
    /// 1,000,000,000.
    pub nanos: u32,
    /// The seconds that the local clock is ahead of UTC; below zero where it
    /// is behind.
    pub offset: i32,
}

impl Timestamp {
    /// The fields name a moment that exists.
    pub open spec fn is_valid(self) -> bool {
        &&& self.date.is_valid()
        &&& self.hour < 24
        &&& self.minute < 60
        &&& self.second < 60
        &&& self.nanos < 2_000_000_000
        &&& -86_400 < self.offset < 86_400
    }

    /// What holds of every reading of the clock: the moment exists, and its
    /// year is one that the clock can show.
    pub open spec fn is_clock_reading(self) -> bool {
        self.is_valid() && -262_144 <= self.date.year <= 262_143
    }

    /// The minute that this moment falls in.
    pub open spec fn slot(self) -> Slot {
        Slot { day: self.date, hour: self.hour, minute: self.minute }
    }

    /// The seconds from the start of the year 0 in UTC to the second that
    /// this moment falls in: what the local clock shows, less what it is
    /// ahead.
    pub open spec fn utc_seconds(self) -> int {
        self.date.day_number() * 86_400 + self.hour * 3_600 + self.minute * 60 + self.second
            - self.offset
    }

    /// A number that grows with time, whatever the offsets: of two moments
    /// the earlier has the smaller instant. Moments are ordered by their
    /// second in UTC, then by the nanosecond.
    pub open spec fn instant(self) -> int {
        self.utc_seconds() * 0x1_0000_0000 + self.nanos
    }

    /// The moment with these fields if it exists, `InvalidDate` if not.
    pub fn new(
        year: i32,
        month: u8,
        day: u8,
        hour: u8,
        minute: u8,
        second: u8,
        nanos: u32,
        offset: i32,
    ) -> (made: Result<Timestamp, Error>)
        ensures
            match made {
                Ok(t) => t.is_valid() && t == (Timestamp {
                    date: CalendarDate { year, month, day },
                    hour,
                    minute,
                    second,
                    nanos,
                    offset,
                }),
                Err(e) => e == Error::InvalidDate && !(Timestamp {
                    date: CalendarDate { year, month, day },
                    hour,
                    minute,
                    second,
                    nanos,
                    offset,
                }).is_valid(),
            },
    {
        let date = CalendarDate { year, month, day };
        if date.check() && hour < 24 && minute < 60 && second < 60 && nanos < 2_000_000_000
            && -86_400 < offset && offset < 86_400 {
            Ok(Timestamp { date, hour, minute, second, nanos, offset })
        } else {
            Err(Error::InvalidDate)
        }
    }

    /// Tells whether the fields name a moment that exists.
    pub fn check(&self) -> (valid: bool)
        ensures
            valid == self.is_valid(),
    {
        self.date.check() && self.hour < 24 && self.minute < 60 && self.second < 60 && self.nanos
            < 2_000_000_000 && -86_400 < self.offset && self.offset < 86_400
    }

    /// The minute that this moment falls in.
    pub fn to_slot(&self) -> (slot: Slot)
        ensures
            slot == self.slot(),
    {
        Slot { day: self.date, hour: self.hour, minute: self.minute }
    }

    /// Whether this moment comes after `other`.
    pub fn is_after(&self, other: &Timestamp) -> (after: bool)
        ensures
            after == (self.instant() > other.instant()),
    {
        let mine = self.seconds();
        let theirs = other.seconds();
        proof {
            lemma_instant_order(*self, *other);
        }
        mine > theirs || (mine == theirs && self.nanos > other.nanos)
    }

    /// Counts the seconds from the start of the year 0 in UTC to the second
    /// that this moment falls in.
    pub fn seconds(&self) -> (seconds: i64)
        ensures
            seconds == self.utc_seconds(),
    {
        let days = self.date.count_days();
        days * 86_400 + self.hour as i64 * 3_600 + self.minute as i64 * 60 + self.second as i64
            - self.offset as i64
    }
}

/// Two days with one ordinal are the same day.
pub proof fn lemma_day_ordinal_injective(a: CalendarDate, b: CalendarDate)
    requires
        a.ordinal() == b.ordinal(),
    ensures
        a == b,
{
    let ma = a.year * 256 + a.month;
    let mb = b.year * 256 + b.month;
    assert(ma * 256 + a.day == mb * 256 + b.day);
    assert(ma == mb);
    assert(a.year == b.year);
}

/// Two slots with one ordinal are the same slot.
pub proof fn lemma_slot_ordinal_injective(a: Slot, b: Slot)
    requires
        a.ordinal() == b.ordinal(),
    ensures
        a == b,
{
    let ha = a.day.ordinal() * 256 + a.hour;
    let hb = b.day.ordinal() * 256 + b.hour;
    assert(ha * 256 + a.minute == hb * 256 + b.minute);
    assert(ha == hb);
    assert(a.day.ordinal() == b.day.ordinal());
    lemma_day_ordinal_injective(a.day, b.day);
}

/// Moments are ordered by their second in UTC, then by the nanosecond.
pub proof fn lemma_instant_order(a: Timestamp, b: Timestamp)
    ensures
        a.instant() > b.instant() <==> (a.utc_seconds() > b.utc_seconds() || (a.utc_seconds()
            == b.utc_seconds() && a.nanos > b.nanos)),
{
    let sa = a.utc_seconds();
    let sb = b.utc_seconds();
    assert(a.instant() == sa * 0x1_0000_0000 + a.nanos);
    assert(b.instant() == sb * 0x1_0000_0000 + b.nanos);
    if sa > sb {
        assert(sa * 0x1_0000_0000 >= (sb + 1) * 0x1_0000_0000);
    }
    if sb > sa {
        assert(sb * 0x1_0000_0000 >= (sa + 1) * 0x1_0000_0000);
    }
}

/// A year moved up by a multiple of 400 has its days before it moved up by
/// as many times the days of 400 years.
proof fn lemma_moved_year(y: int)
    ensures
        days_before_year(y + 2_147_484_000) == days_before_year(y) + 784_352_424_870,
{
    let m = y + 2_147_484_000;
    assert((m + 3) / 4 == (y + 3) / 4 + 536_871_000);
    assert((m + 99) / 100 == (y + 99) / 100 + 21_474_840);
    assert((m + 399) / 400 == (y + 399) / 400 + 5_368_710);
}

/// A year is 366 days long where it is a leap year, and 365 where not.
pub proof fn lemma_year_length(y: int)
    ensures
        days_before_year(y + 1) == days_before_year(y) + if is_leap_year(y) {
            366int
        } else {
            365
        },
{
    let by4: int = if y % 4 == 0 { 1 } else { 0 };
    let by100: int = if y % 100 == 0 { 1 } else { 0 };
    let by400: int = if y % 400 == 0 { 1 } else { 0 };
    assert((y + 4) / 4 - (y + 3) / 4 == by4);
    assert((y + 100) / 100 - (y + 99) / 100 == by100);
    assert((y + 400) / 400 - (y + 399) / 400 == by400);
    assert(y % 400 == 0 ==> y % 100 == 0);
    assert(y % 100 == 0 ==> y % 4 == 0);
    assert(days_before_year(y + 1) - days_before_year(y) == 365 + by4 - by100 + by400);
}

/// The days before a month and the days of that month are the days before
/// the next month.
pub proof fn lemma_month_length(y: int, m: int)
    requires
        1 <= m < 12,
    ensures
        days_before_month(y, m + 1) == days_before_month(y, m) + days_in_month(y, m),
{
}

/// The day number counts days: the day after a day has the next number.
pub proof fn lemma_day_number_steps(d: CalendarDate)
    requires
        d.is_valid(),
        d.year < i32::MAX,
    ensures
        d.following_day().day_number() == d.day_number() + 1,
{
    let y = d.year as int;
    let m = d.month as int;
    let next = d.following_day();
    if d.day < days_in_month(y, m) {
        assert(next.year == d.year && next.month == d.month && next.day == d.day + 1);
    } else if d.month < 12 {
        lemma_month_length(y, m);
        assert(next.year == d.year && next.month == d.month + 1 && next.day == 1);
    } else {
        lemma_year_length(y);
        assert(next.year == d.year + 1 && next.month == 1 && next.day == 1);
        assert(days_before_month(y + 1, 1) == 0);
        assert(days_before_month(y, 12) + 31 == if is_leap_year(y) {
            366int
        } else {
            365
        });
    }
}

/// Counts the days from the first of January of the year 0 to the first of
/// January of `year`.
fn count_days_before_year(year: i32) -> (days: i64)
    ensures
        days == days_before_year(year as int),
        -784_352_424_870 <= days <= 784_352_424_870,
{
    // A year moved up by a multiple of 400 keeps its place in the cycle of
    // leap years and is never below zero.
    let moved: i64 = year as i64 + 2_147_484_000;
    proof {
        lemma_moved_year(year as int);
    }
    let fours: i64 = (moved + 3) / 4;
    let hundreds: i64 = (moved + 99) / 100;
    let four_hundreds: i64 = (moved + 399) / 400;
    365 * moved + fours - hundreds + four_hundreds - 784_352_424_870
}

/// Counts the days of `year` that lie before its month `month`.
fn count_days_before_month(year: i32, month: u8) -> (days: i64)
    ensures
        days == days_before_month(year as int, month as int),
        0 <= days <= 335,
{
    let common: i64 = if month <= 1 {
        0
    } else if month == 2 {
        31
    } else if month == 3 {
        59
    } else if month == 4 {
        90
    } else if month == 5 {
        120
    } else if month == 6 {
        151
    } else if month == 7 {
        181
    } else if month == 8 {
        212
    } else if month == 9 {
        243
    } else if month == 10 {
        273
    } else if month == 11 {
        304
    } else {
        334
    };
    if month > 2 && leap_year(year) {
        common + 1
    } else {
        common
    }
}

} // verus!
