//! Date filters and the half-open ranges of days that they stand for.

use vstd::prelude::*;
use crate::calendar::{lemma_day_ordinal_injective, CalendarDate, Timestamp};
use crate::error::Error;

verus! {

/// The days from `start` up to, but not including, `end`.
#[derive(Clone, Copy, Debug, PartialEq, Eq, Structural)]
pub struct DateRange {
    pub start: CalendarDate,
    pub end: CalendarDate,
}

impl DateRange {
    /// Whether the moment `t` falls on a day of the range: at or after the
    /// start of the first day, and before the start of the day `end`.
    pub open spec fn holds(self, t: Timestamp) -> bool {
        self.start.ordinal() <= t.date.ordinal() < self.end.ordinal()
    }

    /// The range is one day, one month or one year long.
    pub open spec fn is_one_unit(self) -> bool {
        ||| self.end == self.start.following_day()
        ||| self.start.day == 1 && self.end == self.start.following_month()
        ||| self.start.day == 1 && self.start.month == 1 && self.end
            == self.start.following_year()
    }

    /// Tells whether the moment `t` falls on a day of the range.
    pub fn contains(&self, t: &Timestamp) -> (inside: bool)
        ensures
            inside == self.holds(*t),
    {
        !t.date.is_before(&self.start) && t.date.is_before(&self.end)
    }
}

/// How much of the calendar a filter selects.
#[derive(Clone, Copy, Debug, PartialEq, Eq, Structural)]
pub enum Span {
    Day,
    Month,
    Year,
}

/// A year, a month and a day of the month, each given or left out.
#[derive(Clone, Copy, Debug)]
pub struct DateFilter {
    pub year: Option<u16>,
    pub month: Option<u8>,
    pub day: Option<u8>,
}

impl DateFilter {
    /// What the filter selects: a day where the day is given, else a month
    /// where the month is given, else a year where the year is given, else
    /// everything.
    pub open spec fn span(self) -> Option<Span> {
        if self.day.is_some() {
            Some(Span::Day)
        } else if self.month.is_some() {
            Some(Span::Month)
        } else if self.year.is_some() {
            Some(Span::Year)
        } else {
            None
        }
    }

    /// The first day that the filter selects on the day `today`: a year left
    /// out is today's, a month left out beside a day is today's, and what is
    /// left out below the span is 1.
    pub open spec fn start(self, today: CalendarDate) -> CalendarDate {
        CalendarDate {
            year: match self.year {
                Some(y) => y as i32,
                None => today.year,
            },
            month: match self.month {
                Some(m) => m,
                None => if self.day.is_some() {
                    today.month
                } else {
                    1
                },
            },
            day: match self.day {
                Some(d) => d,
                None => 1,
            },
        }
    }

    /// The first day after those that the filter selects.
    pub open spec fn end(self, today: CalendarDate) -> CalendarDate {
        match self.span() {
            Some(Span::Day) => self.start(today).following_day(),
            Some(Span::Month) => self.start(today).following_month(),
            _ => self.start(today).following_year(),
        }
    }

    /// The first day exists, and the year of the day after the last is one
    /// that an `i32` holds.
    pub open spec fn is_dated(self, today: CalendarDate) -> bool {
        let start = self.start(today);
        &&& start.is_valid()
        &&& match self.span() {
            Some(Span::Day) => !start.ends_the_calendar(),
            Some(Span::Month) => start.month < 12 || start.year < i32::MAX,
            _ => start.year < i32::MAX,
        }
    }

    /// The filter's first day exists, but the day after its range has no
    /// year that an `i32` holds: the range would end with the year
    /// `i32::MAX`.
    pub open spec fn runs_off_the_calendar(self, today: CalendarDate) -> bool {
        let start = self.start(today);
        &&& start.is_valid()
        &&& start.year == i32::MAX
        &&& match self.span() {
            Some(Span::Day) => start.month == 12 && start.day == 31,
            Some(Span::Month) => start.month == 12,
            Some(Span::Year) => true,
            None => false,
        }
    }

    /// What `range` returns on the day `today`.
    pub open spec fn range_spec(self, today: CalendarDate) -> Result<Option<DateRange>, Error> {
        if self.span().is_none() {
            Ok(None)
        } else if self.is_dated(today) {
            Ok(Some(DateRange { start: self.start(today), end: self.end(today) }))
        } else {
            Err(Error::InvalidDate)
        }
    }

    /// The range of days that the filter selects on the day `today`: `None`
    /// where it selects everything, `InvalidDate` where its first day does not
    /// exist, and also where the day after the range has no year that an
    /// `i32` holds (a range that ends with the year `i32::MAX`).
    pub fn range(&self, today: &CalendarDate) -> (window: Result<Option<DateRange>, Error>)
        ensures
            window == self.range_spec(*today),
            window matches Ok(Some(r)) ==> r.start.is_valid() && r.is_one_unit(),
    {
        let mut year: Option<i32> = match self.year {
            Some(y) => Some(y as i32),
            None => None,
        };
        let mut month = self.month;
        if self.day.is_some() {
            if month.is_none() {
                month = Some(today.month);
            }
            if year.is_none() {
                year = Some(today.year);
            }
        }
        if month.is_some() && year.is_none() {
            year = Some(today.year);
        }
        let (start, end) = match (year, month, self.day) {
            (Some(y), None, None) => {
                let start = CalendarDate::new(y, 1, 1)?;
                (start, start.next_year())
            },
            (Some(y), Some(m), None) => {
                let start = CalendarDate::new(y, m, 1)?;
                (start, start.next_month())
            },
            (Some(y), Some(m), Some(d)) => {
                let start = CalendarDate::new(y, m, d)?;
                (start, start.next_day())
            },
            _ => {
                return Ok(None);
            },
        };
        match end {
            Some(end) => Ok(Some(DateRange { start, end })),
            None => Err(Error::InvalidDate),
        }
    }
}

/// A filter fails with `InvalidDate` exactly where a part of it is given and
/// its first day does not exist, and gives a range or no restriction
/// everywhere else. Left out are the filters whose range runs off the
/// calendar: those fail though their first day exists.
pub proof fn lemma_invalid_date_exactly(filter: DateFilter, today: CalendarDate)
    requires
        !filter.runs_off_the_calendar(today),
    ensures
        filter.range_spec(today) == Err::<Option<DateRange>, Error>(Error::InvalidDate) <==> (
        filter.span().is_some() && !filter.start(today).is_valid()),
        filter.range_spec(today) is Ok <==> (filter.span().is_none() || filter.start(
            today,
        ).is_valid()),
        filter.range_spec(today) matches Err(e) ==> e == Error::InvalidDate,
{
}

/// A range runs off the calendar only where the year is today's and today's
/// year is the last that an `i32` holds.
pub proof fn lemma_runs_off_only_in_the_last_year(filter: DateFilter, today: CalendarDate)
    requires
        filter.runs_off_the_calendar(today),
    ensures
        today.year == i32::MAX,
        filter.year.is_none(),
{
}

/// The range of a day holds the moments of that day and no others.
pub proof fn lemma_day_range(start: CalendarDate, t: Timestamp)
    requires
        start.is_valid(),
        !start.ends_the_calendar(),
        t.date.is_valid(),
    ensures
        (DateRange { start, end: start.following_day() }).holds(t) <==> t.date == start,
{
    let end = start.following_day();
    let d = t.date;
    let ms = start.year * 256 + start.month;
    let me = end.year * 256 + end.month;
    let md = d.year * 256 + d.month;
    assert(start.ordinal() == ms * 256 + start.day);
    assert(end.ordinal() == me * 256 + end.day);
    assert(d.ordinal() == md * 256 + d.day);
    if start.ordinal() <= d.ordinal() < end.ordinal() {
        assert(ms <= md <= me);
        if md != ms {
            assert(md == me);
        }
        lemma_day_ordinal_injective(d, start);
    }
}

/// The range of a month holds the moments of that month and no others.
pub proof fn lemma_month_range(start: CalendarDate, t: Timestamp)
    requires
        start.is_valid(),
        start.day == 1,
        start.month < 12 || start.year < i32::MAX,
        t.date.is_valid(),
    ensures
        (DateRange { start, end: start.following_month() }).holds(t) <==> (t.date.year
            == start.year && t.date.month == start.month),
{
    let end = start.following_month();
    let d = t.date;
    let ms = start.year * 256 + start.month;
    let me = end.year * 256 + end.month;
    let md = d.year * 256 + d.month;
    assert(start.ordinal() == ms * 256 + 1);
    assert(end.ordinal() == me * 256 + 1);
    assert(d.ordinal() == md * 256 + d.day);
    assert(start.ordinal() <= d.ordinal() < end.ordinal() <==> ms <= md < me);
}

/// The range of a year holds the moments of that year and no others.
pub proof fn lemma_year_range(start: CalendarDate, t: Timestamp)
    requires
        start.is_valid(),
        start.month == 1,
        start.day == 1,
        start.year < i32::MAX,
        t.date.is_valid(),
    ensures
        (DateRange { start, end: start.following_year() }).holds(t) <==> t.date.year
            == start.year,
{
    let end = start.following_year();
    let d = t.date;
    let ms = start.year * 256 + 1;
    let me = end.year * 256 + 1;
    let md = d.year * 256 + d.month;
    assert(start.ordinal() == ms * 256 + 1);
    assert(end.ordinal() == me * 256 + 1);
    assert(d.ordinal() == md * 256 + d.day);
    assert(start.ordinal() <= d.ordinal() < end.ordinal() <==> ms <= md < me);
}

} // verus!
