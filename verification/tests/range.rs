use monolog::calendar::{CalendarDate, Timestamp};
use monolog::error::Error;
use monolog::range::{DateFilter, DateRange};

fn day(year: i32, month: u8, day: u8) -> CalendarDate {
    CalendarDate::new(year, month, day).unwrap()
}

fn range(start: CalendarDate, end: CalendarDate) -> Result<Option<DateRange>, Error> {
    Ok(Some(DateRange { start, end }))
}

#[test]
fn a_year_alone_spans_the_year() {
    let filter = DateFilter { year: Some(2024), month: None, day: None };
    assert_eq!(filter.range(&day(2030, 6, 10)), range(day(2024, 1, 1), day(2025, 1, 1)));
}

#[test]
fn a_month_alone_is_of_the_current_year() {
    let filter = DateFilter { year: None, month: Some(3), day: None };
    assert_eq!(filter.range(&day(2024, 6, 10)), range(day(2024, 3, 1), day(2024, 4, 1)));
}

#[test]
fn a_day_alone_is_of_the_current_month_and_year() {
    let filter = DateFilter { year: None, month: None, day: Some(15) };
    assert_eq!(filter.range(&day(2024, 6, 10)), range(day(2024, 6, 15), day(2024, 6, 16)));
}

#[test]
fn no_filter_is_unrestricted() {
    let filter = DateFilter { year: None, month: None, day: None };
    assert_eq!(filter.range(&day(2024, 6, 10)), Ok(None));
}

#[test]
fn a_year_and_a_month_span_the_month() {
    let filter = DateFilter { year: Some(2023), month: Some(12), day: None };
    assert_eq!(filter.range(&day(2024, 6, 10)), range(day(2023, 12, 1), day(2024, 1, 1)));
    let february = DateFilter { year: Some(2024), month: Some(2), day: None };
    assert_eq!(february.range(&day(2024, 6, 10)), range(day(2024, 2, 1), day(2024, 3, 1)));
}

#[test]
fn a_full_date_spans_that_day() {
    let filter = DateFilter { year: Some(2024), month: Some(2), day: Some(29) };
    assert_eq!(filter.range(&day(2030, 6, 10)), range(day(2024, 2, 29), day(2024, 3, 1)));
    let last = DateFilter { year: Some(2024), month: Some(12), day: Some(31) };
    assert_eq!(last.range(&day(2030, 6, 10)), range(day(2024, 12, 31), day(2025, 1, 1)));
}

#[test]
fn a_year_and_a_day_take_the_current_month() {
    let filter = DateFilter { year: Some(2020), month: None, day: Some(7) };
    assert_eq!(filter.range(&day(2024, 6, 10)), range(day(2020, 6, 7), day(2020, 6, 8)));
}

#[test]
fn a_month_and_a_day_take_the_current_year() {
    let filter = DateFilter { year: None, month: Some(3), day: Some(31) };
    assert_eq!(filter.range(&day(2024, 6, 10)), range(day(2024, 3, 31), day(2024, 4, 1)));
}

#[test]
fn a_date_that_does_not_exist_is_an_invalid_date() {
    let today = day(2024, 6, 10);
    let filter = DateFilter { year: Some(2024), month: Some(2), day: Some(30) };
    assert_eq!(filter.range(&today), Err(Error::InvalidDate));
    let thirty_first = DateFilter { year: None, month: None, day: Some(31) };
    assert_eq!(thirty_first.range(&today), Err(Error::InvalidDate));
    let month = DateFilter { year: Some(2024), month: Some(13), day: None };
    assert_eq!(month.range(&today), Err(Error::InvalidDate));
    let zero = DateFilter { year: None, month: Some(0), day: None };
    assert_eq!(zero.range(&today), Err(Error::InvalidDate));
    let no_day = DateFilter { year: None, month: None, day: Some(0) };
    assert_eq!(no_day.range(&today), Err(Error::InvalidDate));
    let not_leap = DateFilter { year: Some(2023), month: Some(2), day: Some(29) };
    assert_eq!(not_leap.range(&today), Err(Error::InvalidDate));
}

#[test]
fn the_largest_year_of_a_filter_has_a_range() {
    let filter = DateFilter { year: Some(65535), month: None, day: None };
    assert_eq!(filter.range(&day(2024, 6, 10)), range(day(65535, 1, 1), day(65536, 1, 1)));
}

#[test]
fn a_range_beyond_the_last_year_is_an_invalid_date() {
    let filter = DateFilter { year: None, month: Some(12), day: Some(31) };
    assert_eq!(filter.range(&day(i32::MAX, 6, 10)), Err(Error::InvalidDate));
}

#[test]
fn a_range_holds_its_first_day_and_not_its_end() {
    let r = DateRange { start: day(2024, 3, 1), end: day(2024, 4, 1) };
    assert!(r.contains(&Timestamp::new(2024, 3, 1, 0, 0, 0, 0, 0).unwrap()));
    assert!(r.contains(&Timestamp::new(2024, 3, 31, 23, 59, 59, 999_999_999, 0).unwrap()));
    assert!(!r.contains(&Timestamp::new(2024, 4, 1, 0, 0, 0, 0, 0).unwrap()));
    assert!(!r.contains(&Timestamp::new(2024, 2, 29, 23, 59, 59, 0, 0).unwrap()));
    assert!(!r.contains(&Timestamp::new(2023, 3, 15, 12, 0, 0, 0, 0).unwrap()));
}
