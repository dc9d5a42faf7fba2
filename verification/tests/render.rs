use monolog::calendar::{CalendarDate, Slot, Timestamp};
use monolog::note::{Note, Print};
use monolog::render::{occupied_slots, render};
use monolog::text::{push_date, push_decimal, push_minute};

fn note(text: &str, year: i32, month: u8, day: u8, hour: u8, minute: u8, second: u8) -> Note {
    Note::at(text.to_string(), Timestamp::new(year, month, day, hour, minute, second, 0, 0).unwrap())
}

fn date_text(year: i32, month: u8, day: u8) -> String {
    let mut out = String::new();
    push_date(&mut out, &CalendarDate { year, month, day });
    out
}

#[test]
fn end_to_end_report() {
    let notes = vec![
        note("A", 2024, 1, 1, 9, 5, 0),
        note("B", 2024, 1, 1, 9, 5, 30),
        note("C", 2024, 1, 2, 10, 0, 0),
    ];
    assert_eq!(
        render(&notes),
        "# 2024-01-01\n\n## 09:05\n\n> A\n> B\n\n# 2024-01-02\n\n## 10:00\n\n> C\n\n"
    );
}

#[test]
fn print_writes_the_report() {
    let notes = vec![note("A", 2024, 1, 1, 9, 5, 0), note("C", 2024, 1, 2, 10, 0, 0)];
    assert_eq!(
        notes.print(),
        "# 2024-01-01\n\n## 09:05\n\n> A\n\n# 2024-01-02\n\n## 10:00\n\n> C\n\n"
    );
}

#[test]
fn no_notes_give_an_empty_report() {
    let notes: Vec<Note> = Vec::new();
    assert_eq!(render(&notes), "");
}

#[test]
fn rendering_twice_gives_the_same_report() {
    let notes = vec![
        note("one", 2024, 5, 17, 8, 0, 0),
        note("two", 2024, 5, 17, 8, 0, 1),
        note("three", 2023, 11, 2, 23, 59, 0),
    ];
    let first = render(&notes);
    let second = render(&notes);
    assert_eq!(first, second);
}

#[test]
fn the_report_is_chronological_whatever_the_order_of_the_notes() {
    let newest_first = vec![
        note("C", 2024, 1, 2, 10, 0, 0),
        note("late", 2024, 1, 1, 17, 30, 0),
        note("A", 2024, 1, 1, 9, 5, 0),
    ];
    let oldest_first = vec![
        note("A", 2024, 1, 1, 9, 5, 0),
        note("late", 2024, 1, 1, 17, 30, 0),
        note("C", 2024, 1, 2, 10, 0, 0),
    ];
    let expected =
        "# 2024-01-01\n\n## 09:05\n\n> A\n\n## 17:30\n\n> late\n\n# 2024-01-02\n\n## 10:00\n\n> C\n\n";
    assert_eq!(render(&newest_first), expected);
    assert_eq!(render(&oldest_first), expected);
}

#[test]
fn notes_of_one_minute_share_a_heading_in_the_order_given() {
    let notes = vec![
        note("first", 2024, 1, 1, 9, 5, 59),
        note("between", 2024, 1, 1, 9, 6, 0),
        note("second", 2024, 1, 1, 9, 5, 0),
    ];
    assert_eq!(
        render(&notes),
        "# 2024-01-01\n\n## 09:05\n\n> first\n> second\n\n## 09:06\n\n> between\n\n"
    );
}

#[test]
fn the_same_minute_on_two_days_has_two_headings() {
    let notes = vec![note("x", 2024, 1, 2, 9, 5, 0), note("y", 2024, 1, 1, 9, 5, 0)];
    assert_eq!(
        render(&notes),
        "# 2024-01-01\n\n## 09:05\n\n> y\n\n# 2024-01-02\n\n## 09:05\n\n> x\n\n"
    );
}

#[test]
fn midnight_is_written_with_zeros() {
    let notes = vec![note("night", 2024, 10, 9, 0, 0, 0)];
    assert_eq!(render(&notes), "# 2024-10-09\n\n## 00:00\n\n> night\n\n");
}

#[test]
fn occupied_slots_are_distinct_and_ascending() {
    let notes = vec![
        note("C", 2024, 1, 2, 10, 0, 0),
        note("A", 2024, 1, 1, 9, 5, 0),
        note("B", 2024, 1, 1, 9, 5, 30),
    ];
    let first = CalendarDate::new(2024, 1, 1).unwrap();
    let second = CalendarDate::new(2024, 1, 2).unwrap();
    assert_eq!(
        occupied_slots(&notes),
        vec![
            Slot { day: first, hour: 9, minute: 5 },
            Slot { day: second, hour: 10, minute: 0 },
        ]
    );
}

#[test]
fn decimal_text() {
    let mut out = String::from("n=");
    push_decimal(&mut out, 0);
    push_decimal(&mut out, 7);
    push_decimal(&mut out, 1203);
    push_decimal(&mut out, u64::MAX);
    assert_eq!(out, "n=07120318446744073709551615");
}

#[test]
fn minute_text_is_zero_padded() {
    let day = CalendarDate::new(2024, 1, 1).unwrap();
    let mut out = String::new();
    push_minute(&mut out, &Slot { day, hour: 9, minute: 5 });
    push_minute(&mut out, &Slot { day, hour: 23, minute: 59 });
    assert_eq!(out, "09:0523:59");
}

#[test]
fn date_text_pads_and_signs_the_year() {
    assert_eq!(date_text(2024, 1, 2), "2024-01-02");
    assert_eq!(date_text(987, 12, 31), "0987-12-31");
    assert_eq!(date_text(0, 1, 1), "0000-01-01");
    assert_eq!(date_text(9999, 12, 31), "9999-12-31");
    assert_eq!(date_text(10000, 1, 1), "+10000-01-01");
    assert_eq!(date_text(-1, 1, 1), "-0001-01-01");
    assert_eq!(date_text(-12345, 6, 7), "-12345-06-07");
}

#[test]
fn date_text_is_what_chrono_shows() {
    let days: Vec<(i32, u8, u8)> = vec![
        (2024, 1, 1),
        (2024, 2, 29),
        (1999, 12, 31),
        (1, 1, 1),
        (0, 6, 15),
        (9999, 12, 31),
        (10000, 1, 1),
        (262142, 12, 31),
        (-1, 3, 4),
        (-999, 10, 20),
        (-9999, 1, 1),
        (-262143, 1, 1),
    ];
    for (year, month, day) in days {
        let shown = chrono::NaiveDate::from_ymd_opt(year, month as u32, day as u32)
            .unwrap()
            .to_string();
        assert_eq!(date_text(year, month, day), shown);
    }
}
