use chrono::Datelike;
use monolog::calendar::{CalendarDate, Timestamp};
use monolog::db::{compose_text, join_words, DB};
use monolog::text::{is_space, trim_text};
use monolog::error::Error;
use monolog::note::Note;
use monolog::range::DateRange;

fn at(year: i32, month: u8, day: u8, hour: u8, minute: u8, second: u8) -> Timestamp {
    Timestamp::new(year, month, day, hour, minute, second, 0, 0).unwrap()
}

fn words(list: &[&str]) -> Vec<String> {
    list.iter().map(|w| w.to_string()).collect()
}

fn texts(notes: &Vec<Note>) -> Vec<String> {
    notes.iter().map(|n| n.text.clone()).collect()
}

fn sample() -> DB {
    let mut db = DB::init(Vec::new());
    db.create_note_at(&words(&["new", "year"]), at(2023, 1, 1, 0, 0, 1));
    db.create_note_at(&words(&["leap", "day"]), at(2024, 2, 29, 12, 0, 0));
    db.create_note_at(&words(&["march"]), at(2024, 3, 1, 0, 0, 0));
    db.create_note_at(&words(&["morning"]), at(2024, 6, 15, 9, 5, 0));
    db.create_note_at(&words(&["evening"]), at(2024, 6, 15, 21, 0, 0));
    db.create_note_at(&words(&["next", "day"]), at(2024, 6, 16, 0, 0, 0));
    db
}

#[test]
fn words_are_joined_by_single_spaces() {
    assert_eq!(join_words(&words(&["buy", "milk", "today"])), "buy milk today");
    assert_eq!(join_words(&words(&["one"])), "one");
    assert_eq!(join_words(&words(&[])), "");
    assert_eq!(join_words(&words(&["a", "", "b"])), "a  b");
}

#[test]
fn the_text_of_a_note_is_the_trimmed_join() {
    assert_eq!(compose_text(&words(&["  padded", "note  "])), "padded note");
    assert_eq!(compose_text(&words(&["buy", "milk"])), "buy milk");
    assert_eq!(compose_text(&words(&["", "a", ""])), "a");
    assert_eq!(compose_text(&words(&["\tinner  space\n"])), "inner  space");
    assert_eq!(compose_text(&words(&["a ", " b"])), "a   b");
    assert_eq!(compose_text(&words(&[" ", " "])), "");
    assert_eq!(compose_text(&words(&[])), "");
}

#[test]
fn trimming_drops_white_space_at_both_ends_only() {
    assert_eq!(trim_text("  hello world  "), "hello world");
    assert_eq!(trim_text("hello"), "hello");
    assert_eq!(trim_text(""), "");
    assert_eq!(trim_text(" \t\r\n"), "");
    assert_eq!(trim_text("\u{a0}\u{3000}x\u{2003}y\u{2028}"), "x\u{2003}y");
    assert_eq!(trim_text("  \u{e9}t\u{e9} "), "\u{e9}t\u{e9}");
    assert_eq!(trim_text("x "), "x");
    assert_eq!(trim_text(" x"), "x");
}

#[test]
fn trimming_is_what_std_trims() {
    let samples: Vec<&str> = vec![
        "  padded note  ",
        "\u{1680}ogham\u{205f}",
        "\u{200b}zero width is kept\u{200b}",
        "\u{85}next line\u{202f}",
        "\u{1c}separators\u{1f}",
        "no space",
        "   ",
    ];
    for s in samples {
        assert_eq!(trim_text(s), s.trim());
    }
}

#[test]
fn white_space_is_what_unicode_counts_as_such() {
    let mut code: u32 = 0;
    while code <= 0x10FFFF {
        if let Some(c) = char::from_u32(code) {
            assert_eq!(is_space(c), c.is_whitespace());
        }
        code += 1;
    }
}

#[test]
fn a_created_note_has_the_trimmed_text() {
    let mut db = DB::init(Vec::new());
    db.create_note_at(&words(&["  padded", "note  "]), at(2024, 6, 15, 10, 0, 0));
    assert_eq!(db.rows().len(), 1);
    assert_eq!(db.rows()[0].text, "padded note");
    assert_eq!(db.rows()[0].date, at(2024, 6, 15, 10, 0, 0));
}

#[test]
fn last_goes_by_the_point_in_time_across_offsets() {
    let mut db = DB::init(Vec::new());
    let summer = Timestamp::new(2024, 10, 27, 2, 30, 0, 0, 7_200).unwrap();
    let winter = Timestamp::new(2024, 10, 27, 2, 10, 0, 0, 3_600).unwrap();
    db.create_note_at(&words(&["before", "the", "change"]), summer);
    db.create_note_at(&words(&["after", "the", "change"]), winter);
    assert_eq!(texts(&db.get_last_notes(&1)), vec!["after the change"]);
    assert_eq!(
        texts(&db.get_last_notes(&2)),
        vec!["after the change", "before the change"]
    );
}

#[test]
fn a_new_note_has_the_text_and_a_moment_of_now() {
    let before = chrono::Local::now();
    let note = Note::new("hello".to_string());
    let after = chrono::Local::now();
    assert_eq!(note.text, "hello");
    assert!(note.date.check());
    assert!(note.date.date.year == before.year() || note.date.date.year == after.year());
    assert!(
        note.date.date.month as u32 == before.month() || note.date.date.month as u32 == after.month()
    );
    assert!(note.date.date.day as u32 == before.day() || note.date.date.day as u32 == after.day());
    assert!(
        note.date.offset == before.offset().local_minus_utc()
            || note.date.offset == after.offset().local_minus_utc()
    );
}

#[test]
fn a_note_can_be_duplicated() {
    let note = Note::at("twice".to_string(), at(2024, 1, 1, 9, 5, 0));
    let copy = note.duplicate();
    assert_eq!(copy.text, "twice");
    assert_eq!(copy.date, note.date);
}

#[test]
fn init_holds_the_rows_given() {
    let rows = vec![
        Note::at("a".to_string(), at(2024, 1, 1, 9, 5, 0)),
        Note::at("b".to_string(), at(2024, 1, 2, 9, 5, 0)),
    ];
    let db = DB::init(rows);
    assert_eq!(texts(db.rows()), vec!["a", "b"]);
    assert_eq!(db.rows()[1].date, at(2024, 1, 2, 9, 5, 0));
}

#[test]
fn create_adds_one_row_at_the_end() {
    let mut db = sample();
    db.create_note_at(&words(&["last", "one"]), at(2024, 7, 1, 8, 0, 0));
    assert_eq!(db.rows().len(), 7);
    assert_eq!(db.rows()[6].text, "last one");
    assert_eq!(db.rows()[6].date, at(2024, 7, 1, 8, 0, 0));
    assert_eq!(db.rows()[0].text, "new year");
}

#[test]
fn a_created_note_is_among_the_notes_of_its_day() {
    let mut db = sample();
    db.create_note_at(&words(&["remember", "this"]), at(2024, 6, 15, 23, 59, 59));
    let found = db.notes_on(&CalendarDate::new(2024, 6, 15).unwrap());
    assert_eq!(texts(&found), vec!["morning", "evening", "remember this"]);
}

#[test]
fn a_note_created_now_is_among_todays_notes() {
    let mut db = sample();
    let before = chrono::Local::now().date_naive();
    db.create_note(&words(&["written", "just", "now"]));
    let found = db.get_todays_notes();
    let after = chrono::Local::now().date_naive();
    assert_eq!(db.rows().len(), 7);
    assert_eq!(db.rows()[6].text, "written just now");
    if before == after {
        assert_eq!(texts(&found), vec!["written just now"]);
    }
}

#[test]
fn notes_of_a_day_exclude_the_days_around_it() {
    let db = sample();
    let found = db.notes_on(&CalendarDate::new(2024, 2, 29).unwrap());
    assert_eq!(texts(&found), vec!["leap day"]);
    let none = db.notes_on(&CalendarDate::new(2024, 2, 28).unwrap());
    assert_eq!(none.len(), 0);
}

#[test]
fn last_zero_is_empty() {
    let db = sample();
    assert_eq!(db.get_last_notes(&0).len(), 0);
    let empty = DB::init(Vec::new());
    assert_eq!(empty.get_last_notes(&0).len(), 0);
    assert_eq!(empty.get_last_notes(&5).len(), 0);
}

#[test]
fn last_gives_the_newest_first_and_never_more_than_asked() {
    let db = sample();
    assert_eq!(texts(&db.get_last_notes(&1)), vec!["next day"]);
    assert_eq!(texts(&db.get_last_notes(&3)), vec!["next day", "evening", "morning"]);
    assert_eq!(db.get_last_notes(&6).len(), 6);
    assert_eq!(db.get_last_notes(&255).len(), 6);
    assert_eq!(
        texts(&db.get_last_notes(&255)),
        vec!["next day", "evening", "morning", "march", "leap day", "new year"]
    );
}

#[test]
fn last_goes_by_the_moment_and_not_by_the_row() {
    let mut db = DB::init(Vec::new());
    db.create_note_at(&words(&["noon"]), at(2024, 1, 1, 12, 0, 0));
    db.create_note_at(&words(&["dawn"]), at(2024, 1, 1, 6, 0, 0));
    db.create_note_at(&words(&["dusk"]), at(2024, 1, 1, 18, 0, 0));
    db.create_note_at(&words(&["dawn", "again"]), at(2024, 1, 1, 6, 0, 0));
    assert_eq!(texts(&db.get_last_notes(&2)), vec!["dusk", "noon"]);
    assert_eq!(texts(&db.get_last_notes(&4)), vec!["dusk", "noon", "dawn again", "dawn"]);
}

#[test]
fn notes_from_a_year() {
    let db = sample();
    let today = CalendarDate::new(2024, 6, 15).unwrap();
    let found = db.get_notes_from_at(&Some(2023), &None, &None, &today).unwrap();
    assert_eq!(texts(&found), vec!["new year"]);
    let all = db.get_notes_from_at(&Some(2024), &None, &None, &today).unwrap();
    assert_eq!(all.len(), 5);
}

#[test]
fn notes_from_a_month_of_the_current_year() {
    let db = sample();
    let today = CalendarDate::new(2024, 6, 15).unwrap();
    let found = db.get_notes_from_at(&None, &Some(2), &None, &today).unwrap();
    assert_eq!(texts(&found), vec!["leap day"]);
    let june = db.get_notes_from_at(&None, &Some(6), &None, &today).unwrap();
    assert_eq!(texts(&june), vec!["morning", "evening", "next day"]);
}

#[test]
fn notes_from_a_day_of_the_current_month() {
    let db = sample();
    let today = CalendarDate::new(2024, 6, 20).unwrap();
    let found = db.get_notes_from_at(&None, &None, &Some(15), &today).unwrap();
    assert_eq!(texts(&found), vec!["morning", "evening"]);
}

#[test]
fn notes_from_no_filter_are_all_notes() {
    let db = sample();
    let today = CalendarDate::new(2024, 6, 20).unwrap();
    let found = db.get_notes_from_at(&None, &None, &None, &today).unwrap();
    assert_eq!(found.len(), 6);
    assert_eq!(db.get_notes_from(&None, &None, &None).unwrap().len(), 6);
}

#[test]
fn notes_from_a_date_that_does_not_exist_fail() {
    let db = sample();
    let today = CalendarDate::new(2024, 6, 20).unwrap();
    let found = db.get_notes_from_at(&Some(2024), &Some(2), &Some(30), &today);
    assert_eq!(found.err(), Some(Error::InvalidDate));
    let by_the_clock = db.get_notes_from(&Some(2024), &Some(2), &Some(30));
    assert_eq!(by_the_clock.err(), Some(Error::InvalidDate));
}

#[test]
fn notes_from_a_full_date_by_the_clock() {
    let db = sample();
    let found = db.get_notes_from(&Some(2024), &Some(6), &Some(15)).unwrap();
    assert_eq!(texts(&found), vec!["morning", "evening"]);
}

#[test]
fn notes_within_a_window() {
    let db = sample();
    let window = DateRange {
        start: CalendarDate::new(2024, 2, 29).unwrap(),
        end: CalendarDate::new(2024, 6, 16).unwrap(),
    };
    let found = db.notes_within(&Some(window));
    assert_eq!(texts(&found), vec!["leap day", "march", "morning", "evening"]);
    assert_eq!(db.notes_within(&None).len(), 6);
}
