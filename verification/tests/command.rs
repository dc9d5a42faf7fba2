use monolog::calendar::Timestamp;
use monolog::command::Commands;
use monolog::db::DB;
use monolog::error::Error;

fn at(year: i32, month: u8, day: u8, hour: u8, minute: u8) -> Timestamp {
    Timestamp::new(year, month, day, hour, minute, 0, 0, 0).unwrap()
}

fn add(db: &mut DB, text: &str, now: Timestamp) {
    let input: Vec<String> = text.split(' ').map(|w| w.to_string()).collect();
    let shown = Commands::Add { input }.exec_at(db, now);
    assert_eq!(shown, Ok(String::new()));
}

fn journal() -> DB {
    let mut db = DB::init(Vec::new());
    add(&mut db, "A", at(2024, 1, 1, 9, 5));
    add(&mut db, "B", at(2024, 1, 1, 9, 5));
    add(&mut db, "C", at(2024, 1, 2, 10, 0));
    db
}

#[test]
fn add_writes_a_note_and_shows_nothing() {
    let mut db = DB::init(Vec::new());
    let input = vec!["buy".to_string(), "milk".to_string()];
    let shown = Commands::Add { input }.exec_at(&mut db, at(2024, 1, 1, 9, 5));
    assert_eq!(shown, Ok(String::new()));
    assert_eq!(db.rows().len(), 1);
    assert_eq!(db.rows()[0].text, "buy milk");
    assert_eq!(db.rows()[0].date, at(2024, 1, 1, 9, 5));
}

#[test]
fn add_trims_the_text() {
    let mut db = DB::init(Vec::new());
    let input = vec!["  padded".to_string(), "note  ".to_string()];
    let shown = Commands::Add { input }.exec_at(&mut db, at(2024, 6, 15, 10, 0));
    assert_eq!(shown, Ok(String::new()));
    assert_eq!(db.rows().len(), 1);
    assert_eq!(db.rows()[0].text, "padded note");
}

#[test]
fn from_without_a_filter_shows_the_whole_journal() {
    let mut db = journal();
    let shown = Commands::From { year: None, month: None, day: None }
        .exec_at(&mut db, at(2024, 1, 3, 12, 0));
    assert_eq!(
        shown,
        Ok("# 2024-01-01\n\n## 09:05\n\n> A\n> B\n\n# 2024-01-02\n\n## 10:00\n\n> C\n\n".to_string())
    );
    assert_eq!(db.rows().len(), 3);
}

#[test]
fn from_a_day_shows_that_day() {
    let mut db = journal();
    let shown = Commands::From { year: None, month: None, day: Some(2) }
        .exec_at(&mut db, at(2024, 1, 3, 12, 0));
    assert_eq!(shown, Ok("# 2024-01-02\n\n## 10:00\n\n> C\n\n".to_string()));
}

#[test]
fn from_a_date_that_does_not_exist_fails() {
    let mut db = journal();
    let shown = Commands::From { year: Some(2024), month: Some(2), day: Some(30) }
        .exec_at(&mut db, at(2024, 1, 3, 12, 0));
    assert_eq!(shown, Err(Error::InvalidDate));
    let by_the_clock =
        Commands::From { year: Some(2024), month: Some(2), day: Some(30) }.exec(&mut db);
    assert_eq!(by_the_clock, Err(Error::InvalidDate));
}

#[test]
fn today_shows_the_notes_of_the_day() {
    let mut db = journal();
    let shown = Commands::Today {}.exec_at(&mut db, at(2024, 1, 1, 23, 0));
    assert_eq!(shown, Ok("# 2024-01-01\n\n## 09:05\n\n> A\n> B\n\n".to_string()));
    let none = Commands::Today {}.exec_at(&mut db, at(2024, 1, 3, 0, 0));
    assert_eq!(none, Ok(String::new()));
}

#[test]
fn last_shows_the_newest_notes_in_chronological_order() {
    let mut db = journal();
    let shown = Commands::Last { no_notes: 2 }.exec_at(&mut db, at(2024, 1, 3, 12, 0));
    assert_eq!(
        shown,
        Ok("# 2024-01-01\n\n## 09:05\n\n> B\n\n# 2024-01-02\n\n## 10:00\n\n> C\n\n".to_string())
    );
    let nothing = Commands::Last { no_notes: 0 }.exec(&mut db);
    assert_eq!(nothing, Ok(String::new()));
}

#[test]
fn add_by_the_clock_then_last_shows_the_note() {
    let mut db = DB::init(Vec::new());
    let input = vec!["just".to_string(), "now".to_string()];
    assert_eq!(Commands::Add { input }.exec(&mut db), Ok(String::new()));
    assert_eq!(db.rows().len(), 1);
    assert!(db.rows()[0].date.check());
    let shown = Commands::Last { no_notes: 1 }.exec(&mut db).unwrap();
    assert!(shown.ends_with("\n\n> just now\n\n"));
    assert!(shown.starts_with("# "));
}
