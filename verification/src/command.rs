//! The journal's commands, and what each does to the table.

use vstd::prelude::*;
use crate::calendar::Timestamp;
use crate::clock::local_now;
use crate::db::{latest, note_text, on_day, within, word_views, DB};
use crate::error::Error;
use crate::note::{NoteView, Print};
use crate::range::DateFilter;
use crate::render::report_text;

verus! {

/// One thing to do with the journal.
#[derive(Debug)]
pub enum Commands {
    /// Write a note down: the words, joined by spaces and trimmed.
    Add { input: Vec<String> },
    /// Show the newest notes, as many as given.
    Last { no_notes: u8 },
    /// Show the notes of today.
    Today {},
    /// Show the notes of a year, a month or a day.
    From { year: Option<u16>, month: Option<u8>, day: Option<u8> },
}

impl Commands {
    /// Whether running the command at the moment `now` on a table that
    /// holds `before` may leave the table holding `after` and hand back `out`.
    ///
    /// `Add` adds one note and shows nothing. The others leave the table as
    /// it is and show the report on the notes they select; `From` fails where
    /// its filter has no range.
    pub open spec fn outcome(
        self,
        before: Seq<NoteView>,
        now: Timestamp,
        after: Seq<NoteView>,
        out: Result<String, Error>,
    ) -> bool {
        match self {
            Commands::Add { input } => {
                &&& after == before.push(
                    NoteView { text: note_text(word_views(input@)), date: now },
                )
                &&& out matches Ok(shown) && shown@ == Seq::<char>::empty()
            },
            Commands::Last { no_notes } => {
                &&& after == before
                &&& out matches Ok(shown) && shown@ == report_text(latest(before, no_notes as nat))
            },
            Commands::Today {} => {
                &&& after == before
                &&& out matches Ok(shown) && shown@ == report_text(on_day(before, now.date))
            },
            Commands::From { year, month, day } => {
                &&& after == before
                &&& match (DateFilter { year, month, day }).range_spec(now.date) {
                    Ok(window) => out matches Ok(shown) && shown@ == report_text(
                        within(before, window),
                    ),
                    Err(e) => out matches Err(x) && x == e,
                }
            },
        }
    }

    /// Runs the command at the moment `now`, and hands back what to show.
    pub fn exec_at(&self, db: &mut DB, now: Timestamp) -> (out: Result<String, Error>)
        ensures
            self.outcome(old(db)@, now, final(db)@, out),
    {
        match self {
            Commands::Add { input } => {
                db.create_note_at(input, now);
                Ok(String::new())
            },
            Commands::Last { no_notes } => {
                let notes = db.get_last_notes(no_notes);
                Ok(notes.print())
            },
            Commands::Today {} => {
                let notes = db.notes_on(&now.date);
                Ok(notes.print())
            },
            Commands::From { year, month, day } => {
                let notes = db.get_notes_from_at(year, month, day, &now.date)?;
                Ok(notes.print())
            },
        }
    }

    /// Runs the command now by the local clock, and hands back what to show.
    pub fn exec(&self, db: &mut DB) -> (out: Result<String, Error>)
        ensures
            exists|now: Timestamp|
                now.is_clock_reading() && #[trigger] self.outcome(old(db)@, now, final(db)@, out),
    {
        let now = local_now();
        self.exec_at(db, now)
    }
}

} // verus!
