//! Notes: a text and the moment it was written.

use vstd::prelude::*;
use crate::calendar::Timestamp;
use crate::clock::local_now;
use crate::render::{render, report_text};

verus! {

/// A short text and the local time at which it was written down.
#[derive(Debug)]
pub struct Note {
    pub text: String,
    pub date: Timestamp,
}

/// What a note says and when, as plain mathematics.
pub ghost struct NoteView {
    pub text: Seq<char>,
    pub date: Timestamp,
}

impl View for Note {
    type V = NoteView;

    open spec fn view(&self) -> NoteView {
        NoteView { text: self.text@, date: self.date }
    }
}

/// The views of a list of notes, in the same order.
pub open spec fn views(notes: Seq<Note>) -> Seq<NoteView> {
    Seq::new(notes.len(), |i: int| notes[i]@)
}

impl Note {
    /// A note with the given text, written now by the local clock.
    pub fn new(text: String) -> (note: Note)
        ensures
            note.text@ == text@,
            note.date.is_clock_reading(),
    {
        Note::at(text, local_now())
    }

    /// A note with the given text, written at `date`.
    pub fn at(text: String, date: Timestamp) -> (note: Note)
        ensures
            note@ == (NoteView { text: text@, date }),
    {
        Note { text, date }
    }

    /// A second note that says the same and was written at the same moment.
    pub fn duplicate(&self) -> (copy: Note)
        ensures
            copy@ == self@,
    {
        Note { text: self.text.clone(), date: self.date }
    }
}

/// A collection of notes that can be written out as a report.
pub trait Print {
    /// The report that `print` writes.
    spec fn printed(&self) -> Seq<char>;

    /// Writes the notes out, grouped by day and by minute.
    fn print(self) -> (out: String)
        ensures
            out@ == self.printed(),
    ;
}

impl Print for Vec<Note> {
    open spec fn printed(&self) -> Seq<char> {
        report_text(views(self@))
    }

    fn print(self) -> (out: String) {
        render(&self)
    }
}

} // verus!
