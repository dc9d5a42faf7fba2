//! A personal journal: short timestamped notes, selected by calendar day and
//! rendered grouped by day and by minute.
//!
//! - [`calendar`]: days, minutes and moments of local time, and their order.
//! - [`range`]: date filters and the half-open ranges of days they stand for.
//! - [`note`]: a note, and the `Print` trait that writes notes out.
//! - [`render`]: the report, its definition and the laws it obeys.
//! - [`db`]: the table of notes: adding a note, and reading by day, by
//!   filter and by recency.
//! - [`command`]: the journal's commands.
//! - [`text`]: numbers, days and minutes as text.
//! - [`clock`]: the local wall clock.
//! - [`error`]: what can go wrong.

pub mod calendar;
pub mod clock;
pub mod command;
pub mod db;
pub mod error;
pub mod note;
pub mod range;
pub mod render;
pub mod text;
