//! A notebook in one plain-text file: entries with the time they were
//! written and the sentiment of their text, which can be listed, read,
//! edited, deleted and searched.
//!
//! The library holds the stored form of an entry and the notebook in
//! memory. It reads and writes no files and asks the user nothing: a caller
//! hands it the text of the file and what the user answered, and gets back
//! what to show and what to store.
//!
//! - [`entry`]: an entry and the block of text that stores it.
//! - [`notebook`]: the entries in their order; loading, listing, reading,
//!   editing, deleting, searching, storing.
//! - [`round_trip`]: what is stored is read back as it was.
//! - [`sentiment`]: compound scores, in thousandths, and their tiers.
//! - [`timestamp`]: dates and times, written and read by chrono.
//! - [`pattern`]: search patterns, matched by the regex crate.
//! - [`style`]: emphasis on the terminal, by ansi_term.
//! - [`confirm`]: questions to the user and the reading of an answer.
//! - [`error`]: the errors of the notebook.
//! - [`text`]: sequences of characters: trimming, finding, splitting,
//!   decimal numbers.

pub mod confirm;
pub mod entry;
pub mod error;
pub mod notebook;
pub mod pattern;
pub mod round_trip;
pub mod sentiment;
pub mod style;
pub mod text;
pub mod timestamp;
