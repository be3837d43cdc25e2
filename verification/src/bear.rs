//! The notes a run works on, as read from a Bear database.
//!
//! Bear stores each note's canonical Markdown in `ZSFNOTE.ZTEXT`; titles and
//! the rest are derived caches. Reading the database happens at the edge of
//! the program; this module holds the plain values that come out of it.

use vstd::prelude::*;

verus! {

/// One Bear note selected for formatting.
pub struct Note {
    /// Bear's stable unique identifier for the note.
    pub identifier: String,
    /// The note's title (its first line), for display.
    pub title: String,
    /// The note's canonical Markdown.
    pub text: String,
}

/// What to format.
pub enum Selector {
    /// A single note, by unique identifier.
    Note(String),
    /// Every note under a tag, including nested tags.
    Tag(String),
    /// The whole database.
    All,
}

} // verus!
