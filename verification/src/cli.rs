//! The decisions the command line makes: which notes to format, which
//! database to read, and what to report.

use crate::bear::{Note, Selector};
use crate::config::Config;
use crate::engine::{run_rules, Formatter};
use std::path::PathBuf;
use vstd::prelude::*;

verus! {

/// The selector the target options name: a note, else a tag, else the whole
/// database when `all` is set, else none.
pub fn selector_from(note: Option<String>, tag: Option<String>, all: bool) -> (selector: Option<Selector>)
    ensures
        match note {
            Some(identifier) => selector == Some(Selector::Note(identifier)),
            None => match tag {
                Some(t) => selector == Some(Selector::Tag(t)),
                None => if all {
                    selector == Some(Selector::All)
                } else {
                    selector is None
                },
            },
        },
{
    if let Some(identifier) = note {
        return Some(Selector::Note(identifier));
    }
    if let Some(t) = tag {
        return Some(Selector::Tag(t));
    }
    if all {
        return Some(Selector::All);
    }
    None
}

/// The database to read: the one given on the command line, else the one the
/// configuration names, else Bear's default location (if it is known).
pub fn resolve_database_path(
    cli_database: Option<PathBuf>,
    config: Config,
    default_path: Option<PathBuf>,
) -> (path: Option<PathBuf>)
    ensures
        path == match cli_database {
            Some(p) => Some(p),
            None => match config.database {
                Some(p) => Some(p),
                None => default_path,
            },
        },
{
    if let Some(p) = cli_database {
        return Some(p);
    }
    if let Some(p) = config.database {
        return Some(p);
    }
    default_path
}

/// Whether formatting the note would change its text.
pub fn would_change(formatter: &Formatter, note: &Note) -> (changed: bool)
    ensures
        changed == (run_rules(formatter@, note.text@) != note.text@),
{
    let formatted = formatter.format(note.text.as_str());
    !(formatted == note.text)
}

/// The indices of the notes that formatting would change, in order.
pub fn changed_notes(formatter: &Formatter, notes: &Vec<Note>) -> (changed: Vec<usize>)
    ensures
        forall|k: int| 0 <= k < changed@.len() ==> #[trigger] changed@[k] < notes@.len(),
        forall|k: int, m: int| 0 <= k < m < changed@.len() ==> changed@[k] < changed@[m],
        forall|i: int|
            0 <= i < notes@.len() ==> (changed@.contains(i as usize) <==> run_rules(
                formatter@,
                #[trigger] notes@[i].text@,
            ) != notes@[i].text@),
{
    let mut changed: Vec<usize> = Vec::new();
    let mut i: usize = 0;
    while i < notes.len()
        invariant
            i <= notes@.len(),
            forall|k: int| 0 <= k < changed@.len() ==> #[trigger] changed@[k] < i,
            forall|k: int, m: int| 0 <= k < m < changed@.len() ==> changed@[k] < changed@[m],
            forall|j: int|
                0 <= j < i ==> (changed@.contains(j as usize) <==> run_rules(
                    formatter@,
                    #[trigger] notes@[j].text@,
                ) != notes@[j].text@),
        decreases notes.len() - i,
    {
        let ghost before = changed@;
        if would_change(formatter, &notes[i]) {
            changed.push(i);
        }
        proof {
            assert forall|j: int|
                0 <= j <= i implies (changed@.contains(j as usize) <==> run_rules(
                formatter@,
                #[trigger] notes@[j].text@,
            ) != notes@[j].text@) by {
                if j < i {
                    if before.contains(j as usize) {
                        let k = choose|k: int| 0 <= k < before.len() && before[k] == j as usize;
                        assert(changed@[k] == j as usize);
                    }
                    if changed@.contains(j as usize) {
                        let k = choose|k: int| 0 <= k < changed@.len() && changed@[k] == j as usize;
                        if k == before.len() {
                            assert(changed@[k] == i);
                        } else {
                            assert(before[k] == j as usize);
                        }
                    }
                } else {
                    if changed@.len() > before.len() {
                        assert(changed@[before.len() as int] == i);
                    }
                    if changed@.contains(i) {
                        let k = choose|k: int| 0 <= k < changed@.len() && changed@[k] == i;
                        if k < before.len() {
                            assert(before[k] < i);
                        }
                    }
                }
            }
        }
        i = i + 1;
    }
    changed
}

/// The title shown for a note: its own, or `(untitled)` when it has none.
pub fn display_title(title: &str) -> (shown: &str)
    ensures
        title@.len() == 0 ==> shown@ == "(untitled)"@,
        title@.len() > 0 ==> shown@ == title@,
{
    if title.is_empty() {
        "(untitled)"
    } else {
        title
    }
}

} // verus!
