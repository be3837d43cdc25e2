//! Contract tests exercised through the public library API.

use bear_formatter::engine::{Formatter, Rule};
use bear_formatter::rules;

fn format(text: &str) -> String {
    Formatter::new(rules::all()).format(text)
}

#[test]
fn adds_a_missing_final_newline() {
    assert_eq!(format("hello"), "hello\n");
}

#[test]
fn collapses_extra_trailing_newlines() {
    assert_eq!(format("hello\n\n\n"), "hello\n");
}

#[test]
fn leaves_well_formed_text_untouched() {
    let text = "# Title\n\nBody.\n";
    assert_eq!(format(text), text);
}

/// The defining property of a formatter: running it twice changes nothing the
/// first run didn't.
#[test]
fn integration_is_idempotent() {
    let once = format("messy note\n\n\n");
    assert_eq!(format(&once), once);
}

#[test]
fn formatting_a_heading_with_layered_punctuation_twice_is_formatting_it_once() {
    let once = format("# Title:\t!\n");
    assert_eq!(once, "# Title\n");
    assert_eq!(format(&once), once);
}

#[test]
fn formatting_rules_named_in_order() {
    let names: Vec<&str> = rules::all().iter().map(|rule| rule.name()).collect();
    assert_eq!(
        names,
        vec![
            "line-endings", "typography", "whitespace", "horizontal-rules", "headings",
            "list-markers", "footnotes", "tags", "title-case", "heading-levels", "tables",
            "layout", "final-newline",
        ]
    );
}
