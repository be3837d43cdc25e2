use bear_formatter::engine::ignore::IgnoreRanges;
use bear_formatter::engine::Rule;
use bear_formatter::rules::FinalNewline;
fn apply(text: &str) -> String {
    FinalNewline.apply(text, &IgnoreRanges::compute(text))
}

#[test]
fn adds_a_missing_newline() {
    assert_eq!(apply("hello"), "hello\n");
}

#[test]
fn collapses_extra_newlines() {
    assert_eq!(apply("hello\n\n\n"), "hello\n");
}

#[test]
fn keeps_a_single_newline() {
    assert_eq!(apply("hello\n"), "hello\n");
}

#[test]
fn leaves_an_empty_note_empty() {
    assert_eq!(apply(""), "");
}
