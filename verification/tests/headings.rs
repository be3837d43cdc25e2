use bear_formatter::engine::ignore::IgnoreRanges;
use bear_formatter::engine::Rule;
use bear_formatter::rules::Headings;
fn apply(text: &str) -> String {
    Headings.apply(text, &IgnoreRanges::compute(text))
}

#[test]
fn collapses_spaces_after_hashes() {
    assert_eq!(apply("##   Foo"), "## Foo");
}

#[test]
fn strips_leading_indent_and_trailing_punctuation() {
    assert_eq!(apply("  # Hello!"), "# Hello");
}

#[test]
fn leaves_tags_alone() {
    assert_eq!(apply("#tag not a heading"), "#tag not a heading");
}

#[test]
fn headings_is_idempotent() {
    let once = apply("###  Title:  ");
    assert_eq!(apply(&once), once);
}
