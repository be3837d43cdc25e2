use bear_formatter::engine::ignore::IgnoreRanges;
use bear_formatter::engine::Rule;
use bear_formatter::rules::Whitespace;
fn apply(text: &str) -> String {
    Whitespace.apply(text, &IgnoreRanges::compute(text))
}

#[test]
fn collapses_internal_spaces() {
    assert_eq!(apply("a    b"), "a b");
}

#[test]
fn drops_space_before_punctuation() {
    assert_eq!(apply("hi , there !"), "hi, there!");
}

#[test]
fn preserves_leading_indent() {
    // Two spaces stays a list indent; four would be an indented code block.
    assert_eq!(apply("  - a  b"), "  - a b");
}

#[test]
fn keeps_hard_break_but_strips_single_trailing() {
    assert_eq!(apply("line  \nnext "), "line  \nnext");
}

#[test]
fn empties_whitespace_only_line() {
    assert_eq!(apply("a\n   \nb"), "a\n\nb");
}

#[test]
fn whitespace_is_idempotent() {
    let once = apply("x  ,  y   z !  ");
    assert_eq!(apply(&once), once);
}
