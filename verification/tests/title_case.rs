use bear_formatter::engine::ignore::IgnoreRanges;
use bear_formatter::engine::Rule;
use bear_formatter::rules::TitleCase;
fn apply(text: &str) -> String {
    TitleCase.apply(text, &IgnoreRanges::compute(text))
}

#[test]
fn title_cases_the_first_heading() {
    assert_eq!(apply("# the quick brown fox"), "# The Quick Brown Fox");
}

#[test]
fn keeps_interior_capitals_and_lowercases_small_words() {
    assert_eq!(
        apply("# the URL of an API spec"),
        "# The URL of an API Spec"
    );
}

#[test]
fn leaves_non_first_headings_and_prose_alone() {
    assert_eq!(
        apply("intro\n# a later heading"),
        "intro\n# a later heading"
    );
    assert_eq!(
        apply("# first\n## second heading"),
        "# First\n## second heading"
    );
}

#[test]
fn title_case_is_idempotent() {
    let once = apply("# a study of the iPhone URL scheme");
    assert_eq!(apply(&once), once);
}

#[test]
fn title_keeps_whitespace_inside_inline_code() {
    assert_eq!(apply("# x `a  b` y"), "# X `a  b` Y");
    assert_eq!(apply("# the `for  in` loop"), "# The `for  in` Loop");
}
