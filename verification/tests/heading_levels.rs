use bear_formatter::engine::ignore::IgnoreRanges;
use bear_formatter::engine::Rule;
use bear_formatter::rules::HeadingLevels;
fn apply(text: &str) -> String {
    HeadingLevels.apply(text, &IgnoreRanges::compute(text))
}

#[test]
fn promotes_biggest_to_h1_when_opening_with_a_heading() {
    assert_eq!(apply("### A\n#### B"), "# A\n## B");
}

#[test]
fn promotes_biggest_to_h2_when_opening_with_text() {
    assert_eq!(
        apply("Intro.\n### Section\n#### Sub"),
        "Intro.\n## Section\n### Sub"
    );
}

#[test]
fn demotes_a_late_h1_under_the_implicit_title() {
    assert_eq!(
        apply("Title text\n# Big\n## Small"),
        "Title text\n## Big\n### Small"
    );
}

#[test]
fn clamps_deeper_jumps() {
    assert_eq!(apply("# A\n### B"), "# A\n## B");
}

#[test]
fn keeps_multiple_h1s() {
    assert_eq!(apply("# A\n# B"), "# A\n# B");
}

#[test]
fn leaves_headingless_notes_alone() {
    assert_eq!(apply("just text\nmore"), "just text\nmore");
}

#[test]
fn heading_levels_is_idempotent() {
    let once = apply("Intro\n## A\n#### B\n### C");
    assert_eq!(apply(&once), once);
}
