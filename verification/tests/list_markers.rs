use bear_formatter::engine::ignore::IgnoreRanges;
use bear_formatter::engine::Rule;
use bear_formatter::rules::ListMarkers;
fn apply(text: &str) -> String {
    ListMarkers.apply(text, &IgnoreRanges::compute(text))
}

#[test]
fn normalizes_bullets_to_dash() {
    assert_eq!(apply("* a\n+ b\n• c"), "- a\n- b\n- c");
}

#[test]
fn one_space_after_marker() {
    assert_eq!(apply("-    x"), "- x");
}

#[test]
fn preserves_todos_and_ordered_numbers() {
    assert_eq!(apply("- [ ] task\n3. third"), "- [ ] task\n3. third");
}

#[test]
fn drops_empty_items_and_collapses_duplicates() {
    assert_eq!(apply("- \n- - real"), "- real");
}

#[test]
fn leaves_emphasis_alone() {
    assert_eq!(apply("*emphasis* text"), "*emphasis* text");
}

#[test]
fn list_markers_is_idempotent() {
    let once = apply("*  a\n- - b\n1.   c");
    assert_eq!(apply(&once), once);
}
