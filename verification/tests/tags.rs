use bear_formatter::engine::ignore::IgnoreRanges;
use bear_formatter::engine::Rule;
use bear_formatter::rules::Tags;
fn apply(text: &str) -> String {
    Tags.apply(text, &IgnoreRanges::compute(text))
}

#[test]
fn moves_pure_tag_line_under_heading_sorted() {
    assert_eq!(
        apply("# Groceries\nMilk.\n#shopping #errands"),
        "# Groceries\n#errands #shopping\nMilk."
    );
}

#[test]
fn moves_to_top_when_no_heading() {
    assert_eq!(apply("Body.\n#note"), "#note\nBody.");
}

#[test]
fn moves_a_tag_with_a_date_to_the_top() {
    assert_eq!(
        apply("# Dialpad\nnotes here\n#media/meeting 4/10/2023"),
        "# Dialpad\n#media/meeting 4/10/2023\nnotes here"
    );
}

#[test]
fn splits_a_multi_tag_line() {
    assert_eq!(
        apply("#idea a feature #todo write it"),
        "#idea a feature\n#todo write it"
    );
}

#[test]
fn strips_redundant_closing_hash() {
    assert_eq!(apply("#project#"), "#project");
}

#[test]
fn leaves_body_tags_alone() {
    assert_eq!(apply("see #ref in text"), "see #ref in text");
}

#[test]
fn tags_is_idempotent() {
    let once = apply("# T\nbody\n#b #a\n#c stuff #d more");
    assert_eq!(apply(&once), once);
}

#[test]
fn keeps_the_spacing_inside_code_on_a_tag_line() {
    assert_eq!(apply("#a `x  y`"), "#a `x  y`");
    assert_eq!(apply("text\n#a `x  y` #b"), "#b\n#a `x  y`\ntext");
}
