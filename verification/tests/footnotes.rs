use bear_formatter::engine::ignore::IgnoreRanges;
use bear_formatter::engine::Rule;
use bear_formatter::rules::Footnotes;
fn apply(text: &str) -> String {
    Footnotes.apply(text, &IgnoreRanges::compute(text))
}

#[test]
fn renumbers_and_moves_definitions_to_bottom() {
    let input = "See b[^b] and a[^a].\n[^a]: first\n[^b]: second";
    assert_eq!(
        apply(input),
        "See b[^1] and a[^2].\n\n[^1]: second\n[^2]: first"
    );
}

#[test]
fn leaves_footnoteless_text_alone() {
    assert_eq!(apply("no footnotes here"), "no footnotes here");
}

#[test]
fn footnotes_is_idempotent() {
    let once = apply("x[^x] y[^y]\n[^y]: yes\n[^x]: ex");
    assert_eq!(apply(&once), once);
}
