use bear_formatter::engine::ignore::IgnoreRanges;
use bear_formatter::engine::Rule;
use bear_formatter::rules::Typography;
fn apply(text: &str) -> String {
    Typography.apply(text, &IgnoreRanges::compute(text))
}

#[test]
fn curls_quotes_and_apostrophes() {
    assert_eq!(apply(r#""hi," it's here"#), "“hi,” it’s here");
}

#[test]
fn makes_ellipsis() {
    assert_eq!(apply("wait..."), "wait…");
}

#[test]
fn typography_leaves_code_alone() {
    assert_eq!(apply("`it's ...`"), "`it's ...`");
}

#[test]
fn typography_is_idempotent() {
    let once = apply(r#"She said "no"... it's fine"#);
    assert_eq!(apply(&once), once);
}
