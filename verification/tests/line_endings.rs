use bear_formatter::engine::ignore::IgnoreRanges;
use bear_formatter::engine::Rule;
use bear_formatter::rules::LineEndings;
fn apply(text: &str) -> String {
    LineEndings.apply(text, &IgnoreRanges::compute(text))
}

#[test]
fn converts_crlf_and_cr() {
    assert_eq!(apply("a\r\nb\rc\n"), "a\nb\nc\n");
}
