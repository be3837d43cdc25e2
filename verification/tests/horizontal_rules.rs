use bear_formatter::engine::ignore::IgnoreRanges;
use bear_formatter::engine::Rule;
use bear_formatter::rules::HorizontalRules;
fn apply(text: &str) -> String {
    HorizontalRules.apply(text, &IgnoreRanges::compute(text))
}

#[test]
fn unicode_dashes_become_rules() {
    for line in ["⸻", "—", "–", "―", "⸺", "‒", "——", "— —"] {
        assert_eq!(apply(line), "---", "for {line:?}");
    }
}

#[test]
fn ascii_runs_of_three_or_more_become_rules() {
    for line in [
        "---", "-----", "___", "****", "- - -", "* * *", "_ _ _", "-\t-\t-",
    ] {
        assert_eq!(apply(line), "---", "for {line:?}");
    }
}

#[test]
fn surrounding_whitespace_is_fine() {
    assert_eq!(apply("  ⸻  "), "---");
    assert_eq!(apply("\t---\t"), "---");
}

#[test]
fn short_ascii_marks_are_not_rules() {
    for line in ["-", "--", "*", "**", "_", "__", "- -"] {
        assert_eq!(apply(line), line, "for {line:?}");
    }
}

#[test]
fn mixed_content_lines_are_left_alone() {
    for line in ["a — b", "—wait", "> ---", "|---|", "3 - 2 - 1", ""] {
        assert_eq!(apply(line), line, "for {line:?}");
    }
}

#[test]
fn horizontal_rules_leaves_code_alone() {
    let fenced = "```\n---\n⸻\n```";
    assert_eq!(apply(fenced), fenced);
    assert_eq!(apply("`---`"), "`---`");
}

#[test]
fn horizontal_rules_is_idempotent() {
    let once = apply("a\n⸻\n- - -\nb");
    assert_eq!(apply(&once), once);
}
