use bear_formatter::engine::ignore::IgnoreRanges;
use bear_formatter::engine::{Formatter, Rule};
use bear_formatter::rules::{
    FinalNewline, Footnotes, HeadingLevels, Headings, HorizontalRules, Layout, LineEndings,
    ListMarkers, Tables, Tags, TitleCase, Typography, Whitespace,
};

fn twice(rule: &dyn Rule, text: &str) -> (String, String) {
    let none = IgnoreRanges::compute("");
    let once = rule.apply(text, &none);
    let again = rule.apply(&once, &none);
    (once, again)
}

#[test]
fn typography_twice_on_plain_text() {
    let (once, again) = twice(&Typography, "\"Quote\" it's 'tis... and . . . . end");
    assert_eq!(once, "“Quote” it’s ‘tis… and … end");
    assert_eq!(again, once);
}

#[test]
fn typography_spaced_ellipsis() {
    assert_eq!(Typography.apply("wait. . . ok", &IgnoreRanges::compute("")), "wait… ok");
}

#[test]
fn typography_two_spaced_dots_stay() {
    assert_eq!(Typography.apply("a . . b", &IgnoreRanges::compute("")), "a . . b");
}

#[test]
fn typography_long_dot_run() {
    assert_eq!(Typography.apply("......", &IgnoreRanges::compute("")), "……");
    assert_eq!(Typography.apply("....", &IgnoreRanges::compute("")), "….");
}

#[test]
fn typography_apostrophe_needs_a_word_after() {
    // An opening single quote only before a letter or digit.
    assert_eq!(Typography.apply("' x", &IgnoreRanges::compute("")), "’ x");
    assert_eq!(Typography.apply("'x", &IgnoreRanges::compute("")), "‘x");
    assert_eq!(Typography.apply("'é", &IgnoreRanges::compute("")), "‘é");
}

#[test]
fn whitespace_twice_on_plain_text() {
    let (once, again) = twice(&Whitespace, "  a   b , c .  \n \t \nx  y   \nz ");
    assert_eq!(once, "  a b, c.  \n\nx y  \nz");
    assert_eq!(again, once);
}

#[test]
fn headings_twice_on_settled_text() {
    let (once, again) = twice(&Headings, "  ##   Hello world!!\n#tag\n###\n# x ;");
    assert_eq!(once, "## Hello world\n#tag\n###\n# x");
    assert_eq!(again, once);
}

#[test]
fn headings_strip_every_layer_of_punctuation() {
    let (once, again) = twice(&Headings, "# Title: !");
    assert_eq!(once, "# Title");
    assert_eq!(again, once);
    let (once, again) = twice(&Headings, "# Title:\t!. ,");
    assert_eq!(once, "# Title");
    assert_eq!(again, once);
}

#[test]
fn horizontal_rules_twice() {
    let (once, again) = twice(&HorizontalRules, "a\n* * *\n—\n__\n- - -");
    assert_eq!(once, "a\n---\n---\n__\n---");
    assert_eq!(again, once);
}

#[test]
fn list_markers_twice_on_settled_text() {
    let (once, again) = twice(&ListMarkers, "* a\n\t+   b\n1)\tc\n- \n- - d\n.\te\n\nlast");
    assert_eq!(once, "- a\n\t- b\n1) c\n- d\n- e\n\nlast");
    assert_eq!(again, once);
}

#[test]
fn list_markers_drop_a_last_empty_item() {
    assert_eq!(ListMarkers.apply("a\n- ", &IgnoreRanges::compute("")), "a\n");
}

#[test]
fn heading_levels_twice() {
    let (once, again) = twice(&HeadingLevels, "intro\n### A\n##### B\n#### C\n  ###### D");
    assert_eq!(once, "intro\n## A\n### B\n### C\n#### D");
    assert_eq!(again, once);
}

#[test]
fn heading_levels_opening_heading_becomes_h1() {
    let (once, again) = twice(&HeadingLevels, "\n## Title\n#### Sub");
    assert_eq!(once, "\n# Title\n## Sub");
    assert_eq!(again, once);
}

#[test]
fn line_endings_leave_no_carriage_return() {
    let out = LineEndings.apply("a\r\nb\rc\r\r\n", &IgnoreRanges::compute(""));
    assert_eq!(out, "a\nb\nc\n\n");
    assert!(!out.contains('\r'));
    assert_eq!(LineEndings.apply(&out, &IgnoreRanges::compute("")), out);
}

#[test]
fn final_newline_exactly_one_newline() {
    let none = IgnoreRanges::compute("");
    assert_eq!(FinalNewline.apply("a\r\n\n\r", &none), "a\n");
    assert_eq!(FinalNewline.apply("\n\n", &none), "\n");
    assert_eq!(FinalNewline.apply("", &none), "");
    let once = FinalNewline.apply("x", &none);
    assert_eq!(FinalNewline.apply(&once, &none), once);
}

#[test]
fn merged_tags_are_sorted_and_unique_by_key() {
    let out = Tags.apply("Body.\n#b #A\n#a #c#", &IgnoreRanges::compute(""));
    assert_eq!(out, "#A #b #c\nBody.");
}

#[test]
fn title_case_capitalizes_and_keeps_interior_capitals() {
    let out = TitleCase.apply("# the iPhone of a dream", &IgnoreRanges::compute(""));
    assert_eq!(out, "# The iPhone of a Dream");
}

#[test]
fn footnote_numbers_are_one_to_n() {
    let text = "x[^q] y[^p] z[^q]\n[^p]: P\n[^q]: Q\n[^o]: O";
    let out = Footnotes.apply(text, &IgnoreRanges::compute(text));
    assert_eq!(out, "x[^1] y[^2] z[^1]\n\n[^1]: Q\n[^2]: P\n[^3]: O");
}

#[test]
fn ignore_ranges_cover_inline_code() {
    let text = "a `b` c";
    let ranges = IgnoreRanges::compute(text);
    assert!(!ranges.contains(0));
    assert!(ranges.contains(2));
    assert!(ranges.contains(3));
    assert!(!ranges.contains(6));
}

#[test]
fn ignore_ranges_cover_fenced_code() {
    let text = "x\n```\ny\n```\nz";
    let ranges = IgnoreRanges::compute(text);
    assert!(!ranges.contains(0));
    assert!(ranges.contains(4));
    assert!(!ranges.contains(text.len() - 1));
}

#[test]
fn formatter_twice_on_a_note() {
    let formatter = Formatter::new(bear_formatter::rules::all());
    let once = formatter.format("# title\n\n* item one\n* item two\nsome \"text\"...\n\n\n");
    assert_eq!(formatter.format(&once), once);
}

#[test]
fn formatter_with_no_rules_changes_nothing() {
    let formatter = Formatter::new(Vec::new());
    assert_eq!(formatter.format("a  b\r\n"), "a  b\r\n");
}

#[test]
fn empty_text_through_every_rule() {
    let none = IgnoreRanges::compute("");
    for rule in bear_formatter::rules::all() {
        assert_eq!(rule.apply("", &none), "", "{}", rule.name());
    }
}

#[test]
fn tables_escaped_pipe_reads_back() {
    let none = IgnoreRanges::compute("");
    let once = Tables.apply("a|b\tc", &none);
    assert_eq!(once, "| a\\|b | c |\n| - | - |");
    assert_eq!(Tables.apply(&once, &none), once);
}

#[test]
fn tables_canonical_table_reads_back() {
    let none = IgnoreRanges::compute("");
    let once = Tables.apply("|a|  b |\n|:-:|--:|\n| 1 |", &none);
    assert_eq!(once, "| a | b |\n| :-: | -: |\n| 1 |  |");
    assert_eq!(Tables.apply(&once, &none), once);
}

#[test]
fn layout_drops_outer_blank_lines() {
    let none = IgnoreRanges::compute("");
    assert_eq!(Layout.apply("\n\nPara one\n\n\n", &none), "Para one\n");
    assert_eq!(Layout.apply("text\n\n---\n", &none), "text\n");
}

#[test]
fn tags_twice_on_flush_left_tags() {
    let (once, again) = twice(&Tags, "# Title\nBody.\n#b #a\n#meeting 4/10 notes\n\n");
    assert_eq!(once, "# Title\n#a #b\n#meeting 4/10 notes\nBody.\n\n");
    assert_eq!(again, once);
}

#[test]
fn tags_merged_bare_tags_keep_the_first_indentation() {
    let (once, again) = twice(&Tags, "  #a");
    assert_eq!(once, "  #a");
    assert_eq!(again, once);
    let (once, again) = twice(&Tags, "  #a\n#a");
    assert_eq!(once, "  #a");
    assert_eq!(again, once);
    let (once, again) = twice(&Tags, "  #b\n#a");
    assert_eq!(once, "  #a #b");
    assert_eq!(again, once);
    let (once, again) = twice(&Tags, "#b\n  #a");
    assert_eq!(once, "#a #b");
    assert_eq!(again, once);
}

#[test]
fn footnotes_twice_on_settled_text() {
    let (once, again) = twice(&Footnotes, "See b[^b] and a[^a].\n[^z]: zed\n[^a]:  first \n[^b]: second\n");
    assert_eq!(once, "See b[^1] and a[^2].\n\n[^1]: second\n[^2]: first\n[^3]: zed\n");
    assert_eq!(again, once);
}

#[test]
fn footnotes_unreferenced_past_nine_keep_their_numbers() {
    let text = "x[^a]\n[^a]: A\n[^b]: B\n[^c]: C\n[^d]: D\n[^e]: E\n[^f]: F\n[^g]: G\n[^h]: H\n[^i]: I\n[^j]: J\n[^k]: K";
    let (once, again) = twice(&Footnotes, text);
    assert_eq!(
        once,
        "x[^1]\n\n[^1]: A\n[^2]: B\n[^3]: C\n[^4]: D\n[^5]: E\n[^6]: F\n[^7]: G\n[^8]: H\n[^9]: I\n[^10]: J\n[^11]: K"
    );
    assert_eq!(again, once);
}

#[test]
fn footnotes_number_unreferenced_labels_alphabetically() {
    let (once, _) = twice(&Footnotes, "x[^r]\n[^r]: R\n[^bb]: B\n[^c]: C\n[^aa]: A");
    assert_eq!(once, "x[^1]\n\n[^1]: R\n[^2]: A\n[^3]: B\n[^4]: C");
    let (once, again) = twice(&Footnotes, "x\n[^b]: B\n[^ab]: A");
    assert_eq!(once, "x\n\n[^1]: A\n[^2]: B");
    assert_eq!(again, once);
}

#[test]
fn footnotes_number_digit_labels_first_by_value() {
    let (once, again) = twice(&Footnotes, "x\n[^a]: A\n[^10]: T\n[^9]: N");
    assert_eq!(once, "x\n\n[^1]: N\n[^2]: T\n[^3]: A");
    assert_eq!(again, once);
}

#[test]
fn tables_twice_on_settled_text() {
    let text = "a\tb\n\nc\td\n| x | y |\n|:-|-:|\n|1|2|\ntext\n";
    let (once, again) = twice(&Tables, text);
    assert_eq!(
        once,
        "| a | b |\n| - | - |\n| c | d |\n\n| x | y |\n| :- | -: |\n| 1 | 2 |\ntext\n"
    );
    assert_eq!(again, once);
}

#[test]
fn tables_part_a_table_from_a_pipe_line() {
    let (once, again) = twice(&Tables, "x\ty\n| - |");
    assert_eq!(once, "| x | y |\n| - | - |\n\n| - |");
    assert_eq!(again, once);
    let (once, again) = twice(&Tables, "| verse\na\tb");
    assert_eq!(once, "| verse\n\n| a | b |\n| - | - |");
    assert_eq!(again, once);
}

#[test]
fn title_case_dotless_i_is_cased_again() {
    // `ı` uppercases to `I`, and `In` lowercases to the small word `in`.
    let (once, again) = twice(&TitleCase, "# x ın y");
    assert_eq!(once, "# X In Y");
    assert_eq!(again, "# X in Y");
}

#[test]
fn layout_twice_on_settled_text() {
    let text = "# T\n#tag\nPara one\nPara two\n- a\n  - b\n- c\n> q\n> r\n---\nend";
    let (once, again) = twice(&Layout, text);
    assert_eq!(
        once,
        "# T\n#tag\n\nPara one\n\nPara two\n\n- a\n\t- b\n- c\n\n> q\n>\n> r\n\n---\n\nend"
    );
    assert_eq!(again, once);
}

#[test]
fn layout_drops_every_trailing_rule_at_once() {
    let (once, again) = twice(&Layout, "a\n\n---\n\n---");
    assert_eq!(once, "a");
    assert_eq!(again, "a");
    assert_eq!(Layout.apply("a\n---\n---\n", &IgnoreRanges::compute("a\n---\n---\n")), "a\n");
}

#[test]
fn layout_item_between_levels_takes_the_closed_item_place() {
    // Indented between the open levels, `1. c` closes `b` and takes its place
    // one level down: a list of another kind, so a blank parts them.
    let (once, again) = twice(&Layout, "- a\n    - b\n  1. c");
    assert_eq!(once, "- a\n\t- b\n\n\t1. c");
    assert_eq!(again, once);
}

#[test]
fn layout_reads_an_indented_line_outside_a_list_as_its_text() {
    let (once, again) = twice(&Layout, "para\n  > q\n> r");
    assert_eq!(once, "para\n\n> q\n>\n> r");
    assert_eq!(again, once);
    assert_eq!(Layout.apply("para\n  ---\n", &IgnoreRanges::compute("para\n  ---\n")), "para\n");
}

fn with_code(rule: &dyn Rule, text: &str) -> String {
    rule.apply(text, &IgnoreRanges::compute(text))
}

#[test]
fn headings_keep_code_lines() {
    assert_eq!(with_code(&Headings, "```\n#  x.\n```\n#  y."), "```\n#  x.\n```\n# y");
}

#[test]
fn whitespace_keeps_code_lines() {
    assert_eq!(with_code(&Whitespace, "```\na   b  \n```\nc   d"), "```\na   b  \n```\nc d");
}

#[test]
fn horizontal_rules_keep_code_lines() {
    assert_eq!(with_code(&HorizontalRules, "```\n***\n```\n***"), "```\n***\n```\n---");
}

#[test]
fn heading_levels_keep_code_lines() {
    assert_eq!(with_code(&HeadingLevels, "```\n### x\n```\n### y"), "```\n### x\n```\n## y");
}

#[test]
fn list_markers_keep_code_lines() {
    assert_eq!(
        with_code(&ListMarkers, "```\n*   x\n-\n```\n*   y\n-\nz"),
        "```\n*   x\n-\n```\n- y\nz"
    );
}

#[test]
fn tags_keep_code_lines() {
    assert_eq!(with_code(&Tags, "# T\n```\n#a x\n```\n#b"), "# T\n#b\n```\n#a x\n```");
}

#[test]
fn tables_keep_code_lines() {
    assert_eq!(
        with_code(&Tables, "```\na\tb\n| x |\n```\nc\td"),
        "```\na\tb\n| x |\n```\n| c | d |\n| - | - |"
    );
}

#[test]
fn layout_keeps_code_lines() {
    assert_eq!(
        with_code(&Layout, "para\n```\n  x  \n```\nend"),
        "para\n\n```\n  x  \n```\n\nend"
    );
}

#[test]
fn footnotes_keep_code_lines() {
    assert_eq!(
        with_code(&Footnotes, "```\nx[^a]\n[^b]: code\n```\ny[^a]\n[^a]: d"),
        "```\nx[^a]\n[^b]: code\n```\ny[^1]\n\n[^1]: d"
    );
}

#[test]
fn typography_keeps_a_note_of_code() {
    let text = "```\n\"it's\" ... . . .\n```\n";
    assert_eq!(with_code(&Typography, text), text);
}

#[test]
fn footnotes_leave_inline_code_alone() {
    assert_eq!(
        with_code(&Footnotes, "Use `[^x]` for a note[^a].\n[^a]: d"),
        "Use `[^x]` for a note[^1].\n\n[^1]: d"
    );
}

#[test]
fn title_case_leaves_inline_code_alone() {
    assert_eq!(
        with_code(&TitleCase, "# using `git rebase` well\nbody"),
        "# Using `git rebase` Well\nbody"
    );
}

#[test]
fn heading_levels_place_without_jumps() {
    let none = IgnoreRanges::compute("");
    assert_eq!(
        HeadingLevels.apply("para\n## a\n###### b\n# c", &none),
        "para\n### a\n#### b\n## c"
    );
}

#[test]
fn whitespace_cleans_after_leading_inline_code() {
    assert_eq!(with_code(&Whitespace, "`x` a    b"), "`x` a b");
}

#[test]
fn list_markers_drop_an_item_of_markers_behind_a_no_break_space() {
    let (once, again) = twice(&ListMarkers, "- -\u{a0}\n- x");
    assert_eq!(once, "- x");
    assert_eq!(again, once);
}

#[test]
fn code_spans_keep_their_spacing_through_line_rules() {
    assert_eq!(with_code(&Whitespace, "a `x   y`    b"), "a `x   y` b");
    assert_eq!(with_code(&Headings, "#   Title `x  y.`!!"), "# Title `x  y.`");
    assert_eq!(with_code(&ListMarkers, "* `a  b`"), "- `a  b`");
    assert_eq!(with_code(&Layout, "- a\n    - `b  c`"), "- a\n\t- `b  c`");
    assert_eq!(with_code(&HeadingLevels, "### Only `a  b`"), "# Only `a  b`");
}
