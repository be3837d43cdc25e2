use bear_formatter::engine::ignore::IgnoreRanges;
use bear_formatter::engine::Rule;
use bear_formatter::rules::Tables;
fn apply(text: &str) -> String {
    Tables.apply(text, &IgnoreRanges::compute(text))
}

#[test]
fn converts_a_tab_line_to_a_head_only_table() {
    assert_eq!(apply("a\tb"), "| a | b |\n| - | - |");
}

#[test]
fn adjacent_tab_lines_become_head_and_body() {
    assert_eq!(
        apply("a\tb\nc\td\ne\tf"),
        "| a | b |\n| - | - |\n| c | d |\n| e | f |"
    );
}

#[test]
fn blank_separated_tab_lines_merge_into_one_table() {
    assert_eq!(
        apply("a\tb\n\n\nc\td\n\ne\tf"),
        "| a | b |\n| - | - |\n| c | d |\n| e | f |"
    );
}

#[test]
fn pads_ragged_rows_to_the_widest() {
    assert_eq!(
        apply("a\tb\tc\nd\te"),
        "| a | b | c |\n| - | - | - |\n| d | e |  |"
    );
}

#[test]
fn consecutive_tabs_make_empty_cells() {
    assert_eq!(apply("a\t\tb"), "| a |  | b |\n| - | - | - |");
}

#[test]
fn escapes_pipes_in_converted_cells() {
    assert_eq!(apply("a|b\tc"), "| a\\|b | c |\n| - | - |");
}

#[test]
fn head_only_line_extends_a_preceding_bodied_table() {
    assert_eq!(
        apply("| a | b |\n| - | - |\n| 1 | 2 |\n\nx\ty"),
        "| a | b |\n| - | - |\n| 1 | 2 |\n| x | y |"
    );
}

#[test]
fn bodied_tables_do_not_merge() {
    let two = "| a | b |\n| - | - |\n| 1 | 2 |\n\n| x | y |\n| - | - |\n| 3 | 4 |";
    assert_eq!(apply(two), two);
}

#[test]
fn bodied_table_after_a_tab_line_stays_separate() {
    assert_eq!(
        apply("a\tb\n| x | y |\n| - | - |\n| 1 | 2 |"),
        "| a | b |\n| - | - |\n\n| x | y |\n| - | - |\n| 1 | 2 |"
    );
}

#[test]
fn a_non_tab_line_is_not_a_row_and_blocks_merging() {
    assert_eq!(
        apply("a\tb\nplain\nc\td"),
        "| a | b |\n| - | - |\nplain\n| c | d |\n| - | - |"
    );
}

#[test]
fn leaves_marked_lines_alone() {
    for line in [
        "\ta\tb",
        "# a\tb",
        "#tag\tb",
        "- a\tb",
        "1. a\tb",
        ".\ta\tb",
        "> a\tb",
        "[^1]: a\tb",
    ] {
        assert_eq!(apply(line), line);
    }
}

#[test]
fn tables_leaves_code_alone() {
    let fenced = "```\na\tb\n\nc\td\n```";
    assert_eq!(apply(fenced), fenced);
    assert_eq!(apply("`a\tb`"), "`a\tb`");
}

#[test]
fn splits_only_at_tabs_outside_inline_code() {
    assert_eq!(apply("x\ty `a\tb`"), "| x | y `a\tb` |\n| - | - |");
}

#[test]
fn canonicalizes_an_existing_table() {
    assert_eq!(
        apply("| a  | b |\n|-----|-----|\n| 1 | 2 |"),
        "| a | b |\n| - | - |\n| 1 | 2 |"
    );
}

#[test]
fn keeps_separator_alignment() {
    assert_eq!(
        apply("| a | b | c |\n|:--|--:|:-:|"),
        "| a | b | c |\n| :- | -: | :-: |"
    );
}

#[test]
fn leaves_pipe_blocks_without_a_separator_alone() {
    let verse = "| John Smith\n| 123 Main St\n| Springfield";
    assert_eq!(apply(verse), verse);
}

#[test]
fn tables_is_idempotent() {
    for input in [
        "a\tb\n\nc\td",
        "a\tb\tc\nd\te",
        "a|b\tc",
        "| a | b |\n| - | - |\n| 1 | 2 |\n\n| x | y |\n| - | - |\n| 3 | 4 |",
        "a\tb\n| x | y |\n| - | - |\n| 1 | 2 |",
        "intro\n\na\tb\nc\td\n\ntail",
    ] {
        let once = apply(input);
        assert_eq!(apply(&once), once, "not idempotent for {input:?}");
    }
}
