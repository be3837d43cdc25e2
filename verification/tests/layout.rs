use bear_formatter::engine::ignore::IgnoreRanges;
use bear_formatter::engine::Rule;
use bear_formatter::rules::Layout;
fn apply(text: &str) -> String {
    Layout.apply(text, &IgnoreRanges::compute(text))
}

#[test]
fn one_blank_between_blocks_and_none_leading() {
    assert_eq!(apply("\n\n# Title\nBody"), "# Title\n\nBody");
}

#[test]
fn collapses_multiple_blanks() {
    assert_eq!(apply("a\n\n\n\nb"), "a\n\nb");
}

#[test]
fn no_blanks_between_list_items() {
    assert_eq!(apply("- a\n\n- b\n- c"), "- a\n- b\n- c");
}

#[test]
fn blank_around_root_list() {
    assert_eq!(apply("Text\n- a\n- b\nMore"), "Text\n\n- a\n- b\n\nMore");
}

#[test]
fn indents_nested_items_with_tabs() {
    assert_eq!(apply("- a\n  - b\n    - c"), "- a\n\t- b\n\t\t- c");
}

#[test]
fn no_blank_between_heading_and_tag_line() {
    assert_eq!(apply("# T\n\n#a #b\n\nBody"), "# T\n#a #b\n\nBody");
}

#[test]
fn multi_paragraph_item_keeps_and_follows_with_blank() {
    let input = "- one\n- two\n\n  more\n- three";
    assert_eq!(apply(input), "- one\n- two\n\n\tmore\n\n- three");
}

#[test]
fn bold_label_line_becomes_its_own_block() {
    assert_eq!(apply("**Label:**\ntext"), "**Label:**\n\ntext");
    assert_eq!(apply("para\n**Note**\nmore"), "para\n\n**Note**\n\nmore");
}

#[test]
fn tag_led_line_hugs_the_heading() {
    // A tag with a trailing date is still a tag line — no blank above it.
    assert_eq!(
        apply("# T\n#media/meeting 1/28/23\nBody"),
        "# T\n#media/meeting 1/28/23\n\nBody"
    );
}

#[test]
fn single_newline_becomes_a_paragraph_break() {
    assert_eq!(
        apply("one thought\nanother thought"),
        "one thought\n\nanother thought"
    );
}

#[test]
fn hard_break_stays_attached() {
    assert_eq!(apply("line one  \nline two"), "line one  \nline two");
}

#[test]
fn strips_a_trailing_horizontal_rule() {
    assert_eq!(apply("# T\nbody\n\n---"), "# T\n\nbody");
    assert_eq!(apply("body\n---\n"), "body\n");
}

#[test]
fn pipe_lines_stay_contiguous_with_a_blank_after() {
    assert_eq!(
        apply("| John Smith\n| 123 Main St\n| Springfield"),
        "| John Smith\n| 123 Main St\n| Springfield"
    );
    // A blank between pipe blocks separates them (two tables stay two
    // tables); the blank after the block is still enforced.
    assert_eq!(apply("| a\n\n| b\ntext"), "| a\n\n| b\n\ntext");
}

#[test]
fn blockquote_lines_split_into_paragraphs() {
    assert_eq!(apply("> one\n> two"), "> one\n>\n> two");
    // Pipe-quote lines stay together.
    assert_eq!(apply("> | a\n> | b"), "> | a\n> | b");
    let once = apply("> one\n> two\n> three");
    assert_eq!(apply(&once), once);
}

#[test]
fn consecutive_wikilinks_are_a_toc() {
    assert_eq!(apply("[[A]]\n[[B]]\n[[C]]"), "[[A]]\n[[B]]\n[[C]]");
    assert_eq!(apply("[[A]]\n\n[[B]]"), "[[A]]\n[[B]]");
}

#[test]
fn loose_list_item_gets_a_trailing_blank() {
    // A multi-paragraph item (nested content separated by a blank) is
    // followed by a blank before the next sibling — like the blank before it.
    // Because a continuation paragraph precedes the sub-list here, the blank
    // before the sub-list is kept too (it follows a real paragraph).
    let input = "- a\n- b\n\n\tnote\n\n\t- x\n\t- y\n- c";
    assert_eq!(apply(input), "- a\n- b\n\n\tnote\n\n\t- x\n\t- y\n\n- c");
    let once = apply(input);
    assert_eq!(apply(&once), once);
}

#[test]
fn continuation_paragraph_keeps_blank_before_sub_list() {
    // Marker → paragraph → sub-list: the sub-list follows a real paragraph,
    // so blanks land on both sides of it (unlike a sub-list glued straight
    // to the marker, below).
    let input = "- item\n\n\t*lead-in:*\n\t- one\n\t- two\n- next";
    assert_eq!(
        apply(input),
        "- item\n\n\t*lead-in:*\n\n\t- one\n\t- two\n\n- next"
    );
    let once = apply(input);
    assert_eq!(apply(&once), once);
}

#[test]
fn no_blank_between_an_item_and_its_sub_list() {
    assert_eq!(
        apply("3. Habit\n\n\t- Kid Time\n\t- Phone Use"),
        "3. Habit\n\t- Kid Time\n\t- Phone Use"
    );
    assert_eq!(apply("- a\n\n\t- x\n- b"), "- a\n\t- x\n- b");
}

#[test]
fn numbered_list_is_separate_from_bullets() {
    // Bullets and todos are one list (blank between them removed); a numbered
    // list is a different one and gets a blank.
    assert_eq!(
        apply("- a\n\n- [ ] b\n1. c\n2. d"),
        "- a\n- [ ] b\n\n1. c\n2. d"
    );
}

#[test]
fn numbered_nested_in_bullets_has_no_extra_spacing() {
    assert_eq!(
        apply("- a\n\t1. x\n\t2. y\n- b"),
        "- a\n\t1. x\n\t2. y\n- b"
    );
}

#[test]
fn layout_is_idempotent() {
    let once = apply("# T\n#x\nintro\n- a\n  - b\n\n  cont\n- c\ntail\n**Label:**\nx");
    assert_eq!(apply(&once), once);
}
