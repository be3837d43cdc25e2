use bear_formatter::engine::ignore::IgnoreRanges;
#[test]
fn protects_fenced_code_blocks() {
    let text = "before\n\n```\ncode #1\n```\n\nafter";
    let ranges = IgnoreRanges::compute(text);
    let inside = text.find("code").expect("fixture contains code");
    assert!(ranges.contains(inside));
    assert!(!ranges.contains(0));
}

#[test]
fn protects_inline_code() {
    let text = "a `snippet` here";
    let ranges = IgnoreRanges::compute(text);
    let inside = text.find("snippet").expect("fixture contains snippet");
    assert!(ranges.contains(inside));
}

#[test]
fn an_empty_span_overlaps_nothing() {
    let text = "a `snippet` here";
    let ranges = IgnoreRanges::compute(text);
    assert!(!ranges.overlaps(&(5..5)));
    assert!(ranges.overlaps(&(5..6)));
    assert!(!ranges.overlaps(&(12..16)));
}

#[test]
fn a_span_overlaps_exactly_when_an_offset_in_it_is_protected() {
    let text = "a `snippet` here";
    let ranges = IgnoreRanges::compute(text);
    for start in 0..text.len() {
        for end in start..=text.len() {
            let some_inside = (start..end).any(|o| ranges.contains(o));
            assert_eq!(ranges.overlaps(&(start..end)), some_inside);
        }
    }
}
