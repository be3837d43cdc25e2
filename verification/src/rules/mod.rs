//! The rule catalog.

pub mod final_newline;
pub mod footnotes;
pub mod heading_levels;
pub mod headings;
pub mod horizontal_rules;
pub mod layout;
pub mod layout_reread;
pub mod line_endings;
pub mod list_markers;
pub mod support;
pub mod table_code;
pub mod table_reread;
pub mod tables;
pub mod tags;
pub mod title_case;
pub mod typography;
pub mod whitespace;

pub use final_newline::FinalNewline;
pub use footnotes::Footnotes;
pub use heading_levels::HeadingLevels;
pub use headings::Headings;
pub use horizontal_rules::HorizontalRules;
pub use layout::Layout;
pub use line_endings::LineEndings;
pub use list_markers::ListMarkers;
pub use tables::Tables;
pub use tags::Tags;
pub use title_case::TitleCase;
pub use typography::Typography;
pub use whitespace::Whitespace;

use crate::engine::Rule;
use vstd::prelude::*;

verus! {

/// Every rule in the catalog, in application order: line endings,
/// typography, whitespace, horizontal rules, headings, list markers,
/// footnotes, tags, title case, heading levels, tables, layout, final newline;
/// each with its name and what it does.
pub fn all() -> (rules: Vec<Box<dyn Rule>>)
    ensures
        rules@.len() == 13,
        rules@[0].spec_name() == "line-endings"@,
        rules@[1].spec_name() == "typography"@,
        rules@[2].spec_name() == "whitespace"@,
        rules@[3].spec_name() == "horizontal-rules"@,
        rules@[4].spec_name() == "headings"@,
        rules@[5].spec_name() == "list-markers"@,
        rules@[6].spec_name() == "footnotes"@,
        rules@[7].spec_name() == "tags"@,
        rules@[8].spec_name() == "title-case"@,
        rules@[9].spec_name() == "heading-levels"@,
        rules@[10].spec_name() == "tables"@,
        rules@[11].spec_name() == "layout"@,
        rules@[12].spec_name() == "final-newline"@,
        forall|t: Seq<char>, i: Seq<(int, int)>| #[trigger] rules@[0].spec_apply(t, i) == line_endings::unify_line_endings(t),
        forall|t: Seq<char>, i: Seq<(int, int)>| #[trigger] rules@[1].spec_apply(t, i) == typography::spec_typography(t, i),
        forall|t: Seq<char>, i: Seq<(int, int)>| #[trigger] rules@[2].spec_apply(t, i) == whitespace::spec_whitespace(t, i),
        forall|t: Seq<char>, i: Seq<(int, int)>| #[trigger] rules@[3].spec_apply(t, i) == horizontal_rules::spec_horizontal_rules(t, i),
        forall|t: Seq<char>, i: Seq<(int, int)>| #[trigger] rules@[4].spec_apply(t, i) == headings::spec_headings(t, i),
        forall|t: Seq<char>, i: Seq<(int, int)>| #[trigger] rules@[5].spec_apply(t, i) == list_markers::spec_list_markers(t, i),
        forall|t: Seq<char>, i: Seq<(int, int)>| #[trigger] rules@[6].spec_apply(t, i) == footnotes::spec_footnotes(t, i),
        forall|t: Seq<char>, i: Seq<(int, int)>| #[trigger] rules@[7].spec_apply(t, i) == tags::spec_tags(t, i),
        forall|t: Seq<char>, i: Seq<(int, int)>| #[trigger] rules@[8].spec_apply(t, i) == title_case::spec_title_case(t, i),
        forall|t: Seq<char>, i: Seq<(int, int)>| #[trigger] rules@[9].spec_apply(t, i) == heading_levels::spec_heading_levels(t, i),
        forall|t: Seq<char>, i: Seq<(int, int)>| #[trigger] rules@[10].spec_apply(t, i) == tables::spec_tables(t, i),
        forall|t: Seq<char>, i: Seq<(int, int)>| #[trigger] rules@[11].spec_apply(t, i) == layout::spec_layout(t, i),
        forall|t: Seq<char>, i: Seq<(int, int)>| #[trigger] rules@[12].spec_apply(t, i) == final_newline::spec_final_newline(t),
{
    let rules: Vec<Box<dyn Rule>> = vec![
        Box::new(LineEndings),
        Box::new(Typography),
        Box::new(Whitespace),
        Box::new(HorizontalRules),
        Box::new(Headings),
        Box::new(ListMarkers),
        Box::new(Footnotes),
        Box::new(Tags),
        Box::new(TitleCase),
        Box::new(HeadingLevels),
        Box::new(Tables),
        Box::new(Layout),
        Box::new(FinalNewline),
    ];
    proof {
        assert forall|t: Seq<char>, i: Seq<(int, int)>| #[trigger] rules@[0].spec_apply(t, i) == line_endings::unify_line_endings(t) by { }
        assert forall|t: Seq<char>, i: Seq<(int, int)>| #[trigger] rules@[1].spec_apply(t, i) == typography::spec_typography(t, i) by { }
        assert forall|t: Seq<char>, i: Seq<(int, int)>| #[trigger] rules@[2].spec_apply(t, i) == whitespace::spec_whitespace(t, i) by { }
        assert forall|t: Seq<char>, i: Seq<(int, int)>| #[trigger] rules@[3].spec_apply(t, i) == horizontal_rules::spec_horizontal_rules(t, i) by { }
        assert forall|t: Seq<char>, i: Seq<(int, int)>| #[trigger] rules@[4].spec_apply(t, i) == headings::spec_headings(t, i) by { }
        assert forall|t: Seq<char>, i: Seq<(int, int)>| #[trigger] rules@[5].spec_apply(t, i) == list_markers::spec_list_markers(t, i) by { }
        assert forall|t: Seq<char>, i: Seq<(int, int)>| #[trigger] rules@[6].spec_apply(t, i) == footnotes::spec_footnotes(t, i) by { }
        assert forall|t: Seq<char>, i: Seq<(int, int)>| #[trigger] rules@[7].spec_apply(t, i) == tags::spec_tags(t, i) by { }
        assert forall|t: Seq<char>, i: Seq<(int, int)>| #[trigger] rules@[8].spec_apply(t, i) == title_case::spec_title_case(t, i) by { }
        assert forall|t: Seq<char>, i: Seq<(int, int)>| #[trigger] rules@[9].spec_apply(t, i) == heading_levels::spec_heading_levels(t, i) by { }
        assert forall|t: Seq<char>, i: Seq<(int, int)>| #[trigger] rules@[10].spec_apply(t, i) == tables::spec_tables(t, i) by { }
        assert forall|t: Seq<char>, i: Seq<(int, int)>| #[trigger] rules@[11].spec_apply(t, i) == layout::spec_layout(t, i) by { }
        assert forall|t: Seq<char>, i: Seq<(int, int)>| #[trigger] rules@[12].spec_apply(t, i) == final_newline::spec_final_newline(t) by { }
    }
    rules
}

} // verus!
