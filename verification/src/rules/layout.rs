//! **layout** — the final pass: one blank line around every block, no leading
//! or trailing blanks, list indentation converted to tabs, and the list
//! blank-line rules.
//!
//! Blank lines are regenerated from block structure:
//! - one blank line between differing blocks (headings, paragraphs, code,
//!   quotes, tables, rules, lists);
//! - none between consecutive same-kind list items (bullets and todos are one
//!   kind; a numbered list next to them is a different list, so it gets a blank);
//! - none between a heading and a tag line that follows it (one after);
//! - inside a list, a blank between an item and its continuation paragraph is
//!   kept, and a multi-paragraph item is followed by a blank before the next
//!   item; a blank before a nested sub-list is dropped unless a continuation
//!   paragraph already separates the marker from the sub-list;
//! - an item indented between two open levels closes the deeper one and
//!   takes its place, a blank parting them when the lists differ;
//! - a line indented outside any open list is read as the block its text is;
//! - horizontal rules at the end of a note, and the blanks among them, go.

use crate::engine::ignore::{in_ranges, IgnoreRanges};
use crate::engine::Rule;
use crate::lines::{
    code_line, joined_pieces, keeps_line_at, lemma_join_lines, lemma_line_pieces_last,
    lemma_line_pieces_of_render, lemma_line_pieces_wf, lemma_no_newline_sub, line_pieces, no_newline,
    normalize,
};
use crate::rules::support::{
    heading_level_of, is_ordered_item_of, list_item_indent_of, spec_heading_level,
    spec_is_ordered_item, spec_list_item_indent, spec_starts_with_tag, starts_with_tag_of,
};
use crate::scan::{
    ends_with, ends_with_exec, final_break, final_break_exec, is_blank_line, is_blank_line_exec,
    join, join_exec, lemma_views_push, occurs_at, occurs_at_exec, push_all, starts_with,
    skip_blanks, starts_with_exec, strip_blanks, strip_blanks_exec, subvec, trim, trim_exec, trim_start,
    trim_start_exec, views,
};
use crate::text::{
    byte_offset, is_blank, is_ws, line_at, line_bounds, line_bounds_exec, line_text, string_of, Doc,
};
use vstd::prelude::*;

verus! {

pub struct Layout;

/// The kind of block a line belongs to.
#[derive(Clone, Copy, PartialEq, Eq, Structural)]
pub enum Group {
    Heading,
    Tag,
    ListItem,
    ListCont,
    Quote,
    Table,
    Rule,
    Label,
    Wikilink,
    Code,
    Para,
}

/// A list kind: bullets and todos are `Bullet`; numbered items are `Ordered`.
#[derive(Clone, Copy, PartialEq, Eq, Structural)]
pub enum ListKind {
    Bullet,
    Ordered,
}

/// One open list level: its indent width, whether the current item is loose
/// (multi-paragraph), and its list kind.
#[derive(Clone, Copy, PartialEq, Eq, Structural)]
pub struct Level {
    pub width: usize,
    pub loose: bool,
    pub kind: ListKind,
}

/// Whether `s` contains `p`.
pub open spec fn contains(s: Seq<char>, p: Seq<char>) -> bool {
    exists|i: int| occurs_at(s, p, i)
}

/// The text between `delim` at the start and `delim` at the end, when both are
/// there (`strip_prefix(delim)` then `strip_suffix(delim)`).
pub open spec fn enclosed(t: Seq<char>, open: Seq<char>, close: Seq<char>) -> Option<Seq<char>> {
    if starts_with(t, open) && ends_with(t.skip(open.len() as int), close) {
        Some(t.subrange(open.len() as int, t.len() - close.len()))
    } else {
        None
    }
}

/// A line that is a single wikilink, e.g. `[[Page]]`.
pub open spec fn is_wikilink_only(t: Seq<char>) -> bool {
    match enclosed(t, "[["@, "]]"@) {
        Some(inner) => inner.len() > 0 && !contains(inner, "[["@) && !contains(inner, "]]"@),
        None => false,
    }
}

/// A line that is a single strong-emphasis span, e.g. `**Label:**`.
pub open spec fn is_label_line(t: Seq<char>) -> bool {
    ||| match enclosed(t, "**"@, "**"@) {
        Some(inner) => inner.len() > 0 && !contains(inner, "**"@),
        None => false,
    }
    ||| match enclosed(t, "__"@, "__"@) {
        Some(inner) => inner.len() > 0 && !contains(inner, "__"@),
        None => false,
    }
}

/// Three or more of one of `-`, `*`, `_` and nothing else.
pub open spec fn is_thematic_break(t: Seq<char>) -> bool {
    t.len() >= 3 && (forall|k: int| 0 <= k < t.len() ==> t[k] == '-' || forall|k: int|
        0 <= k < t.len() ==> t[k] == '*' || forall|k: int| 0 <= k < t.len() ==> t[k] == '_')
}

/// The group a line belongs to.
pub open spec fn classify(content: Seq<char>, is_code: bool) -> Group {
    if is_code {
        Group::Code
    } else if spec_heading_level(content) is Some {
        Group::Heading
    } else if spec_starts_with_tag(content) {
        Group::Tag
    } else if spec_list_item_indent(content) is Some {
        Group::ListItem
    } else if content.len() > 0 && (content[0] == ' ' || content[0] == '\t') {
        Group::ListCont
    } else {
        let t = trim(content);
        if t.len() > 0 && t[0] == '>' {
            Group::Quote
        } else if t.len() > 0 && t[0] == '|' {
            Group::Table
        } else if is_thematic_break(t) {
            Group::Rule
        } else if is_label_line(t) {
            Group::Label
        } else if is_wikilink_only(t) {
            Group::Wikilink
        } else {
            Group::Para
        }
    }
}

/// The content of a blockquote line after its `>` marker and one space.
pub open spec fn quote_inner(line: Seq<char>) -> Seq<char> {
    let t = trim_start(line);
    let after = if t.len() > 0 && t[0] == '>' {
        t.drop_first()
    } else {
        line
    };
    if after.len() > 0 && after[0] == ' ' {
        after.drop_first()
    } else {
        after
    }
}

/// Whether `content` is an empty blockquote line (`>` with nothing after it).
pub open spec fn is_quote_blank(content: Seq<char>) -> bool {
    let t = trim_start(content);
    t.len() > 0 && t[0] == '>' && is_blank_line(t.drop_first())
}

/// How many blank lines belong between two adjacent blocks.
pub open spec fn desired_blanks(previous: Group, current: Group, prev_hard_break: bool, had_blank: bool) -> nat {
    match (previous, current) {
        (Group::Heading, Group::Tag) => 0,
        (Group::Tag, Group::Tag) => 0,
        (Group::Code, Group::Code) => 0,
        (Group::Wikilink, Group::Wikilink) => 0,
        (Group::Table, Group::Table) => if had_blank {
            1
        } else {
            0
        },
        (Group::Para, Group::Para) => if prev_hard_break {
            0
        } else {
            1
        },
        _ => 1,
    }
}

/// The separator placed before `current`: how many lines, and their text.
pub open spec fn gap(
    previous: Group,
    current: Group,
    prev_hard_break: bool,
    current_line: Seq<char>,
    had_blank: bool,
) -> (nat, Seq<char>) {
    if previous == Group::Quote && current == Group::Quote {
        let inner = quote_inner(current_line);
        let keep_together = prev_hard_break || (inner.len() > 0 && inner[0] == '|');
        (if keep_together {
            0
        } else {
            1
        }, seq!['>'])
    } else {
        (desired_blanks(previous, current, prev_hard_break, had_blank), seq![])
    }
}

pub open spec fn list_kind(content: Seq<char>) -> ListKind {
    if spec_is_ordered_item(content) {
        ListKind::Ordered
    } else {
        ListKind::Bullet
    }
}

/// `n` tabs.
pub open spec fn tabs(n: nat) -> Seq<char> {
    Seq::new(n, |i: int| '\t')
}

/// The levels left once those deeper than `width` are closed.
pub open spec fn close_deeper(levels: Seq<Level>, width: int) -> Seq<Level>
    decreases levels.len(),
{
    if levels.len() > 0 && width < levels.last().width {
        close_deeper(levels.drop_last(), width)
    } else {
        levels
    }
}

/// Placing a list item: the retabbed line, whether a blank precedes it, and
/// the open levels after it.
pub open spec fn place_item(content: Seq<char>, levels: Seq<Level>, had_blank: bool) -> (
    Seq<char>,
    bool,
    Seq<Level>,
) {
    let width = match spec_list_item_indent(content) {
        Some(w) => w,
        None => 0,
    };
    let kind = list_kind(content);
    let open = close_deeper(levels, width);
    let going_deeper = open.len() == 0 || width > open.last().width;
    let (blank, after) = if going_deeper && open.len() < levels.len() {
        // It takes the place of the item it closed, at the same depth.
        let closed = levels[open.len() as int];
        (
            closed.loose || closed.kind != kind,
            open.push(Level { width: width as usize, loose: false, kind }),
        )
    } else if going_deeper {
        let nested = open.len() > 0;
        let parent_loose = nested && open.last().loose;
        (
            if nested {
                parent_loose
            } else {
                had_blank
            },
            open.push(Level { width: width as usize, loose: false, kind }),
        )
    } else {
        let last = open.last();
        (
            last.loose || last.kind != kind,
            open.update(open.len() - 1, Level { width: last.width, loose: false, kind }),
        )
    };
    let depth: nat = if after.len() > 0 {
        (after.len() - 1) as nat
    } else {
        0
    };
    (tabs(depth) + strip_blanks(content), blank, after)
}

/// Placing a continuation line: it belongs to the deepest open item, which a
/// preceding blank marks loose.
pub open spec fn place_cont(content: Seq<char>, levels: Seq<Level>, had_blank: bool) -> (
    Seq<char>,
    bool,
    Seq<Level>,
) {
    let after = if had_blank && levels.len() > 0 {
        levels.update(
            levels.len() - 1,
            Level { width: levels.last().width, loose: true, kind: levels.last().kind },
        )
    } else {
        levels
    };
    (tabs(levels.len()) + strip_blanks(content), had_blank, after)
}

pub open spec fn is_list_group(g: Group) -> bool {
    g == Group::ListItem || g == Group::ListCont
}

/// The layout state after the first `n` lines: lines out, the previous
/// block's group, whether blanks were skipped since it, whether it ended in a
/// hard break, and the open list levels.
pub open spec fn scan_layout(s: Seq<char>, ignore: Seq<(int, int)>, n: int) -> (
    Seq<Seq<char>>,
    Option<Group>,
    bool,
    bool,
    Seq<Level>,
)
    decreases n,
{
    if n <= 0 {
        (seq![], None, false, false, seq![])
    } else {
        let (lines, previous, had_blank, hard_break, levels) = scan_layout(s, ignore, n - 1);
        let b = line_bounds(s)[n - 1];
        let is_code = in_ranges(ignore, byte_offset(s, b.0) as int);
        let content = unindented(line_text(s, b), is_code, levels);
        if !is_code && is_blank_line(content) {
            (lines, previous, true, hard_break, levels)
        } else if !is_code && is_quote_blank(content) {
            (lines, previous, had_blank, hard_break, levels)
        } else {
            let group = classify(content, is_code);
            let (rendered, list_blank, levels) = if group == Group::ListItem {
                place_item(content, levels, had_blank)
            } else if group == Group::ListCont {
                place_cont(content, levels, had_blank)
            } else {
                (content, false, seq![])
            };
            let separated = match previous {
                Some(prev) => {
                    let (count, sep) = if is_list_group(prev) && is_list_group(group) {
                        (if list_blank {
                            1nat
                        } else {
                            0nat
                        }, seq![])
                    } else {
                        gap(prev, group, hard_break, rendered, had_blank)
                    };
                    lines + Seq::new(count, |i: int| sep)
                },
                None => lines,
            };
            (
                separated.push(rendered),
                Some(group),
                false,
                ends_with(rendered, "  "@),
                levels,
            )
        }
    }
}

/// A line indented outside any open list is no list continuation: it is
/// read without its indentation, as the block its text is.
pub open spec fn unindented(content: Seq<char>, is_code: bool, levels: Seq<Level>) -> Seq<char> {
    if !is_code && levels.len() == 0 && classify(content, false) == Group::ListCont {
        strip_blanks(content)
    } else {
        content
    }
}

/// How many of the first `n` lines the laid-out note keeps: up to the last
/// one that is not blank and is not laid out as a horizontal rule outside
/// code. Trailing rules, however many, and the blanks among them go.
pub open spec fn block_end(s: Seq<char>, ignore: Seq<(int, int)>, n: int) -> int
    decreases n,
{
    if n <= 0 {
        0
    } else {
        let b = line_bounds(s)[n - 1];
        let raw = line_text(s, b);
        let is_code = in_ranges(ignore, byte_offset(s, b.0) as int);
        if (!is_code && (is_blank_line(raw) || is_quote_blank(raw))) || scan_layout(s, ignore, n).1
            == Some(Group::Rule) {
            block_end(s, ignore, n - 1)
        } else {
            n
        }
    }
}

/// A line read without its indentation is blank, or an empty quote line,
/// exactly when it was.
pub proof fn lemma_unindented_reads(raw: Seq<char>, is_code: bool, levels: Seq<Level>)
    ensures
        is_blank_line(unindented(raw, is_code, levels)) == is_blank_line(raw),
        is_quote_blank(unindented(raw, is_code, levels)) == is_quote_blank(raw),
{
    let c = unindented(raw, is_code, levels);
    if c != raw {
        crate::scan::lemma_skip_blanks_bounds(raw, 0);
        if is_blank_line(raw) {
            assert forall|k: int| 0 <= k < c.len() implies is_ws(#[trigger] c[k]) by {
                assert(c[k] == raw[k + skip_blanks(raw, 0)]);
            }
            crate::scan::lemma_skip_ws_bounds(raw, 0);
            crate::scan::lemma_skip_ws_bounds(c, 0);
            if crate::scan::skip_ws(raw, 0) < raw.len() {
                assert(is_ws(raw[crate::scan::skip_ws(raw, 0)]));
            }
            if crate::scan::skip_ws(c, 0) < c.len() {
                assert(is_ws(c[crate::scan::skip_ws(c, 0)]));
            }
        } else {
            crate::rules::layout_reread::lemma_reindented(raw, 0);
            assert(crate::rules::layout_reread::reindented(raw, 0) =~= c);
        }
    }
}

/// The lines a note is laid out as: trailing horizontal rules, and the
/// blanks before them, dropped.
pub open spec fn laid_out_lines(s: Seq<char>, ignore: Seq<(int, int)>) -> Seq<Seq<char>> {
    scan_layout(s, ignore, block_end(s, ignore, line_bounds(s).len() as int)).0
}

/// The laid-out lines end with a block that is not a horizontal rule.
pub proof fn lemma_block_end_group(s: Seq<char>, ignore: Seq<(int, int)>, n: int)
    requires
        0 <= n,
    ensures
        block_end(s, ignore, n) > 0 ==> scan_layout(s, ignore, block_end(s, ignore, n)).1 is Some
            && scan_layout(s, ignore, block_end(s, ignore, n)).1 != Some(Group::Rule),
    decreases n,
{
    if n > 0 {
        lemma_block_end_group(s, ignore, n - 1);
        let b = line_bounds(s)[n - 1];
        let is_code = in_ranges(ignore, byte_offset(s, b.0) as int);
        lemma_unindented_reads(line_text(s, b), is_code, scan_layout(s, ignore, n - 1).4);
    }
}

/// The laid-out lines are among the first `n`.
pub proof fn lemma_block_end(s: Seq<char>, ignore: Seq<(int, int)>, n: int)
    requires
        0 <= n,
    ensures
        0 <= block_end(s, ignore, n) <= n,
    decreases n,
{
    if n > 0 {
        lemma_block_end(s, ignore, n - 1);
    }
}

pub open spec fn spec_layout(s: Seq<char>, ignore: Seq<(int, int)>) -> Seq<char> {
    join(laid_out_lines(s, ignore), seq!['\n']) + final_break(s)
}

impl Rule for Layout {
    open spec fn spec_name(&self) -> Seq<char> {
        "layout"@
    }

    open spec fn spec_apply(&self, text: Seq<char>, ignore: Seq<(int, int)>) -> Seq<char> {
        spec_layout(text, ignore)
    }

    fn name(&self) -> (name: &'static str) {
        "layout"
    }

    #[verifier::rlimit(40)]
    #[verifier::spinoff_prover]
    fn apply(&self, text: &str, ignore: &IgnoreRanges) -> (out: String) {
        let doc = Doc::new(text);
        let bounds = line_bounds_exec(&doc.chars);
        let ghost s = doc.chars@;
        let ghost ig = ignore@;
        let mut lines: Vec<Vec<char>> = Vec::new();
        let mut previous: Option<Group> = None;
        let mut had_blank = false;
        let mut hard_break = false;
        let mut levels: Vec<Level> = Vec::new();
        let mut kept: usize = 0;
        let mut k: usize = 0;
        while k < bounds.len()
            invariant
                doc.wf(),
                s == doc.chars@,
                ig == ignore@,
                crate::text::bounds_view(bounds@) == line_bounds(s),
                k <= bounds@.len(),
                (views(lines@), previous, had_blank, hard_break, levels@) == scan_layout(
                    s,
                    ig,
                    k as int,
                ),
                previous is Some ==> lines@.len() > 0,
                kept <= lines@.len(),
                views(lines@).take(kept as int) == scan_layout(s, ig, block_end(s, ig, k as int)).0,
            decreases bounds.len() - k,
        {
            let (content, offset) = line_at(&doc, &bounds, k);
            let is_code = ignore.contains_wide(offset);
            let content = unindent_exec(content, is_code, &levels);
            k = k + 1;
            if !is_code && is_blank_line_exec(&content) {
                had_blank = true;
                continue;
            }
            if !is_code && is_quote_blank_exec(&content) {
                continue;
            }
            let group = classify_exec(&content, is_code);
            let previous_is_list = match previous {
                Some(Group::ListItem) | Some(Group::ListCont) => true,
                _ => false,
            };
            let (rendered, list_blank) = if group == Group::ListItem {
                place_item_exec(&content, &mut levels, had_blank)
            } else if group == Group::ListCont {
                place_cont_exec(&content, &mut levels, had_blank)
            } else {
                levels.clear();
                (content, false)
            };
            let ghost before = views(lines@);
            match previous {
                Some(prev) => {
                    let current_is_list = group == Group::ListItem || group == Group::ListCont;
                    let (count, separator) = if previous_is_list && current_is_list {
                        (if list_blank {
                            1usize
                        } else {
                            0usize
                        }, Vec::new())
                    } else {
                        gap_exec(prev, group, hard_break, &rendered, had_blank)
                    };
                    let mut c: usize = 0;
                    while c < count
                        invariant
                            c <= count,
                            views(lines@) == before + Seq::new(c as nat, |i: int| separator@),
                        decreases count - c,
                    {
                        let line = subvec(&separator, 0, separator.len());
                        assert(line@ =~= separator@);
                        proof {
                            lemma_views_push(lines@, line);
                            assert(before + Seq::new((c + 1) as nat, |i: int| separator@) =~= (
                            before + Seq::new(c as nat, |i: int| separator@)).push(line@));
                        }
                        lines.push(line);
                        c = c + 1;
                    }
                    proof {
                        if previous_is_list && current_is_list {
                            let e: Seq<char> = seq![];
                            assert(separator@ =~= e);
                        }
                    }
                },
                None => {},
            }
            let two_spaces = vec![' ', ' '];
            assert(two_spaces@ =~= "  "@) by {
                reveal_strlit("  ");
            }
            hard_break = ends_with_exec(&rendered, &two_spaces);
            let ghost grown = views(lines@);
            proof {
                lemma_views_push(lines@, rendered);
            }
            lines.push(rendered);
            previous = Some(group);
            had_blank = false;
            proof {
                assert(views(lines@).take(kept as int) =~= grown.take(kept as int));
            }
            if group != Group::Rule {
                kept = lines.len();
                proof {
                    assert(views(lines@).take(kept as int) =~= views(lines@));
                }
            }
        }
        lines.truncate(kept);
        proof {
            assert(views(lines@) =~= scan_layout(s, ig, k as int).0.take(kept as int));
        }
        let newline = vec!['\n'];
        assert(newline@ =~= seq!['\n']);
        let mut out = join_exec(&lines, &newline);
        let tail = final_break_exec(&doc.chars);
        push_all(&mut out, &tail);
        string_of(&out)
    }
}

fn unindent_exec(content: Vec<char>, is_code: bool, levels: &Vec<Level>) -> (r: Vec<char>)
    ensures
        r@ == unindented(content@, is_code, levels@),
        is_blank_line(r@) == is_blank_line(content@),
        is_quote_blank(r@) == is_quote_blank(content@),
{
    proof {
        lemma_unindented_reads(content@, is_code, levels@);
    }
    if !is_code && levels.len() == 0 && classify_exec(&content, false) == Group::ListCont {
        strip_blanks_exec(&content)
    } else {
        content
    }
}

/// `n` tabs followed by `rest`.
fn indented(n: usize, rest: &Vec<char>) -> (r: Vec<char>)
    ensures
        r@ == tabs(n as nat) + rest@,
{
    let mut r: Vec<char> = Vec::new();
    let mut i: usize = 0;
    while i < n
        invariant
            i <= n,
            r@ == tabs(i as nat),
        decreases n - i,
    {
        r.push('\t');
        i = i + 1;
        assert(r@ =~= tabs(i as nat));
    }
    push_all(&mut r, rest);
    r
}

fn place_item_exec(content: &Vec<char>, levels: &mut Vec<Level>, had_blank: bool) -> (r: (
    Vec<char>,
    bool,
))
    ensures
        (r.0@, r.1, final(levels)@) == place_item(content@, old(levels)@, had_blank),
{
    let width = match list_item_indent_of(content) {
        Some(w) => w,
        None => 0,
    };
    let kind = if is_ordered_item_of(content) {
        ListKind::Ordered
    } else {
        ListKind::Bullet
    };
    let mut closed: Option<Level> = None;
    while levels.len() > 0 && width < levels[levels.len() - 1].width
        invariant
            close_deeper(levels@, width as int) == close_deeper(old(levels)@, width as int),
            levels.len() <= old(levels)@.len(),
            levels@ == old(levels)@.take(levels.len() as int),
            closed == if levels.len() < old(levels)@.len() {
                Some(old(levels)@[levels.len() as int])
            } else {
                None::<Level>
            },
        decreases levels.len(),
    {
        let ghost cur = levels@;
        let top = levels[levels.len() - 1];
        levels.pop();
        closed = Some(top);
        assert(levels@ =~= cur.drop_last());
        assert(levels@ =~= old(levels)@.take(levels.len() as int));
    }
    let ghost open = levels@;
    let going_deeper = levels.len() == 0 || width > levels[levels.len() - 1].width;
    let blank_before = if going_deeper && closed.is_some() {
        let gone = closed.unwrap();
        levels.push(Level { width, loose: false, kind });
        gone.loose || gone.kind != kind
    } else if going_deeper {
        let nested = levels.len() > 0;
        let parent_loose = nested && levels[levels.len() - 1].loose;
        levels.push(Level { width, loose: false, kind });
        if nested {
            parent_loose
        } else {
            had_blank
        }
    } else {
        let last = levels.len() - 1;
        let level = levels[last];
        let blank = level.loose || level.kind != kind;
        levels.set(last, Level { width: level.width, loose: false, kind });
        blank
    };
    let depth = if levels.len() > 0 {
        levels.len() - 1
    } else {
        0
    };
    let rest = strip_blanks_exec(content);
    (indented(depth, &rest), blank_before)
}

fn place_cont_exec(content: &Vec<char>, levels: &mut Vec<Level>, had_blank: bool) -> (r: (
    Vec<char>,
    bool,
))
    ensures
        (r.0@, r.1, final(levels)@) == place_cont(content@, old(levels)@, had_blank),
{
    if had_blank && levels.len() > 0 {
        let last = levels.len() - 1;
        let level = levels[last];
        levels.set(last, Level { width: level.width, loose: true, kind: level.kind });
    }
    let rest = strip_blanks_exec(content);
    (indented(levels.len(), &rest), had_blank)
}

fn contains_exec(s: &Vec<char>, p: &Vec<char>) -> (b: bool)
    ensures
        b == contains(s@, p@),
{
    let mut i: usize = 0;
    while i < s.len()
        invariant
            i <= s@.len(),
            forall|k: int| 0 <= k < i ==> !occurs_at(s@, p@, k),
        decreases s.len() - i,
    {
        if occurs_at_exec(s, p, i) {
            return true;
        }
        i = i + 1;
    }
    if occurs_at_exec(s, p, i) {
        return true;
    }
    assert forall|k: int| !occurs_at(s@, p@, k) by {
        if k > i {
            assert(k + p@.len() > s@.len());
        }
    }
    false
}

fn enclosed_exec(t: &Vec<char>, open: &Vec<char>, close: &Vec<char>) -> (r: Option<Vec<char>>)
    ensures
        match r {
            Some(inner) => enclosed(t@, open@, close@) == Some(inner@),
            None => enclosed(t@, open@, close@) is None,
        },
{
    if !starts_with_exec(t, open) {
        return None;
    }
    let after = subvec(t, open.len(), t.len());
    assert(after@ =~= t@.skip(open@.len() as int));
    if !ends_with_exec(&after, close) {
        return None;
    }
    Some(subvec(t, open.len(), t.len() - close.len()))
}

fn is_wikilink_only_exec(t: &Vec<char>) -> (b: bool)
    ensures
        b == is_wikilink_only(t@),
{
    let open = vec!['[', '['];
    let close = vec![']', ']'];
    assert(open@ =~= "[["@) by {
        reveal_strlit("[[");
    }
    assert(close@ =~= "]]"@) by {
        reveal_strlit("]]");
    }
    match enclosed_exec(t, &open, &close) {
        Some(inner) => inner.len() > 0 && !contains_exec(&inner, &open) && !contains_exec(
            &inner,
            &close,
        ),
        None => false,
    }
}

fn is_label_line_exec(t: &Vec<char>) -> (b: bool)
    ensures
        b == is_label_line(t@),
{
    let stars = vec!['*', '*'];
    let unders = vec!['_', '_'];
    assert(stars@ =~= "**"@) by {
        reveal_strlit("**");
    }
    assert(unders@ =~= "__"@) by {
        reveal_strlit("__");
    }
    let by_stars = match enclosed_exec(t, &stars, &stars) {
        Some(inner) => inner.len() > 0 && !contains_exec(&inner, &stars),
        None => false,
    };
    let by_unders = match enclosed_exec(t, &unders, &unders) {
        Some(inner) => inner.len() > 0 && !contains_exec(&inner, &unders),
        None => false,
    };
    by_stars || by_unders
}

fn all_are(t: &Vec<char>, c: char) -> (b: bool)
    ensures
        b == forall|k: int| 0 <= k < t@.len() ==> t@[k] == c,
{
    let mut i: usize = 0;
    while i < t.len()
        invariant
            i <= t@.len(),
            forall|k: int| 0 <= k < i ==> t@[k] == c,
        decreases t.len() - i,
    {
        if t[i] != c {
            return false;
        }
        i = i + 1;
    }
    true
}

fn is_thematic_break_exec(t: &Vec<char>) -> (b: bool)
    ensures
        b == is_thematic_break(t@),
{
    t.len() >= 3 && (all_are(t, '-') || all_are(t, '*') || all_are(t, '_'))
}

fn classify_exec(content: &Vec<char>, is_code: bool) -> (g: Group)
    ensures
        g == classify(content@, is_code),
{
    if is_code {
        return Group::Code;
    }
    if heading_level_of(content).is_some() {
        return Group::Heading;
    }
    if starts_with_tag_of(content) {
        return Group::Tag;
    }
    if list_item_indent_of(content).is_some() {
        return Group::ListItem;
    }
    if content.len() > 0 && (content[0] == ' ' || content[0] == '\t') {
        return Group::ListCont;
    }
    let t = trim_exec(content);
    if t.len() > 0 && t[0] == '>' {
        Group::Quote
    } else if t.len() > 0 && t[0] == '|' {
        Group::Table
    } else if is_thematic_break_exec(&t) {
        Group::Rule
    } else if is_label_line_exec(&t) {
        Group::Label
    } else if is_wikilink_only_exec(&t) {
        Group::Wikilink
    } else {
        Group::Para
    }
}

fn quote_inner_exec(line: &Vec<char>) -> (r: Vec<char>)
    ensures
        r@ == quote_inner(line@),
{
    let t = trim_start_exec(line);
    let after = if t.len() > 0 && t[0] == '>' {
        subvec(&t, 1, t.len())
    } else {
        subvec(line, 0, line.len())
    };
    assert(t@.len() > 0 ==> t@.subrange(1, t@.len() as int) =~= t@.drop_first());
    assert(line@.subrange(0, line@.len() as int) =~= line@);
    if after.len() > 0 && after[0] == ' ' {
        let r = subvec(&after, 1, after.len());
        assert(r@ =~= after@.drop_first());
        r
    } else {
        after
    }
}

fn is_quote_blank_exec(content: &Vec<char>) -> (b: bool)
    ensures
        b == is_quote_blank(content@),
{
    let t = trim_start_exec(content);
    if t.len() > 0 && t[0] == '>' {
        let rest = subvec(&t, 1, t.len());
        assert(rest@ =~= t@.drop_first());
        is_blank_line_exec(&rest)
    } else {
        false
    }
}

fn desired_blanks_exec(previous: Group, current: Group, prev_hard_break: bool, had_blank: bool) -> (n: usize)
    ensures
        n == desired_blanks(previous, current, prev_hard_break, had_blank),
{
    match (previous, current) {
        (Group::Heading, Group::Tag) => 0,
        (Group::Tag, Group::Tag) => 0,
        (Group::Code, Group::Code) => 0,
        (Group::Wikilink, Group::Wikilink) => 0,
        (Group::Table, Group::Table) => if had_blank {
            1
        } else {
            0
        },
        (Group::Para, Group::Para) => if prev_hard_break {
            0
        } else {
            1
        },
        _ => 1,
    }
}

fn gap_exec(
    previous: Group,
    current: Group,
    prev_hard_break: bool,
    current_line: &Vec<char>,
    had_blank: bool,
) -> (r: (usize, Vec<char>))
    ensures
        (r.0 as nat, r.1@) == gap(previous, current, prev_hard_break, current_line@, had_blank),
{
    if previous == Group::Quote && current == Group::Quote {
        let inner = quote_inner_exec(current_line);
        let keep_together = prev_hard_break || (inner.len() > 0 && inner[0] == '|');
        let sep = vec!['>'];
        assert(sep@ =~= seq!['>']);
        return (if keep_together {
            0
        } else {
            1
        }, sep);
    }
    let sep: Vec<char> = Vec::new();
    assert(sep@ =~= Seq::<char>::empty());
    (desired_blanks_exec(previous, current, prev_hard_break, had_blank), sep)
}

/// Without code, every line the layout writes for a note's content is
/// non-blank, and the lines it has written start and end with one.
proof fn lemma_scan_layout_ends(s: Seq<char>, n: int)
    requires
        0 <= n <= line_bounds(s).len(),
    ensures
        ({
            let (lines, previous, had_blank, hard_break, levels) = scan_layout(s, seq![], n);
            &&& (lines.len() == 0) == (previous is None)
            &&& lines.len() > 0 ==> !is_blank_line(lines[0]) && !is_blank_line(lines.last())
        }),
    decreases n,
{
    if n > 0 {
        lemma_scan_layout_ends(s, n - 1);
        let (lines, previous, had_blank, hard_break, levels) = scan_layout(s, seq![], n - 1);
        let b = line_bounds(s)[n - 1];
        assert(!in_ranges(seq![], byte_offset(s, b.0) as int));
        let content = unindented(line_text(s, b), false, levels);
        if !is_blank_line(content) && !is_quote_blank(content) {
            let group = classify(content, false);
            let k = choose|k: int| 0 <= k < content.len() && !is_ws(content[k]);
            let a = skip_blanks(content, 0);
            crate::scan::lemma_skip_blanks_bounds(content, 0);
            let stripped = strip_blanks(content);
            assert(!is_ws(content[k]));
            assert(!is_blank(content[k]));
            assert(a <= k);
            assert(stripped[k - a] == content[k]);
            let (rendered, list_blank, after) = if group == Group::ListItem {
                place_item(content, levels, had_blank)
            } else if group == Group::ListCont {
                place_cont(content, levels, had_blank)
            } else {
                (content, false, seq![])
            };
            if group == Group::ListItem || group == Group::ListCont {
                let t = rendered.len() - stripped.len();
                assert(rendered[t + k - a] == stripped[k - a]);
            }
            assert(!is_blank_line(rendered));
            let out = scan_layout(s, seq![], n).0;
            if lines.len() > 0 {
                assert(out[0] == lines[0]);
            } else {
                assert(out[0] == rendered);
            }
            assert(out.last() == rendered);
        }
    }
}

/// Without code, a laid-out note neither starts nor ends with a blank line:
/// its lines, joined with line breaks and followed by the note's own final
/// line break, are the output.
pub proof fn layout_has_no_outer_blank_lines(s: Seq<char>)
    ensures
        spec_layout(s, seq![]) == join(laid_out_lines(s, seq![]), seq!['\n']) + final_break(s),
        laid_out_lines(s, seq![]).len() > 0 ==> !is_blank_line(laid_out_lines(s, seq![])[0])
            && !is_blank_line(laid_out_lines(s, seq![]).last()),
{
    let n = line_bounds(s).len() as int;
    lemma_block_end(s, seq![], n);
    lemma_scan_layout_ends(s, block_end(s, seq![], n));
}

// ----- code comes through -----

/// The lines written so far only grow: later states begin with earlier
/// ones, and while nothing is written the previous block stays.
proof fn lemma_scan_layout_grows(s: Seq<char>, ignore: Seq<(int, int)>, k: int, m: int)
    requires
        0 <= k <= m <= line_bounds(s).len(),
    ensures
        scan_layout(s, ignore, k).0.len() <= scan_layout(s, ignore, m).0.len(),
        scan_layout(s, ignore, m).0.take(scan_layout(s, ignore, k).0.len() as int) == scan_layout(
            s,
            ignore,
            k,
        ).0,
        scan_layout(s, ignore, m).0.len() == scan_layout(s, ignore, k).0.len() ==> scan_layout(
            s,
            ignore,
            m,
        ).1 == scan_layout(s, ignore, k).1,
    decreases m - k,
{
    if k < m {
        lemma_scan_layout_grows(s, ignore, k, m - 1);
        let a = scan_layout(s, ignore, k).0;
        let b = scan_layout(s, ignore, m - 1).0;
        let c = scan_layout(s, ignore, m).0;
        assert(c.len() >= b.len());
        assert(c.take(b.len() as int) == b);
        assert(c.take(a.len() as int) =~= b.take(a.len() as int));
    } else {
        assert(scan_layout(s, ignore, m).0.take(scan_layout(s, ignore, m).0.len() as int) =~= scan_layout(
            s,
            ignore,
            m,
        ).0);
    }
}

/// Once a block is written, some line is.
proof fn lemma_scan_layout_written(s: Seq<char>, ignore: Seq<(int, int)>, n: int)
    requires
        0 <= n <= line_bounds(s).len(),
    ensures
        scan_layout(s, ignore, n).1 is Some ==> scan_layout(s, ignore, n).0.len() > 0,
    decreases n,
{
    if n > 0 {
        lemma_scan_layout_written(s, ignore, n - 1);
    }
}

/// A line without its indentation is still one line.
pub proof fn lemma_strip_blanks_one_line(c: Seq<char>)
    requires
        no_newline(c),
    ensures
        no_newline(strip_blanks(c)),
{
    crate::scan::lemma_skip_blanks_bounds(c, 0);
    lemma_no_newline_sub(c, skip_blanks(c, 0), c.len() as int);
}

/// Every line the layout writes is a line without line breaks.
proof fn lemma_scan_layout_one_line(s: Seq<char>, ignore: Seq<(int, int)>, n: int)
    requires
        0 <= n <= line_bounds(s).len(),
    ensures
        forall|j: int|
            0 <= j < scan_layout(s, ignore, n).0.len() ==> no_newline(#[trigger] scan_layout(s, ignore, n).0[j]),
    decreases n,
{
    if n > 0 {
        lemma_scan_layout_one_line(s, ignore, n - 1);
        let prev = scan_layout(s, ignore, n - 1).0;
        let now = scan_layout(s, ignore, n).0;
        let b = line_bounds(s)[n - 1];
        let raw = line_text(s, b);
        lemma_line_pieces_wf(s);
        assert(raw == line_pieces(s)[n - 1].0);
        assert(no_newline(raw));
        let content = unindented(
            raw,
            in_ranges(ignore, byte_offset(s, b.0) as int),
            scan_layout(s, ignore, n - 1).4,
        );
        lemma_strip_blanks_one_line(raw);
        assert(no_newline(content));
        lemma_strip_blanks_one_line(content);
        assert forall|j: int| 0 <= j < now.len() implies no_newline(#[trigger] now[j]) by {
            if j < prev.len() {
                assert(now[j] == prev[j]);
            } else if j < now.len() - 1 {
                assert(no_newline(now[j])) by {
                    assert(now[j] == seq!['>'] || now[j] == Seq::<char>::empty()) by {
                        let st = scan_layout(s, ignore, n - 1);
                        let is_code = in_ranges(ignore, byte_offset(s, b.0) as int);
                        let group = classify(content, is_code);
                        let (rendered, list_blank, levels) = if group == Group::ListItem {
                            place_item(content, st.4, st.2)
                        } else if group == Group::ListCont {
                            place_cont(content, st.4, st.2)
                        } else {
                            (content, false, seq![])
                        };
                        let prevg = st.1->Some_0;
                        let (count, sep) = if is_list_group(prevg) && is_list_group(group) {
                            (if list_blank {
                                1nat
                            } else {
                                0nat
                            }, Seq::<char>::empty())
                        } else {
                            gap(prevg, group, st.3, rendered, st.2)
                        };
                        assert(now[j] == sep);
                    }
                }
            } else {
                let t = now[j];
                assert forall|q: int| 0 <= q < t.len() implies t[q] != '\n' by {
                    if t != content {
                        let d = t.len() - strip_blanks(content).len();
                        if q >= d {
                            assert(t[q] == strip_blanks(content)[q - d]);
                        }
                    }
                }
            }
        }
    }
}

/// Code is left untouched: every line of code that is not blank comes out
/// as the same line, at the place the layout wrote it.
pub proof fn layout_keeps_code(s: Seq<char>, ignore: Seq<(int, int)>)
    ensures
        forall|k: int|
            0 <= k < line_bounds(s).len() && #[trigger] code_line(s, ignore, k) && !is_blank_line(
                line_text(s, line_bounds(s)[k]),
            ) ==> keeps_line_at(
                s,
                spec_layout(s, ignore),
                k,
                scan_layout(s, ignore, k + 1).0.len() - 1,
            ),
{
    let n = line_bounds(s).len() as int;
    lemma_block_end(s, ignore, n);
    let e = block_end(s, ignore, n);
    let st = scan_layout(s, ignore, e);
    let out = laid_out_lines(s, ignore);
    let fb = final_break(s);
    let text = spec_layout(s, ignore);
    lemma_scan_layout_one_line(s, ignore, e);
    assert(out == st.0);
    assert forall|k: int|
        0 <= k < n && #[trigger] code_line(s, ignore, k) && !is_blank_line(line_text(s, line_bounds(s)[k]))
            implies keeps_line_at(s, text, k, scan_layout(s, ignore, k + 1).0.len() - 1) by {
        let content = line_text(s, line_bounds(s)[k]);
        let here = scan_layout(s, ignore, k + 1);
        let j = here.0.len() - 1;
        assert(here.0.last() == content);
        assert(here.1 == Some(Group::Code));
        lemma_block_end_past_code(s, ignore, n, k);
        lemma_scan_layout_grows(s, ignore, k + 1, e);
        assert(st.0[j] == here.0[j]);
        assert(out[j] == content);
        // And reads back at its place.
        let brk = fb.len() > 0;
        assert(fb == if brk {
            seq!['\n']
        } else {
            Seq::<char>::empty()
        });
        lemma_join_lines(out, brk);
        let p = joined_pieces(out, brk);
        lemma_line_pieces_of_render(p);
        lemma_line_pieces_last(text);
        assert(p[j] == (out[j], j < out.len() - 1 || brk));
        assert(content.len() > 0);
        assert(normalize(p)[j] == p[j]);
        assert(line_pieces(text)[j] == normalize(p)[j]);
    }
}

/// The laid-out lines reach past every line of code.
proof fn lemma_block_end_past_code(s: Seq<char>, ignore: Seq<(int, int)>, n: int, k: int)
    requires
        0 <= k < n,
        code_line(s, ignore, k),
    ensures
        block_end(s, ignore, n) > k,
    decreases n,
{
    if n - 1 > k {
        lemma_block_end_past_code(s, ignore, n - 1, k);
    }
}

/// A line without its indentation, stripped again, is the same.
proof fn lemma_strip_blanks_twice(c: Seq<char>)
    ensures
        strip_blanks(strip_blanks(c)) == strip_blanks(c),
        ends_with(c, strip_blanks(c)),
{
    crate::scan::lemma_skip_blanks_bounds(c, 0);
    let t = strip_blanks(c);
    crate::scan::lemma_skip_blanks_bounds(t, 0);
    if t.len() > 0 {
        assert(t[0] == c[skip_blanks(c, 0)]);
        assert(skip_blanks(t, 0) == 0);
    } else {
        assert(skip_blanks(t, 0) == 0);
    }
    assert(strip_blanks(t) =~= t);
    assert(c.subrange(c.len() - t.len(), c.len() as int) =~= t);
}

/// The line written for a line of the note ends with that line's text
/// after its indentation.
proof fn lemma_written_text(s: Seq<char>, ignore: Seq<(int, int)>, k: int)
    requires
        0 <= k < line_bounds(s).len(),
        !is_blank_line(line_text(s, line_bounds(s)[k])),
        !in_ranges(ignore, byte_offset(s, line_bounds(s)[k].0) as int) ==> !is_quote_blank(
            line_text(s, line_bounds(s)[k]),
        ),
    ensures
        scan_layout(s, ignore, k + 1).0.len() > 0,
        ends_with(
            scan_layout(s, ignore, k + 1).0.last(),
            strip_blanks(line_text(s, line_bounds(s)[k])),
        ),
{
    let b = line_bounds(s)[k];
    let raw = line_text(s, b);
    let is_code = in_ranges(ignore, byte_offset(s, b.0) as int);
    let st = scan_layout(s, ignore, k);
    let c = unindented(raw, is_code, st.4);
    lemma_unindented_reads(raw, is_code, st.4);
    lemma_strip_blanks_twice(raw);
    let r = scan_layout(s, ignore, k + 1).0.last();
    let t = strip_blanks(raw);
    if c != raw {
        assert(c == t);
    }
    assert(strip_blanks(c) == t);
    let group = classify(c, is_code);
    if group == Group::ListItem || group == Group::ListCont {
        let d = r.len() - t.len();
        assert(r.subrange(d, r.len() as int) =~= t);
    } else {
        assert(r == c);
        if c == t {
            assert(r.subrange(0, r.len() as int) =~= t);
        }
    }
}

/// Text is left as it is by the layout: every line that is laid out, but for
/// a blank line and an empty quote line outside code, comes out as a line
/// that ends with the line's text after its indentation (re-indented with
/// tabs in a list, as it was elsewhere).
pub proof fn layout_keeps_line_text(s: Seq<char>, ignore: Seq<(int, int)>)
    ensures
        forall|k: int|
            0 <= k < block_end(s, ignore, line_bounds(s).len() as int) && !is_blank_line(
                line_text(s, line_bounds(s)[k]),
            ) && (!in_ranges(ignore, byte_offset(s, line_bounds(s)[k].0) as int) ==> !is_quote_blank(
                line_text(s, line_bounds(s)[k]),
            )) ==> {
                let text = spec_layout(s, ignore);
                let j = #[trigger] scan_layout(s, ignore, k + 1).0.len() - 1;
                0 <= j < line_bounds(text).len() && ends_with(
                    line_text(text, line_bounds(text)[j]),
                    strip_blanks(line_text(s, line_bounds(s)[k])),
                )
            },
{
    let n = line_bounds(s).len() as int;
    lemma_block_end(s, ignore, n);
    let e = block_end(s, ignore, n);
    let st = scan_layout(s, ignore, e);
    let out = laid_out_lines(s, ignore);
    let fb = final_break(s);
    let text = spec_layout(s, ignore);
    lemma_scan_layout_one_line(s, ignore, e);
    assert(out == st.0);
    assert forall|k: int|
        0 <= k < e && !is_blank_line(line_text(s, line_bounds(s)[k])) && (!in_ranges(
            ignore,
            byte_offset(s, line_bounds(s)[k].0) as int,
        ) ==> !is_quote_blank(line_text(s, line_bounds(s)[k]))) implies {
        let j = #[trigger] scan_layout(s, ignore, k + 1).0.len() - 1;
        0 <= j < line_bounds(text).len() && ends_with(
            line_text(text, line_bounds(text)[j]),
            strip_blanks(line_text(s, line_bounds(s)[k])),
        )
    } by {
        lemma_written_text(s, ignore, k);
        let here = scan_layout(s, ignore, k + 1);
        let j = here.0.len() - 1;
        lemma_scan_layout_grows(s, ignore, k + 1, e);
        assert(st.0[j] == here.0[j]);
        assert(out[j] == here.0.last());
        let t = strip_blanks(line_text(s, line_bounds(s)[k]));
        crate::scan::lemma_skip_blanks_bounds(line_text(s, line_bounds(s)[k]), 0);
        assert(t.len() > 0) by {
            if t.len() == 0 {
                let c = line_text(s, line_bounds(s)[k]);
                assert forall|q: int| 0 <= q < c.len() implies is_ws(#[trigger] c[q]) by {
                    assert(is_blank(c[q]));
                }
            }
        }
        assert(out[j].len() > 0);
        let brk = fb.len() > 0;
        assert(fb == if brk {
            seq!['\n']
        } else {
            Seq::<char>::empty()
        });
        lemma_join_lines(out, brk);
        let p = joined_pieces(out, brk);
        lemma_line_pieces_of_render(p);
        lemma_line_pieces_last(text);
        assert(p[j] == (out[j], j < out.len() - 1 || brk));
        assert(normalize(p)[j] == p[j]);
        assert(line_pieces(text)[j] == normalize(p)[j]);
    }
}

} // verus!
