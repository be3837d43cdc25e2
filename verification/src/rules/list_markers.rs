//! **list-markers** — unordered bullets become `-`, exactly one space follows a
//! marker, empty items are dropped, and duplicated markers (from pastes) are
//! collapsed. Ordered numbers are left as they are — no renumbering.

use crate::engine::ignore::{in_ranges, IgnoreRanges};
use crate::engine::Rule;
use crate::lines::{
    code_line, filter_pieces, filtered_lines, keeps_line_at, kept_pieces,
    lemma_filter_lines_idempotent, lemma_filter_pieces_take, lemma_filtered_keeps,
    lemma_line_pieces_wf, lemma_no_newline_concat, lemma_no_newline_sub, lemma_no_newline_trim,
    line_pieces, no_newline, render_pieces,
};
use crate::rules::support::{
    digits_end, digits_end_exec, is_bullet, is_bullet_exec, is_digit, lemma_digits_end_bounds,
    lemma_digits_end_same,
};
use crate::scan::{
    back_ws, push_all, skip_blanks, skip_blanks_exec, subvec, trim_end,
    trim_end_exec,
};
use crate::text::{
    byte_offset, is_blank, line_at, line_bounds, line_bounds_exec, line_break, line_text, string_of, Doc,
};
use vstd::prelude::*;

verus! {

pub struct ListMarkers;

/// The length of an ordered marker (digits then `.` or `)`) at the start of `s`.
pub open spec fn ordered_marker_len(s: Seq<char>) -> Option<int> {
    let d = digits_end(s, 0);
    if d > 0 && d < s.len() && (s[d] == '.' || s[d] == ')') {
        Some(d + 1)
    } else {
        None
    }
}

/// If `s` begins with a list marker followed by a space, a tab or the end, the
/// text after the marker and the spaces and tabs after it. A bare `.` followed
/// by a tab is a marker too (a pasted numbered item that lost its number).
pub open spec fn split_marker(s: Seq<char>) -> Option<Seq<char>> {
    match ordered_marker_len(s) {
        Some(m) => if m == s.len() || is_blank(s[m]) {
            Some(s.skip(skip_blanks(s, m)))
        } else {
            None
        },
        None => if s.len() > 0 && is_bullet(s[0]) && (s.len() == 1 || is_blank(s[1])) {
            Some(s.skip(skip_blanks(s, 1)))
        } else if s.len() > 1 && s[0] == '.' && s[1] == '\t' {
            Some(s.skip(skip_blanks(s, 1)))
        } else {
            None
        },
    }
}

pub proof fn lemma_split_marker_shorter(s: Seq<char>)
    ensures
        split_marker(s) matches Some(inner) ==> inner.len() < s.len(),
{
    if s.len() >= 1 {
        crate::scan::lemma_skip_blanks_bounds(s, 1);
    }
    crate::rules::support::lemma_digits_end(s, 0);
    match ordered_marker_len(s) {
        Some(m) => if m <= s.len() {
            crate::scan::lemma_skip_blanks_bounds(s, m);
        },
        None => {},
    }
}

/// `s` with every leading list marker removed.
pub open spec fn strip_markers(s: Seq<char>) -> Seq<char>
    decreases s.len(),
{
    match split_marker(s) {
        Some(inner) => {
            proof {
                lemma_split_marker_shorter(s);
            }
            strip_markers(inner)
        },
        None => s,
    }
}

/// A line reformatted, or `None` for an empty list item (dropped).
pub open spec fn reformat_item(line: Seq<char>) -> Option<Seq<char>> {
    let indent_len = skip_blanks(line, 0);
    let rest = line.skip(indent_len);
    match split_marker(rest) {
        None => Some(line),
        Some(after) => {
            let content = strip_markers(trim_end(after));
            if content.len() == 0 {
                None
            } else {
                let marker = match ordered_marker_len(rest) {
                    Some(m) => rest.take(m),
                    None => seq!['-'],
                };
                Some(line.take(indent_len) + marker + seq![' '] + content)
            }
        },
    }
}

/// The first `n` lines rewritten; a dropped item loses its line break too.
pub open spec fn marker_lines(s: Seq<char>, ignore: Seq<(int, int)>, n: int) -> Seq<char>
    decreases n,
{
    if n <= 0 {
        seq![]
    } else {
        let b = line_bounds(s)[n - 1];
        let content = line_text(s, b);
        marker_lines(s, ignore, n - 1) + if in_ranges(ignore, byte_offset(s, b.0) as int) {
            content + line_break(s, b)
        } else {
            match reformat_item(content) {
                Some(r) => r + line_break(s, b),
                None => seq![],
            }
        }
    }
}

pub open spec fn spec_list_markers(s: Seq<char>, ignore: Seq<(int, int)>) -> Seq<char> {
    marker_lines(s, ignore, line_bounds(s).len() as int)
}

fn ordered_marker_len_exec(s: &Vec<char>) -> (r: Option<usize>)
    ensures
        match r {
            Some(m) => ordered_marker_len(s@) == Some(m as int) && m <= s@.len(),
            None => ordered_marker_len(s@) is None,
        },
{
    let d = digits_end_exec(s, 0);
    if d > 0 && d < s.len() && (s[d] == '.' || s[d] == ')') {
        Some(d + 1)
    } else {
        None
    }
}

fn split_marker_exec(s: &Vec<char>) -> (r: Option<Vec<char>>)
    ensures
        match r {
            Some(inner) => split_marker(s@) == Some(inner@),
            None => split_marker(s@) is None,
        },
{
    match ordered_marker_len_exec(s) {
        Some(m) => {
            if m == s.len() || s[m] == ' ' || s[m] == '\t' {
                let e = skip_blanks_exec(s, m);
                let inner = subvec(s, e, s.len());
                assert(inner@ =~= s@.skip(e as int));
                Some(inner)
            } else {
                None
            }
        },
        None => {
            if (s.len() > 0 && is_bullet_exec(s[0]) && (s.len() == 1 || s[1] == ' ' || s[1]
                == '\t')) || (s.len() > 1 && s[0] == '.' && s[1] == '\t') {
                let e = skip_blanks_exec(s, 1);
                let inner = subvec(s, e, s.len());
                assert(inner@ =~= s@.skip(e as int));
                Some(inner)
            } else {
                None
            }
        },
    }
}

fn reformat_item_exec(line: &Vec<char>) -> (r: Option<Vec<char>>)
    ensures
        match r {
            Some(x) => reformat_item(line@) == Some(x@),
            None => reformat_item(line@) is None,
        },
{
    let indent_len = skip_blanks_exec(line, 0);
    let rest = subvec(line, indent_len, line.len());
    assert(rest@ =~= line@.skip(indent_len as int));
    let mut content = match split_marker_exec(&rest) {
        None => {
            let same = subvec(line, 0, line.len());
            assert(same@ =~= line@);
            return Some(same);
        },
        Some(after) => after,
    };
    let content = trim_end_exec(&content);
    let mut content = content;
    let ghost after = content@;
    loop
        invariant
            strip_markers(after) == strip_markers(content@),
        ensures
            strip_markers(after) == content@,
        decreases content@.len(),
    {
        match split_marker_exec(&content) {
            Some(inner) => {
                proof {
                    lemma_split_marker_shorter(content@);
                }
                content = inner;
            },
            None => break,
        }
    }
    if content.len() == 0 {
        return None;
    }
    let mut r = subvec(line, 0, indent_len);
    match ordered_marker_len_exec(&rest) {
        Some(m) => {
            let marker = subvec(&rest, 0, m);
            push_all(&mut r, &marker);
        },
        None => {
            r.push('-');
        },
    }
    r.push(' ');
    push_all(&mut r, &content);
    proof {
        let marker = match ordered_marker_len(rest@) {
            Some(m) => rest@.take(m),
            None => seq!['-'],
        };
        assert(r@ =~= line@.take(indent_len as int) + marker + seq![' '] + content@);
    }
    Some(r)
}

impl Rule for ListMarkers {
    open spec fn spec_name(&self) -> Seq<char> {
        "list-markers"@
    }

    open spec fn spec_apply(&self, text: Seq<char>, ignore: Seq<(int, int)>) -> Seq<char> {
        spec_list_markers(text, ignore)
    }

    fn name(&self) -> (name: &'static str) {
        "list-markers"
    }

    fn apply(&self, text: &str, ignore: &IgnoreRanges) -> (out: String) {
        let doc = Doc::new(text);
        let bounds = line_bounds_exec(&doc.chars);
        let ghost s = doc.chars@;
        let mut out: Vec<char> = Vec::new();
        let mut k: usize = 0;
        while k < bounds.len()
            invariant
                doc.wf(),
                s == doc.chars@,
                crate::text::bounds_view(bounds@) == line_bounds(s),
                k <= bounds@.len(),
                out@ == marker_lines(s, ignore@, k as int),
            decreases bounds.len() - k,
        {
            let (content, offset) = line_at(&doc, &bounds, k);
            let newline = bounds[k].1 < doc.chars.len();
            if ignore.contains_wide(offset) {
                push_all(&mut out, &content);
                if newline {
                    out.push('\n');
                }
            } else {
                match reformat_item_exec(&content) {
                    Some(rendered) => {
                        push_all(&mut out, &rendered);
                        if newline {
                            out.push('\n');
                        }
                    },
                    None => {},
                }
            }
            k = k + 1;
            proof {
                let b = line_bounds(s)[k - 1];
                assert(b.1 == bounds@[k - 1].1);
                assert(out@ =~= marker_lines(s, ignore@, k as int));
            }
        }
        string_of(&out)
    }
}

/// What follows a marker starts with neither a space nor a tab.
proof fn lemma_split_marker_after(s: Seq<char>)
    ensures
        split_marker(s) matches Some(after) ==> (after.len() == 0 || !is_blank(after[0])) && (
        no_newline(s) ==> no_newline(after)) && (after.len() > 0 ==> after.last() == s.last()),
{
    lemma_digits_end_bounds(s, 0);
    let e = match ordered_marker_len(s) {
        Some(m) => if m <= s.len() {
            skip_blanks(s, m)
        } else {
            0
        },
        None => if s.len() >= 1 {
            skip_blanks(s, 1)
        } else {
            0
        },
    };
    match ordered_marker_len(s) {
        Some(m) => {
            crate::scan::lemma_skip_blanks_bounds(s, m);
        },
        None => if s.len() >= 1 {
            crate::scan::lemma_skip_blanks_bounds(s, 1);
        },
    }
    if let Some(after) = split_marker(s) {
        assert(after == s.skip(e));
        assert forall|k: int| 0 <= k < after.len() implies after[k] == s[e + k] by {}
        if after.len() > 0 {
            assert(after[0] == s[e]);
            assert(after.last() == after[after.len() - 1]);
        }
    }
}

/// With every marker removed, what is left starts with no marker and with
/// neither a space nor a tab.
proof fn lemma_strip_markers_shape(x: Seq<char>)
    requires
        x.len() == 0 || !is_blank(x[0]),
    ensures
        split_marker(strip_markers(x)) is None,
        strip_markers(x).len() == 0 || !is_blank(strip_markers(x)[0]),
        no_newline(x) ==> no_newline(strip_markers(x)),
        strip_markers(x).len() > 0 ==> strip_markers(x).last() == x.last(),
    decreases x.len(),
{
    if let Some(inner) = split_marker(x) {
        lemma_split_marker_shorter(x);
        lemma_split_marker_after(x);
        lemma_strip_markers_shape(inner);
    }
}

proof fn lemma_trim_end_twice(y: Seq<char>)
    ensures
        trim_end(trim_end(y)) == trim_end(y),
        trim_end(y).len() > 0 ==> trim_end(y)[0] == y[0],
        forall|k: int| 0 <= k < trim_end(y).len() ==> #[trigger] trim_end(y)[k] == y[k],
{
    let t = trim_end(y);
    crate::scan::lemma_back_ws_bounds(y, y.len() as int);
    if t.len() > 0 {
        assert(t[t.len() - 1] == y[t.len() - 1]);
        assert(crate::scan::back_ws(t, t.len() as int) == t.len());
    }
    assert(t.subrange(0, crate::scan::back_ws(t, t.len() as int)) =~= t);
}

/// A line comes out of a second pass as the first pass wrote it.
proof fn lemma_reformat_item_settled(c: Seq<char>)
    requires
        no_newline(c),
    ensures
        match reformat_item(c) {
            Some(r) => no_newline(r) && reformat_item(r) == Some(r),
            None => true,
        },
{
    let il = skip_blanks(c, 0);
    crate::scan::lemma_skip_blanks_bounds(c, 0);
    let rest = c.skip(il);
    assert(no_newline(rest)) by {
        assert forall|k: int| 0 <= k < rest.len() implies rest[k] != '\n' by {
            assert(rest[k] == c[il + k]);
        }
    }
    if let Some(after) = split_marker(rest) {
        lemma_split_marker_after(rest);
        let sm = trim_end(after);
        lemma_trim_end_twice(after);
        crate::scan::lemma_back_ws_bounds(after, after.len() as int);
        assert(no_newline(sm)) by {
            assert forall|k: int| 0 <= k < sm.len() implies sm[k] != '\n' by {
                assert(sm[k] == after[k]);
            }
        }
        lemma_strip_markers_shape(sm);
        let content = strip_markers(sm);
        assert(no_newline(content));
        if content.len() > 0 {
            lemma_digits_end_bounds(rest, 0);
            let indent = c.take(il);
            let marker = match ordered_marker_len(rest) {
                Some(m) => rest.take(m),
                None => seq!['-'],
            };
            let r = indent + marker + seq![' '] + content;
            assert(reformat_item(c) == Some(r));
            assert(marker.len() >= 1);
            if ordered_marker_len(rest) is Some {
                assert(digits_end(rest, 0) > 0);
                assert(is_digit(rest[0]));
            }
            assert(!is_blank(marker[0]));
            assert forall|k: int| 0 <= k < r.len() implies r[k] != '\n' by {
                if k < il {
                    assert(r[k] == c[k]);
                } else if k < il + marker.len() {
                    assert(r[k] == marker[k - il]);
                    if ordered_marker_len(rest) is Some {
                        assert(marker[k - il] == rest[k - il]);
                    }
                } else if k > il + marker.len() {
                    assert(r[k] == content[k - il - marker.len() - 1]);
                }
            }
            // The second pass finds the same indentation, marker and text.
            assert forall|k: int| 0 <= k < il implies is_blank(#[trigger] r[k]) by {
                assert(r[k] == c[k]);
            }
            assert(r[il] == marker[0]);
            crate::scan::lemma_skip_blanks_same(r, il);
            let rest2 = r.skip(il);
            assert(rest2 =~= marker + seq![' '] + content);
            assert(r.take(il) =~= indent);
            let ml = marker.len() as int;
            assert(rest2[ml] == ' ');
            assert(rest2[ml + 1] == content[0]);
            crate::scan::lemma_skip_blanks_from(rest2, ml, ml + 1);
            assert(rest2.skip(ml + 1) =~= content);
            match ordered_marker_len(rest) {
                Some(m) => {
                    let d = m - 1;
                    assert forall|k: int| 0 <= k < d implies is_digit(#[trigger] rest2[k]) by {
                        assert(rest2[k] == rest[k]);
                    }
                    assert(rest2[d] == rest[d]);
                    lemma_digits_end_same(rest2, 0, d);
                    assert(ordered_marker_len(rest2) == Some(m));
                    assert(rest2.take(m) =~= marker);
                },
                None => {
                    assert(rest2[0] == '-');
                    assert(digits_end(rest2, 0) == 0);
                    assert(ordered_marker_len(rest2) is None);
                },
            }
            assert(split_marker(rest2) == Some(content));
            // What is left ends as the trimmed text does: in no whitespace.
            let u = crate::scan::back_ws(after, after.len() as int);
            assert(sm == after.subrange(0, u));
            assert(sm.last() == after[u - 1]);
            assert(content.last() == sm.last());
            crate::scan::lemma_back_ws_bounds(content, content.len() as int);
            assert(content[content.len() - 1] == content.last());
            assert(crate::scan::back_ws(content, content.len() as int) == content.len());
            assert(trim_end(content) =~= content);
            assert(strip_markers(content) == content);
            assert(reformat_item(r) == Some(r));
        }
    }
}

/// With no code in the way, the first `n` lines rewritten are the line
/// filter of `reformat_item`.
proof fn lemma_marker_lines_filter(s: Seq<char>, n: int)
    requires
        0 <= n <= line_bounds(s).len(),
    ensures
        marker_lines(s, seq![], n) == render_pieces(
            filter_pieces(line_pieces(s).take(n), |c: Seq<char>| reformat_item(c)),
        ),
    decreases n,
{
    let g = |c: Seq<char>| reformat_item(c);
    if n == 0 {
        assert(filter_pieces(line_pieces(s).take(0), g) =~= Seq::<(Seq<char>, bool)>::empty());
    } else {
        lemma_marker_lines_filter(s, n - 1);
        lemma_filter_pieces_take(line_pieces(s), g, n - 1);
        let b = line_bounds(s)[n - 1];
        assert(!in_ranges(seq![], byte_offset(s, b.0) as int));
    }
}

/// Reformatting list markers is idempotent on a text without code: a second
/// pass changes nothing.
pub proof fn list_markers_idempotent(s: Seq<char>)
    ensures
        spec_list_markers(spec_list_markers(s, seq![]), seq![]) == spec_list_markers(s, seq![]),
{
    let g = |c: Seq<char>| reformat_item(c);
    let once = spec_list_markers(s, seq![]);
    lemma_marker_lines_filter(s, line_bounds(s).len() as int);
    assert(line_pieces(s).take(line_bounds(s).len() as int) =~= line_pieces(s));
    lemma_marker_lines_filter(once, line_bounds(once).len() as int);
    assert(line_pieces(once).take(line_bounds(once).len() as int) =~= line_pieces(once));
    lemma_line_pieces_wf(s);
    assert forall|k: int| 0 <= k < line_pieces(s).len() implies match #[trigger] g(
        line_pieces(s)[k].0,
    ) {
        Some(r) => no_newline(r) && g(r) == Some(r),
        None => true,
    } by {
        assert(no_newline(line_pieces(s)[k].0));
        assert(line_pieces(s)[k].0 == line_text(s, line_bounds(s)[k]));
        lemma_reformat_item_settled(line_pieces(s)[k].0);
    }
    let e = Seq::<char>::empty();
    assert(skip_blanks(e, 0) == 0);
    assert(digits_end(e, 0) == 0);
    assert(e.skip(0) =~= e);
    assert(split_marker(e) is None);
    assert(g(seq![]) == Some(e));
    lemma_filter_lines_idempotent(s, g);
}

/// What a marker split leaves of a line without line breaks has none.
proof fn lemma_split_one_line(s: Seq<char>)
    requires
        no_newline(s),
    ensures
        split_marker(s) matches Some(inner) ==> no_newline(inner),
{
    crate::rules::support::lemma_digits_end(s, 0);
    if let Some(inner) = split_marker(s) {
        let start = match ordered_marker_len(s) {
            Some(m) => skip_blanks(s, m),
            None => skip_blanks(s, 1),
        };
        match ordered_marker_len(s) {
            Some(m) => {
                crate::scan::lemma_skip_blanks_bounds(s, m);
            },
            None => {
                crate::scan::lemma_skip_blanks_bounds(s, 1);
            },
        }
        assert(inner == s.skip(start));
        lemma_no_newline_sub(s, start, s.len() as int);
        assert(s.skip(start) =~= s.subrange(start, s.len() as int));
    }
}

proof fn lemma_strip_markers_one_line(s: Seq<char>)
    requires
        no_newline(s),
    ensures
        no_newline(strip_markers(s)),
    decreases s.len(),
{
    if let Some(inner) = split_marker(s) {
        lemma_split_marker_shorter(s);
        lemma_split_one_line(s);
        lemma_strip_markers_one_line(inner);
    }
}

/// A rewritten item holds no line break when its line held none.
proof fn lemma_reformat_item_one_line(line: Seq<char>)
    requires
        no_newline(line),
    ensures
        reformat_item(line) matches Some(r) ==> no_newline(r),
{
    let indent_len = skip_blanks(line, 0);
    crate::scan::lemma_skip_blanks_bounds(line, 0);
    let rest = line.skip(indent_len);
    lemma_no_newline_sub(line, indent_len, line.len() as int);
    assert(rest =~= line.subrange(indent_len, line.len() as int));
    if let Some(after) = split_marker(rest) {
        lemma_split_one_line(rest);
        lemma_no_newline_trim(after);
        lemma_strip_markers_one_line(trim_end(after));
        let content = strip_markers(trim_end(after));
        if content.len() > 0 {
            let marker = match ordered_marker_len(rest) {
                Some(m) => rest.take(m),
                None => seq!['-'],
            };
            if let Some(m) = ordered_marker_len(rest) {
                crate::rules::support::lemma_digits_end(rest, 0);
                lemma_no_newline_sub(rest, 0, m);
                assert(rest.take(m) =~= rest.subrange(0, m));
            }
            assert(no_newline(seq!['-']));
            lemma_no_newline_sub(line, 0, indent_len);
            assert(line.take(indent_len) =~= line.subrange(0, indent_len));
            lemma_no_newline_concat(line.take(indent_len), marker);
            assert(no_newline(seq![' ']));
            lemma_no_newline_concat(line.take(indent_len) + marker, seq![' ']);
            lemma_no_newline_concat(line.take(indent_len) + marker + seq![' '], content);
        }
    }
}

/// A line as this rule writes it, or `None` for an item it drops.
pub open spec fn marker_out(s: Seq<char>, ignore: Seq<(int, int)>, k: int) -> Option<Seq<char>> {
    let b = line_bounds(s)[k];
    let content = line_text(s, b);
    if in_ranges(ignore, byte_offset(s, b.0) as int) {
        Some(content)
    } else {
        reformat_item(content)
    }
}

/// The number of lines the rule writes for the first `k` lines of `s`.
pub open spec fn lines_written(s: Seq<char>, ignore: Seq<(int, int)>, k: int) -> int {
    kept_pieces(s, |j: int| marker_out(s, ignore, j), k).len() as int
}

proof fn lemma_marker_lines_filtered(s: Seq<char>, ignore: Seq<(int, int)>, n: int)
    requires
        0 <= n <= line_bounds(s).len(),
    ensures
        marker_lines(s, ignore, n) == filtered_lines(s, |k: int| marker_out(s, ignore, k), n),
    decreases n,
{
    if n > 0 {
        lemma_marker_lines_filtered(s, ignore, n - 1);
    }
}

/// Code is left untouched: every line that starts inside code comes out as
/// the same line, after the lines written for those before it.
pub proof fn list_markers_keep_code(s: Seq<char>, ignore: Seq<(int, int)>)
    ensures
        forall|k: int|
            0 <= k < line_bounds(s).len() && #[trigger] code_line(s, ignore, k) ==> keeps_line_at(
                s,
                spec_list_markers(s, ignore),
                k,
                lines_written(s, ignore, k),
            ),
{
    let n = line_bounds(s).len() as int;
    let f = |k: int| marker_out(s, ignore, k);
    lemma_marker_lines_filtered(s, ignore, n);
    lemma_line_pieces_wf(s);
    assert forall|k: int| 0 <= k < n && #[trigger] f(k) is Some implies no_newline(f(k)->Some_0) by {
        let c = line_text(s, line_bounds(s)[k]);
        assert(c == line_pieces(s)[k].0);
        lemma_reformat_item_one_line(c);
    }
    lemma_filtered_keeps(s, f);
    assert forall|k: int| 0 <= k < n && #[trigger] code_line(s, ignore, k) implies keeps_line_at(
        s,
        spec_list_markers(s, ignore),
        k,
        lines_written(s, ignore, k),
    ) by {
        assert(f(k) == Some(line_text(s, line_bounds(s)[k])));
    }
}

/// What is left once leading markers are removed is the end of the text.
proof fn lemma_strip_markers_suffix(s: Seq<char>)
    ensures
        strip_markers(s).len() <= s.len(),
        strip_markers(s) == s.skip(s.len() - strip_markers(s).len()),
    decreases s.len(),
{
    match split_marker(s) {
        Some(inner) => {
            lemma_split_marker_shorter(s);
            lemma_strip_markers_suffix(inner);
            if s.len() >= 1 {
                crate::scan::lemma_skip_blanks_bounds(s, 1);
            }
            crate::rules::support::lemma_digits_end(s, 0);
            match ordered_marker_len(s) {
                Some(m) => if m <= s.len() {
                    crate::scan::lemma_skip_blanks_bounds(s, m);
                },
                None => {},
            }
            assert(inner == s.skip(s.len() - inner.len()));
            assert(strip_markers(s) == strip_markers(inner));
            assert(s.skip(s.len() - inner.len()).skip(inner.len() - strip_markers(inner).len())
                =~= s.skip(s.len() - strip_markers(inner).len()));
        },
        None => {
            assert(s.skip(0) =~= s);
        },
    }
}

/// Whether `r` ends with a stretch of `line`, written as it is, after which
/// `line` holds only whitespace.
pub open spec fn ends_with_text_of(r: Seq<char>, line: Seq<char>) -> bool {
    exists|p: int, a: int, b: int|
        #![trigger r.skip(p), line.subrange(a, b)]
        0 <= p <= r.len() && 0 <= a <= b <= line.len() && r.skip(p) == line.subrange(a, b)
            && forall|k: int| b <= k < line.len() ==> crate::text::is_ws(#[trigger] line[k])
}

/// Code in a list item's text is left untouched: a reformatted item is its
/// indentation, its marker and one space, then a stretch of the line written
/// as it is, after which the line held only whitespace.
pub proof fn list_markers_keep_item_text(line: Seq<char>)
    ensures
        reformat_item(line) matches Some(r) ==> ends_with_text_of(r, line),
{
    let ind = skip_blanks(line, 0);
    crate::scan::lemma_skip_blanks_bounds(line, 0);
    let rest = line.skip(ind);
    match split_marker(rest) {
        None => {
            let r = line;
            let a: int = 0;
            let b = line.len() as int;
            let p: int = 0;
            assert(reformat_item(line) == Some(line));
            assert(r.skip(p) =~= line.subrange(a, b));
            assert(ends_with_text_of(r, line));
        },
        Some(after) => {
            let te = trim_end(after);
            let content = strip_markers(te);
            if content.len() > 0 {
                lemma_split_marker_suffix(rest);
                let o = line.len() - after.len();
                assert(after =~= line.skip(o));
                crate::scan::lemma_back_ws_bounds(after, after.len() as int);
                let e = back_ws(after, after.len() as int);
                lemma_strip_markers_suffix(te);
                let b = o + e;
                let a = b - content.len();
                assert(content =~= line.subrange(a, b));
                let marker = match ordered_marker_len(rest) {
                    Some(m) => rest.take(m),
                    None => seq!['-'],
                };
                let r = line.take(ind) + marker + seq![' '] + content;
                assert(reformat_item(line) == Some(r));
                let p = r.len() - content.len();
                assert(r.skip(p) =~= content);
                assert forall|k: int| b <= k < line.len() implies crate::text::is_ws(#[trigger] line[k]) by {
                    assert(line[k] == after[k - o]);
                }
                assert(r.skip(p) == line.subrange(a, b));
                assert(0 <= a);
                assert(b <= line.len());
                assert(ends_with_text_of(r, line));
            } else {
                assert(reformat_item(line) is None);
            }
        },
    }
}

/// What follows a list marker is the end of the text.
proof fn lemma_split_marker_suffix(s: Seq<char>)
    ensures
        split_marker(s) matches Some(inner) ==> inner.len() <= s.len() && inner == s.skip(
            s.len() - inner.len(),
        ),
{
    if s.len() >= 1 {
        crate::scan::lemma_skip_blanks_bounds(s, 1);
    }
    crate::rules::support::lemma_digits_end(s, 0);
    match ordered_marker_len(s) {
        Some(m) => if m <= s.len() {
            crate::scan::lemma_skip_blanks_bounds(s, m);
        },
        None => {},
    }
}

} // verus!
