//! **horizontal-rules** — divider lines become the canonical `---`.
//!
//! A line holding nothing but dash-family marks, optionally spaced apart —
//! Markdown's `-`/`_`/`*` runs or Unicode dashes pasted as dividers — is a
//! horizontal rule and is rewritten as `---`. ASCII marks alone need three or
//! more; a single Unicode dash already reads as a full-width rule. Lines inside
//! code are left alone.

use crate::engine::ignore::{in_ranges, IgnoreRanges};
use crate::engine::Rule;
use crate::lines::{
    code_line, keeps_line, lemma_line_pieces_wf, lemma_map_lines_idempotent, lemma_map_pieces_take,
    lemma_rewritten_keeps, line_pieces, map_lines, map_pieces, no_newline, render_pieces,
    rewritten_lines,
};
use crate::scan::push_all;
use crate::text::{
    byte_offset, line_at, line_bounds, line_bounds_exec, line_break, line_text, string_of, Doc,
};
use vstd::prelude::*;

verus! {

pub struct HorizontalRules;

/// One of these alone on a line is already a divider.
pub open spec fn is_strong_dash(c: char) -> bool {
    c == '‒' || c == '–' || c == '—' || c == '―' || c == '⸺' || c == '⸻'
}

/// Markdown's own thematic-break marks; three or more are needed.
pub open spec fn is_weak_mark(c: char) -> bool {
    c == '-' || c == '_' || c == '*'
}

/// Reading a line mark by mark: whether only marks and spaces/tabs were seen,
/// whether a strong dash was, and how many marks.
pub open spec fn scan_divider(line: Seq<char>) -> (bool, bool, nat)
    decreases line.len(),
{
    if line.len() == 0 {
        (true, false, 0)
    } else {
        let (ok, strong, marks) = scan_divider(line.drop_last());
        let c = line.last();
        if c == ' ' || c == '\t' {
            (ok, strong, marks)
        } else if is_strong_dash(c) {
            (ok, true, marks + 1)
        } else if is_weak_mark(c) {
            (ok, strong, marks + 1)
        } else {
            (false, strong, marks)
        }
    }
}

/// Whether the line is only dash-family marks and whitespace, with either a
/// strong (Unicode) dash or at least three marks in total.
pub open spec fn is_divider(line: Seq<char>) -> bool {
    let (ok, strong, marks) = scan_divider(line);
    ok && marks > 0 && (strong || marks >= 3)
}

/// A line as this rule rewrites it.
pub open spec fn divider_line(content: Seq<char>, code: bool) -> Seq<char> {
    if !code && is_divider(content) {
        seq!['-', '-', '-']
    } else {
        content
    }
}

/// The first `n` lines rewritten, each followed by its line break.
pub open spec fn divider_lines(s: Seq<char>, ignore: Seq<(int, int)>, n: int) -> Seq<char>
    decreases n,
{
    if n <= 0 {
        seq![]
    } else {
        let b = line_bounds(s)[n - 1];
        divider_lines(s, ignore, n - 1) + divider_line(
            line_text(s, b),
            in_ranges(ignore, byte_offset(s, b.0) as int),
        ) + line_break(s, b)
    }
}

pub open spec fn spec_horizontal_rules(s: Seq<char>, ignore: Seq<(int, int)>) -> Seq<char> {
    divider_lines(s, ignore, line_bounds(s).len() as int)
}

fn is_divider_exec(line: &Vec<char>) -> (b: bool)
    ensures
        b == is_divider(line@),
{
    let mut strong = false;
    let mut marks: usize = 0;
    let mut i: usize = 0;
    while i < line.len()
        invariant
            i <= line@.len(),
            marks <= i,
            scan_divider(line@.take(i as int)) == (true, strong, marks as nat),
        decreases line.len() - i,
    {
        proof {
            assert(line@.take(i + 1).drop_last() =~= line@.take(i as int));
        }
        let c = line[i];
        if c == ' ' || c == '\t' {
            i = i + 1;
            continue;
        }
        if c == '‒' || c == '–' || c == '—' || c == '―' || c == '⸺' || c == '⸻' {
            strong = true;
        } else if !(c == '-' || c == '_' || c == '*') {
            proof {
                lemma_divider_rejected(line@, i as int + 1);
            }
            return false;
        }
        marks = marks + 1;
        i = i + 1;
    }
    assert(line@.take(line@.len() as int) =~= line@);
    marks > 0 && (strong || marks >= 3)
}

proof fn lemma_divider_rejected(line: Seq<char>, n: int)
    requires
        0 <= n <= line.len(),
        !scan_divider(line.take(n)).0,
    ensures
        !scan_divider(line).0,
    decreases line.len() - n,
{
    if n < line.len() {
        assert(line.take(n + 1).drop_last() =~= line.take(n));
        lemma_divider_rejected(line, n + 1);
    } else {
        assert(line.take(n) =~= line);
    }
}

impl Rule for HorizontalRules {
    open spec fn spec_name(&self) -> Seq<char> {
        "horizontal-rules"@
    }

    open spec fn spec_apply(&self, text: Seq<char>, ignore: Seq<(int, int)>) -> Seq<char> {
        spec_horizontal_rules(text, ignore)
    }

    fn name(&self) -> (name: &'static str) {
        "horizontal-rules"
    }

    fn apply(&self, text: &str, ignore: &IgnoreRanges) -> (out: String) {
        let doc = Doc::new(text);
        let bounds = line_bounds_exec(&doc.chars);
        let ghost s = doc.chars@;
        let mut out: Vec<char> = Vec::new();
        let mut k: usize = 0;
        while k < bounds.len()
            invariant
                doc.wf(),
                s == doc.chars@,
                crate::text::bounds_view(bounds@) == line_bounds(s),
                k <= bounds@.len(),
                out@ == divider_lines(s, ignore@, k as int),
            decreases bounds.len() - k,
        {
            let (content, offset) = line_at(&doc, &bounds, k);
            let code = ignore.contains_wide(offset);
            if !code && is_divider_exec(&content) {
                out.push('-');
                out.push('-');
                out.push('-');
            } else {
                push_all(&mut out, &content);
            }
            if bounds[k].1 < doc.chars.len() {
                out.push('\n');
            }
            k = k + 1;
            proof {
                let b = line_bounds(s)[k - 1];
                assert(b.1 == bounds@[k - 1].1);
                assert(out@ =~= divider_lines(s, ignore@, k as int));
            }
        }
        string_of(&out)
    }
}

/// With no code in the way, the first `n` lines rewritten are the line map of
/// `divider_line`.
proof fn lemma_divider_lines_map(s: Seq<char>, n: int)
    requires
        0 <= n <= line_bounds(s).len(),
    ensures
        divider_lines(s, seq![], n) == render_pieces(
            map_pieces(line_pieces(s).take(n), |c: Seq<char>| divider_line(c, false)),
        ),
    decreases n,
{
    let g = |c: Seq<char>| divider_line(c, false);
    if n == 0 {
        assert(map_pieces(line_pieces(s).take(0), g) =~= Seq::<(Seq<char>, bool)>::empty());
    } else {
        lemma_divider_lines_map(s, n - 1);
        lemma_map_pieces_take(line_pieces(s), g, n - 1);
        let b = line_bounds(s)[n - 1];
        assert(!in_ranges(seq![], byte_offset(s, b.0) as int));
    }
}

/// Rewriting dividers is idempotent: on a text without code, a second pass
/// changes nothing.
pub proof fn horizontal_rules_idempotent(s: Seq<char>)
    ensures
        spec_horizontal_rules(spec_horizontal_rules(s, seq![]), seq![]) == spec_horizontal_rules(
            s,
            seq![],
        ),
{
    let g = |c: Seq<char>| divider_line(c, false);
    let once = spec_horizontal_rules(s, seq![]);
    lemma_divider_lines_map(s, line_bounds(s).len() as int);
    assert(line_pieces(s).take(line_bounds(s).len() as int) =~= line_pieces(s));
    assert(once == map_lines(s, g));
    lemma_divider_lines_map(once, line_bounds(once).len() as int);
    assert(line_pieces(once).take(line_bounds(once).len() as int) =~= line_pieces(once));
    assert forall|c: Seq<char>| no_newline(c) implies no_newline(#[trigger] g(c)) && g(g(c)) == g(
        c,
    ) by {
        if is_divider(c) {
            let d1 = seq!['-'];
            let d2 = seq!['-', '-'];
            let d = seq!['-', '-', '-'];
            assert(d1.drop_last() =~= Seq::<char>::empty());
            assert(scan_divider(d1.drop_last()) == (true, false, 0nat));
            assert(d1.last() == '-' && d2.last() == '-' && d.last() == '-');
            assert(scan_divider(d1) == (true, false, 1nat));
            assert(d2.drop_last() =~= d1);
            assert(scan_divider(d2) == (true, false, 2nat));
            assert(d.drop_last() =~= d2);
            assert(scan_divider(d) == (true, false, 3nat));
            assert(is_divider(d));
        }
    }
    assert(!is_divider(Seq::<char>::empty()));
    lemma_line_pieces_wf(s);
    assert forall|k: int| 0 <= k < line_pieces(s).len() implies no_newline(
        #[trigger] g(line_pieces(s)[k].0),
    ) && g(g(line_pieces(s)[k].0)) == g(line_pieces(s)[k].0) by {
        assert(no_newline(line_pieces(s)[k].0));
    }
    lemma_map_lines_idempotent(s, g);
}

proof fn lemma_divider_lines_rewritten(s: Seq<char>, ignore: Seq<(int, int)>, n: int)
    requires
        0 <= n <= line_bounds(s).len(),
    ensures
        divider_lines(s, ignore, n) == rewritten_lines(
            s,
            |k: int|
                divider_line(
                    line_text(s, line_bounds(s)[k]),
                    in_ranges(ignore, byte_offset(s, line_bounds(s)[k].0) as int),
                ),
            n,
        ),
    decreases n,
{
    if n > 0 {
        lemma_divider_lines_rewritten(s, ignore, n - 1);
    }
}

/// Code is left untouched: every line that starts inside code comes out as
/// the same line, at the same place.
pub proof fn horizontal_rules_keep_code(s: Seq<char>, ignore: Seq<(int, int)>)
    ensures
        forall|k: int|
            0 <= k < line_bounds(s).len() && #[trigger] code_line(s, ignore, k) ==> keeps_line(
                s,
                spec_horizontal_rules(s, ignore),
                k,
            ),
{
    let n = line_bounds(s).len() as int;
    let f = |k: int|
        divider_line(
            line_text(s, line_bounds(s)[k]),
            in_ranges(ignore, byte_offset(s, line_bounds(s)[k].0) as int),
        );
    lemma_divider_lines_rewritten(s, ignore, n);
    lemma_line_pieces_wf(s);
    assert forall|k: int| 0 <= k < n implies no_newline(#[trigger] f(k)) by {
        assert(line_text(s, line_bounds(s)[k]) == line_pieces(s)[k].0);
        assert(no_newline(seq!['-', '-', '-']));
    }
    lemma_rewritten_keeps(s, f);
    assert forall|k: int| 0 <= k < n && #[trigger] code_line(s, ignore, k) implies keeps_line(
        s,
        spec_horizontal_rules(s, ignore),
        k,
    ) by {
        assert(f(k) == line_text(s, line_bounds(s)[k]));
    }
}

} // verus!
