//! **heading-levels** — normalize heading depth.
//!
//! The biggest heading in the note is promoted so it sits just under the note's
//! title: to H1 when the note opens with a heading, or to H2 otherwise. The
//! rest shift with it, and no heading may jump more than one level deeper than
//! the previous one.

use crate::engine::ignore::{in_ranges, IgnoreRanges};
use crate::engine::Rule;
use crate::lines::{
    code_line, keeps_line, lemma_line_pieces_last, lemma_line_pieces_of_render,
    lemma_line_pieces_wf, lemma_no_newline_concat, lemma_no_newline_sub, lemma_rewritten_keeps,
    line_pieces, no_newline, normalize, occurs_in, pieces_wf, render_pieces, rewritten_lines,
};
use crate::rules::headings::{hashes, hashes_exec};
use crate::rules::support::{heading_level_of, spec_heading_level};
use crate::scan::{
    is_blank_line, is_blank_line_exec, lemma_run_end_bounds, lemma_run_end_same,
    lemma_skip_blanks_bounds, push_all, run_end, run_end_exec, skip_blanks, strip_blanks,
    strip_blanks_exec, subvec,
};
use crate::text::{
    byte_offset, ends_line, is_ws, line_at, line_bounds, line_bounds_exec, line_break, line_text,
    string_of, Doc,
};
use vstd::prelude::*;

verus! {

pub struct HeadingLevels;

/// The level of line `k` if it is a heading outside code.
pub open spec fn heading_at(s: Seq<char>, ignore: Seq<(int, int)>, k: int) -> Option<int> {
    let b = line_bounds(s)[k];
    if in_ranges(ignore, byte_offset(s, b.0) as int) {
        None
    } else {
        spec_heading_level(line_text(s, b))
    }
}

/// The smallest heading level among the first `n` lines (the biggest heading).
pub open spec fn smallest_heading(s: Seq<char>, ignore: Seq<(int, int)>, n: int) -> Option<int>
    decreases n,
{
    if n <= 0 {
        None
    } else {
        let before = smallest_heading(s, ignore, n - 1);
        match heading_at(s, ignore, n - 1) {
            None => before,
            Some(level) => match before {
                None => Some(level),
                Some(m) => Some(if level < m { level } else { m }),
            },
        }
    }
}

/// Whether the first non-blank line from line `k` on is a heading outside code.
pub open spec fn opens_with_heading_from(s: Seq<char>, ignore: Seq<(int, int)>, k: int) -> bool
    decreases line_bounds(s).len() - k,
{
    if k < 0 || k >= line_bounds(s).len() {
        false
    } else if !is_blank_line(line_text(s, line_bounds(s)[k])) {
        heading_at(s, ignore, k) is Some
    } else {
        opens_with_heading_from(s, ignore, k + 1)
    }
}

/// `level` shifted so the smallest lands at `top`, clamped to 1–6.
pub open spec fn promote(level: int, smallest: int, top: int) -> int {
    let shifted = level - smallest + top;
    let at_least_one = if shifted < 1 {
        1
    } else {
        shifted
    };
    if at_least_one > 6 {
        6
    } else {
        at_least_one
    }
}

/// A heading line rewritten to `level` `#`s, the text after them kept.
pub open spec fn rewrite_level(line: Seq<char>, level: int) -> Seq<char> {
    let t = strip_blanks(line);
    hashes(level as nat) + t.skip(run_end(t, 0, '#'))
}

/// A promoted level, kept no more than one deeper than the heading before.
pub open spec fn clamp_level(promoted: int, previous: Option<int>) -> int {
    match previous {
        Some(p) => if promoted > p + 1 {
            p + 1
        } else {
            promoted
        },
        None => promoted,
    }
}

/// The first `n` lines rewritten (each followed by its line break) and the
/// level of the last heading placed.
pub open spec fn level_lines(
    s: Seq<char>,
    ignore: Seq<(int, int)>,
    n: int,
    smallest: int,
    top: int,
) -> (Seq<char>, Option<int>)
    decreases n,
{
    if n <= 0 {
        (seq![], None)
    } else {
        let (out, previous) = level_lines(s, ignore, n - 1, smallest, top);
        let b = line_bounds(s)[n - 1];
        let content = line_text(s, b);
        match heading_at(s, ignore, n - 1) {
            Some(level) => {
                let clamped = clamp_level(promote(level, smallest, top), previous);
                (out + rewrite_level(content, clamped) + line_break(s, b), Some(clamped))
            },
            None => (out + content + line_break(s, b), previous),
        }
    }
}

/// The note with its heading levels normalized; a note with no heading is
/// returned as it is.
pub open spec fn spec_heading_levels(s: Seq<char>, ignore: Seq<(int, int)>) -> Seq<char> {
    let n = line_bounds(s).len() as int;
    match smallest_heading(s, ignore, n) {
        None => s,
        Some(smallest) => {
            let top = if opens_with_heading_from(s, ignore, 0) {
                1
            } else {
                2
            };
            level_lines(s, ignore, n, smallest, top).0
        },
    }
}

fn rewrite_level_exec(line: &Vec<char>, level: usize) -> (r: Vec<char>)
    ensures
        r@ == rewrite_level(line@, level as int),
{
    let t = strip_blanks_exec(line);
    let h = run_end_exec(&t, 0, '#');
    let rest = subvec(&t, h, t.len());
    assert(rest@ =~= t@.skip(h as int));
    let mut r = hashes_exec(level);
    push_all(&mut r, &rest);
    r
}

impl Rule for HeadingLevels {
    open spec fn spec_name(&self) -> Seq<char> {
        "heading-levels"@
    }

    open spec fn spec_apply(&self, text: Seq<char>, ignore: Seq<(int, int)>) -> Seq<char> {
        spec_heading_levels(text, ignore)
    }

    fn name(&self) -> (name: &'static str) {
        "heading-levels"
    }

    fn apply(&self, text: &str, ignore: &IgnoreRanges) -> (out: String) {
        let doc = Doc::new(text);
        let bounds = line_bounds_exec(&doc.chars);
        let ghost s = doc.chars@;
        let ghost n = bounds@.len() as int;
        // The smallest level and whether the note opens with a heading.
        let mut smallest: Option<usize> = None;
        let mut opens: Option<bool> = None;
        let mut k: usize = 0;
        while k < bounds.len()
            invariant
                doc.wf(),
                s == doc.chars@,
                crate::text::bounds_view(bounds@) == line_bounds(s),
                n == line_bounds(s).len(),
                k <= bounds@.len(),
                match smallest {
                    Some(m) => smallest_heading(s, ignore@, k as int) == Some(m as int) && 1 <= m <= 6,
                    None => smallest_heading(s, ignore@, k as int) is None,
                },
                match opens {
                    Some(o) => opens_with_heading_from(s, ignore@, 0) == o,
                    None => opens_with_heading_from(s, ignore@, 0) == opens_with_heading_from(
                        s,
                        ignore@,
                        k as int,
                    ),
                },
            decreases bounds.len() - k,
        {
            let (content, offset) = line_at(&doc, &bounds, k);
            let level = if ignore.contains_wide(offset) {
                None
            } else {
                heading_level_of(&content)
            };
            assert(match level {
                Some(l) => heading_at(s, ignore@, k as int) == Some(l as int),
                None => heading_at(s, ignore@, k as int) is None,
            });
            match level {
                Some(l) => {
                    smallest = match smallest {
                        None => Some(l),
                        Some(m) => Some(if l < m { l } else { m }),
                    };
                },
                None => {},
            }
            if opens.is_none() && !is_blank_line_exec(&content) {
                opens = Some(level.is_some());
            }
            k = k + 1;
        }
        let smallest = match smallest {
            None => return string_of(&doc.chars),
            Some(m) => m,
        };
        let top: usize = match opens {
            Some(true) => 1,
            _ => 2,
        };
        proof {
            if opens is None {
                assert(opens_with_heading_from(s, ignore@, k as int) == false);
            }
        }
        let mut out: Vec<char> = Vec::new();
        let mut previous: Option<usize> = None;
        let mut k: usize = 0;
        while k < bounds.len()
            invariant
                doc.wf(),
                s == doc.chars@,
                crate::text::bounds_view(bounds@) == line_bounds(s),
                k <= bounds@.len(),
                1 <= smallest <= 6,
                1 <= top <= 2,
                (out@, match previous {
                    Some(p) => Some(p as int),
                    None => None,
                }) == level_lines(s, ignore@, k as int, smallest as int, top as int),
                previous matches Some(p) ==> 1 <= p <= 6,
            decreases bounds.len() - k,
        {
            let (content, offset) = line_at(&doc, &bounds, k);
            let level = if ignore.contains_wide(offset) {
                None
            } else {
                heading_level_of(&content)
            };
            assert(match level {
                Some(l) => heading_at(s, ignore@, k as int) == Some(l as int),
                None => heading_at(s, ignore@, k as int) is None,
            });
            match level {
                Some(l) => {
                    let shifted: usize = if l + top <= smallest {
                        1
                    } else {
                        l + top - smallest
                    };
                    let promoted = if shifted > 6 {
                        6
                    } else {
                        shifted
                    };
                    let clamped = match previous {
                        Some(p) => if promoted > p + 1 {
                            p + 1
                        } else {
                            promoted
                        },
                        None => promoted,
                    };
                    let rendered = rewrite_level_exec(&content, clamped);
                    push_all(&mut out, &rendered);
                    previous = Some(clamped);
                },
                None => {
                    push_all(&mut out, &content);
                },
            }
            if bounds[k].1 < doc.chars.len() {
                out.push('\n');
            }
            k = k + 1;
            proof {
                let b = line_bounds(s)[k - 1];
                assert(b.1 == bounds@[k - 1].1);
                assert(out@ =~= level_lines(s, ignore@, k as int, smallest as int, top as int).0);
            }
        }
        string_of(&out)
    }
}

/// The lines as the rule writes them, as pieces: content and line break.
pub open spec fn level_pieces(s: Seq<char>, n: int, smallest: int, top: int) -> Seq<
    (Seq<char>, bool),
>
    decreases n,
{
    if n <= 0 {
        seq![]
    } else {
        let previous = level_lines(s, seq![], n - 1, smallest, top).1;
        let b = line_bounds(s)[n - 1];
        let content = line_text(s, b);
        let new = match heading_at(s, seq![], n - 1) {
            Some(level) => rewrite_level(
                content,
                clamp_level(promote(level, smallest, top), previous),
            ),
            None => content,
        };
        level_pieces(s, n - 1, smallest, top).push((new, ends_line(s, b)))
    }
}

proof fn lemma_level_pieces(s: Seq<char>, n: int, smallest: int, top: int)
    requires
        0 <= n <= line_bounds(s).len(),
    ensures
        level_lines(s, seq![], n, smallest, top).0 == render_pieces(
            level_pieces(s, n, smallest, top),
        ),
        level_pieces(s, n, smallest, top).len() == n,
        forall|k: int|
            0 <= k < n ==> #[trigger] level_pieces(s, n, smallest, top)[k] == level_pieces(
                s,
                k + 1,
                smallest,
                top,
            ).last(),
    decreases n,
{
    if n > 0 {
        lemma_level_pieces(s, n - 1, smallest, top);
        let p = level_pieces(s, n, smallest, top);
        let q = level_pieces(s, n - 1, smallest, top);
        assert(p.drop_last() =~= q);
        assert forall|k: int| 0 <= k < n implies #[trigger] p[k] == level_pieces(
            s,
            k + 1,
            smallest,
            top,
        ).last() by {
            if k < n - 1 {
                assert(p[k] == q[k]);
            }
        }
    }
}

/// A heading rewritten to a level in range is a heading of that level, and
/// rewriting it to that level again leaves it as it is.
proof fn lemma_rewrite_heading(line: Seq<char>, level: int, c: int)
    requires
        spec_heading_level(line) == Some(level),
        1 <= c <= 6,
    ensures
        ({
            let r = rewrite_level(line, c);
            &&& spec_heading_level(r) == Some(c)
            &&& rewrite_level(r, c) == r
            &&& !is_blank_line(r)
            &&& !is_blank_line(line)
            &&& no_newline(line) ==> no_newline(r)
            &&& r.len() > 0
        }),
{
    let a = skip_blanks(line, 0);
    lemma_skip_blanks_bounds(line, 0);
    let e = run_end(line, a, '#');
    lemma_run_end_bounds(line, a, '#');
    let t0 = strip_blanks(line);
    assert forall|j: int| 0 <= j < level implies t0[j] == '#' by {
        assert(t0[j] == line[a + j]);
    }
    if level < t0.len() {
        assert(t0[level] == line[e]);
    }
    lemma_run_end_same(t0, 0, level, '#');
    let rest = t0.skip(level);
    assert(rest =~= line.subrange(e, line.len() as int));
    let h = hashes(c as nat);
    let r = h + rest;
    assert(rewrite_level(line, c) == r);
    assert(r[0] == '#');
    assert(skip_blanks(r, 0) == 0);
    assert forall|j: int| 0 <= j < c implies r[j] == '#' by {}
    if rest.len() > 0 {
        assert(r[c] == rest[0]);
        assert(rest[0] == line[e]);
    }
    lemma_run_end_same(r, 0, c, '#');
    assert(spec_heading_level(r) == Some(c));
    assert(strip_blanks(r) =~= r);
    assert(r.skip(c) =~= rest);
    assert(rewrite_level(r, c) =~= r);
    assert(!is_ws(r[0]));
    assert(line[a] == '#');
    assert(!is_ws(line[a]));
    if no_newline(line) {
        assert forall|k: int| 0 <= k < r.len() implies r[k] != '\n' by {
            if k >= c {
                assert(r[k] == line[e + k - c]);
            }
        }
    }
}

/// No heading is bigger than the smallest level found.
proof fn lemma_smallest_le(s: Seq<char>, ignore: Seq<(int, int)>, n: int)
    requires
        0 <= n <= line_bounds(s).len(),
    ensures
        forall|k: int|
            0 <= k < n && #[trigger] heading_at(s, ignore, k) is Some ==> (smallest_heading(
                s,
                ignore,
                n,
            ) matches Some(x) && x <= heading_at(s, ignore, k)->0),
    decreases n,
{
    if n > 0 {
        lemma_smallest_le(s, ignore, n - 1);
    }
}

/// Every level placed lies between the top and six.
proof fn lemma_level_state(s: Seq<char>, ignore: Seq<(int, int)>, n: int, smallest: int, top: int)
    requires
        0 <= n <= line_bounds(s).len(),
        1 <= top <= 2,
        forall|k: int|
            0 <= k < line_bounds(s).len() && #[trigger] heading_at(s, ignore, k) is Some
                ==> smallest <= heading_at(s, ignore, k)->0,
    ensures
        level_lines(s, ignore, n, smallest, top).1 matches Some(p) ==> top <= p <= 6,
    decreases n,
{
    if n > 0 {
        lemma_level_state(s, ignore, n - 1, smallest, top);
    }
}

/// Normalizing heading levels is idempotent: on a text without code, a
/// second pass changes nothing.
pub proof fn heading_levels_idempotent(s: Seq<char>)
    ensures
        spec_heading_levels(spec_heading_levels(s, seq![]), seq![]) == spec_heading_levels(
            s,
            seq![],
        ),
{
    let n = line_bounds(s).len() as int;
    if let Some(m) = smallest_heading(s, seq![], n) {
        let top: int = if opens_with_heading_from(s, seq![], 0) {
            1
        } else {
            2
        };
        lemma_smallest_le(s, seq![], n);
        lemma_level_pieces(s, n, m, top);
        let q = level_pieces(s, n, m, top);
        let t = spec_heading_levels(s, seq![]);
        assert(t == render_pieces(q));
        let p = line_pieces(s);
        lemma_line_pieces_wf(s);
        lemma_line_pieces_last(s);
        // Each rewritten line, with the level it was given.
        assert forall|k: int| 0 <= k < n implies {
            let previous = #[trigger] level_lines(s, seq![], k, m, top).1;
            &&& q[k].1 == p[k].1
            &&& no_newline(q[k].0)
            &&& is_blank_line(q[k].0) == is_blank_line(p[k].0)
            &&& match heading_at(s, seq![], k) {
                Some(level) => {
                    let c = clamp_level(promote(level, m, top), previous);
                    &&& top <= c <= 6
                    &&& (previous matches Some(pr) ==> c <= pr + 1)
                    &&& spec_heading_level(q[k].0) == Some(c)
                    &&& rewrite_level(q[k].0, c) == q[k].0
                    &&& (level == m ==> c == top)
                    &&& q[k].0.len() > 0
                },
                None => q[k].0 == p[k].0,
            }
        } by {
            let previous = level_lines(s, seq![], k, m, top).1;
            assert(q[k] == level_pieces(s, k + 1, m, top).last());
            assert(no_newline(p[k].0));
            lemma_level_state(s, seq![], k, m, top);
            if let Some(level) = heading_at(s, seq![], k) {
                let c = clamp_level(promote(level, m, top), previous);
                assert(m <= level);
                lemma_rewrite_heading(p[k].0, level, c);
            }
        }
        assert(pieces_wf(q)) by {
            assert forall|k: int| 0 <= k < q.len() implies no_newline(#[trigger] q[k].0) && (k
                < q.len() - 1 ==> q[k].1) by {
                let previous = level_lines(s, seq![], k, m, top).1;
                assert(no_newline(p[k].0));
            }
        }
        lemma_line_pieces_of_render(q);
        assert(normalize(q) == q) by {
            let previous = level_lines(s, seq![], n - 1, m, top).1;
            assert(q[n - 1].1 == p[n - 1].1);
        }
        assert(line_pieces(t) == q);
        lemma_line_pieces_last(t);
        let nt = line_bounds(t).len() as int;
        assert(nt == n);
        // The second pass sees the same lines, headings where there were.
        assert forall|k: int| 0 <= k < n implies #[trigger] second_pass_line(s, t, m, top, k) by {
            assert(line_pieces(t)[k] == q[k]);
            let previous = level_lines(s, seq![], k, m, top).1;
            assert(q[k] == level_pieces(s, k + 1, m, top).last());
            assert(q[k].1 == p[k].1);
            assert(!in_ranges(seq![], byte_offset(t, line_bounds(t)[k].0) as int));
        }
        lemma_opens_same(s, t, m, top, 0);
        lemma_smallest_same(s, t, m, top, n);
        lemma_levels_same(s, t, m, top, n);
    }
}

/// What the second pass sees of line `j` of the first pass's output `t`.
pub open spec fn second_pass_line(s: Seq<char>, t: Seq<char>, m: int, top: int, j: int) -> bool {
    let previous = level_lines(s, seq![], j, m, top).1;
    let q = level_pieces(s, line_bounds(s).len() as int, m, top);
    let line = line_text(s, line_bounds(s)[j]);
    let out = line_text(t, line_bounds(t)[j]);
    &&& out == q[j].0
    &&& line_break(t, line_bounds(t)[j]) == line_break(s, line_bounds(s)[j])
    &&& heading_at(t, seq![], j) == spec_heading_level(out)
    &&& is_blank_line(out) == is_blank_line(line)
    &&& match heading_at(s, seq![], j) {
        Some(level) => {
            let c = clamp_level(promote(level, m, top), previous);
            &&& top <= c <= 6
            &&& (previous matches Some(pr) ==> c <= pr + 1)
            &&& spec_heading_level(out) == Some(c)
            &&& out == rewrite_level(line, c)
            &&& rewrite_level(out, c) == out
            &&& (level == m ==> c == top)
        },
        None => out == line && spec_heading_level(out) is None,
    }
}

/// The second pass finds the note opening with a heading just as the first.
proof fn lemma_opens_same(s: Seq<char>, t: Seq<char>, m: int, top: int, k: int)
    requires
        0 <= k,
        line_bounds(t).len() == line_bounds(s).len(),
        forall|j: int|
            0 <= j < line_bounds(s).len() ==> #[trigger] second_pass_line(s, t, m, top, j),
    ensures
        opens_with_heading_from(t, seq![], k) == opens_with_heading_from(s, seq![], k),
    decreases line_bounds(s).len() - k,
{
    if k < line_bounds(s).len() {
        assert(second_pass_line(s, t, m, top, k));
        lemma_opens_same(s, t, m, top, k + 1);
    }
}

/// The second pass finds the top level as its smallest.
proof fn lemma_smallest_same(s: Seq<char>, t: Seq<char>, m: int, top: int, n: int)
    requires
        0 <= n <= line_bounds(s).len(),
        forall|j: int|
            0 <= j < line_bounds(s).len() ==> #[trigger] second_pass_line(s, t, m, top, j),
    ensures
        (smallest_heading(t, seq![], n) is Some) == (smallest_heading(s, seq![], n) is Some),
        smallest_heading(t, seq![], n) matches Some(x) ==> top <= x,
        smallest_heading(s, seq![], n) == Some(m) ==> smallest_heading(t, seq![], n) == Some(top),
    decreases n,
{
    if n > 0 {
        lemma_smallest_same(s, t, m, top, n - 1);
        assert(second_pass_line(s, t, m, top, n - 1));
    }
}

/// The second pass places every heading at the level it already has.
proof fn lemma_levels_same(s: Seq<char>, t: Seq<char>, m: int, top: int, n: int)
    requires
        0 <= n <= line_bounds(s).len(),
        1 <= top <= 2,
        forall|j: int|
            0 <= j < line_bounds(s).len() ==> #[trigger] second_pass_line(s, t, m, top, j),
    ensures
        level_lines(t, seq![], n, top, top) == level_lines(s, seq![], n, m, top),
    decreases n,
{
    if n > 0 {
        lemma_levels_same(s, t, m, top, n - 1);
        assert(second_pass_line(s, t, m, top, n - 1));
        let previous = level_lines(s, seq![], n - 1, m, top).1;
        if let Some(level) = heading_at(s, seq![], n - 1) {
            let c = clamp_level(promote(level, m, top), previous);
            assert(promote(c, top, top) == c);
            assert(clamp_level(c, previous) == c);
        }
    }
}

/// A line as this rule writes it, after the lines before it.
pub open spec fn level_out(s: Seq<char>, ignore: Seq<(int, int)>, k: int, smallest: int, top: int) -> Seq<char> {
    let content = line_text(s, line_bounds(s)[k]);
    match heading_at(s, ignore, k) {
        Some(level) => rewrite_level(
            content,
            clamp_level(promote(level, smallest, top), level_lines(s, ignore, k, smallest, top).1),
        ),
        None => content,
    }
}

proof fn lemma_level_lines_rewritten(s: Seq<char>, ignore: Seq<(int, int)>, n: int, smallest: int, top: int)
    requires
        0 <= n <= line_bounds(s).len(),
    ensures
        level_lines(s, ignore, n, smallest, top).0 == rewritten_lines(
            s,
            |k: int| level_out(s, ignore, k, smallest, top),
            n,
        ),
    decreases n,
{
    if n > 0 {
        lemma_level_lines_rewritten(s, ignore, n - 1, smallest, top);
    }
}

/// A heading rewritten to any level holds no line break when its line held
/// none.
proof fn lemma_rewrite_one_line(line: Seq<char>, c: int)
    requires
        no_newline(line),
    ensures
        no_newline(rewrite_level(line, c)),
{
    let a = skip_blanks(line, 0);
    lemma_skip_blanks_bounds(line, 0);
    let t = strip_blanks(line);
    lemma_no_newline_sub(line, a, line.len() as int);
    let e = run_end(t, 0, '#');
    lemma_run_end_bounds(t, 0, '#');
    lemma_no_newline_sub(t, e, t.len() as int);
    assert(t.skip(e) =~= t.subrange(e, t.len() as int));
    assert(no_newline(hashes(c as nat)));
    lemma_no_newline_concat(hashes(c as nat), t.skip(e));
}

/// Code is left untouched: every line that starts inside code comes out as
/// the same line, at the same place.
pub proof fn heading_levels_keep_code(s: Seq<char>, ignore: Seq<(int, int)>)
    ensures
        forall|k: int|
            0 <= k < line_bounds(s).len() && #[trigger] code_line(s, ignore, k) ==> keeps_line(
                s,
                spec_heading_levels(s, ignore),
                k,
            ),
{
    let n = line_bounds(s).len() as int;
    if let Some(smallest) = smallest_heading(s, ignore, n) {
        let top = if opens_with_heading_from(s, ignore, 0) {
            1
        } else {
            2
        };
        let f = |k: int| level_out(s, ignore, k, smallest, top);
        lemma_level_lines_rewritten(s, ignore, n, smallest, top);
        lemma_line_pieces_wf(s);
        assert forall|k: int| 0 <= k < n implies no_newline(#[trigger] f(k)) by {
            let c = line_text(s, line_bounds(s)[k]);
            assert(c == line_pieces(s)[k].0);
            if let Some(level) = heading_at(s, ignore, k) {
                lemma_rewrite_one_line(
                    c,
                    clamp_level(promote(level, smallest, top), level_lines(s, ignore, k, smallest, top).1),
                );
            }
        }
        lemma_rewritten_keeps(s, f);
        assert forall|k: int| 0 <= k < n && #[trigger] code_line(s, ignore, k) implies keeps_line(
            s,
            spec_heading_levels(s, ignore),
            k,
        ) by {
            assert(heading_at(s, ignore, k) is None);
            assert(f(k) == line_text(s, line_bounds(s)[k]));
        }
    }
}

// ----- the levels placed -----

/// The level the biggest heading is placed at: 1 when the note opens with a
/// heading, else 2 (the note's first line stands as its title).
pub open spec fn top_level(s: Seq<char>, ignore: Seq<(int, int)>) -> int {
    if opens_with_heading_from(s, ignore, 0) {
        1
    } else {
        2
    }
}

/// The level heading line `k` is written with (0 for other lines).
pub open spec fn placed_level(s: Seq<char>, ignore: Seq<(int, int)>, k: int) -> int {
    let n = line_bounds(s).len() as int;
    match (smallest_heading(s, ignore, n), heading_at(s, ignore, k)) {
        (Some(m), Some(level)) => clamp_level(
            promote(level, m, top_level(s, ignore)),
            level_lines(s, ignore, k, m, top_level(s, ignore)).1,
        ),
        _ => 0,
    }
}

/// Lines without headings leave the last level placed as it was.
proof fn lemma_no_heading_between(
    s: Seq<char>,
    ignore: Seq<(int, int)>,
    a: int,
    b: int,
    smallest: int,
    top: int,
)
    requires
        0 <= a <= b,
        forall|i: int| a <= i < b ==> #[trigger] heading_at(s, ignore, i) is None,
    ensures
        level_lines(s, ignore, b, smallest, top).1 == level_lines(s, ignore, a, smallest, top).1,
    decreases b - a,
{
    if a < b {
        lemma_no_heading_between(s, ignore, a, b - 1, smallest, top);
        assert(heading_at(s, ignore, b - 1) is None);
    }
}

/// The smallest level found is the level of some heading.
proof fn lemma_smallest_attained(s: Seq<char>, ignore: Seq<(int, int)>, n: int)
    requires
        0 <= n,
        smallest_heading(s, ignore, n) is Some,
    ensures
        exists|k: int|
            0 <= k < n && #[trigger] heading_at(s, ignore, k) == Some(
                smallest_heading(s, ignore, n)->0,
            ),
    decreases n,
{
    let m = smallest_heading(s, ignore, n)->0;
    match heading_at(s, ignore, n - 1) {
        None => {
            lemma_smallest_attained(s, ignore, n - 1);
        },
        Some(level) => {
            if smallest_heading(s, ignore, n - 1) is Some && smallest_heading(s, ignore, n - 1)->0 == m {
                lemma_smallest_attained(s, ignore, n - 1);
                let k = choose|k: int| 0 <= k < n - 1 && #[trigger] heading_at(s, ignore, k) == Some(m);
                assert(heading_at(s, ignore, k) == Some(m));
            } else {
                assert(level == m);
                assert(heading_at(s, ignore, n - 1) == Some(m));
            }
        },
    }
}

/// Heading levels as the rule writes them: every heading line comes out at
/// its place, rewritten to its placed level; each placed level lies between
/// the top level (1 when the note opens with a heading, else 2) and 6; no
/// heading is placed more than one level deeper than the heading before it;
/// and the biggest heading is placed at the top level.
#[verifier::rlimit(30)]
pub proof fn heading_levels_placed(s: Seq<char>, ignore: Seq<(int, int)>)
    ensures
        forall|k: int|
            0 <= k < line_bounds(s).len() && #[trigger] heading_at(s, ignore, k) is Some ==> {
                let out = spec_heading_levels(s, ignore);
                &&& top_level(s, ignore) <= placed_level(s, ignore, k) <= 6
                &&& k < line_bounds(out).len()
                &&& line_text(out, line_bounds(out)[k]) == rewrite_level(
                    line_text(s, line_bounds(s)[k]),
                    placed_level(s, ignore, k),
                )
            },
        forall|j: int, k: int|
            #![trigger heading_at(s, ignore, j), heading_at(s, ignore, k)]
            0 <= j < k < line_bounds(s).len() && heading_at(s, ignore, j) is Some && heading_at(
                s,
                ignore,
                k,
            ) is Some && (forall|i: int| j < i < k ==> #[trigger] heading_at(s, ignore, i) is None)
                ==> placed_level(s, ignore, k) <= placed_level(s, ignore, j) + 1,
        (exists|k: int| 0 <= k < line_bounds(s).len() && #[trigger] heading_at(s, ignore, k) is Some)
            ==> exists|k: int|
            0 <= k < line_bounds(s).len() && #[trigger] heading_at(s, ignore, k) is Some
                && placed_level(s, ignore, k) == top_level(s, ignore),
{
    let n = line_bounds(s).len() as int;
    let top = top_level(s, ignore);
    lemma_smallest_le(s, ignore, n);
    if let Some(m) = smallest_heading(s, ignore, n) {
        let out = spec_heading_levels(s, ignore);
        assert(out == level_lines(s, ignore, n, m, top).0);
        let f = |k: int| level_out(s, ignore, k, m, top);
        lemma_level_lines_rewritten(s, ignore, n, m, top);
        lemma_line_pieces_wf(s);
        assert forall|k: int| 0 <= k < n implies no_newline(#[trigger] f(k)) by {
            let c = line_text(s, line_bounds(s)[k]);
            assert(c == line_pieces(s)[k].0);
            if let Some(level) = heading_at(s, ignore, k) {
                lemma_rewrite_one_line(
                    c,
                    clamp_level(promote(level, m, top), level_lines(s, ignore, k, m, top).1),
                );
            }
        }
        lemma_rewritten_keeps(s, f);
        assert forall|k: int| 0 <= k < n && #[trigger] heading_at(s, ignore, k) is Some implies {
            &&& top <= placed_level(s, ignore, k) <= 6
            &&& k < line_bounds(out).len()
            &&& line_text(out, line_bounds(out)[k]) == rewrite_level(
                line_text(s, line_bounds(s)[k]),
                placed_level(s, ignore, k),
            )
        } by {
            lemma_level_state(s, ignore, k, m, top);
            let c = placed_level(s, ignore, k);
            assert(f(k) == rewrite_level(line_text(s, line_bounds(s)[k]), c));
            assert(hashes(c as nat).len() == c);
            assert(f(k).len() > 0);
        }
        assert forall|j: int, k: int|
            #![trigger heading_at(s, ignore, j), heading_at(s, ignore, k)]
            0 <= j < k < n && heading_at(s, ignore, j) is Some && heading_at(s, ignore, k) is Some
                && (forall|i: int| j < i < k ==> #[trigger] heading_at(s, ignore, i) is None)
                implies placed_level(s, ignore, k) <= placed_level(s, ignore, j) + 1 by {
            lemma_no_heading_between(s, ignore, j + 1, k, m, top);
            assert(level_lines(s, ignore, j + 1, m, top).1 == Some(placed_level(s, ignore, j)));
        }
        if exists|k: int| 0 <= k < n && #[trigger] heading_at(s, ignore, k) is Some {
            lemma_smallest_attained(s, ignore, n);
            let k = choose|k: int| 0 <= k < n && #[trigger] heading_at(s, ignore, k) == Some(m);
            lemma_level_state(s, ignore, k, m, top);
            assert(promote(m, m, top) == top);
            assert(placed_level(s, ignore, k) == top);
        }
    }
}

/// Code inside a heading is left untouched when its level changes: only the
/// indentation and the `#`s are rewritten, and every stretch of the text
/// after them comes out unchanged.
pub proof fn heading_levels_keep_text(line: Seq<char>, level: int, i: int, j: int)
    requires
        0 <= level,
        skip_blanks(line, 0) + run_end(strip_blanks(line), 0, '#') <= i < j <= line.len(),
    ensures
        occurs_in(rewrite_level(line, level), line.subrange(i, j)),
{
    let sb = skip_blanks(line, 0);
    crate::scan::lemma_skip_blanks_bounds(line, 0);
    let t = strip_blanks(line);
    crate::scan::lemma_run_end_bounds(t, 0, '#');
    let e = run_end(t, 0, '#');
    let rest = t.skip(e);
    assert(rest =~= line.subrange(sb + e, line.len() as int));
    let out = rewrite_level(line, level);
    let h = hashes(level as nat);
    assert(out == h + rest);
    let p = h.len() + (i - sb - e);
    assert(out.subrange(p, p + (j - i)) =~= line.subrange(i, j));
}

} // verus!
