//! **headings** — normalize ATX heading *text*: one space after the `#`s, no
//! leading indentation, no trailing punctuation. Levels are handled separately
//! (see `heading_levels`), and casing is left alone.

use crate::engine::ignore::{in_ranges, IgnoreRanges};
use crate::engine::Rule;
use crate::lines::{
    code_line, keeps_line, lemma_line_pieces_wf, lemma_map_lines_idempotent, lemma_map_pieces_take,
    occurs_in,
    lemma_no_newline_concat, lemma_rewritten_keeps, line_pieces, map_pieces, no_newline,
    render_pieces, rewritten_lines,
};
use crate::rules::support::{heading_level_of, spec_heading_level};
use crate::scan::{
    back_ws, lemma_back_ws_bounds, lemma_run_end_bounds, lemma_skip_blanks_bounds,
    lemma_skip_ws_bounds, push_all, run_end, skip_blanks, skip_ws, strip_blanks,
    strip_blanks_exec, subvec, trim, trim_end, trim_end_exec, trim_exec, trim_start,
};
use crate::text::{
    byte_offset, is_ws, is_ws_exec, line_at, line_bounds, line_bounds_exec, line_break, line_text, string_of,
    Doc,
};
use vstd::prelude::*;

verus! {

pub struct Headings;

/// Punctuation trimmed from the end of a heading.
pub open spec fn is_trailing_punctuation(c: char) -> bool {
    c == ',' || c == '.' || c == ';' || c == ':' || c == '!' || c == '?'
}

/// The end of `s[..j]` once trailing punctuation and whitespace are
/// removed, layer after layer, until neither is left.
pub open spec fn strip_tail(s: Seq<char>, j: int) -> int
    decreases j,
{
    if 0 < j <= s.len() && (is_trailing_punctuation(s[j - 1]) || is_ws(s[j - 1])) {
        strip_tail(s, j - 1)
    } else {
        j
    }
}

/// `n` `#`s.
pub open spec fn hashes(n: nat) -> Seq<char> {
    Seq::new(n, |i: int| '#')
}

/// A heading's text: what follows its `#`s, trimmed, with trailing
/// punctuation and whitespace removed until it ends in neither.
pub open spec fn heading_text(line: Seq<char>, level: int) -> Seq<char> {
    let body = trim(strip_blanks(line).skip(level));
    body.take(strip_tail(body, body.len() as int))
}

/// A heading line with one space after its `#`s, no indentation and no
/// trailing punctuation; other lines as they are.
pub open spec fn reformat_heading(line: Seq<char>) -> Seq<char> {
    match spec_heading_level(line) {
        None => line,
        Some(level) => {
            let body = heading_text(line, level);
            if body.len() == 0 {
                hashes(level as nat)
            } else {
                hashes(level as nat) + seq![' '] + body
            }
        },
    }
}

/// The first `n` lines rewritten, each followed by its line break.
pub open spec fn heading_lines(s: Seq<char>, ignore: Seq<(int, int)>, n: int) -> Seq<char>
    decreases n,
{
    if n <= 0 {
        seq![]
    } else {
        let b = line_bounds(s)[n - 1];
        let content = line_text(s, b);
        heading_lines(s, ignore, n - 1) + (if in_ranges(ignore, byte_offset(s, b.0) as int) {
            content
        } else {
            reformat_heading(content)
        }) + line_break(s, b)
    }
}

pub open spec fn spec_headings(s: Seq<char>, ignore: Seq<(int, int)>) -> Seq<char> {
    heading_lines(s, ignore, line_bounds(s).len() as int)
}

pub(crate) fn hashes_exec(n: usize) -> (r: Vec<char>)
    ensures
        r@ == hashes(n as nat),
{
    let mut r: Vec<char> = Vec::new();
    let mut i: usize = 0;
    while i < n
        invariant
            i <= n,
            r@ == hashes(i as nat),
        decreases n - i,
    {
        r.push('#');
        i = i + 1;
        assert(r@ =~= hashes(i as nat));
    }
    r
}

pub(crate) fn reformat_heading_exec(line: &Vec<char>) -> (r: Vec<char>)
    ensures
        r@ == reformat_heading(line@),
{
    let level = match heading_level_of(line) {
        None => return subvec(line, 0, line.len()),
        Some(level) => level,
    };
    proof {
        assert(line@.subrange(0, line@.len() as int) =~= line@);
        crate::scan::lemma_skip_blanks_bounds(line@, 0);
        crate::scan::lemma_run_end_bounds(line@, crate::scan::skip_blanks(line@, 0), '#');
    }
    let trimmed = strip_blanks_exec(line);
    let after = subvec(&trimmed, level, trimmed.len());
    assert(after@ =~= trimmed@.skip(level as int));
    let body = trim_exec(&after);
    let mut end = body.len();
    while end > 0 && (body[end - 1] == ',' || body[end - 1] == '.' || body[end - 1] == ';'
        || body[end - 1] == ':' || body[end - 1] == '!' || body[end - 1] == '?' || is_ws_exec(
        body[end - 1],
    ))
        invariant
            end <= body@.len(),
            strip_tail(body@, body@.len() as int) == strip_tail(body@, end as int),
        decreases end,
    {
        end = end - 1;
    }
    let body = subvec(&body, 0, end);
    let mut r = hashes_exec(level);
    if body.len() > 0 {
        r.push(' ');
        push_all(&mut r, &body);
    }
    r
}

impl Rule for Headings {
    open spec fn spec_name(&self) -> Seq<char> {
        "headings"@
    }

    open spec fn spec_apply(&self, text: Seq<char>, ignore: Seq<(int, int)>) -> Seq<char> {
        spec_headings(text, ignore)
    }

    fn name(&self) -> (name: &'static str) {
        "headings"
    }

    fn apply(&self, text: &str, ignore: &IgnoreRanges) -> (out: String) {
        let doc = Doc::new(text);
        let bounds = line_bounds_exec(&doc.chars);
        let ghost s = doc.chars@;
        let mut out: Vec<char> = Vec::new();
        let mut k: usize = 0;
        while k < bounds.len()
            invariant
                doc.wf(),
                s == doc.chars@,
                crate::text::bounds_view(bounds@) == line_bounds(s),
                k <= bounds@.len(),
                out@ == heading_lines(s, ignore@, k as int),
            decreases bounds.len() - k,
        {
            let (content, offset) = line_at(&doc, &bounds, k);
            if ignore.contains_wide(offset) {
                push_all(&mut out, &content);
            } else {
                let rendered = reformat_heading_exec(&content);
                push_all(&mut out, &rendered);
            }
            if bounds[k].1 < doc.chars.len() {
                out.push('\n');
            }
            k = k + 1;
            proof {
                let b = line_bounds(s)[k - 1];
                assert(b.1 == bounds@[k - 1].1);
                assert(out@ =~= heading_lines(s, ignore@, k as int));
            }
        }
        string_of(&out)
    }
}

proof fn lemma_strip_tail(s: Seq<char>, j: int)
    requires
        0 <= j <= s.len(),
    ensures
        0 <= strip_tail(s, j) <= j,
        strip_tail(s, j) > 0 ==> !is_trailing_punctuation(s[strip_tail(s, j) - 1]) && !is_ws(
            s[strip_tail(s, j) - 1],
        ),
    decreases j,
{
    if 0 < j && (is_trailing_punctuation(s[j - 1]) || is_ws(s[j - 1])) {
        lemma_strip_tail(s, j - 1);
    }
}

/// A heading's text is a piece of its line, neither starting nor ending with
/// whitespace.
proof fn lemma_heading_text_shape(line: Seq<char>, level: int)
    requires
        spec_heading_level(line) == Some(level),
    ensures
        ({
            let b = heading_text(line, level);
            &&& no_newline(line) ==> no_newline(b)
            &&& b.len() > 0 ==> !is_ws(b[0]) && !is_ws(b.last()) && !is_trailing_punctuation(b.last())
        }),
{
    let a = skip_blanks(line, 0);
    lemma_skip_blanks_bounds(line, 0);
    lemma_run_end_bounds(line, a, '#');
    let t = line.subrange(a + level, line.len() as int);
    assert(strip_blanks(line).skip(level) =~= t);
    let u0 = skip_ws(t, 0);
    lemma_skip_ws_bounds(t, 0);
    let t1 = t.subrange(u0, t.len() as int);
    let u1 = back_ws(t1, t1.len() as int);
    lemma_back_ws_bounds(t1, t1.len() as int);
    let body = t1.subrange(0, u1);
    assert(trim(t) == body);
    let p = strip_tail(body, body.len() as int);
    lemma_strip_tail(body, body.len() as int);
    let b = body.take(p);
    assert(heading_text(line, level) == b);
    assert forall|i: int| 0 <= i < b.len() implies b[i] == line[a + level + u0 + i] by {
        assert(b[i] == t[u0 + i]);
    }
    if b.len() > 0 {
        assert(b[0] == t[u0]);
        assert(b.last() == body[p - 1]);
    }
}

/// A line comes out of a second pass as the first pass wrote it.
proof fn lemma_reformat_settled(line: Seq<char>)
    requires
        no_newline(line),
    ensures
        no_newline(reformat_heading(line)),
        reformat_heading(reformat_heading(line)) == reformat_heading(line),
{
    if let Some(level) = spec_heading_level(line) {
        lemma_heading_text_shape(line, level);
        let b = heading_text(line, level);
        let h = hashes(level as nat);
        let out = reformat_heading(line);
        assert(1 <= level <= 6);
        if b.len() == 0 {
            assert(out == h);
        } else {
            assert(out == h + seq![' '] + b);
            assert(out[level] == ' ');
        }
        assert(out[0] == '#');
        assert(skip_blanks(out, 0) == 0);
        crate::scan::lemma_run_end_same(out, 0, level, '#');
        assert(spec_heading_level(out) == Some(level));
        assert(strip_blanks(out) =~= out);
        if b.len() == 0 {
            assert(out.skip(level) =~= Seq::<char>::empty());
            assert(heading_text(out, level) =~= Seq::<char>::empty());
        } else {
            let x = out.skip(level);
            assert(x =~= seq![' '] + b);
            assert(x[1] == b[0]);
            assert(skip_ws(x, 1) == 1);
            assert(skip_ws(x, 0) == 1);
            assert(trim_start(x) =~= b);
            assert(b[b.len() - 1] == b.last());
            assert(back_ws(b, b.len() as int) == b.len());
            assert(trim_end(b) =~= b);
            assert(trim(x) == b);
            assert(strip_tail(b, b.len() as int) == b.len());
            assert(b.take(b.len() as int) =~= b);
            assert(heading_text(out, level) == b);
        }
        assert forall|k: int| 0 <= k < out.len() implies out[k] != '\n' by {
            if b.len() > 0 && k > level {
                assert(out[k] == b[k - level - 1]);
            }
        }
    }
}

/// Reformatting headings is idempotent on a text without code: a second
/// pass changes nothing.
pub proof fn headings_idempotent(s: Seq<char>)
    ensures
        spec_headings(spec_headings(s, seq![]), seq![]) == spec_headings(s, seq![]),
{
    let g = |c: Seq<char>| reformat_heading(c);
    let once = spec_headings(s, seq![]);
    lemma_heading_lines_map(s, line_bounds(s).len() as int);
    assert(line_pieces(s).take(line_bounds(s).len() as int) =~= line_pieces(s));
    lemma_heading_lines_map(once, line_bounds(once).len() as int);
    assert(line_pieces(once).take(line_bounds(once).len() as int) =~= line_pieces(once));
    lemma_line_pieces_wf(s);
    assert forall|k: int| 0 <= k < line_pieces(s).len() implies no_newline(
        #[trigger] g(line_pieces(s)[k].0),
    ) && g(g(line_pieces(s)[k].0)) == g(line_pieces(s)[k].0) by {
        assert(no_newline(line_pieces(s)[k].0));
        assert(line_pieces(s)[k].0 == line_text(s, line_bounds(s)[k]));
        lemma_reformat_settled(line_pieces(s)[k].0);
    }
    assert(skip_blanks(Seq::<char>::empty(), 0) == 0);
    assert(run_end(Seq::<char>::empty(), 0, '#') == 0);
    assert(g(seq![]) == Seq::<char>::empty());
    lemma_map_lines_idempotent(s, g);
}

/// With no code in the way, the first `n` lines rewritten are the line map of
/// `reformat_heading`.
proof fn lemma_heading_lines_map(s: Seq<char>, n: int)
    requires
        0 <= n <= line_bounds(s).len(),
    ensures
        heading_lines(s, seq![], n) == render_pieces(
            map_pieces(line_pieces(s).take(n), |c: Seq<char>| reformat_heading(c)),
        ),
    decreases n,
{
    let g = |c: Seq<char>| reformat_heading(c);
    if n == 0 {
        assert(map_pieces(line_pieces(s).take(0), g) =~= Seq::<(Seq<char>, bool)>::empty());
    } else {
        lemma_heading_lines_map(s, n - 1);
        lemma_map_pieces_take(line_pieces(s), g, n - 1);
        let b = line_bounds(s)[n - 1];
        assert(!in_ranges(seq![], byte_offset(s, b.0) as int));
    }
}

/// A line as this rule writes it: as it is when it starts in code.
pub open spec fn heading_out(s: Seq<char>, ignore: Seq<(int, int)>, k: int) -> Seq<char> {
    let b = line_bounds(s)[k];
    if in_ranges(ignore, byte_offset(s, b.0) as int) {
        line_text(s, b)
    } else {
        reformat_heading(line_text(s, b))
    }
}

proof fn lemma_heading_lines_rewritten(s: Seq<char>, ignore: Seq<(int, int)>, n: int)
    requires
        0 <= n <= line_bounds(s).len(),
    ensures
        heading_lines(s, ignore, n) == rewritten_lines(s, |k: int| heading_out(s, ignore, k), n),
    decreases n,
{
    if n > 0 {
        lemma_heading_lines_rewritten(s, ignore, n - 1);
    }
}

/// A rewritten heading line holds no line break when its line held none.
proof fn lemma_reformat_one_line(line: Seq<char>)
    requires
        no_newline(line),
    ensures
        no_newline(reformat_heading(line)),
{
    if let Some(level) = spec_heading_level(line) {
        lemma_heading_text_shape(line, level);
        let h = hashes(level as nat);
        assert(no_newline(h));
        assert(no_newline(seq![' ']));
        lemma_no_newline_concat(h, seq![' ']);
        lemma_no_newline_concat(h + seq![' '], heading_text(line, level));
    }
}

/// Code is left untouched: every line that starts inside code comes out as
/// the same line, at the same place.
pub proof fn headings_keep_code(s: Seq<char>, ignore: Seq<(int, int)>)
    ensures
        forall|k: int|
            0 <= k < line_bounds(s).len() && #[trigger] code_line(s, ignore, k) ==> keeps_line(
                s,
                spec_headings(s, ignore),
                k,
            ),
{
    let n = line_bounds(s).len() as int;
    let f = |k: int| heading_out(s, ignore, k);
    lemma_heading_lines_rewritten(s, ignore, n);
    lemma_line_pieces_wf(s);
    assert forall|k: int| 0 <= k < n implies no_newline(#[trigger] f(k)) by {
        let c = line_text(s, line_bounds(s)[k]);
        assert(c == line_pieces(s)[k].0);
        lemma_reformat_one_line(c);
    }
    lemma_rewritten_keeps(s, f);
    assert forall|k: int| 0 <= k < n && #[trigger] code_line(s, ignore, k) implies keeps_line(
        s,
        spec_headings(s, ignore),
        k,
    ) by {
        assert(f(k) == line_text(s, line_bounds(s)[k]));
    }
}

proof fn lemma_strip_tail_bounds(s: Seq<char>, j: int)
    requires
        0 <= j <= s.len(),
    ensures
        0 <= strip_tail(s, j) <= j,
        forall|k: int| strip_tail(s, j) <= k < j ==> is_trailing_punctuation(#[trigger] s[k]) || is_ws(s[k]),
    decreases j,
{
    if 0 < j && (is_trailing_punctuation(s[j - 1]) || is_ws(s[j - 1])) {
        lemma_strip_tail_bounds(s, j - 1);
    }
}

/// Code inside a heading is left untouched: the rule drops only the
/// indentation, the spacing after the `#`s and the trailing punctuation and
/// whitespace, so a stretch of the heading's text that starts with a
/// character that is not whitespace and ends with one that is neither
/// whitespace nor trailing punctuation — as an inline code span, closed by
/// its backtick, does — comes out unchanged.
pub proof fn headings_keep_inner_text(line: Seq<char>, level: int, i: int, j: int)
    requires
        spec_heading_level(line) == Some(level),
        skip_blanks(line, 0) + level <= i < j <= line.len(),
        !is_ws(line[i]),
        !is_ws(line[j - 1]),
        !is_trailing_punctuation(line[j - 1]),
    ensures
        occurs_in(reformat_heading(line), line.subrange(i, j)),
{
    let sb = skip_blanks(line, 0);
    lemma_skip_blanks_bounds(line, 0);
    let x = strip_blanks(line).skip(level);
    assert(x =~= line.subrange(sb + level, line.len() as int));
    let i1 = i - sb - level;
    let j1 = j - sb - level;
    assert(x[i1] == line[i] && x[j1 - 1] == line[j - 1]);
    lemma_skip_ws_bounds(x, 0);
    let s0 = skip_ws(x, 0);
    if s0 > i1 {
        assert(is_ws(x[i1]));
    }
    let ts = trim_start(x);
    let i2 = i1 - s0;
    let j2 = j1 - s0;
    assert(ts[j2 - 1] == x[j1 - 1]);
    lemma_back_ws_bounds(ts, ts.len() as int);
    let e0 = back_ws(ts, ts.len() as int);
    if e0 < j2 {
        assert(is_ws(ts[j2 - 1]));
    }
    let b0 = trim(x);
    assert(b0 =~= ts.subrange(0, e0));
    assert(b0[j2 - 1] == x[j1 - 1]);
    lemma_strip_tail_bounds(b0, b0.len() as int);
    let st = strip_tail(b0, b0.len() as int);
    if st < j2 {
        assert(is_trailing_punctuation(b0[j2 - 1]) || is_ws(b0[j2 - 1]));
    }
    let body = heading_text(line, level);
    assert(body == b0.take(st));
    assert(body.subrange(i2, j2) =~= line.subrange(i, j));
    assert(body.len() > 0);
    let out = reformat_heading(line);
    let head = hashes(level as nat) + seq![' '];
    assert(out == head + body);
    let p = head.len() + i2;
    assert(out.subrange(p, p + (j - i)) =~= body.subrange(i2, j2));
}

/// A reformatted heading with text ends in a character that is neither
/// whitespace nor one of `,` `.` `;` `:` `!` `?`.
pub proof fn headings_drop_trailing_punctuation(line: Seq<char>)
    requires
        spec_heading_level(line) is Some,
    ensures
        ({
            let level = spec_heading_level(line)->0;
            let out = reformat_heading(line);
            out.len() > level ==> !is_ws(out.last()) && out.last() != ',' && out.last() != '.'
                && out.last() != ';' && out.last() != ':' && out.last() != '!' && out.last() != '?'
        }),
{
    let level = spec_heading_level(line)->0;
    let body = heading_text(line, level);
    let b0 = trim(strip_blanks(line).skip(level));
    lemma_strip_tail_last(b0, b0.len() as int);
    if body.len() > 0 {
        let out = reformat_heading(line);
        assert(out.last() == body.last());
        assert(body.last() == b0[strip_tail(b0, b0.len() as int) - 1]);
    } else {
        assert(reformat_heading(line).len() == level);
    }
}

proof fn lemma_strip_tail_last(s: Seq<char>, j: int)
    requires
        0 <= j <= s.len(),
    ensures
        0 <= strip_tail(s, j) <= j,
        strip_tail(s, j) > 0 ==> !is_trailing_punctuation(s[strip_tail(s, j) - 1]) && !is_ws(
            s[strip_tail(s, j) - 1],
        ),
    decreases j,
{
    if 0 < j && (is_trailing_punctuation(s[j - 1]) || is_ws(s[j - 1])) {
        lemma_strip_tail_last(s, j - 1);
    }
}

/// The rule never changes a heading's level: a reformatted heading starts
/// with exactly as many `#`s as the heading's level, followed by a space
/// before its text, or by nothing when it has none.
pub proof fn headings_keep_level(line: Seq<char>)
    requires
        spec_heading_level(line) is Some,
    ensures
        ({
            let level = spec_heading_level(line)->0;
            let out = reformat_heading(line);
            &&& level <= out.len()
            &&& forall|k: int| 0 <= k < level ==> #[trigger] out[k] == '#'
            &&& (out.len() == level || out[level] == ' ')
        }),
{
    let level = spec_heading_level(line)->0;
    let out = reformat_heading(line);
    let h = hashes(level as nat);
    assert(level >= 1);
    assert forall|k: int| 0 <= k < level implies #[trigger] out[k] == '#' by {
        assert(out[k] == h[k]);
    }
    if heading_text(line, level).len() > 0 {
        assert(out[level] == ' ');
    }
}

} // verus!
