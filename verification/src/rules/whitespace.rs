//! **whitespace** — collapse runs of spaces, drop spaces before punctuation,
//! normalize trailing whitespace (keeping two-space hard breaks), and empty
//! whitespace-only lines. Leading indentation and code are left untouched: a
//! line that lies wholly in code is copied, and in other lines characters in
//! code (inline code) are copied one by one.

use crate::engine::ignore::{in_ranges, IgnoreRanges};
use crate::engine::Rule;
use crate::lines::{
    code_line, keeps_line, lemma_line_pieces_wf, occurs_in, lemma_map_lines_idempotent, lemma_map_pieces_take,
    lemma_no_newline_concat, lemma_no_newline_sub, lemma_rewritten_keeps, line_pieces, map_pieces,
    no_newline, render_pieces, rewritten_lines,
};
use crate::scan::{push_all, skip_blanks, skip_blanks_exec, subvec};
use crate::text::{
    byte_offset, char_width_exec, is_blank, line_at, line_bounds, line_bounds_exec, line_break, line_text,
    string_of, utf8_len, Doc,
};
use vstd::prelude::*;

verus! {

pub struct Whitespace;

/// Punctuation that hugs the word before it (no space in between).
pub open spec fn tightens_left(c: char) -> bool {
    c == ',' || c == '.' || c == ';' || c == ':' || c == '!' || c == '?'
}

/// Cleaning a line's body character by character: the text so far and the
/// spaces held back. `start` is the body's byte offset.
pub open spec fn scan_clean(body: Seq<char>, start: int, ignore: Seq<(int, int)>) -> (Seq<char>, nat)
    decreases body.len(),
{
    if body.len() == 0 {
        (seq![], 0)
    } else {
        let (out, pending) = scan_clean(body.drop_last(), start, ignore);
        let c = body.last();
        let in_code = in_ranges(ignore, start + utf8_len(body.drop_last()));
        if c == ' ' && !in_code {
            (out, pending + 1)
        } else {
            let out = if pending > 0 && !(!in_code && tightens_left(c)) {
                out.push(' ')
            } else {
                out
            };
            (out.push(c), 0)
        }
    }
}

/// A line with its indentation kept, space runs collapsed, spaces before
/// punctuation dropped and a trailing run of two or more spaces kept as two.
/// A line of only spaces and tabs becomes empty.
pub open spec fn clean_line(content: Seq<char>, line_start: int, ignore: Seq<(int, int)>) -> Seq<char> {
    let indent_len = skip_blanks(content, 0);
    let body = content.skip(indent_len);
    if body.len() == 0 {
        seq![]
    } else {
        let (out, pending) = scan_clean(body, line_start + indent_len, ignore);
        content.take(indent_len) + out + if pending >= 2 {
            seq![' ', ' ']
        } else {
            seq![]
        }
    }
}

/// Whether a line lies wholly in code: its start and every one of its
/// characters, `start` being its byte offset.
pub open spec fn lies_in_code(content: Seq<char>, start: int, ignore: Seq<(int, int)>) -> bool {
    &&& in_ranges(ignore, start)
    &&& forall|j: int|
        0 <= j < content.len() ==> #[trigger] in_ranges(ignore, start + utf8_len(content.take(j)))
}

/// The first `n` lines cleaned, each followed by its line break.
pub open spec fn whitespace_lines(s: Seq<char>, ignore: Seq<(int, int)>, n: int) -> Seq<char>
    decreases n,
{
    if n <= 0 {
        seq![]
    } else {
        let b = line_bounds(s)[n - 1];
        let content = line_text(s, b);
        let start = byte_offset(s, b.0) as int;
        whitespace_lines(s, ignore, n - 1) + (if lies_in_code(content, start, ignore) {
            content
        } else {
            clean_line(content, start, ignore)
        }) + line_break(s, b)
    }
}

pub open spec fn spec_whitespace(s: Seq<char>, ignore: Seq<(int, int)>) -> Seq<char> {
    whitespace_lines(s, ignore, line_bounds(s).len() as int)
}

fn lies_in_code_exec(content: &Vec<char>, start: u128, ignore: &IgnoreRanges) -> (b: bool)
    requires
        start <= 4 * (usize::MAX as int),
    ensures
        b == lies_in_code(content@, start as int, ignore@),
{
    if !ignore.contains_wide(start) {
        return false;
    }
    let mut local: u128 = 0;
    let mut i: usize = 0;
    while i < content.len()
        invariant
            i <= content@.len(),
            local == utf8_len(content@.take(i as int)),
            local <= 4 * i,
            start <= 4 * (usize::MAX as int),
            in_ranges(ignore@, start as int),
            forall|j: int|
                0 <= j < i ==> #[trigger] in_ranges(ignore@, start + utf8_len(content@.take(j))),
        decreases content.len() - i,
    {
        proof {
            assert(content@.take(i + 1).drop_last() =~= content@.take(i as int));
            crate::text::lemma_utf8_len_bound(content@.take(i as int));
        }
        if !ignore.contains_wide(start + local) {
            return false;
        }
        local = local + char_width_exec(content[i]);
        i = i + 1;
    }
    true
}

fn clean_line_exec(content: &Vec<char>, line_start: u128, ignore: &IgnoreRanges) -> (r: Vec<char>)
    requires
        line_start <= 4 * (usize::MAX as int),
    ensures
        r@ == clean_line(content@, line_start as int, ignore@),
{
    let indent_len = skip_blanks_exec(content, 0);
    let body = subvec(content, indent_len, content.len());
    assert(body@ =~= content@.skip(indent_len as int));
    if body.len() == 0 {
        return Vec::new();
    }
    let mut out = subvec(content, 0, indent_len);
    assert(out@ =~= content@.take(indent_len as int));
    let ghost indent = out@;
    let body_start = line_start + indent_len as u128;
    let mut pending: usize = 0;
    let mut local: u128 = 0;
    let mut i: usize = 0;
    while i < body.len()
        invariant
            i <= body@.len(),
            i <= usize::MAX,
            body_start <= 5 * (usize::MAX as int),
            local == utf8_len(body@.take(i as int)),
            local <= 4 * i,
            pending <= i,
            out@ == indent + scan_clean(body@.take(i as int), body_start as int, ignore@).0,
            pending == scan_clean(body@.take(i as int), body_start as int, ignore@).1,
        decreases body.len() - i,
    {
        proof {
            assert(body@.take(i + 1).drop_last() =~= body@.take(i as int));
            crate::text::lemma_utf8_len_bound(body@.take(i as int));
        }
        let c = body[i];
        let in_code = ignore.contains_wide(body_start + local);
        local = local + char_width_exec(c);
        i = i + 1;
        if c == ' ' && !in_code {
            pending = pending + 1;
            continue;
        }
        if pending > 0 {
            let hugs_left = !in_code && (c == ',' || c == '.' || c == ';' || c == ':' || c == '!'
                || c == '?');
            if !hugs_left {
                out.push(' ');
            }
            pending = 0;
        }
        out.push(c);
    }
    assert(body@.take(body@.len() as int) =~= body@);
    if pending >= 2 {
        out.push(' ');
        out.push(' ');
    }
    proof {
        let (o, p) = scan_clean(body@, line_start + indent_len, ignore@);
        if p >= 2 {
            assert(out@ =~= indent + o + seq![' ', ' ']);
        } else {
            assert(out@ =~= indent + o + Seq::<char>::empty());
        }
    }
    out
}

impl Rule for Whitespace {
    open spec fn spec_name(&self) -> Seq<char> {
        "whitespace"@
    }

    open spec fn spec_apply(&self, text: Seq<char>, ignore: Seq<(int, int)>) -> Seq<char> {
        spec_whitespace(text, ignore)
    }

    fn name(&self) -> (name: &'static str) {
        "whitespace"
    }

    fn apply(&self, text: &str, ignore: &IgnoreRanges) -> (out: String) {
        let doc = Doc::new(text);
        let bounds = line_bounds_exec(&doc.chars);
        let ghost s = doc.chars@;
        let mut out: Vec<char> = Vec::new();
        let mut k: usize = 0;
        while k < bounds.len()
            invariant
                doc.wf(),
                s == doc.chars@,
                crate::text::bounds_view(bounds@) == line_bounds(s),
                k <= bounds@.len(),
                out@ == whitespace_lines(s, ignore@, k as int),
            decreases bounds.len() - k,
        {
            let (content, offset) = line_at(&doc, &bounds, k);
            proof {
                crate::text::lemma_line_bounds_shape(s);
                crate::text::lemma_utf8_len_bound(s.take(line_bounds(s)[k as int].0));
                assert(s.len() == doc.chars.len());
            }
            if lies_in_code_exec(&content, offset, ignore) {
                push_all(&mut out, &content);
            } else {
                let rendered = clean_line_exec(&content, offset, ignore);
                push_all(&mut out, &rendered);
            }
            if bounds[k].1 < doc.chars.len() {
                out.push('\n');
            }
            k = k + 1;
            proof {
                let b = line_bounds(s)[k - 1];
                assert(b.1 == bounds@[k - 1].1);
                assert(out@ =~= whitespace_lines(s, ignore@, k as int));
            }
        }
        string_of(&out)
    }
}

/// Cleaned text that a second clean leaves alone: every space is followed
/// by a character that is neither a space nor punctuation that hugs left.
pub open spec fn spaced_cleanly(o: Seq<char>) -> bool {
    forall|k: int|
        0 <= k < o.len() && #[trigger] o[k] == ' ' ==> k + 1 < o.len() && o[k + 1] != ' '
            && !tightens_left(o[k + 1])
}

/// Without code, where a line starts does not matter.
proof fn lemma_scan_clean_start(body: Seq<char>, start: int)
    ensures
        scan_clean(body, start, seq![]) == scan_clean(body, 0, seq![]),
    decreases body.len(),
{
    if body.len() > 0 {
        lemma_scan_clean_start(body.drop_last(), start);
        assert(!in_ranges(seq![], start + utf8_len(body.drop_last())));
        assert(!in_ranges(seq![], 0int + utf8_len(body.drop_last())));
    }
}

/// Without code, cleaning holds spaces back and lets one out only before a
/// character that is neither a space nor punctuation that hugs left.
proof fn lemma_scan_clean_shape(body: Seq<char>)
    ensures
        ({
            let (out, pending) = scan_clean(body, 0, seq![]);
            &&& spaced_cleanly(out)
            &&& body.len() > 0 && body[0] != ' ' ==> out.len() > 0 && out[0] == body[0]
            &&& no_newline(body) ==> no_newline(out)
        }),
    decreases body.len(),
{
    if body.len() > 0 {
        let prev = body.drop_last();
        lemma_scan_clean_shape(prev);
        let (o1, p1) = scan_clean(prev, 0, seq![]);
        let c = body.last();
        assert(!in_ranges(seq![], 0int + utf8_len(prev)));
        if no_newline(body) {
            assert(no_newline(prev)) by {
                assert forall|k: int| 0 <= k < prev.len() implies prev[k] != '\n' by {
                    assert(prev[k] == body[k]);
                }
            }
            assert(c == body[body.len() - 1]);
        }
        if body.len() > 1 && body[0] != ' ' {
            assert(prev[0] == body[0]);
        }
        if prev.len() == 0 {
            assert(p1 == 0);
            assert(o1 =~= Seq::<char>::empty());
        }
    }
}

/// A cleanly spaced text, cleaned again, comes back with any trailing spaces
/// held back.
proof fn lemma_scan_clean_fixed(o: Seq<char>)
    requires
        forall|k: int|
            0 <= k < o.len() - 1 && #[trigger] o[k] == ' ' ==> o[k + 1] != ' ' && !tightens_left(
                o[k + 1],
            ),
    ensures
        scan_clean(o, 0, seq![]) == if o.len() > 0 && o.last() == ' ' {
            (o.drop_last(), 1nat)
        } else {
            (o, 0nat)
        },
    decreases o.len(),
{
    if o.len() > 0 {
        let prev = o.drop_last();
        assert(!in_ranges(seq![], 0int + utf8_len(prev)));
        if prev.len() > 0 {
            assert forall|k: int| 0 <= k < prev.len() - 1 && #[trigger] prev[k] == ' ' implies prev[k
                + 1] != ' ' && !tightens_left(prev[k + 1]) by {
                assert(prev[k] == o[k]);
                assert(prev[k + 1] == o[k + 1]);
            }
        }
        lemma_scan_clean_fixed(prev);
        if prev.len() > 0 && prev.last() == ' ' {
            assert(o[prev.len() - 1] == ' ');
            assert(prev.drop_last().push(' ') =~= prev);
        }
        assert(prev.push(o.last()) =~= o);
    } else {
        assert(o =~= Seq::<char>::empty());
    }
}

/// Cleaning a line twice is cleaning it once.
proof fn lemma_clean_line_twice(c: Seq<char>)
    requires
        no_newline(c),
    ensures
        no_newline(clean_line(c, 0, seq![])),
        clean_line(clean_line(c, 0, seq![]), 0, seq![]) == clean_line(c, 0, seq![]),
{
    let indent_len = skip_blanks(c, 0);
    crate::scan::lemma_skip_blanks_bounds(c, 0);
    let body = c.skip(indent_len);
    if body.len() > 0 {
        let (o, pending) = scan_clean(body, indent_len, seq![]);
        lemma_scan_clean_start(body, indent_len);
        lemma_scan_clean_shape(body);
        assert(body[0] == c[indent_len]);
        assert(no_newline(body)) by {
            assert forall|k: int| 0 <= k < body.len() implies body[k] != '\n' by {
                assert(body[k] == c[indent_len + k]);
            }
        }
        let trail = if pending >= 2 {
            seq![' ', ' ']
        } else {
            Seq::<char>::empty()
        };
        let indent = c.take(indent_len);
        let once = indent + o + trail;
        assert(clean_line(c, 0, seq![]) == once);
        assert forall|k: int| 0 <= k < once.len() implies once[k] != '\n' by {
            if k < indent_len {
                assert(once[k] == c[k]);
            } else if k < indent_len + o.len() {
                assert(once[k] == o[k - indent_len]);
            }
        }
        // The second pass finds the same indentation.
        assert forall|k: int| 0 <= k < indent_len implies is_blank(#[trigger] once[k]) by {
            assert(once[k] == c[k]);
        }
        assert(once[indent_len] == o[0]);
        crate::scan::lemma_skip_blanks_same(once, indent_len);
        let body2 = once.skip(indent_len);
        assert(body2 =~= o + trail);
        assert(once.take(indent_len) =~= indent);
        lemma_scan_clean_start(body2, indent_len);
        // And cleans its body to the same text.
        assert(o.last() != ' ') by {
            assert(o[o.len() - 1] == o.last());
        }
        lemma_scan_clean_fixed(o);
        if pending >= 2 {
            let o1 = o.push(' ');
            assert(o1.drop_last() =~= o);
            assert forall|k: int| 0 <= k < o1.len() - 1 && #[trigger] o1[k] == ' ' implies o1[k + 1]
                != ' ' && !tightens_left(o1[k + 1]) by {
                assert(o1[k] == o[k]);
                assert(o1[k + 1] == o[k + 1]);
            }
            lemma_scan_clean_fixed(o1);
            let o2 = o1.push(' ');
            assert(o2 =~= body2);
            assert(o2.drop_last() =~= o1);
            assert(!in_ranges(seq![], 0int + utf8_len(o1)));
            assert(scan_clean(o2, 0, seq![]) == (o, 2nat));
        } else {
            assert(body2 =~= o);
        }
    } else {
        assert(clean_line(c, 0, seq![]) =~= Seq::<char>::empty());
        assert(skip_blanks(Seq::<char>::empty(), 0) == 0);
    }
}

/// With no code in the way, the first `n` lines cleaned are the line map of
/// `clean_line`.
proof fn lemma_whitespace_lines_map(s: Seq<char>, n: int)
    requires
        0 <= n <= line_bounds(s).len(),
    ensures
        whitespace_lines(s, seq![], n) == render_pieces(
            map_pieces(line_pieces(s).take(n), |c: Seq<char>| clean_line(c, 0, seq![])),
        ),
    decreases n,
{
    let g = |c: Seq<char>| clean_line(c, 0, seq![]);
    if n == 0 {
        assert(map_pieces(line_pieces(s).take(0), g) =~= Seq::<(Seq<char>, bool)>::empty());
    } else {
        lemma_whitespace_lines_map(s, n - 1);
        lemma_map_pieces_take(line_pieces(s), g, n - 1);
        let b = line_bounds(s)[n - 1];
        let start = byte_offset(s, b.0) as int;
        assert(!in_ranges(seq![], start));
        let content = line_text(s, b);
        let indent_len = skip_blanks(content, 0);
        lemma_scan_clean_start(content.skip(indent_len), start + indent_len);
        lemma_scan_clean_start(content.skip(indent_len), 0 + indent_len);
        assert(clean_line(content, start, seq![]) == clean_line(content, 0, seq![]));
    }
}

/// Cleaning whitespace is idempotent: on a text without code, a second pass
/// changes nothing.
pub proof fn whitespace_idempotent(s: Seq<char>)
    ensures
        spec_whitespace(spec_whitespace(s, seq![]), seq![]) == spec_whitespace(s, seq![]),
{
    let g = |c: Seq<char>| clean_line(c, 0, seq![]);
    let once = spec_whitespace(s, seq![]);
    lemma_whitespace_lines_map(s, line_bounds(s).len() as int);
    assert(line_pieces(s).take(line_bounds(s).len() as int) =~= line_pieces(s));
    lemma_whitespace_lines_map(once, line_bounds(once).len() as int);
    assert(line_pieces(once).take(line_bounds(once).len() as int) =~= line_pieces(once));
    lemma_line_pieces_wf(s);
    assert forall|k: int| 0 <= k < line_pieces(s).len() implies no_newline(
        #[trigger] g(line_pieces(s)[k].0),
    ) && g(g(line_pieces(s)[k].0)) == g(line_pieces(s)[k].0) by {
        assert(no_newline(line_pieces(s)[k].0));
        lemma_clean_line_twice(line_pieces(s)[k].0);
    }
    assert(skip_blanks(Seq::<char>::empty(), 0) == 0);
    assert(g(seq![]) =~= Seq::<char>::empty());
    lemma_map_lines_idempotent(s, g);
}

/// A line as this rule writes it: as it is when it lies in code.
pub open spec fn whitespace_out(s: Seq<char>, ignore: Seq<(int, int)>, k: int) -> Seq<char> {
    let b = line_bounds(s)[k];
    let start = byte_offset(s, b.0) as int;
    if lies_in_code(line_text(s, b), start, ignore) {
        line_text(s, b)
    } else {
        clean_line(line_text(s, b), start, ignore)
    }
}

proof fn lemma_whitespace_lines_rewritten(s: Seq<char>, ignore: Seq<(int, int)>, n: int)
    requires
        0 <= n <= line_bounds(s).len(),
    ensures
        whitespace_lines(s, ignore, n) == rewritten_lines(s, |k: int| whitespace_out(s, ignore, k), n),
    decreases n,
{
    if n > 0 {
        lemma_whitespace_lines_rewritten(s, ignore, n - 1);
    }
}

proof fn lemma_scan_clean_one_line(body: Seq<char>, start: int, ignore: Seq<(int, int)>)
    requires
        no_newline(body),
    ensures
        no_newline(scan_clean(body, start, ignore).0),
    decreases body.len(),
{
    if body.len() > 0 {
        let prev = body.drop_last();
        assert forall|k: int| 0 <= k < prev.len() implies prev[k] != '\n' by {
            assert(prev[k] == body[k]);
        }
        lemma_scan_clean_one_line(prev, start, ignore);
        assert(body.last() == body[body.len() - 1]);
    }
}

/// A cleaned line holds no line break when its line held none.
proof fn lemma_clean_one_line(c: Seq<char>, start: int, ignore: Seq<(int, int)>)
    requires
        no_newline(c),
    ensures
        no_newline(clean_line(c, start, ignore)),
{
    let a = skip_blanks(c, 0);
    crate::scan::lemma_skip_blanks_bounds(c, 0);
    let body = c.skip(a);
    if body.len() > 0 {
        lemma_no_newline_sub(c, a, c.len() as int);
        assert(body =~= c.subrange(a, c.len() as int));
        lemma_scan_clean_one_line(body, start + a, ignore);
        lemma_no_newline_sub(c, 0, a);
        assert(c.take(a) =~= c.subrange(0, a));
        let out = scan_clean(body, start + a, ignore).0;
        lemma_no_newline_concat(c.take(a), out);
        assert(no_newline(seq![' ', ' ']));
        assert(no_newline(Seq::<char>::empty()));
        if scan_clean(body, start + a, ignore).1 >= 2 {
            lemma_no_newline_concat(c.take(a) + out, seq![' ', ' ']);
        } else {
            lemma_no_newline_concat(c.take(a) + out, Seq::<char>::empty());
        }
    }
}

/// Code is left untouched: every line that lies in code comes out as the
/// same line, at the same place.
pub proof fn whitespace_keeps_code(s: Seq<char>, ignore: Seq<(int, int)>)
    ensures
        forall|k: int|
            0 <= k < line_bounds(s).len() && #[trigger] lies_in_code(
                line_text(s, line_bounds(s)[k]),
                byte_offset(s, line_bounds(s)[k].0) as int,
                ignore,
            ) ==> keeps_line(
                s,
                spec_whitespace(s, ignore),
                k,
            ),
{
    let n = line_bounds(s).len() as int;
    let f = |k: int| whitespace_out(s, ignore, k);
    lemma_whitespace_lines_rewritten(s, ignore, n);
    lemma_line_pieces_wf(s);
    assert forall|k: int| 0 <= k < n implies no_newline(#[trigger] f(k)) by {
        let b = line_bounds(s)[k];
        let c = line_text(s, b);
        assert(c == line_pieces(s)[k].0);
        lemma_clean_one_line(c, byte_offset(s, b.0) as int, ignore);
    }
    lemma_rewritten_keeps(s, f);
    assert forall|k: int|
        0 <= k < n && #[trigger] lies_in_code(
            line_text(s, line_bounds(s)[k]),
            byte_offset(s, line_bounds(s)[k].0) as int,
            ignore,
        ) implies keeps_line(s, spec_whitespace(s, ignore), k) by {
        assert(f(k) == line_text(s, line_bounds(s)[k]));
    }
}

/// A run of code that ends where the cleaning has read to ends what it has
/// written, with no spaces held back; read from the body's start, it is all
/// that has been written.
proof fn lemma_clean_code_suffix(body: Seq<char>, start: int, ignore: Seq<(int, int)>, a: int, b: int)
    requires
        0 <= a < b <= body.len(),
        forall|p: int| a <= p < b ==> #[trigger] in_ranges(ignore, start + utf8_len(body.take(p))),
    ensures
        ({
            let (out, pending) = scan_clean(body.take(b), start, ignore);
            &&& pending == 0
            &&& b - a <= out.len()
            &&& out.subrange(out.len() - (b - a), out.len() as int) == body.subrange(a, b)
            &&& a == 0 ==> out == body.take(b)
        }),
    decreases b - a,
{
    let x = body.take(b);
    assert(x.drop_last() =~= body.take(b - 1));
    assert(x.last() == body[b - 1]);
    assert(in_ranges(ignore, start + utf8_len(body.take(b - 1))));
    let (out0, pending0) = scan_clean(body.take(b - 1), start, ignore);
    let (out, pending) = scan_clean(x, start, ignore);
    if b - 1 > a {
        lemma_clean_code_suffix(body, start, ignore, a, b - 1);
        assert(out == out0.push(body[b - 1]));
        assert(out.subrange(out.len() - (b - a), out.len() as int) =~= out0.subrange(
            out0.len() - (b - 1 - a),
            out0.len() as int,
        ).push(body[b - 1]));
        assert(body.subrange(a, b) =~= body.subrange(a, b - 1).push(body[b - 1]));
        if a == 0 {
            assert(body.take(b) =~= body.take(b - 1).push(body[b - 1]));
        }
    } else {
        if a == 0 {
            assert(body.take(0) =~= Seq::<char>::empty());
            assert(scan_clean(body.take(0), start, ignore) == (Seq::<char>::empty(), 0nat));
            assert(out =~= seq![body[0]]);
            assert(body.take(1) =~= seq![body[0]]);
        } else {
            assert(out.len() >= 1);
        }
        assert(out.last() == body[b - 1]);
        assert(out.subrange(out.len() - 1, out.len() as int) =~= seq![body[b - 1]]);
        assert(body.subrange(a, b) =~= seq![body[b - 1]]);
    }
}

/// What the cleaning has written stays at the start of what it writes on.
proof fn lemma_clean_grows(body: Seq<char>, start: int, ignore: Seq<(int, int)>, b: int, m: int)
    requires
        0 <= b <= m <= body.len(),
    ensures
        ({
            let before = scan_clean(body.take(b), start, ignore).0;
            let after = scan_clean(body.take(m), start, ignore).0;
            before.len() <= after.len() && after.take(before.len() as int) == before
        }),
    decreases m - b,
{
    if m > b {
        lemma_clean_grows(body, start, ignore, b, m - 1);
        let x = body.take(m);
        assert(x.drop_last() =~= body.take(m - 1));
        let before = scan_clean(body.take(b), start, ignore).0;
        let mid = scan_clean(body.take(m - 1), start, ignore).0;
        let after = scan_clean(x, start, ignore).0;
        assert(after.take(mid.len() as int) =~= mid);
        assert(after.take(before.len() as int) =~= mid.take(before.len() as int));
    } else {
        let before = scan_clean(body.take(b), start, ignore).0;
        assert(before.take(before.len() as int) =~= before);
    }
}

/// Spaces and tabs are one byte each.
proof fn lemma_blanks_width(s: Seq<char>)
    requires
        forall|k: int| 0 <= k < s.len() ==> is_blank(#[trigger] s[k]),
    ensures
        utf8_len(s) == s.len(),
    decreases s.len(),
{
    if s.len() > 0 {
        assert(is_blank(s[s.len() - 1]));
        assert forall|k: int| 0 <= k < s.drop_last().len() implies is_blank(#[trigger] s.drop_last()[k]) by {
            assert(s.drop_last()[k] == s[k]);
        }
        lemma_blanks_width(s.drop_last());
    }
}

/// Code is left untouched inside a cleaned line: every run of characters in
/// code comes out unchanged, whether the line is cleaned or, lying wholly in
/// code, copied. (A line of spaces and tabs alone that is not wholly in code
/// becomes empty.)
pub proof fn whitespace_keeps_code_runs(
    content: Seq<char>,
    start: int,
    ignore: Seq<(int, int)>,
    i: int,
    j: int,
)
    requires
        skip_blanks(content, 0) < content.len(),
        0 <= i < j <= content.len(),
        forall|p: int| i <= p < j ==> #[trigger] in_ranges(ignore, start + utf8_len(content.take(p))),
    ensures
        occurs_in(clean_line(content, start, ignore), content.subrange(i, j)),
{
    let ind = skip_blanks(content, 0);
    crate::scan::lemma_skip_blanks_bounds(content, 0);
    let body = content.skip(ind);
    let bstart = start + ind;
    let (out, pending) = scan_clean(body, bstart, ignore);
    let tail: Seq<char> = if pending >= 2 {
        seq![' ', ' ']
    } else {
        seq![]
    };
    let res = clean_line(content, start, ignore);
    let head = content.take(ind);
    assert(res == head + out + tail);
    let piece = content.subrange(i, j);
    lemma_blanks_width(head);
    // Offsets in the body, as read from the line's.
    assert forall|q: int| 0 <= q <= body.len() implies #[trigger] utf8_len(content.take(ind + q)) == ind
        + utf8_len(body.take(q)) by {
        assert(content.take(ind + q) =~= head + body.take(q));
        crate::text::lemma_utf8_len_concat(head, body.take(q));
    }
    assert(body.take(body.len() as int) =~= body);
    if j <= ind {
        assert(res.subrange(i, i + piece.len()) =~= piece);
    } else {
        let a = if i < ind {
            0
        } else {
            i - ind
        };
        let b = j - ind;
        assert forall|p: int| a <= p < b implies #[trigger] in_ranges(ignore, bstart + utf8_len(body.take(p))) by {
            assert(utf8_len(content.take(ind + p)) == ind + utf8_len(body.take(p)));
            assert(in_ranges(ignore, start + utf8_len(content.take(ind + p))));
        }
        lemma_clean_code_suffix(body, bstart, ignore, a, b);
        lemma_clean_grows(body, bstart, ignore, b, body.len() as int);
        let ob = scan_clean(body.take(b), bstart, ignore).0;
        assert(out.take(ob.len() as int) == ob);
        if i < ind {
            assert(ob == body.take(b));
            let p = i;
            assert forall|k: int| 0 <= k < piece.len() implies res.subrange(p, p + piece.len())[k] == piece[k] by {
                if i + k < ind {
                    assert(res[i + k] == head[i + k]);
                } else {
                    assert(res[i + k] == out[i + k - ind]);
                    assert(out[i + k - ind] == ob[i + k - ind]);
                    assert(body[i + k - ind] == content[i + k]);
                }
            }
            assert(res.subrange(p, p + piece.len()) =~= piece);
        } else {
            let p = ind + ob.len() - (b - a);
            assert(body.subrange(a, b) =~= piece);
            assert forall|k: int| 0 <= k < piece.len() implies res.subrange(p, p + piece.len())[k] == piece[k] by {
                assert(res[p + k] == out[ob.len() - (b - a) + k]);
                assert(out[ob.len() - (b - a) + k] == ob[ob.len() - (b - a) + k]);
                assert(ob[ob.len() - (b - a) + k] == ob.subrange(ob.len() - (b - a), ob.len() as int)[k]);
            }
            assert(res.subrange(p, p + piece.len()) =~= piece);
        }
    }
}

/// Whether `c` is one of `,` `.` `;` `:` `!` `?`.
pub open spec fn is_closing_punctuation(c: char) -> bool {
    c == ',' || c == '.' || c == ';' || c == ':' || c == '!' || c == '?'
}

/// A `,` `.` `;` `:` `!` or `?` outside code hugs what came before it: the
/// spaces held back before it are dropped and it is written right after the
/// text so far.
pub proof fn whitespace_drops_space_before_punctuation(
    body: Seq<char>,
    start: int,
    ignore: Seq<(int, int)>,
    m: int,
)
    requires
        0 <= m < body.len(),
        is_closing_punctuation(body[m]),
        !in_ranges(ignore, start + utf8_len(body.take(m))),
    ensures
        scan_clean(body.take(m + 1), start, ignore) == (
            scan_clean(body.take(m), start, ignore).0.push(body[m]),
            0nat,
        ),
{
    assert(body.take(m + 1).drop_last() =~= body.take(m));
    assert(body.take(m + 1).last() == body[m]);
}

/// Without code, the cleaning never ends its text with a space, and never
/// writes a space right before `,` `.` `;` `:` `!` or `?`.
proof fn lemma_clean_no_space_before(body: Seq<char>, start: int)
    ensures
        ({
            let out = scan_clean(body, start, seq![]).0;
            &&& out.len() > 0 ==> out.last() != ' '
            &&& forall|q: int|
                1 <= q < out.len() && is_closing_punctuation(#[trigger] out[q]) ==> out[q - 1] != ' '
            &&& forall|q: int| 1 <= q < out.len() && #[trigger] out[q] == ' ' ==> out[q - 1] != ' '
        }),
    decreases body.len(),
{
    if body.len() > 0 {
        lemma_clean_no_space_before(body.drop_last(), start);
        let (out0, pending0) = scan_clean(body.drop_last(), start, seq![]);
        let c = body.last();
        assert(!in_ranges(seq![], start + utf8_len(body.drop_last())));
        if c != ' ' {
            let mid = if pending0 > 0 && !tightens_left(c) {
                out0.push(' ')
            } else {
                out0
            };
            let out = mid.push(c);
            assert(out == scan_clean(body, start, seq![]).0);
            assert forall|q: int|
                1 <= q < out.len() && is_closing_punctuation(#[trigger] out[q]) implies out[q - 1] != ' ' by {
                if q < out0.len() {
                    assert(out[q] == out0[q] && out[q - 1] == out0[q - 1]);
                } else if q == out.len() - 1 {
                    if mid.len() > out0.len() {
                        assert(!tightens_left(c));
                    } else {
                        assert(out[q - 1] == out0.last());
                    }
                } else {
                    assert(out[q] == ' ');
                }
            }
            assert forall|q: int| 1 <= q < out.len() && #[trigger] out[q] == ' ' implies out[q - 1] != ' ' by {
                if q < out0.len() {
                    assert(out[q] == out0[q] && out[q - 1] == out0[q - 1]);
                } else if q == out.len() - 1 {
                    assert(out[q] == c);
                } else {
                    assert(out[q - 1] == out0.last());
                }
            }
        }
    }
}

/// Without code, a cleaned line has no space right before a `,` `.` `;`
/// `:` `!` or `?` past its indentation, and past its indentation no two
/// spaces in a row but a trailing hard break of exactly two.
pub proof fn whitespace_no_space_before_punctuation(content: Seq<char>, start: int)
    ensures
        ({
            let out = clean_line(content, start, seq![]);
            &&& forall|q: int|
                skip_blanks(content, 0) < q < out.len() && is_closing_punctuation(#[trigger] out[q])
                    ==> out[q - 1] != ' '
            &&& forall|q: int|
                skip_blanks(content, 0) < q < out.len() - 2 && #[trigger] out[q] == ' ' ==> out[q - 1]
                    != ' '
        }),
{
    let ind = skip_blanks(content, 0);
    crate::scan::lemma_skip_blanks_bounds(content, 0);
    let body = content.skip(ind);
    let out = clean_line(content, start, seq![]);
    if body.len() > 0 {
        let (o, pending) = scan_clean(body, start + ind, seq![]);
        lemma_clean_no_space_before(body, start + ind);
        let tail: Seq<char> = if pending >= 2 {
            seq![' ', ' ']
        } else {
            seq![]
        };
        let head = content.take(ind);
        assert(out == head + o + tail);
        assert forall|q: int|
            ind < q < out.len() && is_closing_punctuation(#[trigger] out[q]) implies out[q - 1] != ' ' by {
            if q < ind + o.len() {
                assert(out[q] == o[q - ind]);
                assert(out[q - 1] == o[q - 1 - ind]);
            } else {
                assert(out[q] == tail[q - ind - o.len()]);
            }
        }
        assert forall|q: int| ind < q < out.len() - 2 && #[trigger] out[q] == ' ' implies out[q - 1] != ' ' by {
            if q < ind + o.len() {
                assert(out[q] == o[q - ind]);
                assert(out[q - 1] == o[q - 1 - ind]);
            } else {
                assert(tail.len() <= 2);
            }
        }
    }
}

} // verus!
