//! What a second pass of the layout rule reads from the first pass's output:
//! every written line is classified as its source line was, the lists nest
//! the same way, and the separators come back as they were written.

use crate::engine::ignore::in_ranges;
use crate::lines::{
    contents, joined_pieces, lemma_join_last, lemma_join_lines, lemma_line_count,
    lemma_line_pieces_last, lemma_line_pieces_of_render, lemma_line_pieces_wf, lemma_no_newline_sub,
    line_pieces, no_newline, normalize, pieces_wf, render_pieces,
};
use crate::rules::layout::{
    block_end, classify, close_deeper, gap, is_list_group, is_quote_blank, laid_out_lines,
    lemma_block_end, lemma_block_end_group, lemma_strip_blanks_one_line, lemma_unindented_reads,
    list_kind, place_cont, place_item, scan_layout, spec_layout, tabs, unindented, Group, Level,
};
use crate::rules::support::{
    digits_end, is_digit, lemma_digits_end_bounds, marker_at, spec_heading_level, spec_is_ordered_item,
    spec_list_item_indent, spec_starts_with_tag,
};
use crate::scan::{
    ends_with, final_break, is_blank_line, join, lemma_scan_tokens_concat, lemma_scan_tokens_ws, run_end, scan_tokens,
    skip_blanks, skip_ws, strip_blanks, tokens, trim_start,
};
use crate::text::{byte_offset, is_blank, is_ws, line_bounds, line_text, scan_lines};
use vstd::prelude::*;

verus! {

// ----- a line re-indented -----

/// A line re-indented: `d` tabs, then the line without its leading blanks.
pub open spec fn reindented(content: Seq<char>, d: nat) -> Seq<char> {
    tabs(d) + strip_blanks(content)
}

/// The heading level of a line whose leading blanks are gone.
pub open spec fn heading_after_blanks(y: Seq<char>) -> Option<int> {
    let e = run_end(y, 0, '#');
    if 1 <= e <= 6 && (e == y.len() || is_blank(y[e])) {
        Some(e)
    } else {
        None
    }
}

proof fn lemma_run_end_shift(s: Seq<char>, a: int, i: int, c: char)
    requires
        0 <= a <= s.len(),
        0 <= i <= s.len() - a,
    ensures
        run_end(s, a + i, c) == a + run_end(s.skip(a), i, c),
    decreases s.len() - a - i,
{
    if i < s.len() - a {
        assert(s.skip(a)[i] == s[a + i]);
        if s[a + i] == c {
            lemma_run_end_shift(s, a, i + 1, c);
        }
    }
}

proof fn lemma_digits_end_shift(s: Seq<char>, a: int, i: int)
    requires
        0 <= a <= s.len(),
        0 <= i <= s.len() - a,
    ensures
        digits_end(s, a + i) == a + digits_end(s.skip(a), i),
    decreases s.len() - a - i,
{
    if i < s.len() - a {
        assert(s.skip(a)[i] == s[a + i]);
        if is_digit(s[a + i]) {
            lemma_digits_end_shift(s, a, i + 1);
        }
    }
}

/// Whether a list marker stands at `a` depends on the line from `a` on.
proof fn lemma_marker_shift(s: Seq<char>, a: int)
    requires
        0 <= a <= s.len(),
    ensures
        marker_at(s, a) == marker_at(s.skip(a), 0),
{
    let y = s.skip(a);
    lemma_digits_end_shift(s, a, 0);
    lemma_digits_end_bounds(y, 0);
    if a < s.len() {
        assert(y[0] == s[a]);
    }
    if a + 1 < s.len() {
        assert(y[1] == s[a + 1]);
    }
    let d = digits_end(y, 0);
    if d < y.len() {
        assert(y[d] == s[a + d]);
    }
    if d + 1 < y.len() {
        assert(y[d + 1] == s[a + d + 1]);
    }
}

/// What a line is, read after its leading blanks.
proof fn lemma_after_blanks(s: Seq<char>)
    ensures
        ({
            let a = skip_blanks(s, 0);
            let y = s.skip(a);
            &&& spec_heading_level(s) == heading_after_blanks(y)
            &&& spec_list_item_indent(s) == if marker_at(y, 0) {
                Some(a)
            } else {
                None
            }
            &&& spec_is_ordered_item(s) == (marker_at(y, 0) && y.len() > 0 && is_digit(y[0]))
        }),
{
    let a = skip_blanks(s, 0);
    crate::scan::lemma_skip_blanks_bounds(s, 0);
    let y = s.skip(a);
    lemma_run_end_shift(s, a, 0, '#');
    lemma_marker_shift(s, a);
    let e = run_end(y, 0, '#');
    crate::scan::lemma_run_end_bounds(y, 0, '#');
    if e < y.len() {
        assert(y[e] == s[a + e]);
    }
    if a < s.len() {
        assert(y[0] == s[a]);
    }
}

/// Leading whitespace changes nothing in how a line splits into tokens.
proof fn lemma_tokens_after_ws(w: Seq<char>, y: Seq<char>)
    requires
        forall|k: int| 0 <= k < w.len() ==> is_ws(#[trigger] w[k]),
    ensures
        tokens(w + y) == tokens(y),
{
    lemma_scan_tokens_concat(w, y);
    lemma_scan_tokens_concat(Seq::<char>::empty(), y);
    assert(Seq::<char>::empty() + y =~= y);
    let e: (Seq<Seq<char>>, Seq<char>) = (seq![], seq![]);
    assert(scan_tokens(Seq::<char>::empty()) == e);
    if w.len() > 0 {
        lemma_scan_tokens_concat(Seq::<char>::empty(), w);
        assert(Seq::<char>::empty() + w =~= w);
        lemma_scan_tokens_ws(e, w);
    } else {
        assert(w =~= Seq::<char>::empty());
    }
    assert(scan_tokens(w) == e);
}

proof fn lemma_skip_ws_shift(w: Seq<char>, y: Seq<char>, i: int)
    requires
        0 <= i <= w.len(),
        forall|k: int| 0 <= k < w.len() ==> is_ws(#[trigger] w[k]),
    ensures
        skip_ws(w + y, i) == w.len() + skip_ws(y, 0),
    decreases w.len() + y.len() - i,
{
    if i < w.len() {
        assert((w + y)[i] == w[i]);
        lemma_skip_ws_shift(w, y, i + 1);
    } else {
        lemma_skip_ws_tail(w, y, 0);
    }
}

proof fn lemma_skip_ws_tail(w: Seq<char>, y: Seq<char>, j: int)
    requires
        0 <= j <= y.len(),
    ensures
        skip_ws(w + y, w.len() + j) == w.len() + skip_ws(y, j),
    decreases y.len() - j,
{
    if j < y.len() {
        assert((w + y)[w.len() + j] == y[j]);
        if is_ws(y[j]) {
            lemma_skip_ws_tail(w, y, j + 1);
        }
    }
}

/// Leading whitespace changes nothing in what a line is once trimmed.
proof fn lemma_trim_start_after_ws(w: Seq<char>, y: Seq<char>)
    requires
        forall|k: int| 0 <= k < w.len() ==> is_ws(#[trigger] w[k]),
    ensures
        trim_start(w + y) == trim_start(y),
{
    lemma_skip_ws_shift(w, y, 0);
    crate::scan::lemma_skip_ws_bounds(y, 0);
    assert((w + y).subrange(w.len() + skip_ws(y, 0), (w + y).len() as int) =~= y.subrange(
        skip_ws(y, 0),
        y.len() as int,
    ));
}

proof fn lemma_blank_is_ws(c: char)
    requires
        is_blank(c),
    ensures
        is_ws(c),
{
}

/// A line that is not blank, re-indented, reads as the line did: the same
/// heading, tag and list facts, the list item now indented by `d`, and not
/// blank either.
#[verifier::rlimit(40)]
#[verifier::spinoff_prover]
pub proof fn lemma_reindented(c: Seq<char>, d: nat)
    requires
        !is_blank_line(c),
    ensures
        ({
            let r = reindented(c, d);
            &&& strip_blanks(r) == strip_blanks(c)
            &&& skip_blanks(r, 0) == d
            &&& spec_heading_level(r) == spec_heading_level(c)
            &&& spec_list_item_indent(r) == if spec_list_item_indent(c) is Some {
                Some(d as int)
            } else {
                None
            }
            &&& spec_is_ordered_item(r) == spec_is_ordered_item(c)
            &&& list_kind(r) == list_kind(c)
            &&& spec_starts_with_tag(r) == spec_starts_with_tag(c)
            &&& !is_blank_line(r)
            &&& is_quote_blank(r) == is_quote_blank(c)
        }),
{
    let a = skip_blanks(c, 0);
    crate::scan::lemma_skip_blanks_bounds(c, 0);
    let y = strip_blanks(c);
    assert(y == c.skip(a));
    let t = tabs(d);
    let r = t + y;
    // Some character of the line is not whitespace, and it is past the blanks.
    let k = choose|k: int| 0 <= k < c.len() && !is_ws(#[trigger] c[k]);
    assert(!is_blank(c[k]));
    assert(a <= k);
    assert(y[k - a] == c[k]);
    assert(y.len() > 0);
    assert(!is_blank(y[0])) by {
        assert(y[0] == c[a]);
    }
    // The re-indented line's blanks are its tabs.
    assert forall|q: int| 0 <= q < d implies is_blank(#[trigger] r[q]) by {
        assert(r[q] == t[q]);
    }
    assert(r[d as int] == y[0]);
    crate::scan::lemma_skip_blanks_same(r, d as int);
    assert(r.skip(d as int) =~= y);
    assert(strip_blanks(r) =~= y);
    assert(y.skip(0) =~= y);
    lemma_after_blanks(c);
    lemma_after_blanks(r);
    // Tokens and trimming see through leading whitespace.
    let w = c.take(a);
    assert(c =~= w + y);
    assert forall|q: int| 0 <= q < w.len() implies is_ws(#[trigger] w[q]) by {
        assert(w[q] == c[q]);
        lemma_blank_is_ws(c[q]);
    }
    assert forall|q: int| 0 <= q < t.len() implies is_ws(#[trigger] t[q]) by {}
    lemma_tokens_after_ws(w, y);
    lemma_tokens_after_ws(t, y);
    lemma_trim_start_after_ws(w, y);
    lemma_trim_start_after_ws(t, y);
    assert(!is_ws(r[t.len() + k - a]));
}

// ----- the layout of a note without code, line by line -----

/// The layout state: lines out, the previous block's group, whether blanks
/// were skipped since it, whether it ended in a hard break, the open levels.
pub type LayoutState = (Seq<Seq<char>>, Option<Group>, bool, bool, Seq<Level>);

pub open spec fn layout_start() -> LayoutState {
    (seq![], None, false, false, seq![])
}

/// How a line that is neither blank nor an empty quote line is written, and
/// the levels open after it.
pub open spec fn placed(st: LayoutState, content: Seq<char>) -> (Seq<char>, bool, Seq<Level>) {
    let group = classify(content, false);
    if group == Group::ListItem {
        place_item(content, st.4, st.2)
    } else if group == Group::ListCont {
        place_cont(content, st.4, st.2)
    } else {
        (content, false, seq![])
    }
}

/// The count and text of the separator lines written before a block.
pub open spec fn separator(st: LayoutState, prev: Group, group: Group, rendered: Seq<char>, list_blank: bool) -> (nat, Seq<char>) {
    if is_list_group(prev) && is_list_group(group) {
        (if list_blank {
            1nat
        } else {
            0nat
        }, seq![])
    } else {
        gap(prev, group, st.3, rendered, st.2)
    }
}

/// The separator lines written before a block.
pub open spec fn separators(st: LayoutState, group: Group, rendered: Seq<char>, list_blank: bool) -> Seq<Seq<char>> {
    match st.1 {
        Some(prev) => {
            let (count, sep) = separator(st, prev, group, rendered, list_blank);
            Seq::new(count, |i: int| sep)
        },
        None => seq![],
    }
}

/// One line of a note without code, laid out.
pub open spec fn layout_step(st: LayoutState, content: Seq<char>) -> LayoutState {
    let content = unindented(content, false, st.4);
    if is_blank_line(content) {
        (st.0, st.1, true, st.3, st.4)
    } else if is_quote_blank(content) {
        st
    } else {
        let group = classify(content, false);
        let (rendered, list_blank, levels) = placed(st, content);
        (
            (st.0 + separators(st, group, rendered, list_blank)).push(rendered),
            Some(group),
            false,
            ends_with(rendered, "  "@),
            levels,
        )
    }
}

/// Lines of a note without code, laid out in turn from a state.
pub open spec fn layout_fold(st: LayoutState, lines: Seq<Seq<char>>) -> LayoutState
    decreases lines.len(),
{
    if lines.len() == 0 {
        st
    } else {
        layout_step(layout_fold(st, lines.drop_last()), lines.last())
    }
}

#[verifier::rlimit(40)]
#[verifier::spinoff_prover]
proof fn lemma_scan_layout_fold(s: Seq<char>, n: int)
    requires
        0 <= n <= line_bounds(s).len(),
    ensures
        scan_layout(s, seq![], n) == layout_fold(layout_start(), contents(s, n)),
    decreases n,
{
    if n > 0 {
        lemma_scan_layout_fold(s, n - 1);
        assert(contents(s, n).drop_last() =~= contents(s, n - 1));
        let b = line_bounds(s)[n - 1];
        assert(!in_ranges(seq![], byte_offset(s, b.0) as int));
        let st = scan_layout(s, seq![], n - 1);
        let content = line_text(s, b);
        assert(contents(s, n).last() == content);
        if !is_blank_line(content) && !is_quote_blank(content) {
            let group = classify(content, false);
            let (rendered, list_blank, levels) = placed(st, content);
            match st.1 {
                Some(prev) => {
                    let (count, sep) = separator(st, prev, group, rendered, list_blank);
                    assert(separators(st, group, rendered, list_blank) == Seq::new(count, |i: int| sep));
                },
                None => {
                    assert(st.0 + separators(st, group, rendered, list_blank) =~= st.0);
                },
            }
        }
    } else {
        assert(contents(s, 0) =~= Seq::<Seq<char>>::empty());
    }
}

proof fn lemma_layout_fold_concat(st: LayoutState, x: Seq<Seq<char>>, y: Seq<Seq<char>>)
    ensures
        layout_fold(st, x + y) == layout_fold(layout_fold(st, x), y),
    decreases y.len(),
{
    if y.len() == 0 {
        assert(x + y =~= x);
    } else {
        lemma_layout_fold_concat(st, x, y.drop_last());
        assert((x + y).drop_last() =~= x + y.drop_last());
        assert((x + y).last() == y.last());
    }
}

// ----- the levels a second pass opens -----

/// Open levels as a second pass finds them: the same items, each indented
/// by its depth.
pub open spec fn canon(levels: Seq<Level>) -> Seq<Level> {
    Seq::new(
        levels.len(),
        |i: int| Level { width: i as usize, loose: levels[i].loose, kind: levels[i].kind },
    )
}

/// The state a second pass reaches over what a first pass has written.
pub open spec fn reread_state(st: LayoutState) -> LayoutState {
    (st.0, st.1, false, st.3, canon(st.4))
}

proof fn lemma_close_deeper_prefix(levels: Seq<Level>, w: int)
    ensures
        close_deeper(levels, w).len() <= levels.len(),
        close_deeper(levels, w) == levels.take(close_deeper(levels, w).len() as int),
        close_deeper(levels, w).len() > 0 ==> !(w < close_deeper(levels, w).last().width),
    decreases levels.len(),
{
    if levels.len() > 0 && w < levels.last().width {
        lemma_close_deeper_prefix(levels.drop_last(), w);
        let r = close_deeper(levels.drop_last(), w);
        assert(levels.drop_last().take(r.len() as int) =~= levels.take(r.len() as int));
    } else {
        assert(levels.take(levels.len() as int) =~= levels);
    }
}

/// Closing the levels deeper than `d` among levels indented by depth keeps
/// the first `d + 1`.
proof fn lemma_close_deeper_canon(levels: Seq<Level>, d: int)
    requires
        0 <= d,
        levels.len() <= usize::MAX,
    ensures
        close_deeper(canon(levels), d) == canon(levels).take(
            if d + 1 < levels.len() {
                d + 1
            } else {
                levels.len() as int
            },
        ),
    decreases levels.len(),
{
    let c = canon(levels);
    if levels.len() > 0 {
        let n = levels.len() as int;
        assert(c.last().width as int == n - 1);
        if d < n - 1 {
            assert(c.drop_last() =~= canon(levels.drop_last()));
            lemma_close_deeper_canon(levels.drop_last(), d);
            assert(canon(levels.drop_last()).take(d + 1) =~= c.take(d + 1));
        } else {
            assert(c.take(n) =~= c);
        }
    } else {
        assert(c.take(0) =~= c);
    }
}

/// A list item, written by the first pass, is placed by the second pass as
/// it was written, with the levels indented by depth.
#[verifier::rlimit(60)]
#[verifier::spinoff_prover]
proof fn lemma_item_sim(c: Seq<char>, lev: Seq<Level>, hb1: bool, hb2: bool)
    requires
        classify(c, false) == Group::ListItem,
        !is_blank_line(c),
        lev.len() < usize::MAX,
    ensures
        ({
            let (r1, b1, a1) = place_item(c, lev, hb1);
            let (r2, b2, a2) = place_item(r1, canon(lev), hb2);
            &&& classify(r1, false) == Group::ListItem
            &&& !is_blank_line(r1)
            &&& is_quote_blank(r1) == is_quote_blank(c)
            &&& r2 == r1
            &&& a2 == canon(a1)
            &&& a1.len() <= lev.len() + 1
            &&& (lev.len() > 0 ==> b2 == b1)
            &&& (lev.len() == 0 ==> b1 == hb1 && b2 == hb2)
        }),
{
    let w = spec_list_item_indent(c)->Some_0;
    let kind = list_kind(c);
    let open = close_deeper(lev, w);
    lemma_close_deeper_prefix(lev, w);
    let going_deeper = open.len() == 0 || w > open.last().width;
    let (r1, b1, a1) = place_item(c, lev, hb1);
    let depth: nat = (a1.len() - 1) as nat;
    assert(r1 == reindented(c, depth));
    lemma_reindented(c, depth);
    let cl = canon(lev);
    if going_deeper && open.len() < lev.len() {
        let m = open.len() as int;
        assert(depth == m);
        lemma_close_deeper_canon(lev, m);
        let open2 = close_deeper(cl, m);
        assert(open2 == cl.take(m + 1));
        assert(open2.last() == cl[m]);
        assert(open2.last().width as int == m);
        let nl = Level { width: w as usize, loose: false, kind };
        assert(a1 == open.push(nl));
        assert(open =~= lev.take(m));
        assert(canon(a1) =~= open2.update(m, Level { width: open2.last().width, loose: false, kind }));
    } else if going_deeper {
        assert(open =~= lev);
        let d = lev.len() as int;
        assert(depth == d);
        lemma_close_deeper_canon(lev, d);
        assert(cl.take(d) =~= cl);
        let open2 = close_deeper(cl, d);
        assert(open2 == cl);
        if d > 0 {
            assert(cl.last().width as int == d - 1);
        }
        let nl = Level { width: w as usize, loose: false, kind };
        assert(a1 == lev.push(nl));
        assert(canon(a1) =~= cl.push(Level { width: d as usize, loose: false, kind }));
        if d > 0 {
            assert(cl.last().loose == lev.last().loose);
        }
    } else {
        let m = open.len() as int;
        assert(w == open.last().width);
        assert(depth == m - 1);
        lemma_close_deeper_canon(lev, m - 1);
        let open2 = close_deeper(cl, m - 1);
        assert(open2 == cl.take(m));
        assert(open2.last() == cl[m - 1]);
        assert(open.last() == lev[m - 1]);
        assert(open2.last().width as int == m - 1);
        let last = open.last();
        assert(a1 == open.update(m - 1, Level { width: last.width, loose: false, kind }));
        assert(canon(a1) =~= open2.update(
            m - 1,
            Level { width: open2.last().width, loose: false, kind },
        ));
    }
}

/// A continuation line, written by the first pass, is placed by the second
/// pass as it was written.
#[verifier::rlimit(40)]
#[verifier::spinoff_prover]
proof fn lemma_cont_sim(c: Seq<char>, lev: Seq<Level>, hb: bool)
    requires
        classify(c, false) == Group::ListCont,
        !is_blank_line(c),
        lev.len() > 0,
        lev.len() <= usize::MAX,
    ensures
        ({
            let (r1, b1, a1) = place_cont(c, lev, hb);
            &&& classify(r1, false) == Group::ListCont
            &&& !is_blank_line(r1)
            &&& is_quote_blank(r1) == is_quote_blank(c)
            &&& place_cont(r1, canon(lev), hb) == (r1, b1, canon(a1))
            &&& a1.len() == lev.len()
        }),
{
    let (r1, b1, a1) = place_cont(c, lev, hb);
    let n = lev.len();
    assert(r1 == reindented(c, n));
    lemma_reindented(c, n);
    assert(r1[0] == '\t');
    let cl = canon(lev);
    assert(cl.len() == n);
    if hb {
        assert(canon(a1) =~= cl.update(
            n - 1,
            Level { width: cl.last().width, loose: true, kind: cl.last().kind },
        ));
    }
}

// ----- one block, read back -----

/// Whether a first pass lays out a line so that a second pass nests it the
/// same way: a continuation line continues an open list.
pub open spec fn line_settled(st: LayoutState, content: Seq<char>) -> bool {
    classify(content, false) == Group::ListCont ==> st.4.len() > 0
}

/// Blanks skipped before a block matter to its separator only between two
/// tables.
proof fn lemma_gap_had_blank(
    prev: Group,
    group: Group,
    hard: bool,
    rendered: Seq<char>,
    hb1: bool,
    hb2: bool,
)
    requires
        (prev == Group::Table && group == Group::Table) ==> hb1 == hb2,
    ensures
        gap(prev, group, hard, rendered, hb1) == gap(prev, group, hard, rendered, hb2),
{
}

/// A separator is at most one line, an empty one or a `>`.
proof fn lemma_separator_shape(st: LayoutState, prev: Group, group: Group, rendered: Seq<char>, lb: bool)
    ensures
        separator(st, prev, group, rendered, lb).0 <= 1,
        separator(st, prev, group, rendered, lb).1 == Seq::<char>::empty()
            || separator(st, prev, group, rendered, lb).1 == seq!['>'],
        (prev == Group::Table && group == Group::Table) ==> separator(st, prev, group, rendered, lb)
            == (if st.2 {
            1nat
        } else {
            0nat
        }, Seq::<char>::empty()),
        (is_list_group(prev) && is_list_group(group)) ==> separator(st, prev, group, rendered, lb)
            == (if lb {
            1nat
        } else {
            0nat
        }, Seq::<char>::empty()),
{
}

/// Reading the separator lines back: an empty line is a skipped blank, a
/// `>` is skipped too.
proof fn lemma_separators_read(st1: LayoutState, group: Group, rendered: Seq<char>, lb: bool)
    ensures
        ({
            let seps = separators(st1, group, rendered, lb);
            let hb2 = seps.len() == 1 && seps[0] == Seq::<char>::empty();
            &&& seps.len() <= 1
            &&& layout_fold(reread_state(st1), seps) == (st1.0, st1.1, hb2, st1.3, canon(st1.4))
            &&& (st1.1 matches Some(prev) && prev == Group::Table && group == Group::Table ==> hb2 == st1.2)
            &&& (st1.1 matches Some(prev) && is_list_group(prev) && is_list_group(group) ==> hb2 == lb)
        }),
{
    let seps = separators(st1, group, rendered, lb);
    let st0 = reread_state(st1);
    match st1.1 {
        Some(prev) => {
            lemma_separator_shape(st1, prev, group, rendered, lb);
            let (count, sep) = separator(st1, prev, group, rendered, lb);
            assert(seps == Seq::new(count, |i: int| sep));
            if count == 1 {
                assert(seps.drop_last() =~= Seq::<Seq<char>>::empty());
                assert(layout_fold(st0, seps.drop_last()) == st0);
                assert(seps.last() == sep);
                assert(seps[0] == sep);
                assert(layout_fold(st0, seps) == layout_step(st0, sep));
                if sep == Seq::<char>::empty() {
                    assert(is_blank_line(sep));
                } else {
                    let q: Seq<char> = seq!['>'];
                    assert(sep == q);
                    assert(!is_ws('>'));
                    assert(!is_blank_line(q));
                    assert(skip_ws(q, 0) == 0) by {
                        assert(!is_ws(q[0]));
                    }
                    assert(trim_start(q) =~= q);
                    assert(q.drop_first() =~= Seq::<char>::empty());
                    assert(is_quote_blank(q));
                }
            } else {
                assert(seps =~= Seq::<Seq<char>>::empty());
            }
        },
        None => {
            assert(seps =~= Seq::<Seq<char>>::empty());
        },
    }
}

/// A line read without its indentation when no list is open continues none.
proof fn lemma_unindented_settled(raw: Seq<char>, st: LayoutState)
    requires
        !is_blank_line(unindented(raw, false, st.4)),
    ensures
        line_settled(st, unindented(raw, false, st.4)),
        unindented(unindented(raw, false, st.4), false, st.4) == unindented(raw, false, st.4),
{
    let c = unindented(raw, false, st.4);
    lemma_unindented_reads(raw, false, st.4);
    if st.4.len() == 0 && classify(raw, false) == Group::ListCont {
        lemma_reindented(raw, 0);
        assert(reindented(raw, 0) =~= c);
        assert(skip_blanks(c, 0) == 0);
        crate::scan::lemma_skip_blanks_bounds(c, 0);
        assert(c.len() > 0);
        assert(!is_blank(c[0]));
        assert(classify(c, false) != Group::ListCont);
    }
}

/// One block laid out by a first pass is read back by a second pass into
/// the same lines, from the state that second pass reaches over what came
/// before.
#[verifier::rlimit(80)]
#[verifier::spinoff_prover]
proof fn lemma_step_sim(st1: LayoutState, c: Seq<char>)
    requires
        !is_blank_line(c),
        !is_quote_blank(c),
        st1.4.len() > 0 ==> (st1.1 is Some && is_list_group(st1.1->Some_0)),
        st1.4.len() < usize::MAX,
        line_settled(st1, c),
    ensures
        ({
            let g = classify(c, false);
            let (r, lb, lev2) = placed(st1, c);
            &&& layout_fold(reread_state(st1), separators(st1, g, r, lb).push(r)) == reread_state(
                layout_step(st1, c),
            )
            &&& !is_blank_line(r)
            &&& !is_quote_blank(r)
            &&& classify(r, false) == g
            &&& lev2.len() <= st1.4.len() + 1
        }),
{
    let g = classify(c, false);
    let (r, lb, lev2) = placed(st1, c);
    let seps = separators(st1, g, r, lb);
    lemma_separators_read(st1, g, r, lb);
    let hb2 = seps.len() == 1 && seps[0] == Seq::<char>::empty();
    let st2: LayoutState = (st1.0, st1.1, hb2, st1.3, canon(st1.4));
    assert(layout_fold(reread_state(st1), seps) == st2);
    assert(seps.push(r).drop_last() =~= seps);
    assert(seps.push(r).last() == r);
    // The second pass places the written line as the first wrote it.
    let lb2 = placed(st2, r).1;
    if g == Group::ListItem {
        lemma_item_sim(c, st1.4, st1.2, hb2);
        assert(placed(st2, r) == place_item(r, canon(st1.4), hb2));
        if st1.4.len() == 0 {
            if st1.1 matches Some(prev) && is_list_group(prev) {
                assert(hb2 == lb);
            }
        }
    } else if g == Group::ListCont {
        lemma_cont_sim(c, st1.4, st1.2);
        assert(hb2 == lb);
        assert(lb == st1.2);
        assert(placed(st2, r) == place_cont(r, canon(st1.4), hb2));
    } else {
        assert(r == c);
        assert(canon(Seq::<Level>::empty()) =~= Seq::<Level>::empty());
    }
    assert(placed(st2, r) == (r, lb2, canon(lev2)));
    // And writes the same separators before it.
    match st1.1 {
        Some(prev) => {
            if is_list_group(prev) && is_list_group(g) {
                assert(lb2 == lb);
            } else {
                lemma_gap_had_blank(prev, g, st1.3, r, st1.2, hb2);
            }
            assert(separator(st2, prev, g, r, lb2) == separator(st1, prev, g, r, lb));
        },
        None => {},
    }
    assert(separators(st2, g, r, lb2) == seps);
}

// ----- the first pass, read back -----

/// What a first pass keeps as it goes, as a second pass needs it.
pub open spec fn pass_ok(st: LayoutState, n: int) -> bool {
    &&& st.4.len() <= n
    &&& (st.4.len() > 0 ==> (st.1 is Some && is_list_group(st.1->Some_0)))
    &&& (st.0.len() == 0) == (st.1 is None)
    &&& (st.0.len() > 0 ==> st.1 == Some(classify(st.0.last(), false)) && !is_blank_line(st.0.last())
        && !is_quote_blank(st.0.last()))
    &&& forall|k: int| 0 <= k < st.0.len() ==> no_newline(#[trigger] st.0[k])
}

/// A written line has no line break when its source line had none.
proof fn lemma_placed_one_line(st: LayoutState, c: Seq<char>)
    requires
        no_newline(c),
        !is_blank_line(c),
        !is_quote_blank(c),
    ensures
        no_newline(placed(st, c).0),
{
    let g = classify(c, false);
    if g == Group::ListItem || g == Group::ListCont {
        let a = skip_blanks(c, 0);
        crate::scan::lemma_skip_blanks_bounds(c, 0);
        lemma_no_newline_sub(c, a, c.len() as int);
        let r = placed(st, c).0;
        let d = (r.len() - strip_blanks(c).len()) as nat;
        assert(r == tabs(d) + strip_blanks(c));
        assert forall|q: int| 0 <= q < r.len() implies r[q] != '\n' by {
            if q >= d {
                assert(r[q] == strip_blanks(c)[q - d]);
            }
        }
    }
}

/// A first pass over a note without code, line by line: what a second pass
/// reads over the lines written so far, and what it reads over those before
/// a horizontal rule that ends them.
#[verifier::rlimit(80)]
#[verifier::spinoff_prover]
proof fn lemma_first_pass_sim(s: Seq<char>, n: int)
    requires
        0 <= n <= line_bounds(s).len(),
        line_bounds(s).len() <= usize::MAX,
    ensures
        ({
            let st = scan_layout(s, seq![], n);
            &&& pass_ok(st, n)
            &&& layout_fold(layout_start(), st.0) == reread_state(st)
        }),
    decreases n,
{
    let st = scan_layout(s, seq![], n);
    if n == 0 {
        assert(canon(Seq::<Level>::empty()) =~= Seq::<Level>::empty());
    } else {
        lemma_first_pass_sim(s, n - 1);
        let st1 = scan_layout(s, seq![], n - 1);
        lemma_scan_layout_fold(s, n);
        lemma_scan_layout_fold(s, n - 1);
        let raw = line_text(s, line_bounds(s)[n - 1]);
        assert(contents(s, n).drop_last() =~= contents(s, n - 1));
        assert(contents(s, n).last() == raw);
        assert(st == layout_step(st1, raw));
        lemma_line_pieces_wf(s);
        assert(raw == line_pieces(s)[n - 1].0);
        assert(no_newline(raw));
        let c = unindented(raw, false, st1.4);
        lemma_unindented_reads(raw, false, st1.4);
        lemma_strip_blanks_one_line(raw);
        assert(no_newline(c));
        if !is_blank_line(c) && !is_quote_blank(c) {
            lemma_unindented_settled(raw, st1);
            assert(st == layout_step(st1, c));
            let g = classify(c, false);
            let (r, lb, lev2) = placed(st1, c);
            let seps = separators(st1, g, r, lb);
            lemma_step_sim(st1, c);
            lemma_placed_one_line(st1, c);
            assert(st.0 == (st1.0 + seps).push(r));
            assert(st.0 =~= st1.0 + seps.push(r));
            lemma_layout_fold_concat(layout_start(), st1.0, seps.push(r));
            lemma_separators_read(st1, g, r, lb);
            // The separators are empty lines or `>`.
            assert forall|k: int| 0 <= k < seps.len() implies no_newline(#[trigger] seps[k]) by {
                match st1.1 {
                    Some(prev) => {
                        lemma_separator_shape(st1, prev, g, r, lb);
                        let (count, sep) = separator(st1, prev, g, r, lb);
                        assert(seps[k] == sep);
                    },
                    None => {},
                }
            }
            assert forall|k: int| 0 <= k < st.0.len() implies no_newline(#[trigger] st.0[k]) by {
                if k < st1.0.len() {
                    assert(st.0[k] == st1.0[k]);
                } else if k < st1.0.len() + seps.len() {
                    assert(st.0[k] == seps[k - st1.0.len()]);
                }
            }
            if g != Group::ListItem && g != Group::ListCont {
                assert(lev2 =~= Seq::<Level>::empty());
            }
        } else {
            assert(st.0 == st1.0);
            assert(st.1 == st1.1);
            assert(st.4 == st1.4);
            assert(st.3 == st1.3);
        }
    }
}

// ----- the law -----

/// A note whose lines are all blank lays out as its final line break alone.
proof fn lemma_layout_of_break(fb: Seq<char>)
    requires
        fb == Seq::<char>::empty() || fb == seq!['\n'],
    ensures
        spec_layout(fb, seq![]) == fb,
{
    if fb.len() == 0 {
        assert(scan_lines(fb) == (Seq::<(int, int)>::empty(), 0int));
        assert(line_bounds(fb).len() == 0);
        assert(laid_out_lines(fb, seq![]) =~= Seq::<Seq<char>>::empty());
    } else {
        let p: Seq<(Seq<char>, bool)> = seq![(Seq::<char>::empty(), true)];
        assert(p.drop_last() =~= Seq::<(Seq<char>, bool)>::empty());
        assert(render_pieces(p.drop_last()) == Seq::<char>::empty());
        assert(p.last() == (Seq::<char>::empty(), true));
        assert(render_pieces(p) =~= fb);
        assert(pieces_wf(p));
        lemma_line_pieces_of_render(p);
        lemma_line_pieces_last(fb);
        assert(line_bounds(fb).len() == 1);
        lemma_scan_layout_fold(fb, 1);
        let cs = contents(fb, 1);
        assert(cs[0] == line_pieces(fb)[0].0);
        assert(cs =~= seq![Seq::<char>::empty()]);
        assert(cs.drop_last() =~= Seq::<Seq<char>>::empty());
        assert(is_blank_line(cs.last()));
        assert(layout_fold(layout_start(), cs.drop_last()) == layout_start());
        assert(layout_fold(layout_start(), cs) == layout_step(layout_start(), cs.last()));
        assert(block_end(fb, seq![], 1) == 0) by {
            assert(line_text(fb, line_bounds(fb)[0]) == cs[0]);
            assert(!in_ranges(seq![], byte_offset(fb, line_bounds(fb)[0].0) as int));
            assert(block_end(fb, seq![], 0) == 0);
        }
        assert(laid_out_lines(fb, seq![]) =~= Seq::<Seq<char>>::empty());
    }
}

/// Laying out a note without code twice is laying it out once.
#[verifier::rlimit(60)]
#[verifier::spinoff_prover]
pub proof fn layout_idempotent(s: Seq<char>)
    requires
        s.len() <= usize::MAX,
    ensures
        spec_layout(spec_layout(s, seq![]), seq![]) == spec_layout(s, seq![]),
{
    let n = line_bounds(s).len() as int;
    lemma_line_count(s);
    lemma_block_end(s, seq![], n);
    let e = block_end(s, seq![], n);
    lemma_first_pass_sim(s, e);
    lemma_block_end_group(s, seq![], n);
    let st = scan_layout(s, seq![], e);
    let out = laid_out_lines(s, seq![]);
    let fb = final_break(s);
    let out1 = join(out, seq!['\n']) + fb;
    assert(spec_layout(s, seq![]) == out1);
    assert(out == st.0);
    // What a second pass makes of the laid-out lines.
    let back = layout_fold(layout_start(), out);
    assert(back.0 == out);
    assert(out.len() > 0 ==> !is_blank_line(out.last()) && !is_quote_blank(out.last()) && classify(
        out.last(),
        false,
    ) != Group::Rule);
    if out.len() == 0 {
        assert(out1 =~= fb);
        lemma_layout_of_break(fb);
    } else {
        let brk = fb.len() > 0;
        assert(fb == if brk {
            seq!['\n']
        } else {
            Seq::<char>::empty()
        });
        assert(out.last().len() > 0);
        lemma_join_lines(out, brk);
        let p = joined_pieces(out, brk);
        lemma_line_pieces_of_render(p);
        lemma_line_pieces_last(out1);
        assert(normalize(p) == p) by {
            assert(p.last() == p[p.len() - 1]);
            assert(p[p.len() - 1].0 == out[out.len() - 1]);
        }
        let n1 = line_bounds(out1).len() as int;
        assert(n1 == out.len());
        lemma_scan_layout_fold(out1, n1);
        assert(contents(out1, n1) =~= out) by {
            assert forall|k: int| 0 <= k < n1 implies #[trigger] contents(out1, n1)[k] == out[k] by {
                assert(line_pieces(out1)[k] == p[k]);
            }
        }
        assert(scan_layout(out1, seq![], n1) == back);
        assert(block_end(out1, seq![], n1) == n1) by {
            assert(contents(out1, n1)[n1 - 1] == out.last());
            assert(!in_ranges(seq![], byte_offset(out1, line_bounds(out1)[n1 - 1].0) as int));
            assert(scan_layout(out1, seq![], n1).1 == st.1);
        }
        assert(laid_out_lines(out1, seq![]) == out);
        if !brk {
            lemma_join_last(out);
            assert(no_newline(out[out.len() - 1]));
            assert(out.last()[out.last().len() - 1] != '\n');
        }
        assert(final_break(out1) == fb);
    }
}

} // verus!
