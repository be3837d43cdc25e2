//! **footnotes** — renumber footnotes by order of first reference and move all
//! definitions to the bottom. Handles single-line definitions (`[^label]:
//! text`); multi-line definitions are left where they are. Lines of code are
//! left as they are: they define nothing, and references in them neither
//! count nor get renumbered.

use crate::engine::ignore::{in_ranges, IgnoreRanges};
use crate::engine::Rule;
use crate::lines::{
    code_line, contents, joined_pieces, keeps_line_at, lemma_join_last, lemma_join_lines, lemma_line_pieces_last,
    lemma_line_pieces_of_render, lemma_line_pieces_wf, lemma_no_newline_concat, lemma_no_newline_sub,
    line_pieces, no_newline, normalize,
};
use crate::scan::{
    back_ws, chars_eq, copy_chars, final_break, final_break_exec, has_ws, has_ws_exec, is_blank_line,
    is_blank_line_exec, join, join_exec, lemma_lex_irreflexive, lemma_lex_total,
    lemma_lex_transitive, lemma_trim_twice, lemma_views_push, lex_lt, lex_lt_exec, occurs_at,
    occurs_at_exec, push_all, skip_ws, starts_with, starts_with_exec, subvec, trim, trim_exec, trim_start,
    trim_start_exec, views, flagged_views,
};
use crate::text::{
    byte_offset, char_width_exec, is_ws, line_at, line_bounds, line_bounds_exec, line_text, string_of,
    utf8_len, Doc,
};
use vstd::prelude::*;

verus! {

pub struct Footnotes;

/// The first index at or after `i` where `p` occurs in `s`.
pub open spec fn find_from(s: Seq<char>, p: Seq<char>, i: int) -> Option<int>
    decreases s.len() + 1 - i,
{
    if i < 0 || i + p.len() > s.len() {
        None
    } else if occurs_at(s, p, i) {
        Some(i)
    } else {
        find_from(s, p, i + 1)
    }
}

pub proof fn lemma_find_from(s: Seq<char>, p: Seq<char>, i: int)
    requires
        0 <= i,
    ensures
        find_from(s, p, i) matches Some(j) ==> i <= j && j + p.len() <= s.len() && occurs_at(
            s,
            p,
            j,
        ),
    decreases s.len() + 1 - i,
{
    if i + p.len() <= s.len() && !occurs_at(s, p, i) {
        lemma_find_from(s, p, i + 1);
    }
}

/// A footnote definition line `[^label]: text`, as its label and trimmed text.
pub open spec fn parse_definition(line: Seq<char>) -> Option<(Seq<char>, Seq<char>)> {
    let t = trim_start(line);
    if !starts_with(t, seq!['[', '^']) {
        None
    } else {
        let rest = t.skip(2);
        match find_from(rest, seq![']', ':'], 0) {
            None => None,
            Some(close) => {
                let label = rest.take(close);
                if label.len() == 0 || has_ws(label) {
                    None
                } else {
                    Some((label, trim(rest.skip(close + 2))))
                }
            },
        }
    }
}

/// Whether a bracketed text is a usable footnote label.
pub open spec fn is_label(label: Seq<char>) -> bool {
    label.len() > 0 && !has_ws(label)
}

/// The footnote labels referenced in `line` from index `i` on, in order.
pub open spec fn references_from(line: Seq<char>, i: int) -> Seq<Seq<char>>
    decreases line.len() - i,
{
    if i < 0 {
        seq![]
    } else {
        match find_from(line, seq!['[', '^'], i) {
            None => seq![],
            Some(open) => match find_from(line, seq![']'], open + 2) {
                None => seq![],
                Some(close) => {
                    proof {
                        lemma_find_from(line, seq!['[', '^'], i);
                        lemma_find_from(line, seq![']'], open + 2);
                    }
                    let label = line.subrange(open + 2, close);
                    let here = if is_label(label) {
                        seq![label]
                    } else {
                        seq![]
                    };
                    here + references_from(line, close + 1)
                },
            },
        }
    }
}

/// The first index at or after `i` holding `label`.
pub open spec fn index_from(labels: Seq<Seq<char>>, label: Seq<char>, i: int) -> Option<int>
    decreases labels.len() - i,
{
    if i < 0 || i >= labels.len() {
        None
    } else if labels[i] == label {
        Some(i)
    } else {
        index_from(labels, label, i + 1)
    }
}

/// The index of `label` in `labels`, if present.
pub open spec fn index_of(labels: Seq<Seq<char>>, label: Seq<char>) -> Option<int> {
    index_from(labels, label, 0)
}

/// The ASCII digit for `d < 10`.
pub open spec fn digit(d: nat) -> char {
    if d == 0 {
        '0'
    } else if d == 1 {
        '1'
    } else if d == 2 {
        '2'
    } else if d == 3 {
        '3'
    } else if d == 4 {
        '4'
    } else if d == 5 {
        '5'
    } else if d == 6 {
        '6'
    } else if d == 7 {
        '7'
    } else if d == 8 {
        '8'
    } else {
        '9'
    }
}

/// The decimal representation of `n`.
pub open spec fn decimal(n: nat) -> Seq<char>
    decreases n,
{
    if n < 10 {
        seq![digit(n)]
    } else {
        decimal(n / 10).push(digit(n % 10))
    }
}

/// `[^label]` rewritten to its number, when it has one.
pub open spec fn renumbered_ref(label: Seq<char>, numbers: Seq<Seq<char>>) -> Seq<char> {
    match index_of(numbers, label) {
        Some(k) => seq!['[', '^'] + decimal((k + 1) as nat) + seq![']'],
        None => seq!['[', '^'] + label + seq![']'],
    }
}

/// `line` from index `i` on, with every footnote reference renumbered.
pub open spec fn renumber_from(line: Seq<char>, i: int, numbers: Seq<Seq<char>>) -> Seq<char>
    decreases line.len() - i,
{
    if i < 0 || i > line.len() {
        seq![]
    } else {
        match find_from(line, seq!['[', '^'], i) {
            None => line.subrange(i, line.len() as int),
            Some(open) => {
                proof {
                    lemma_find_from(line, seq!['[', '^'], i);
                    lemma_find_from(line, seq![']'], open + 2);
                }
                line.subrange(i, open) + match find_from(line, seq![']'], open + 2) {
                    None => seq!['[', '^'] + renumber_from(line, open + 2, numbers),
                    Some(close) => renumbered_ref(line.subrange(open + 2, close), numbers)
                        + renumber_from(line, close + 1, numbers),
                }
            },
        }
    }
}

/// `labels` extended by those of `refs` it does not hold yet, in order.
pub open spec fn add_new(labels: Seq<Seq<char>>, refs: Seq<Seq<char>>) -> Seq<Seq<char>>
    decreases refs.len(),
{
    if refs.len() == 0 {
        labels
    } else {
        let before = add_new(labels, refs.drop_last());
        if index_of(before, refs.last()) is Some {
            before
        } else {
            before.push(refs.last())
        }
    }
}

/// The labels referenced in `body`, by first appearance.
pub open spec fn referenced(body: Seq<Seq<char>>) -> Seq<Seq<char>>
    decreases body.len(),
{
    if body.len() == 0 {
        seq![]
    } else {
        add_new(referenced(body.drop_last()), references_from(body.last(), 0))
    }
}

/// Whether a label is written with ASCII digits only.
pub open spec fn all_digits(a: Seq<char>) -> bool {
    a.len() > 0 && forall|k: int| 0 <= k < a.len() ==> '0' <= #[trigger] a[k] <= '9'
}

/// Whether a digit label counts lower than another: fewer digits first,
/// then digit by digit (for numbers written without leading zeros, by
/// value).
pub open spec fn counts_lower(a: Seq<char>, b: Seq<char>) -> bool {
    a.len() < b.len() || (a.len() == b.len() && lex_lt(a, b))
}

/// The order unreferenced labels are numbered in: alphabetical, except that
/// labels of digits alone come first and in order of their value. Numbers
/// written out sort in this order as they count up, so a second pass numbers
/// them as the first did.
pub open spec fn label_lt(a: Seq<char>, b: Seq<char>) -> bool {
    if all_digits(a) && all_digits(b) {
        counts_lower(a, b)
    } else if all_digits(a) || all_digits(b) {
        all_digits(a)
    } else {
        lex_lt(a, b)
    }
}

pub proof fn lemma_label_irreflexive(a: Seq<char>)
    ensures
        !label_lt(a, a),
{
    lemma_lex_irreflexive(a);
}

pub proof fn lemma_label_total(a: Seq<char>, b: Seq<char>)
    ensures
        a == b || label_lt(a, b) || label_lt(b, a),
{
    lemma_lex_total(a, b);
}

pub proof fn lemma_label_transitive(a: Seq<char>, b: Seq<char>, c: Seq<char>)
    requires
        label_lt(a, b),
        label_lt(b, c),
    ensures
        label_lt(a, c),
{
    if all_digits(a) && all_digits(b) && all_digits(c) {
        if a.len() == b.len() && b.len() == c.len() {
            lemma_lex_transitive(a, b, c);
        }
    } else if !all_digits(a) && !all_digits(b) && !all_digits(c) {
        lemma_lex_transitive(a, b, c);
    }
}

fn all_digits_exec(a: &Vec<char>) -> (r: bool)
    ensures
        r == all_digits(a@),
{
    if a.len() == 0 {
        return false;
    }
    let mut i: usize = 0;
    while i < a.len()
        invariant
            i <= a@.len(),
            forall|k: int| 0 <= k < i ==> '0' <= #[trigger] a@[k] <= '9',
        decreases a@.len() - i,
    {
        if !('0' <= a[i] && a[i] <= '9') {
            return false;
        }
        i = i + 1;
    }
    true
}

fn label_lt_exec(a: &Vec<char>, b: &Vec<char>) -> (r: bool)
    ensures
        r == label_lt(a@, b@),
{
    let da = all_digits_exec(a);
    let db = all_digits_exec(b);
    if da && db {
        a.len() < b.len() || (a.len() == b.len() && lex_lt_exec(a, b))
    } else if da || db {
        da
    } else {
        lex_lt_exec(a, b)
    }
}

/// `label` inserted into `sorted` after every label not greater than it.
pub open spec fn insert_lex(sorted: Seq<Seq<char>>, label: Seq<char>) -> Seq<Seq<char>>
    decreases sorted.len(),
{
    if sorted.len() == 0 {
        seq![label]
    } else if !label_lt(label, sorted.last()) {
        sorted.push(label)
    } else {
        insert_lex(sorted.drop_last(), label).push(sorted.last())
    }
}

/// The defined labels that are not referenced, sorted.
pub open spec fn orphans(defs: Seq<(Seq<char>, Seq<char>)>, refs: Seq<Seq<char>>) -> Seq<Seq<char>>
    decreases defs.len(),
{
    if defs.len() == 0 {
        seq![]
    } else {
        let rest = orphans(defs.drop_last(), refs);
        if index_of(refs, defs.last().0) is Some {
            rest
        } else {
            insert_lex(rest, defs.last().0)
        }
    }
}

/// Labels in number order (label `k` gets number `k + 1`): referenced labels
/// by first appearance, then unreferenced defined labels in [`label_lt`]
/// order.
pub open spec fn numbering(body: Seq<Seq<char>>, defs: Seq<(Seq<char>, Seq<char>)>) -> Seq<Seq<char>> {
    referenced(body) + orphans(defs, referenced(body))
}

/// The labels of the definitions.
pub open spec fn def_labels(defs: Seq<(Seq<char>, Seq<char>)>) -> Seq<Seq<char>> {
    defs.map_values(|d: (Seq<char>, Seq<char>)| d.0)
}

/// The definition of `label`, if any.
pub open spec fn lookup_def(defs: Seq<(Seq<char>, Seq<char>)>, label: Seq<char>) -> Option<Seq<char>> {
    match index_of(def_labels(defs), label) {
        Some(k) => Some(defs[k].1),
        None => None,
    }
}

/// Adds a definition; a label defined again keeps its place and takes the
/// later text.
pub open spec fn define(defs: Seq<(Seq<char>, Seq<char>)>, label: Seq<char>, text: Seq<char>) -> Seq<(Seq<char>, Seq<char>)> {
    match index_of(def_labels(defs), label) {
        Some(k) => defs.update(k, (label, text)),
        None => defs.push((label, text)),
    }
}

/// The first `n` lines split into definitions and body lines.
pub open spec fn scan_footnotes(s: Seq<char>, ignore: Seq<(int, int)>, n: int) -> (
    Seq<(Seq<char>, Seq<char>)>,
    Seq<Seq<char>>,
)
    decreases n,
{
    if n <= 0 {
        (seq![], seq![])
    } else {
        let (defs, body) = scan_footnotes(s, ignore, n - 1);
        let b = line_bounds(s)[n - 1];
        let content = line_text(s, b);
        if !in_ranges(ignore, byte_offset(s, b.0) as int) && parse_definition(content) is Some {
            let (label, text) = parse_definition(content)->Some_0;
            (define(defs, label, text), body)
        } else {
            (defs, body.push(content))
        }
    }
}

/// The byte offsets of the body lines, in the order `scan_footnotes` keeps
/// them.
pub open spec fn scan_offsets(s: Seq<char>, ignore: Seq<(int, int)>, n: int) -> Seq<int>
    decreases n,
{
    if n <= 0 {
        seq![]
    } else {
        let offs = scan_offsets(s, ignore, n - 1);
        let b = line_bounds(s)[n - 1];
        let off = byte_offset(s, b.0) as int;
        if !in_ranges(ignore, off) && parse_definition(line_text(s, b)) is Some {
            offs
        } else {
            offs.push(off)
        }
    }
}

/// A line split into runs of characters that alike lie in code or not, each
/// with whether it does; `off` is the line's byte offset.
pub open spec fn code_runs(line: Seq<char>, off: int, ignore: Seq<(int, int)>) -> Seq<(Seq<char>, bool)>
    decreases line.len(),
{
    if line.len() == 0 {
        seq![]
    } else {
        let runs = code_runs(line.drop_last(), off, ignore);
        let code = in_ranges(ignore, off + utf8_len(line.drop_last()));
        if runs.len() > 0 && runs.last().1 == code {
            runs.update(runs.len() - 1, (runs.last().0.push(line.last()), code))
        } else {
            runs.push((seq![line.last()], code))
        }
    }
}

/// The runs outside code.
pub open spec fn prose_runs(runs: Seq<(Seq<char>, bool)>) -> Seq<Seq<char>>
    decreases runs.len(),
{
    if runs.len() == 0 {
        seq![]
    } else if runs.last().1 {
        prose_runs(runs.drop_last())
    } else {
        prose_runs(runs.drop_last()).push(runs.last().0)
    }
}

/// Runs written back: references renumbered outside code, code as it is.
pub open spec fn renumber_runs(runs: Seq<(Seq<char>, bool)>, numbers: Seq<Seq<char>>) -> Seq<char>
    decreases runs.len(),
{
    if runs.len() == 0 {
        seq![]
    } else {
        renumber_runs(runs.drop_last(), numbers) + if runs.last().1 {
            runs.last().0
        } else {
            renumber_from(runs.last().0, 0, numbers)
        }
    }
}

/// Runs joined back together.
pub open spec fn join_runs(runs: Seq<(Seq<char>, bool)>) -> Seq<char>
    decreases runs.len(),
{
    if runs.len() == 0 {
        seq![]
    } else {
        join_runs(runs.drop_last()) + runs.last().0
    }
}

/// Splitting a line into runs loses nothing: joined, the runs are the line;
/// none is empty, and two runs side by side differ in lying in code. So the
/// runs in code are the line's code, as it is.
pub proof fn code_runs_cover_line(line: Seq<char>, off: int, ignore: Seq<(int, int)>)
    ensures
        join_runs(code_runs(line, off, ignore)) == line,
        forall|i: int|
            0 <= i < code_runs(line, off, ignore).len() ==> #[trigger] code_runs(line, off, ignore)[i].0.len()
                > 0,
        forall|i: int|
            1 <= i < code_runs(line, off, ignore).len() ==> #[trigger] code_runs(line, off, ignore)[i].1
                != code_runs(line, off, ignore)[i - 1].1,
    decreases line.len(),
{
    if line.len() > 0 {
        let prev = line.drop_last();
        code_runs_cover_line(prev, off, ignore);
        let runs = code_runs(prev, off, ignore);
        let now = code_runs(line, off, ignore);
        let c = line.last();
        let code = in_ranges(ignore, off + utf8_len(prev));
        if runs.len() > 0 && runs.last().1 == code {
            let n = runs.len() - 1;
            assert(now.drop_last() =~= runs.drop_last());
            assert(runs.drop_last().push(runs.last()) =~= runs);
            assert(join_runs(runs) == join_runs(runs.drop_last()) + runs.last().0);
            assert(join_runs(now) == join_runs(runs.drop_last()) + runs.last().0.push(c));
            assert(join_runs(now) =~= join_runs(runs).push(c));
            assert forall|i: int| 0 <= i < now.len() implies #[trigger] now[i].0.len() > 0 by {
                if i < n {
                    assert(now[i] == runs[i]);
                }
            }
            assert forall|i: int| 1 <= i < now.len() implies #[trigger] now[i].1 != now[i - 1].1 by {
                assert(now[i - 1] == runs[i - 1]);
                if i < n {
                    assert(now[i] == runs[i]);
                } else {
                    assert(runs.last() == runs[n]);
                }
            }
        } else {
            assert(now.drop_last() =~= runs);
            assert(join_runs(now) =~= join_runs(runs) + seq![c]);
            assert forall|i: int| 0 <= i < now.len() implies #[trigger] now[i].0.len() > 0 by {
                if i < runs.len() {
                    assert(now[i] == runs[i]);
                }
            }
            assert forall|i: int| 1 <= i < now.len() implies #[trigger] now[i].1 != now[i - 1].1 by {
                assert(now[i - 1] == runs[i - 1]);
                if i < runs.len() {
                    assert(now[i] == runs[i]);
                } else {
                    assert(runs.last() == runs[i - 1]);
                }
            }
        }
        assert(prev.push(c) =~= line);
    }
}

/// The pieces of body text outside code, in order: where references are
/// read.
pub open spec fn scan_prose(s: Seq<char>, ignore: Seq<(int, int)>, n: int) -> Seq<Seq<char>>
    decreases n,
{
    if n <= 0 {
        seq![]
    } else {
        let prose = scan_prose(s, ignore, n - 1);
        let b = line_bounds(s)[n - 1];
        let off = byte_offset(s, b.0) as int;
        if in_ranges(ignore, off) || parse_definition(line_text(s, b)) is Some {
            prose
        } else {
            prose + prose_runs(code_runs(line_text(s, b), off, ignore))
        }
    }
}

/// The body lines as written: lines of code as they are, references
/// renumbered in the text of the others that lies outside code.
pub open spec fn written_body(
    body: Seq<Seq<char>>,
    offs: Seq<int>,
    ignore: Seq<(int, int)>,
    numbers: Seq<Seq<char>>,
) -> Seq<Seq<char>> {
    Seq::new(
        body.len(),
        |k: int|
            if k < offs.len() && in_ranges(ignore, offs[k]) {
                body[k]
            } else {
                renumber_runs(code_runs(body[k], offs[k], ignore), numbers)
            },
    )
}

/// The definition lines, in number order.
pub open spec fn definition_lines(numbers: Seq<Seq<char>>, defs: Seq<(Seq<char>, Seq<char>)>) -> Seq<Seq<char>>
    decreases numbers.len(),
{
    if numbers.len() == 0 {
        seq![]
    } else {
        let rest = definition_lines(numbers.drop_last(), defs);
        match lookup_def(defs, numbers.last()) {
            Some(text) => rest.push(seq!['[', '^'] + decimal(numbers.len()) + seq![']', ':', ' '] + text),
            None => rest,
        }
    }
}

/// `lines` without trailing blank (whitespace-only) lines.
pub open spec fn drop_blank_tail(lines: Seq<Seq<char>>) -> Seq<Seq<char>>
    decreases lines.len(),
{
    if lines.len() > 0 && is_blank_line(lines.last()) {
        drop_blank_tail(lines.drop_last())
    } else {
        lines
    }
}

/// The note with its footnotes renumbered and their definitions at the bottom.
pub open spec fn spec_footnotes(s: Seq<char>, ignore: Seq<(int, int)>) -> Seq<char> {
    let n = line_bounds(s).len() as int;
    let (defs, body) = scan_footnotes(s, ignore, n);
    let numbers = numbering(scan_prose(s, ignore, n), defs);
    if numbers.len() == 0 {
        s
    } else {
        let lines = drop_blank_tail(written_body(body, scan_offsets(s, ignore, n), ignore, numbers));
        let def_lines = definition_lines(numbers, defs);
        let all = if def_lines.len() > 0 {
            lines.push(seq![]) + def_lines
        } else {
            lines
        };
        join(all, seq!['\n']) + final_break(s)
    }
}

pub open spec fn pair_views(v: Seq<(Vec<char>, Vec<char>)>) -> Seq<(Seq<char>, Seq<char>)> {
    v.map_values(|p: (Vec<char>, Vec<char>)| (p.0@, p.1@))
}

fn find_from_exec(s: &Vec<char>, p: &Vec<char>, i: usize) -> (r: Option<usize>)
    requires
        i <= s@.len(),
    ensures
        match r {
            Some(j) => find_from(s@, p@, i as int) == Some(j as int),
            None => find_from(s@, p@, i as int) is None,
        },
{
    let mut j = i;
    while j < s.len() && !occurs_at_exec(s, p, j)
        invariant
            i <= j <= s@.len(),
            find_from(s@, p@, i as int) == find_from(s@, p@, j as int),
        decreases s.len() - j,
    {
        j = j + 1;
    }
    if occurs_at_exec(s, p, j) {
        Some(j)
    } else {
        proof {
            if j + p@.len() <= s@.len() {
                assert(j == s@.len());
                assert(p@.len() == 0);
                assert(s@.subrange(j as int, j as int) =~= p@);
            }
        }
        None
    }
}

fn open_mark() -> (m: Vec<char>)
    ensures
        m@ == seq!['[', '^'],
{
    let m = vec!['[', '^'];
    assert(m@ =~= seq!['[', '^']);
    m
}

fn close_mark() -> (m: Vec<char>)
    ensures
        m@ == seq![']'],
{
    let m = vec![']'];
    assert(m@ =~= seq![']']);
    m
}

fn parse_definition_exec(line: &Vec<char>) -> (r: Option<(Vec<char>, Vec<char>)>)
    ensures
        match r {
            Some(d) => parse_definition(line@) == Some((d.0@, d.1@)),
            None => parse_definition(line@) is None,
        },
{
    let t = trim_start_exec(line);
    let open = open_mark();
    if !starts_with_exec(&t, &open) {
        return None;
    }
    let rest = subvec(&t, 2, t.len());
    assert(rest@ =~= t@.skip(2));
    let colon = vec![']', ':'];
    assert(colon@ =~= seq![']', ':']);
    match find_from_exec(&rest, &colon, 0) {
        None => None,
        Some(close) => {
            proof {
                lemma_find_from(rest@, colon@, 0);
            }
            let label = subvec(&rest, 0, close);
            assert(label@ =~= rest@.take(close as int));
            if label.len() == 0 || has_ws_exec(&label) {
                None
            } else {
                let after = subvec(&rest, close + 2, rest.len());
                assert(after@ =~= rest@.skip(close + 2));
                Some((label, trim_exec(&after)))
            }
        },
    }
}

fn references_exec(line: &Vec<char>) -> (refs: Vec<Vec<char>>)
    ensures
        views(refs@) == references_from(line@, 0),
{
    let open = open_mark();
    let close_m = close_mark();
    let mut refs: Vec<Vec<char>> = Vec::new();
    let mut i: usize = 0;
    loop
        invariant
            i <= line@.len(),
            open@ == seq!['[', '^'],
            close_m@ == seq![']'],
            references_from(line@, 0) == views(refs@) + references_from(line@, i as int),
        decreases line.len() - i,
    {
        let o = match find_from_exec(line, &open, i) {
            Some(o) => o,
            None => {
                assert(views(refs@) + references_from(line@, i as int) =~= views(refs@));
                return refs;
            },
        };
        proof {
            lemma_find_from(line@, open@, i as int);
        }
        let c = match find_from_exec(line, &close_m, o + 2) {
            Some(c) => c,
            None => {
                assert(views(refs@) + references_from(line@, i as int) =~= views(refs@));
                return refs;
            },
        };
        proof {
            lemma_find_from(line@, close_m@, o + 2);
        }
        let label = subvec(line, o + 2, c);
        let ghost before = views(refs@);
        if label.len() > 0 && !has_ws_exec(&label) {
            proof {
                lemma_views_push(refs@, label);
            }
            refs.push(label);
            assert(before + references_from(line@, i as int) =~= views(refs@) + references_from(
                line@,
                c + 1,
            ));
        } else {
            assert(before + references_from(line@, i as int) =~= views(refs@) + references_from(
                line@,
                c + 1,
            ));
        }
        i = c + 1;
    }
}

fn index_of_exec(labels: &Vec<Vec<char>>, label: &Vec<char>) -> (r: Option<usize>)
    ensures
        match r {
            Some(k) => index_of(views(labels@), label@) == Some(k as int) && k < labels@.len(),
            None => index_of(views(labels@), label@) is None,
        },
{
    let mut k: usize = 0;
    while k < labels.len()
        invariant
            k <= labels@.len(),
            index_of(views(labels@), label@) == index_from(views(labels@), label@, k as int),
        decreases labels.len() - k,
    {
        if chars_eq(&labels[k], label) {
            return Some(k);
        }
        k = k + 1;
    }
    None
}

fn def_index_exec(defs: &Vec<(Vec<char>, Vec<char>)>, label: &Vec<char>) -> (r: Option<usize>)
    ensures
        match r {
            Some(k) => index_of(def_labels(pair_views(defs@)), label@) == Some(k as int) && k
                < defs@.len(),
            None => index_of(def_labels(pair_views(defs@)), label@) is None,
        },
{
    let ghost ls = def_labels(pair_views(defs@));
    let mut k: usize = 0;
    while k < defs.len()
        invariant
            ls == def_labels(pair_views(defs@)),
            k <= defs@.len(),
            index_of(ls, label@) == index_from(ls, label@, k as int),
        decreases defs.len() - k,
    {
        assert(ls[k as int] == defs@[k as int].0@);
        if chars_eq(&defs[k].0, label) {
            return Some(k);
        }
        k = k + 1;
    }
    None
}

fn digit_exec(d: usize) -> (c: char)
    requires
        d < 10,
    ensures
        c == digit(d as nat),
{
    if d == 0 {
        '0'
    } else if d == 1 {
        '1'
    } else if d == 2 {
        '2'
    } else if d == 3 {
        '3'
    } else if d == 4 {
        '4'
    } else if d == 5 {
        '5'
    } else if d == 6 {
        '6'
    } else if d == 7 {
        '7'
    } else if d == 8 {
        '8'
    } else {
        '9'
    }
}

fn decimal_exec(n: usize) -> (r: Vec<char>)
    ensures
        r@ == decimal(n as nat),
    decreases n,
{
    if n < 10 {
        let r = vec![digit_exec(n)];
        assert(r@ =~= seq![digit(n as nat)]);
        r
    } else {
        let mut r = decimal_exec(n / 10);
        r.push(digit_exec(n % 10));
        r
    }
}

fn renumbered_ref_exec(label: &Vec<char>, numbers: &Vec<Vec<char>>) -> (r: Vec<char>)
    ensures
        r@ == renumbered_ref(label@, views(numbers@)),
{
    let mut r = open_mark();
    match index_of_exec(numbers, label) {
        Some(k) => {
            assert(k < numbers.len());
            let d = decimal_exec(k + 1);
            push_all(&mut r, &d);
        },
        None => {
            push_all(&mut r, label);
        },
    }
    r.push(']');
    proof {
        assert(r@ =~= renumbered_ref(label@, views(numbers@)));
    }
    r
}

fn renumber_exec(line: &Vec<char>, numbers: &Vec<Vec<char>>) -> (r: Vec<char>)
    ensures
        r@ == renumber_from(line@, 0, views(numbers@)),
{
    let ghost nums = views(numbers@);
    let open = open_mark();
    let close_m = close_mark();
    let mut out: Vec<char> = Vec::new();
    let mut i: usize = 0;
    loop
        invariant
            i <= line@.len(),
            open@ == seq!['[', '^'],
            close_m@ == seq![']'],
            nums == views(numbers@),
            renumber_from(line@, 0, nums) == out@ + renumber_from(line@, i as int, nums),
        decreases line.len() - i,
    {
        let o = match find_from_exec(line, &open, i) {
            Some(o) => o,
            None => {
                let rest = subvec(line, i, line.len());
                push_all(&mut out, &rest);
                return out;
            },
        };
        proof {
            lemma_find_from(line@, open@, i as int);
        }
        let before = subvec(line, i, o);
        push_all(&mut out, &before);
        match find_from_exec(line, &close_m, o + 2) {
            None => {
                out.push('[');
                out.push('^');
                proof {
                    assert(renumber_from(line@, i as int, nums) =~= line@.subrange(i as int, o as int)
                        + seq!['[', '^'] + renumber_from(line@, o + 2, nums));
                    assert(renumber_from(line@, 0, nums) =~= out@ + renumber_from(line@, o + 2, nums));
                }
                i = o + 2;
            },
            Some(c) => {
                proof {
                    lemma_find_from(line@, close_m@, o + 2);
                }
                let label = subvec(line, o + 2, c);
                let piece = renumbered_ref_exec(&label, numbers);
                push_all(&mut out, &piece);
                proof {
                    assert(renumber_from(line@, 0, nums) =~= out@ + renumber_from(line@, c + 1, nums));
                }
                i = c + 1;
            },
        }
    }
}

/// Inserts `label` into the sorted `sorted`, see [`insert_lex`].
fn insert_lex_exec(sorted: &mut Vec<Vec<char>>, label: Vec<char>)
    ensures
        views(final(sorted)@) == insert_lex(views(old(sorted)@), label@),
{
    let ghost before = views(sorted@);
    let mut p: usize = sorted.len();
    assert(before.take(p as int) =~= before);
    assert(before.skip(p as int) =~= Seq::<Seq<char>>::empty());
    while p > 0 && label_lt_exec(&label, &sorted[p - 1])
        invariant
            p <= sorted@.len(),
            before == views(sorted@),
            insert_lex(before, label@) == insert_lex(before.take(p as int), label@) + before.skip(
                p as int,
            ),
        decreases p,
    {
        proof {
            let t = before.take(p as int);
            assert(t.last() == before[p - 1]);
            assert(t.drop_last() =~= before.take(p - 1));
            assert(insert_lex(t, label@) == insert_lex(before.take(p - 1), label@).push(
                before[p - 1],
            ));
            assert(insert_lex(before.take(p - 1), label@).push(before[p - 1]) + before.skip(
                p as int,
            ) =~= insert_lex(before.take(p - 1), label@) + before.skip(p - 1));
        }
        p = p - 1;
    }
    proof {
        let t = before.take(p as int);
        if p > 0 {
            assert(t.last() == before[p - 1]);
        }
        assert(insert_lex(t, label@) =~= t.push(label@));
        assert(t.push(label@) + before.skip(p as int) =~= before.insert(p as int, label@));
    }
    sorted.insert(p, label);
    assert(views(sorted@) =~= before.insert(p as int, label@));
}

/// The labels referenced in the body, by first appearance.
fn code_runs_exec(line: &Vec<char>, off: u128, ignore: &IgnoreRanges) -> (runs: Vec<(Vec<char>, bool)>)
    requires
        off <= 4 * (usize::MAX as int),
    ensures
        flagged_views(runs@) == code_runs(line@, off as int, ignore@),
{
    let mut runs: Vec<(Vec<char>, bool)> = Vec::new();
    let mut local: u128 = 0;
    let mut i: usize = 0;
    assert(flagged_views(runs@) =~= code_runs(line@.take(0), off as int, ignore@));
    while i < line.len()
        invariant
            i <= line@.len(),
            local == utf8_len(line@.take(i as int)),
            local <= 4 * i,
            off <= 4 * (usize::MAX as int),
            flagged_views(runs@) == code_runs(line@.take(i as int), off as int, ignore@),
        decreases line.len() - i,
    {
        let ghost before = flagged_views(runs@);
        proof {
            assert(line@.take(i + 1).drop_last() =~= line@.take(i as int));
            assert(line@.take(i + 1).last() == line@[i as int]);
            crate::text::lemma_utf8_len_bound(line@.take(i as int));
        }
        let c = line[i];
        let code = ignore.contains_wide(off + local);
        let n = runs.len();
        if n > 0 && runs[n - 1].1 == code {
            let (mut text, flag) = runs.pop().unwrap();
            text.push(c);
            runs.push((text, flag));
            assert(flagged_views(runs@) =~= before.update(
                before.len() - 1,
                (before.last().0.push(c), code),
            ));
        } else {
            let mut text: Vec<char> = Vec::new();
            text.push(c);
            runs.push((text, code));
            assert(flagged_views(runs@) =~= before.push((seq![c], code)));
        }
        local = local + char_width_exec(c);
        proof {
            assert(line@.take(i + 1).drop_last() =~= line@.take(i as int));
        }
        i = i + 1;
    }
    assert(line@.take(line@.len() as int) =~= line@);
    runs
}

fn renumber_runs_exec(runs: &Vec<(Vec<char>, bool)>, numbers: &Vec<Vec<char>>) -> (r: Vec<char>)
    ensures
        r@ == renumber_runs(flagged_views(runs@), views(numbers@)),
{
    let ghost rv = flagged_views(runs@);
    let mut out: Vec<char> = Vec::new();
    let mut j: usize = 0;
    while j < runs.len()
        invariant
            rv == flagged_views(runs@),
            j <= runs@.len(),
            out@ == renumber_runs(rv.take(j as int), views(numbers@)),
        decreases runs.len() - j,
    {
        proof {
            assert(rv.take(j + 1).drop_last() =~= rv.take(j as int));
            assert(rv.take(j + 1).last() == rv[j as int]);
        }
        if runs[j].1 {
            push_all(&mut out, &runs[j].0);
        } else {
            let piece = renumber_exec(&runs[j].0, numbers);
            push_all(&mut out, &piece);
        }
        j = j + 1;
    }
    assert(rv.take(rv.len() as int) =~= rv);
    out
}

fn referenced_exec(body: &Vec<Vec<char>>) -> (numbers: Vec<Vec<char>>)
    ensures
        views(numbers@) == referenced(views(body@)),
{
    let ghost bv = views(body@);
    let mut numbers: Vec<Vec<char>> = Vec::new();
    let mut j: usize = 0;
    while j < body.len()
        invariant
            bv == views(body@),
            j <= body@.len(),
            views(numbers@) == referenced(bv.take(j as int)),
        decreases body.len() - j,
    {
        proof {
            assert(bv.take(j + 1).drop_last() =~= bv.take(j as int));
            assert(bv.take(j + 1).last() == body@[j as int]@);
        }
        let refs = references_exec(&body[j]);
        let ghost start = views(numbers@);
        let mut m: usize = 0;
        while m < refs.len()
            invariant
                m <= refs@.len(),
                views(numbers@) == add_new(start, views(refs@).take(m as int)),
            decreases refs.len() - m,
        {
            proof {
                assert(views(refs@).take(m + 1).drop_last() =~= views(refs@).take(m as int));
                assert(views(refs@).take(m + 1).last() == refs@[m as int]@);
            }
            if index_of_exec(&numbers, &refs[m]).is_none() {
                let label = copy_chars(&refs[m]);
                proof {
                    lemma_views_push(numbers@, label);
                }
                numbers.push(label);
            }
            m = m + 1;
        }
        assert(views(refs@).take(refs@.len() as int) =~= views(refs@));
        j = j + 1;
    }
    assert(bv.take(bv.len() as int) =~= bv);
    numbers
}

impl Rule for Footnotes {
    open spec fn spec_name(&self) -> Seq<char> {
        "footnotes"@
    }

    open spec fn spec_apply(&self, text: Seq<char>, ignore: Seq<(int, int)>) -> Seq<char> {
        spec_footnotes(text, ignore)
    }

    fn name(&self) -> (name: &'static str) {
        "footnotes"
    }

    fn apply(&self, text: &str, ignore: &IgnoreRanges) -> (out: String) {
        let doc = Doc::new(text);
        let bounds = line_bounds_exec(&doc.chars);
        let ghost s = doc.chars@;
        let ghost ig = ignore@;
        let mut defs: Vec<(Vec<char>, Vec<char>)> = Vec::new();
        let mut body: Vec<Vec<char>> = Vec::new();
        let mut offsets: Vec<u128> = Vec::new();
        let mut prose: Vec<Vec<char>> = Vec::new();
        let mut k: usize = 0;
        while k < bounds.len()
            invariant
                doc.wf(),
                s == doc.chars@,
                ig == ignore@,
                crate::text::bounds_view(bounds@) == line_bounds(s),
                k <= bounds@.len(),
                (pair_views(defs@), views(body@)) == scan_footnotes(s, ig, k as int),
                offsets@.map_values(|o: u128| o as int) == scan_offsets(s, ig, k as int),
                offsets@.len() == body@.len(),
                forall|m: int| 0 <= m < offsets@.len() ==> #[trigger] offsets@[m] <= 4 * (usize::MAX as int),
                views(prose@) == scan_prose(s, ig, k as int),
            decreases bounds.len() - k,
        {
            let (content, offset) = line_at(&doc, &bounds, k);
            proof {
                crate::text::lemma_line_bounds_shape(s);
                let b = line_bounds(s)[k as int];
                crate::text::lemma_utf8_len_bound(s.take(b.0));
                assert(b.0 <= s.len());
                assert(s.len() == doc.chars.len());
            }
            let in_code = ignore.contains_wide(offset);
            let parsed = if in_code {
                None
            } else {
                parse_definition_exec(&content)
            };
            match parsed {
                Some((label, def)) => {
                    let ghost before = pair_views(defs@);
                    match def_index_exec(&defs, &label) {
                        Some(i) => {
                            defs.set(i, (label, def));
                            assert(pair_views(defs@) =~= define(before, label@, def@));
                        },
                        None => {
                            defs.push((label, def));
                            assert(pair_views(defs@) =~= define(before, label@, def@));
                        },
                    }
                },
                None => {
                    if !in_code {
                        let runs = code_runs_exec(&content, offset, ignore);
                        let ghost rv = flagged_views(runs@);
                        let ghost start = views(prose@);
                        let mut j: usize = 0;
                        while j < runs.len()
                            invariant
                                rv == flagged_views(runs@),
                                j <= runs@.len(),
                                views(prose@) == start + prose_runs(rv.take(j as int)),
                            decreases runs.len() - j,
                        {
                            proof {
                                assert(rv.take(j + 1).drop_last() =~= rv.take(j as int));
                                assert(rv.take(j + 1).last() == rv[j as int]);
                            }
                            if !runs[j].1 {
                                let piece = copy_chars(&runs[j].0);
                                proof {
                                    lemma_views_push(prose@, piece);
                                    assert(start + prose_runs(rv.take(j as int)).push(piece@) =~= (start
                                        + prose_runs(rv.take(j as int))).push(piece@));
                                }
                                prose.push(piece);
                            }
                            j = j + 1;
                        }
                        assert(rv.take(rv.len() as int) =~= rv);
                    }
                    let ghost offs0 = offsets@;
                    offsets.push(offset);
                    proof {
                        assert(offsets@.map_values(|o: u128| o as int) =~= offs0.map_values(
                            |o: u128| o as int,
                        ).push(offset as int));
                        lemma_views_push(body@, content);
                    }
                    body.push(content);
                },
            }
            k = k + 1;
        }
        let ghost bv = views(body@);
        let ghost ov = offsets@.map_values(|o: u128| o as int);
        let ghost pv = views(prose@);
        let ghost dv = pair_views(defs@);
        // Referenced labels outside code, by first appearance.
        let mut numbers = referenced_exec(&prose);
        let ghost refd = views(numbers@);
        // Defined but unreferenced labels, in `label_lt` order.
        let mut orphan_labels: Vec<Vec<char>> = Vec::new();
        let mut d: usize = 0;
        while d < defs.len()
            invariant
                dv == pair_views(defs@),
                refd == views(numbers@),
                refd == referenced(pv),
                d <= defs@.len(),
                views(orphan_labels@) == orphans(dv.take(d as int), refd),
            decreases defs.len() - d,
        {
            proof {
                assert(dv.take(d + 1).drop_last() =~= dv.take(d as int));
                assert(dv.take(d + 1).last() == (defs@[d as int].0@, defs@[d as int].1@));
            }
            if index_of_exec(&numbers, &defs[d].0).is_none() {
                let label = copy_chars(&defs[d].0);
                insert_lex_exec(&mut orphan_labels, label);
            }
            d = d + 1;
        }
        assert(dv.take(dv.len() as int) =~= dv);
        let ghost orph = views(orphan_labels@);
        let mut o: usize = 0;
        while o < orphan_labels.len()
            invariant
                o <= orphan_labels@.len(),
                orph == views(orphan_labels@),
                views(numbers@) == refd + orph.take(o as int),
            decreases orphan_labels.len() - o,
        {
            let label = copy_chars(&orphan_labels[o]);
            proof {
                lemma_views_push(numbers@, label);
                assert(orph.take(o + 1) =~= orph.take(o as int).push(label@));
            }
            numbers.push(label);
            o = o + 1;
        }
        assert(orph.take(orph.len() as int) =~= orph);
        let ghost nums = views(numbers@);
        assert(nums == numbering(pv, dv));
        if numbers.len() == 0 {
            return string_of(&doc.chars);
        }
        // Body lines renumbered outside code, trailing blank lines dropped.
        let mut lines: Vec<Vec<char>> = Vec::new();
        let mut b: usize = 0;
        while b < body.len()
            invariant
                bv == views(body@),
                ov == offsets@.map_values(|o: u128| o as int),
                offsets@.len() == body@.len(),
                forall|m: int| 0 <= m < offsets@.len() ==> #[trigger] offsets@[m] <= 4 * (usize::MAX as int),
                ig == ignore@,
                nums == views(numbers@),
                b <= body@.len(),
                views(lines@) == written_body(bv, ov, ig, nums).take(b as int),
            decreases body.len() - b,
        {
            assert(ov[b as int] == offsets@[b as int] as int);
            let line = if ignore.contains_wide(offsets[b]) {
                copy_chars(&body[b])
            } else {
                let runs = code_runs_exec(&body[b], offsets[b], ignore);
                renumber_runs_exec(&runs, &numbers)
            };
            proof {
                lemma_views_push(lines@, line);
                assert(written_body(bv, ov, ig, nums).take(b + 1) =~= written_body(bv, ov, ig, nums).take(
                    b as int,
                ).push(line@));
            }
            lines.push(line);
            b = b + 1;
        }
        assert(written_body(bv, ov, ig, nums).take(bv.len() as int) =~= written_body(bv, ov, ig, nums));
        let ghost renumbered = views(lines@);
        while lines.len() > 0 && is_blank_line_exec(&lines[lines.len() - 1])
            invariant
                drop_blank_tail(views(lines@)) == drop_blank_tail(renumbered),
            decreases lines.len(),
        {
            let ghost cur = views(lines@);
            assert(cur.last() == lines@[lines@.len() - 1]@);
            lines.pop();
            proof {
                assert(views(lines@) =~= cur.drop_last());
            }
        }
        assert(views(lines@) == drop_blank_tail(renumbered));
        // Definition lines in number order.
        let mut def_lines: Vec<Vec<char>> = Vec::new();
        let mut n: usize = 0;
        while n < numbers.len()
            invariant
                nums == views(numbers@),
                dv == pair_views(defs@),
                n <= numbers@.len(),
                views(def_lines@) == definition_lines(nums.take(n as int), dv),
            decreases numbers.len() - n,
        {
            proof {
                assert(nums.take(n + 1).drop_last() =~= nums.take(n as int));
                assert(nums.take(n + 1).last() == numbers@[n as int]@);
            }
            match def_index_exec(&defs, &numbers[n]) {
                Some(i) => {
                    let mut line = open_mark();
                    let num = decimal_exec(n + 1);
                    push_all(&mut line, &num);
                    line.push(']');
                    line.push(':');
                    line.push(' ');
                    push_all(&mut line, &defs[i].1);
                    proof {
                        assert(dv[i as int].1 == defs@[i as int].1@);
                        assert(line@ =~= seq!['[', '^'] + decimal((n + 1) as nat) + seq![
                            ']',
                            ':',
                            ' ',
                        ] + dv[i as int].1);
                        lemma_views_push(def_lines@, line);
                    }
                    def_lines.push(line);
                },
                None => {},
            }
            n = n + 1;
        }
        assert(nums.take(nums.len() as int) =~= nums);
        if def_lines.len() > 0 {
            let blank: Vec<char> = Vec::new();
            proof {
                lemma_views_push(lines@, blank);
            }
            lines.push(blank);
            let ghost with_blank = views(lines@);
            let mut e: usize = 0;
            while e < def_lines.len()
                invariant
                    e <= def_lines@.len(),
                    views(lines@) == with_blank + views(def_lines@).take(e as int),
                decreases def_lines.len() - e,
            {
                let line = copy_chars(&def_lines[e]);
                proof {
                    lemma_views_push(lines@, line);
                    assert(views(def_lines@).take(e + 1) =~= views(def_lines@).take(e as int).push(
                        line@,
                    ));
                }
                lines.push(line);
                e = e + 1;
            }
            assert(views(def_lines@).take(def_lines@.len() as int) =~= views(def_lines@));
        }
        let newline = vec!['\n'];
        assert(newline@ =~= seq!['\n']);
        let mut out = join_exec(&lines, &newline);
        let tail = final_break_exec(&doc.chars);
        push_all(&mut out, &tail);
        string_of(&out)
    }
}

/// No label occurs twice.
pub open spec fn no_repeats(xs: Seq<Seq<char>>) -> bool {
    forall|i: int, j: int| 0 <= i < j < xs.len() ==> #[trigger] xs[i] != #[trigger] xs[j]
}

/// Labels in order: none comes lexicographically before an earlier one.
pub open spec fn labels_sorted(xs: Seq<Seq<char>>) -> bool {
    forall|i: int, j: int| 0 <= i < j < xs.len() ==> !label_lt(#[trigger] xs[j], #[trigger] xs[i])
}

proof fn lemma_index_from(labels: Seq<Seq<char>>, label: Seq<char>, i: int)
    requires
        0 <= i,
    ensures
        (index_from(labels, label, i) is Some) <==> exists|k: int|
            i <= k < labels.len() && #[trigger] labels[k] == label,
        index_from(labels, label, i) matches Some(k) ==> i <= k < labels.len() && labels[k]
            == label,
    decreases labels.len() - i,
{
    if i < labels.len() && labels[i] != label {
        lemma_index_from(labels, label, i + 1);
        if exists|k: int| i <= k < labels.len() && #[trigger] labels[k] == label {
            let k = choose|k: int| i <= k < labels.len() && #[trigger] labels[k] == label;
            assert(i + 1 <= k);
        }
    }
}

proof fn lemma_index_of(labels: Seq<Seq<char>>, label: Seq<char>)
    ensures
        (index_of(labels, label) is Some) <==> labels.contains(label),
        index_of(labels, label) matches Some(k) ==> 0 <= k < labels.len() && labels[k] == label,
{
    lemma_index_from(labels, label, 0);
}

/// Adding references keeps what was there, gains every reference and
/// nothing else, and repeats no label.
proof fn lemma_add_new(labels: Seq<Seq<char>>, refs: Seq<Seq<char>>)
    ensures
        forall|x: Seq<char>|
            #[trigger] add_new(labels, refs).contains(x) <==> labels.contains(x) || refs.contains(x),
        no_repeats(labels) ==> no_repeats(add_new(labels, refs)),
    decreases refs.len(),
{
    if refs.len() > 0 {
        let prev = refs.drop_last();
        lemma_add_new(labels, prev);
        let before = add_new(labels, prev);
        let r = refs.last();
        lemma_index_of(before, r);
        let out = add_new(labels, refs);
        assert forall|x: Seq<char>| #[trigger] out.contains(x) <==> labels.contains(x)
            || refs.contains(x) by {
            if prev.contains(x) {
                let j = choose|j: int| 0 <= j < prev.len() && prev[j] == x;
                assert(refs[j] == x);
            }
            if refs.contains(x) {
                let j = choose|j: int| 0 <= j < refs.len() && refs[j] == x;
                if j < prev.len() {
                    assert(prev[j] == x);
                    assert(prev.contains(x));
                } else {
                    assert(x == r);
                }
            }
            if x == r {
                assert(refs[refs.len() - 1] == r);
            }
            if out.contains(x) && !before.contains(x) {
                let j = choose|j: int| 0 <= j < out.len() && out[j] == x;
                if j < before.len() {
                    assert(out[j] == before[j]);
                }
            }
            if before.contains(x) {
                let j = choose|j: int| 0 <= j < before.len() && before[j] == x;
                assert(out[j] == x);
            }
            if x == r && !before.contains(r) {
                assert(out[before.len() as int] == r);
            }
        }
        if no_repeats(labels) && !before.contains(r) {
            assert forall|i: int, j: int| 0 <= i < j < out.len() implies #[trigger] out[i]
                != #[trigger] out[j] by {
                assert(out[i] == before[i]);
                if j < before.len() {
                    assert(out[j] == before[j]);
                } else {
                    assert(before.contains(before[i]));
                }
            }
        }
    }
}

/// The referenced labels: each once, and exactly the labels referenced in
/// some body line.
proof fn lemma_referenced(body: Seq<Seq<char>>)
    ensures
        no_repeats(referenced(body)),
        forall|x: Seq<char>|
            #[trigger] referenced(body).contains(x) <==> exists|i: int|
                0 <= i < body.len() && references_from(#[trigger] body[i], 0).contains(x),
    decreases body.len(),
{
    if body.len() > 0 {
        let prev = body.drop_last();
        lemma_referenced(prev);
        let refs = references_from(body.last(), 0);
        lemma_add_new(referenced(prev), refs);
        assert forall|x: Seq<char>| #[trigger] referenced(body).contains(x) <==> exists|i: int|
            0 <= i < body.len() && references_from(#[trigger] body[i], 0).contains(x) by {
            if referenced(prev).contains(x) {
                let i = choose|i: int|
                    0 <= i < prev.len() && references_from(#[trigger] prev[i], 0).contains(x);
                assert(body[i] == prev[i]);
            }
            if refs.contains(x) {
                assert(body[body.len() - 1] == body.last());
            }
            if exists|i: int| 0 <= i < body.len() && references_from(#[trigger] body[i], 0).contains(x) {
                let i = choose|i: int|
                    0 <= i < body.len() && references_from(#[trigger] body[i], 0).contains(x);
                if i < prev.len() {
                    assert(prev[i] == body[i]);
                } else {
                    assert(body[i] == body.last());
                }
            }
        }
    }
}

/// Inserting in lexicographic order keeps the order, adds exactly the one
/// label, and repeats none when the label is new.
proof fn lemma_insert_lex(sorted: Seq<Seq<char>>, label: Seq<char>)
    requires
        labels_sorted(sorted),
    ensures
        labels_sorted(insert_lex(sorted, label)),
        forall|x: Seq<char>|
            #[trigger] insert_lex(sorted, label).contains(x) <==> sorted.contains(x) || x == label,
        no_repeats(sorted) && !sorted.contains(label) ==> no_repeats(insert_lex(sorted, label)),
    decreases sorted.len(),
{
    let r = insert_lex(sorted, label);
    if sorted.len() == 0 {
        assert(r =~= seq![label]);
        assert forall|x: Seq<char>| #[trigger] r.contains(x) <==> sorted.contains(x) || x == label by {
            if r.contains(x) {
                let j = choose|j: int| 0 <= j < r.len() && r[j] == x;
            }
            if x == label {
                assert(r[0] == label);
            }
        }
    } else {
        let last = sorted.last();
        if !label_lt(label, last) {
            assert(r == sorted.push(label));
            assert forall|i: int, j: int| 0 <= i < j < r.len() implies !label_lt(
                #[trigger] r[j],
                #[trigger] r[i],
            ) by {
                if j == sorted.len() {
                    assert(r[i] == sorted[i]);
                    let xi = sorted[i];
                    if i < sorted.len() - 1 {
                        assert(!label_lt(last, xi)) by {
                            assert(sorted[sorted.len() - 1] == last);
                        }
                    }
                    if label_lt(label, xi) {
                        lemma_label_total(xi, last);
                        if xi != last && label_lt(xi, last) {
                            lemma_label_transitive(label, xi, last);
                        }
                    }
                } else {
                    assert(r[i] == sorted[i] && r[j] == sorted[j]);
                }
            }
            assert forall|x: Seq<char>| #[trigger] r.contains(x) <==> sorted.contains(x) || x
                == label by {
                if r.contains(x) {
                    let j = choose|j: int| 0 <= j < r.len() && r[j] == x;
                    if j < sorted.len() {
                        assert(sorted[j] == x);
                    }
                }
                if sorted.contains(x) {
                    let j = choose|j: int| 0 <= j < sorted.len() && sorted[j] == x;
                    assert(r[j] == x);
                }
                if x == label {
                    assert(r[sorted.len() as int] == label);
                }
            }
            if no_repeats(sorted) && !sorted.contains(label) {
                assert forall|i: int, j: int| 0 <= i < j < r.len() implies #[trigger] r[i]
                    != #[trigger] r[j] by {
                    assert(r[i] == sorted[i]);
                    if j < sorted.len() {
                        assert(r[j] == sorted[j]);
                    }
                }
            }
        } else {
            let prev = sorted.drop_last();
            assert(labels_sorted(prev)) by {
                assert forall|i: int, j: int| 0 <= i < j < prev.len() implies !label_lt(
                    #[trigger] prev[j],
                    #[trigger] prev[i],
                ) by {
                    assert(prev[i] == sorted[i] && prev[j] == sorted[j]);
                }
            }
            lemma_insert_lex(prev, label);
            let inner = insert_lex(prev, label);
            assert(r == inner.push(last));
            assert forall|i: int| 0 <= i < inner.len() implies !label_lt(last, #[trigger] inner[i]) by {
                assert(inner.contains(inner[i]));
                if inner[i] == label {
                    if label_lt(last, label) {
                        lemma_label_transitive(last, label, last);
                        lemma_label_irreflexive(last);
                    }
                } else {
                    assert(prev.contains(inner[i]));
                    let j = choose|j: int| 0 <= j < prev.len() && prev[j] == inner[i];
                    assert(sorted[j] == prev[j]);
                    assert(sorted[sorted.len() - 1] == last);
                }
            }
            assert forall|i: int, j: int| 0 <= i < j < r.len() implies !label_lt(
                #[trigger] r[j],
                #[trigger] r[i],
            ) by {
                assert(r[i] == inner[i]);
                if j < inner.len() {
                    assert(r[j] == inner[j]);
                }
            }
            assert forall|x: Seq<char>| #[trigger] r.contains(x) <==> sorted.contains(x) || x
                == label by {
                if r.contains(x) {
                    let j = choose|j: int| 0 <= j < r.len() && r[j] == x;
                    if j < inner.len() {
                        assert(inner[j] == x);
                        assert(inner.contains(x));
                        if prev.contains(x) {
                            let i = choose|i: int| 0 <= i < prev.len() && prev[i] == x;
                            assert(sorted[i] == x);
                        }
                    } else {
                        assert(sorted[sorted.len() - 1] == x);
                    }
                }
                if sorted.contains(x) {
                    let j = choose|j: int| 0 <= j < sorted.len() && sorted[j] == x;
                    if j < prev.len() {
                        assert(prev[j] == x);
                        assert(prev.contains(x));
                        assert(inner.contains(x));
                        let i = choose|i: int| 0 <= i < inner.len() && inner[i] == x;
                        assert(r[i] == x);
                    } else {
                        assert(r[inner.len() as int] == x);
                    }
                }
                if x == label {
                    assert(inner.contains(label));
                    let i = choose|i: int| 0 <= i < inner.len() && inner[i] == label;
                    assert(r[i] == label);
                }
            }
            if no_repeats(sorted) && !sorted.contains(label) {
                assert(no_repeats(prev)) by {
                    assert forall|i: int, j: int| 0 <= i < j < prev.len() implies #[trigger] prev[i]
                        != #[trigger] prev[j] by {
                        assert(prev[i] == sorted[i] && prev[j] == sorted[j]);
                    }
                }
                assert(!prev.contains(label)) by {
                    if prev.contains(label) {
                        let j = choose|j: int| 0 <= j < prev.len() && prev[j] == label;
                        assert(sorted[j] == prev[j]);
                    }
                }
                assert forall|i: int, j: int| 0 <= i < j < r.len() implies #[trigger] r[i]
                    != #[trigger] r[j] by {
                    assert(r[i] == inner[i]);
                    if j < inner.len() {
                        assert(r[j] == inner[j]);
                    } else {
                        assert(inner.contains(inner[i]));
                        assert(sorted[sorted.len() - 1] == last);
                        if inner[i] != label {
                            let m = choose|m: int| 0 <= m < prev.len() && prev[m] == inner[i];
                            assert(sorted[m] == prev[m]);
                        }
                    }
                }
            }
        }
    }
}

/// The defined labels nobody references: in lexicographic order, each once
/// when definitions repeat no label, and exactly those not in `refs`.
proof fn lemma_orphans(defs: Seq<(Seq<char>, Seq<char>)>, refs: Seq<Seq<char>>)
    ensures
        labels_sorted(orphans(defs, refs)),
        forall|x: Seq<char>|
            #[trigger] orphans(defs, refs).contains(x) <==> def_labels(defs).contains(x)
                && !refs.contains(x),
        no_repeats(def_labels(defs)) ==> no_repeats(orphans(defs, refs)),
    decreases defs.len(),
{
    if defs.len() > 0 {
        let prev = defs.drop_last();
        lemma_orphans(prev, refs);
        let rest = orphans(prev, refs);
        let l = defs.last().0;
        lemma_index_of(refs, l);
        assert(def_labels(prev) =~= def_labels(defs).drop_last());
        assert(def_labels(defs)[defs.len() - 1] == l);
        if !refs.contains(l) {
            lemma_insert_lex(rest, l);
        }
        assert forall|x: Seq<char>| #[trigger] orphans(defs, refs).contains(x) <==> def_labels(
            defs,
        ).contains(x) && !refs.contains(x) by {
            if def_labels(prev).contains(x) {
                let j = choose|j: int| 0 <= j < def_labels(prev).len() && def_labels(prev)[j] == x;
                assert(def_labels(defs)[j] == x);
            }
            if def_labels(defs).contains(x) {
                let j = choose|j: int| 0 <= j < def_labels(defs).len() && def_labels(defs)[j] == x;
                if j < prev.len() {
                    assert(def_labels(prev)[j] == x);
                    assert(def_labels(prev).contains(x));
                }
            }
        }
        if no_repeats(def_labels(defs)) {
            assert(no_repeats(def_labels(prev))) by {
                assert forall|i: int, j: int| 0 <= i < j < def_labels(prev).len() implies #[trigger] def_labels(prev)[i]
                    != #[trigger] def_labels(prev)[j] by {
                    assert(def_labels(prev)[i] == def_labels(defs)[i]);
                    assert(def_labels(prev)[j] == def_labels(defs)[j]);
                }
            }
            if !refs.contains(l) {
                assert(!rest.contains(l)) by {
                    if rest.contains(l) {
                        assert(def_labels(prev).contains(l));
                        let j = choose|j: int| 0 <= j < def_labels(prev).len() && def_labels(prev)[j] == l;
                        assert(def_labels(defs)[j] == l);
                    }
                }
            }
        }
    }
}

/// Defining a label again replaces its text: labels stay unrepeated.
proof fn lemma_define(defs: Seq<(Seq<char>, Seq<char>)>, label: Seq<char>, text: Seq<char>)
    requires
        no_repeats(def_labels(defs)),
    ensures
        no_repeats(def_labels(define(defs, label, text))),
        def_labels(define(defs, label, text)).contains(label),
{
    lemma_index_of(def_labels(defs), label);
    let d = define(defs, label, text);
    match index_of(def_labels(defs), label) {
        Some(k) => {
            assert(def_labels(d) =~= def_labels(defs).update(k, label));
            assert(def_labels(d)[k] == label);
        },
        None => {
            assert(def_labels(d) =~= def_labels(defs).push(label));
            assert(def_labels(d)[defs.len() as int] == label);
            assert forall|i: int, j: int| 0 <= i < j < def_labels(d).len() implies #[trigger] def_labels(d)[i]
                != #[trigger] def_labels(d)[j] by {
                if j == defs.len() {
                    assert(def_labels(defs).contains(def_labels(defs)[i]));
                }
            }
        },
    }
}

proof fn lemma_scan_defs_unrepeated(s: Seq<char>, ignore: Seq<(int, int)>, n: int)
    ensures
        no_repeats(def_labels(scan_footnotes(s, ignore, n).0)),
    decreases n,
{
    if n > 0 {
        lemma_scan_defs_unrepeated(s, ignore, n - 1);
        let (defs, body) = scan_footnotes(s, ignore, n - 1);
        let b = line_bounds(s)[n - 1];
        let content = line_text(s, b);
        if !in_ranges(ignore, byte_offset(s, b.0) as int) && parse_definition(content) is Some {
            let (label, text) = parse_definition(content)->Some_0;
            lemma_define(defs, label, text);
        }
    } else {
        assert(def_labels(Seq::<(Seq<char>, Seq<char>)>::empty()) =~= Seq::<Seq<char>>::empty());
    }
}

/// Footnote numbers: every label referenced in the body outside code and
/// every defined label gets a number (its position, counting from one), no
/// label gets two, the referenced labels are numbered before the ones only
/// defined, and those come in lexicographic order.
pub proof fn footnote_numbering(s: Seq<char>, ignore: Seq<(int, int)>)
    ensures
        ({
            let defs = scan_footnotes(s, ignore, line_bounds(s).len() as int).0;
            let body = scan_prose(s, ignore, line_bounds(s).len() as int);
            let numbers = numbering(body, defs);
            let r = referenced(body).len();
            &&& no_repeats(numbers)
            &&& forall|x: Seq<char>|
                #[trigger] numbers.contains(x) <==> def_labels(defs).contains(x) || exists|i: int|
                    0 <= i < body.len() && references_from(#[trigger] body[i], 0).contains(x)
            &&& forall|k: int|
                0 <= k < r ==> exists|i: int|
                    0 <= i < body.len() && references_from(#[trigger] body[i], 0).contains(
                        #[trigger] numbers[k],
                    )
            &&& forall|k: int| r <= k < numbers.len() ==> !exists|i: int|
                0 <= i < body.len() && references_from(#[trigger] body[i], 0).contains(
                    #[trigger] numbers[k],
                )
            &&& labels_sorted(numbers.skip(r as int))
        }),
{
    let n = line_bounds(s).len() as int;
    lemma_scan_defs_unrepeated(s, ignore, n);
    lemma_numbering_facts(scan_prose(s, ignore, n), scan_footnotes(s, ignore, n).0);
}

/// Numbering the labels referenced in some lines and defined without
/// repeats: the facts [`footnote_numbering`] states.
proof fn lemma_numbering_facts(body: Seq<Seq<char>>, defs: Seq<(Seq<char>, Seq<char>)>)
    requires
        no_repeats(def_labels(defs)),
    ensures
        ({
            let numbers = numbering(body, defs);
            let r = referenced(body).len();
            &&& no_repeats(numbers)
            &&& forall|x: Seq<char>|
                #[trigger] numbers.contains(x) <==> def_labels(defs).contains(x) || exists|i: int|
                    0 <= i < body.len() && references_from(#[trigger] body[i], 0).contains(x)
            &&& forall|k: int|
                0 <= k < r ==> exists|i: int|
                    0 <= i < body.len() && references_from(#[trigger] body[i], 0).contains(
                        #[trigger] numbers[k],
                    )
            &&& forall|k: int| r <= k < numbers.len() ==> !exists|i: int|
                0 <= i < body.len() && references_from(#[trigger] body[i], 0).contains(
                    #[trigger] numbers[k],
                )
            &&& labels_sorted(numbers.skip(r as int))
        }),
{
    let refs = referenced(body);
    lemma_referenced(body);
    lemma_orphans(defs, refs);
    let o = orphans(defs, refs);
    let numbers = numbering(body, defs);
    assert(numbers == refs + o);
    assert(numbers.skip(refs.len() as int) =~= o);
    assert forall|i: int, j: int| 0 <= i < j < numbers.len() implies #[trigger] numbers[i]
        != #[trigger] numbers[j] by {
        if j < refs.len() {
            assert(numbers[i] == refs[i] && numbers[j] == refs[j]);
        } else if i >= refs.len() {
            assert(numbers[i] == o[i - refs.len()] && numbers[j] == o[j - refs.len()]);
        } else {
            assert(numbers[i] == refs[i]);
            assert(numbers[j] == o[j - refs.len()]);
            assert(o.contains(o[j - refs.len()]));
            assert(refs.contains(refs[i]));
        }
    }
    assert forall|x: Seq<char>| #[trigger] numbers.contains(x) <==> def_labels(defs).contains(x)
        || exists|i: int| 0 <= i < body.len() && references_from(#[trigger] body[i], 0).contains(x) by {
        if numbers.contains(x) {
            let j = choose|j: int| 0 <= j < numbers.len() && numbers[j] == x;
            if j < refs.len() {
                assert(refs[j] == x);
                assert(refs.contains(x));
            } else {
                assert(o[j - refs.len()] == x);
                assert(o.contains(x));
            }
        }
        if refs.contains(x) {
            let j = choose|j: int| 0 <= j < refs.len() && refs[j] == x;
            assert(numbers[j] == x);
        }
        if o.contains(x) {
            let j = choose|j: int| 0 <= j < o.len() && o[j] == x;
            assert(numbers[refs.len() + j] == x);
        }
    }
    assert forall|k: int| 0 <= k < refs.len() implies exists|i: int|
        0 <= i < body.len() && references_from(#[trigger] body[i], 0).contains(#[trigger] numbers[k]) by {
        assert(numbers[k] == refs[k]);
        assert(refs.contains(refs[k]));
    }
    assert forall|k: int| refs.len() <= k < numbers.len() implies !exists|i: int|
        0 <= i < body.len() && references_from(#[trigger] body[i], 0).contains(#[trigger] numbers[k]) by {
        assert(numbers[k] == o[k - refs.len()]);
        assert(o.contains(o[k - refs.len()]));
    }
}

// ----- what renumbering does to references -----

/// A label as renumbering rewrites it: its number where it has one.
pub open spec fn renumbered_label(label: Seq<char>, numbers: Seq<Seq<char>>) -> Seq<char> {
    match index_of(numbers, label) {
        Some(k) => decimal((k + 1) as nat),
        None => label,
    }
}

proof fn lemma_find_none(s: Seq<char>, p: Seq<char>, j: int)
    requires
        0 <= j,
        find_from(s, p, j) is None,
    ensures
        forall|k: int| j <= k ==> !occurs_at(s, p, k),
    decreases s.len() + 1 - j,
{
    if j + p.len() <= s.len() {
        lemma_find_none(s, p, j + 1);
    }
}

proof fn lemma_find_first(s: Seq<char>, p: Seq<char>, j: int)
    requires
        0 <= j,
    ensures
        find_from(s, p, j) matches Some(x) ==> forall|k: int| j <= k < x ==> !occurs_at(s, p, k),
    decreases s.len() + 1 - j,
{
    if j + p.len() <= s.len() && !occurs_at(s, p, j) {
        lemma_find_first(s, p, j + 1);
    }
}

/// Finding in a text that continues another is finding in the continuation.
proof fn lemma_find_shift(a: Seq<char>, b: Seq<char>, p: Seq<char>, j: int)
    requires
        0 <= j,
    ensures
        find_from(a + b, p, a.len() + j) == match find_from(b, p, j) {
            Some(x) => Some(x + a.len()),
            None => None,
        },
    decreases b.len() + 1 - j,
{
    let ab = a + b;
    let k = a.len() + j;
    if j + p.len() <= b.len() {
        assert(ab.subrange(k, k + p.len()) =~= b.subrange(j, j + p.len()));
        if !occurs_at(b, p, j) {
            lemma_find_shift(a, b, p, j + 1);
        }
    }
}

/// References read from a text that continues another are read from the
/// continuation.
proof fn lemma_references_shift(a: Seq<char>, b: Seq<char>, j: int)
    requires
        0 <= j,
    ensures
        references_from(a + b, a.len() + j) == references_from(b, j),
    decreases b.len() - j,
{
    let ab = a + b;
    lemma_find_shift(a, b, seq!['[', '^'], j);
    match find_from(b, seq!['[', '^'], j) {
        None => {},
        Some(open) => {
            lemma_find_from(b, seq!['[', '^'], j);
            lemma_find_shift(a, b, seq![']'], open + 2);
            match find_from(b, seq![']'], open + 2) {
                None => {},
                Some(close) => {
                    lemma_find_from(b, seq![']'], open + 2);
                    assert(ab.subrange(a.len() + open + 2, a.len() + close) =~= b.subrange(
                        open + 2,
                        close,
                    ));
                    lemma_references_shift(a, b, close + 1);
                    assert(a.len() + close + 1 == a.len() + (close + 1));
                },
            }
        },
    }
}

/// A number's digits: at least one, none a space or a bracket.
proof fn lemma_decimal(n: nat)
    ensures
        decimal(n).len() > 0,
        forall|k: int| 0 <= k < decimal(n).len() ==> '0' <= #[trigger] decimal(n)[k] <= '9',
    decreases n,
{
    if n >= 10 {
        lemma_decimal(n / 10);
        let d = decimal(n / 10).push(digit(n % 10));
        assert forall|k: int| 0 <= k < d.len() implies '0' <= #[trigger] d[k] <= '9' by {
            if k < decimal(n / 10).len() {
                assert(d[k] == decimal(n / 10)[k]);
            }
        }
    }
}

/// Past the last `]`, renumbering changes nothing.
proof fn lemma_renumber_unclosed(line: Seq<char>, j: int, j0: int, numbers: Seq<Seq<char>>)
    requires
        0 <= j0 <= j <= line.len(),
        find_from(line, seq![']'], j0) is None,
    ensures
        renumber_from(line, j, numbers) == line.subrange(j, line.len() as int),
    decreases line.len() - j,
{
    lemma_find_none(line, seq![']'], j0);
    match find_from(line, seq!['[', '^'], j) {
        None => {},
        Some(open) => {
            lemma_find_from(line, seq!['[', '^'], j);
            assert(find_from(line, seq![']'], open + 2) is None) by {
                if let Some(x) = find_from(line, seq![']'], open + 2) {
                    lemma_find_from(line, seq![']'], open + 2);
                }
            }
            lemma_renumber_unclosed(line, open + 2, j0, numbers);
            assert(line.subrange(open, open + 2) =~= seq!['[', '^']);
            assert(line.subrange(j, open) + seq!['[', '^'] + line.subrange(open + 2, line.len() as int)
                =~= line.subrange(j, line.len() as int));
        },
    }
}

/// Renumbering rewrites every reference to its footnote's number and
/// leaves the rest: the references of a renumbered line are the line's own,
/// each relabelled.
pub proof fn renumbered_references(line: Seq<char>, i: int, numbers: Seq<Seq<char>>)
    requires
        0 <= i <= line.len(),
        forall|k: int| 0 <= k < numbers.len() ==> is_label(#[trigger] numbers[k]),
    ensures
        references_from(renumber_from(line, i, numbers), 0) == references_from(line, i).map_values(
            |l: Seq<char>| renumbered_label(l, numbers),
        ),
    decreases line.len() - i,
{
    let e = Seq::<char>::empty();
    let out = renumber_from(line, i, numbers);
    let rest = line.subrange(i, line.len() as int);
    assert(line =~= line.take(i) + rest);
    match find_from(line, seq!['[', '^'], i) {
        None => {
            lemma_references_shift(line.take(i), rest, 0);
            assert(references_from(line, i) == Seq::<Seq<char>>::empty());
            lemma_references_shift(e, rest, 0);
            assert(e + rest =~= rest);
        },
        Some(open) => {
            lemma_find_from(line, seq!['[', '^'], i);
            lemma_find_first(line, seq!['[', '^'], i);
            match find_from(line, seq![']'], open + 2) {
                None => {
                    lemma_renumber_unclosed(line, open + 2, open + 2, numbers);
                    assert(line.subrange(open, open + 2) =~= seq!['[', '^']);
                    assert(out =~= rest);
                    lemma_references_shift(line.take(i), rest, 0);
                    lemma_references_shift(e, rest, 0);
                    assert(e + rest =~= rest);
                },
                Some(close) => {
                    lemma_find_from(line, seq![']'], open + 2);
                    lemma_find_first(line, seq![']'], open + 2);
                    let label = line.subrange(open + 2, close);
                    let pre = line.subrange(i, open);
                    let rr = renumbered_ref(label, numbers);
                    let tail = renumber_from(line, close + 1, numbers);
                    assert(out == pre + rr + tail);
                    renumbered_references(line, close + 1, numbers);
                    let lab2 = renumbered_label(label, numbers);
                    assert(rr =~= seq!['[', '^'] + lab2 + seq![']']);
                    // The label has no `]`, and neither has its number.
                    assert forall|k: int| 0 <= k < label.len() implies label[k] != ']' by {
                        assert(!occurs_at(line, seq![']'], open + 2 + k));
                        assert(line.subrange(open + 2 + k, open + 3 + k) =~= seq![line[open + 2 + k]]);
                    }
                    match index_of(numbers, label) {
                        Some(k) => {
                            lemma_index_of(numbers, label);
                            lemma_decimal((k + 1) as nat);
                            assert(is_label(label));
                            assert(!has_ws(lab2)) by {
                                if has_ws(lab2) {
                                    let w = choose|w: int| 0 <= w < lab2.len() && is_ws(#[trigger] lab2[w]);
                                    assert('0' <= lab2[w] <= '9');
                                }
                            }
                        },
                        None => {},
                    }
                    assert forall|k: int| 0 <= k < lab2.len() implies lab2[k] != ']' by {
                        if let Some(x) = index_of(numbers, label) {
                            lemma_decimal((x + 1) as nat);
                            assert('0' <= lab2[k] <= '9');
                        }
                    }
                    assert(is_label(lab2) == is_label(label));
                    assert forall|k: int| 0 <= k && k + 2 <= pre.len() implies #[trigger] pre.subrange(
                        k,
                        k + 2,
                    ) != seq!['[', '^'] by {
                        assert(pre.subrange(k, k + 2) =~= line.subrange(i + k, i + k + 2));
                        assert(!occurs_at(line, seq!['[', '^'], i + k));
                    }
                    lemma_read_ref(pre, lab2, tail);
                    let mapped = references_from(line, close + 1).map_values(
                        |l: Seq<char>| renumbered_label(l, numbers),
                    );
                    if is_label(label) {
                        assert(seq![lab2] + mapped =~= (seq![label] + references_from(line, close + 1)).map_values(
                            |l: Seq<char>| renumbered_label(l, numbers),
                        ));
                    } else {
                        assert(Seq::<Seq<char>>::empty() + mapped =~= (Seq::<Seq<char>>::empty()
                            + references_from(line, close + 1)).map_values(
                            |l: Seq<char>| renumbered_label(l, numbers),
                        ));
                    }
                },
            }
        },
    }
}

/// The first occurrence at or after `j` is at `x`.
proof fn lemma_find_at(s: Seq<char>, p: Seq<char>, j: int, x: int)
    requires
        0 <= j <= x,
        occurs_at(s, p, x),
        forall|k: int| j <= k < x ==> !occurs_at(s, p, k),
    ensures
        find_from(s, p, j) == Some(x),
    decreases x - j,
{
    if j < x {
        lemma_find_at(s, p, j + 1, x);
    }
}

/// Reading text with no `[^` of its own, then a reference, then more.
#[verifier::rlimit(30)]
proof fn lemma_read_ref(pre: Seq<char>, label: Seq<char>, tail: Seq<char>)
    requires
        forall|k: int| 0 <= k && k + 2 <= pre.len() ==> #[trigger] pre.subrange(k, k + 2) != seq!['[', '^'],
        forall|k: int| 0 <= k < label.len() ==> label[k] != ']',
    ensures
        references_from(pre + (seq!['[', '^'] + label + seq![']']) + tail, 0) == (if is_label(label) {
            seq![label]
        } else {
            Seq::<Seq<char>>::empty()
        }) + references_from(tail, 0),
{
    let rr = seq!['[', '^'] + label + seq![']'];
    let head = pre + rr;
    let out = head + tail;
    let o = pre.len() as int;
    assert forall|k: int| 0 <= k < o implies !occurs_at(out, seq!['[', '^'], k) by {
        if k + 2 <= o {
            assert(out.subrange(k, k + 2) =~= pre.subrange(k, k + 2));
        } else {
            assert(out[k + 1] == rr[0]);
            if occurs_at(out, seq!['[', '^'], k) {
                assert(out.subrange(k, k + 2)[1] == out[k + 1]);
            }
        }
    }
    assert(out.subrange(o, o + 2) =~= seq!['[', '^']);
    lemma_find_at(out, seq!['[', '^'], 0, o);
    let c2 = o + 2 + label.len();
    assert forall|k: int| o + 2 <= k < c2 implies !occurs_at(out, seq![']'], k) by {
        assert(out[k] == label[k - o - 2]);
        if occurs_at(out, seq![']'], k) {
            assert(out.subrange(k, k + 1)[0] == out[k]);
        }
    }
    assert(out.subrange(c2, c2 + 1) =~= seq![']']);
    lemma_find_at(out, seq![']'], o + 2, c2);
    assert(out.subrange(o + 2, c2) =~= label);
    lemma_references_shift(head, tail, 0);
    assert(c2 + 1 == head.len());
}

// ----- a second pass over renumbered footnotes -----

proof fn lemma_decimal_len(n: nat)
    ensures
        n >= 10 ==> decimal(n).len() >= 2,
        n < 10 ==> decimal(n).len() == 1,
{
    if n >= 10 {
        lemma_decimal(n / 10);
    }
}

proof fn lemma_digit_value(d: nat)
    requires
        d < 10,
    ensures
        digit(d) as u32 == 48 + d,
{
    if d == 0 {
    } else if d == 1 {
    } else if d == 2 {
    } else if d == 3 {
    } else if d == 4 {
    } else if d == 5 {
    } else if d == 6 {
    } else if d == 7 {
    } else if d == 8 {
    } else {
    }
}

proof fn lemma_digit_injective(a: nat, b: nat)
    requires
        a < 10,
        b < 10,
        digit(a) == digit(b),
    ensures
        a == b,
{
    lemma_digit_value(a);
    lemma_digit_value(b);
}

proof fn lemma_div_mod_ten(a: nat, b: nat)
    requires
        a / 10 == b / 10,
        a % 10 == b % 10,
    ensures
        a == b,
{
    assert(a == b) by (nonlinear_arith)
        requires
            a / 10 == b / 10,
            a % 10 == b % 10,
    ;
}

/// Different numbers are written differently.
proof fn lemma_decimal_injective(a: nat, b: nat)
    requires
        decimal(a) == decimal(b),
    ensures
        a == b,
    decreases a,
{
    lemma_decimal_len(a);
    lemma_decimal_len(b);
    let da = decimal(a);
    let db = decimal(b);
    if a >= 10 && b >= 10 {
        assert(da == decimal(a / 10).push(digit(a % 10)));
        assert(db == decimal(b / 10).push(digit(b % 10)));
        assert(da.drop_last() =~= decimal(a / 10));
        assert(db.drop_last() =~= decimal(b / 10));
        lemma_decimal_injective(a / 10, b / 10);
        assert(da.last() == digit(a % 10));
        assert(db.last() == digit(b % 10));
        assert(digit(a % 10) == digit(b % 10));
        lemma_digit_injective(a % 10, b % 10);
        lemma_div_mod_ten(a, b);
    } else if a < 10 && b < 10 {
        assert(da == seq![digit(a)]);
        assert(db == seq![digit(b)]);
        assert(da[0] == digit(a) && db[0] == digit(b));
        lemma_digit_injective(a, b);
    }
}

/// A written definition line reads back as its number and text.
#[verifier::rlimit(40)]
#[verifier::spinoff_prover]
proof fn lemma_definition_line(n: nat, text: Seq<char>)
    requires
        trim(text) == text,
    ensures
        parse_definition(seq!['[', '^'] + decimal(n) + seq![']', ':', ' '] + text) == Some(
            (decimal(n), text),
        ),
{
    let d = decimal(n);
    lemma_decimal(n);
    let line = seq!['[', '^'] + d + seq![']', ':', ' '] + text;
    crate::scan::lemma_skip_ws_bounds(line, 0);
    assert(!is_ws(line[0]));
    assert(skip_ws(line, 0) == 0);
    assert(trim_start(line) =~= line);
    assert(line.subrange(0, 2) =~= seq!['[', '^']);
    let rest = line.skip(2);
    assert(rest =~= d + seq![']', ':', ' '] + text);
    assert forall|k: int| 0 <= k < d.len() implies !occurs_at(rest, seq![']', ':'], k) by {
        assert(rest[k] == d[k]);
        assert('0' <= d[k] <= '9');
        if occurs_at(rest, seq![']', ':'], k) {
            assert(rest.subrange(k, k + 2)[0] == rest[k]);
        }
    }
    assert(rest.subrange(d.len() as int, d.len() as int + 2) =~= seq![']', ':']);
    lemma_find_at(rest, seq![']', ':'], 0, d.len() as int);
    assert(rest.take(d.len() as int) =~= d);
    assert(!has_ws(d)) by {
        if has_ws(d) {
            let w = choose|w: int| 0 <= w < d.len() && is_ws(#[trigger] d[w]);
            assert('0' <= d[w] <= '9');
        }
    }
    let after = rest.skip(d.len() as int + 2);
    assert(after =~= seq![' '] + text);
    lemma_trim_after_space(text);
}

/// A trimmed text after one space trims back to itself.
proof fn lemma_trim_after_space(text: Seq<char>)
    requires
        trim(text) == text,
    ensures
        trim(seq![' '] + text) == text,
{
    let x = seq![' '] + text;
    crate::scan::lemma_skip_ws_bounds(text, 0);
    crate::scan::lemma_skip_ws_bounds(x, 0);
    if text.len() > 0 {
        assert(skip_ws(text, 0) == 0) by {
            if skip_ws(text, 0) > 0 {
                assert(trim(text).len() < text.len()) by {
                    crate::scan::lemma_back_ws_bounds(
                        text.subrange(skip_ws(text, 0), text.len() as int),
                        text.len() - skip_ws(text, 0),
                    );
                }
            }
        }
        assert(!is_ws(text[0]));
        assert(x[1] == text[0]);
        assert(skip_ws(x, 1) == 1);
        assert(skip_ws(x, 0) == 1);
        assert(x.subrange(1, x.len() as int) =~= text);
        assert(text.subrange(0, text.len() as int) =~= text);
        assert(trim_start(text) =~= text);
    } else {
        assert(x =~= seq![' ']);
        assert(skip_ws(x, 1) == 1);
        assert(skip_ws(x, 0) == 1);
        assert(x.subrange(1, 1) =~= text);
    }
}

/// Where `]:` first occurs in two texts put together.
proof fn lemma_find_colon_concat(a: Seq<char>, b: Seq<char>)
    ensures
        find_from(a + b, seq![']', ':'], 0) == match find_from(a, seq![']', ':'], 0) {
            Some(x) => Some(x),
            None => if a.len() > 0 && b.len() > 0 && a.last() == ']' && b[0] == ':' {
                Some(a.len() - 1)
            } else {
                match find_from(b, seq![']', ':'], 0) {
                    Some(y) => Some(y + a.len()),
                    None => None,
                }
            },
        },
{
    let p = seq![']', ':'];
    let ab = a + b;
    lemma_find_first(a, p, 0);
    lemma_find_from(a, p, 0);
    match find_from(a, p, 0) {
        Some(x) => {
            assert(p.len() == 2);
            assert forall|k: int| 0 <= k < x implies !occurs_at(ab, p, k) by {
                assert(!occurs_at(a, p, k));
                assert(k + 2 <= a.len());
                assert(ab.subrange(k, k + 2) =~= a.subrange(k, k + 2));
            }
            assert(ab.subrange(x, x + 2) =~= a.subrange(x, x + 2));
            lemma_find_at(ab, p, 0, x);
        },
        None => {
            lemma_find_none(a, p, 0);
            assert(p.len() == 2);
            assert forall|k: int| 0 <= k && k + 2 <= a.len() implies !occurs_at(ab, p, k) by {
                assert(!occurs_at(a, p, k));
                assert(ab.subrange(k, k + 2) =~= a.subrange(k, k + 2));
            }
            if a.len() > 0 && b.len() > 0 && a.last() == ']' && b[0] == ':' {
                let k = a.len() - 1;
                assert(ab.subrange(k, k + 2) =~= p);
                lemma_find_at(ab, p, 0, k);
            } else {
                if a.len() > 0 {
                    let k = a.len() - 1;
                    if occurs_at(ab, p, k) {
                        assert(ab.subrange(k, k + 2)[0] == ab[k]);
                        assert(ab.subrange(k, k + 2)[1] == ab[k + 1]);
                    }
                }
                lemma_find_shift(a, b, p, 0);
                lemma_find_first(ab, p, 0);
                lemma_find_skip(ab, p, 0, a.len() as int);
            }
        },
    }
}

/// Skipping positions with no occurrence does not change where the first is.
proof fn lemma_find_skip(s: Seq<char>, p: Seq<char>, j: int, n: int)
    requires
        0 <= j <= n,
        forall|k: int| j <= k < n ==> !occurs_at(s, p, k),
    ensures
        find_from(s, p, j) == find_from(s, p, n),
    decreases n - j,
{
    if j < n {
        lemma_find_skip(s, p, j + 1, n);
    }
}

/// `]:` in a text whose only `]` in front is the one ending a bracket.
proof fn lemma_find_colon_bracket(m: Seq<char>, w: Seq<char>)
    requires
        forall|k: int| 0 <= k < m.len() ==> m[k] != ']',
    ensures
        find_from(m + seq![']'] + w, seq![']', ':'], 0) == if w.len() > 0 && w[0] == ':' {
            Some(m.len() as int)
        } else {
            match find_from(w, seq![']', ':'], 0) {
                Some(y) => Some(y + m.len() + 1),
                None => None,
            }
        },
{
    let a = m + seq![']'];
    assert forall|k: int| 0 <= k && k + 2 <= a.len() implies !occurs_at(a, seq![']', ':'], k) by {
        assert(a[k] == m[k]);
        if occurs_at(a, seq![']', ':'], k) {
            assert(a.subrange(k, k + 2)[0] == a[k]);
        }
    }
    assert(find_from(a, seq![']', ':'], 0) is None) by {
        if let Some(x) = find_from(a, seq![']', ':'], 0) {
            lemma_find_from(a, seq![']', ':'], 0);
        }
    }
    lemma_find_colon_concat(a, w);
    assert(a.last() == ']');
}

proof fn lemma_has_ws_concat(a: Seq<char>, b: Seq<char>)
    ensures
        has_ws(a + b) == (has_ws(a) || has_ws(b)),
{
    if has_ws(a) {
        let k = choose|k: int| 0 <= k < a.len() && is_ws(#[trigger] a[k]);
        assert((a + b)[k] == a[k]);
    }
    if has_ws(b) {
        let k = choose|k: int| 0 <= k < b.len() && is_ws(#[trigger] b[k]);
        assert((a + b)[a.len() + k] == b[k]);
    }
    if has_ws(a + b) {
        let k = choose|k: int| 0 <= k < (a + b).len() && is_ws(#[trigger] (a + b)[k]);
        if k < a.len() {
            assert((a + b)[k] == a[k]);
        } else {
            assert((a + b)[k] == b[k - a.len()]);
        }
    }
}

/// Renumbering a text that continues another is renumbering the continuation.
proof fn lemma_renumber_shift(a: Seq<char>, b: Seq<char>, j: int, numbers: Seq<Seq<char>>)
    requires
        0 <= j <= b.len(),
    ensures
        renumber_from(a + b, a.len() + j, numbers) == renumber_from(b, j, numbers),
    decreases b.len() - j,
{
    let ab = a + b;
    lemma_find_shift(a, b, seq!['[', '^'], j);
    match find_from(b, seq!['[', '^'], j) {
        None => {
            assert(ab.subrange(a.len() + j, ab.len() as int) =~= b.subrange(j, b.len() as int));
        },
        Some(open) => {
            lemma_find_from(b, seq!['[', '^'], j);
            lemma_find_shift(a, b, seq![']'], open + 2);
            assert(ab.subrange(a.len() + j, a.len() + open) =~= b.subrange(j, open));
            match find_from(b, seq![']'], open + 2) {
                None => {
                    lemma_renumber_shift(a, b, open + 2, numbers);
                    assert(a.len() + open + 2 == a.len() + (open + 2));
                },
                Some(close) => {
                    lemma_find_from(b, seq![']'], open + 2);
                    assert(ab.subrange(a.len() + open + 2, a.len() + close) =~= b.subrange(
                        open + 2,
                        close,
                    ));
                    lemma_renumber_shift(a, b, close + 1, numbers);
                    assert(a.len() + close + 1 == a.len() + (close + 1));
                },
            }
        },
    }
}

/// Renumbering starts with the character it starts at, or with the `[` of
/// the reference there.
proof fn lemma_renumber_head(x: Seq<char>, j: int, numbers: Seq<Seq<char>>)
    requires
        0 <= j < x.len(),
    ensures
        renumber_from(x, j, numbers).len() > 0,
        renumber_from(x, j, numbers)[0] == if occurs_at(x, seq!['[', '^'], j) {
            '['
        } else {
            x[j]
        },
{
    lemma_find_from(x, seq!['[', '^'], j);
    match find_from(x, seq!['[', '^'], j) {
        None => {
            lemma_find_none(x, seq!['[', '^'], j);
        },
        Some(open) => {
            lemma_find_first(x, seq!['[', '^'], j);
            if open == j {
                assert(x.subrange(j, j + 2)[0] == x[j]);
            }
        },
    }
}

/// Every numbered label is a label.
pub open spec fn all_labels(numbers: Seq<Seq<char>>) -> bool {
    forall|k: int| 0 <= k < numbers.len() ==> is_label(#[trigger] numbers[k])
}

/// A relabelled bracket keeps its `]`-freeness and its whitespace.
proof fn lemma_relabel_shape(label: Seq<char>, numbers: Seq<Seq<char>>)
    requires
        all_labels(numbers),
        forall|k: int| 0 <= k < label.len() ==> label[k] != ']',
    ensures
        forall|k: int|
            0 <= k < renumbered_label(label, numbers).len() ==> renumbered_label(label, numbers)[k]
                != ']',
        has_ws(renumbered_label(label, numbers)) == has_ws(label),
        renumbered_ref(label, numbers) == seq!['[', '^'] + renumbered_label(label, numbers) + seq![']'],
{
    let l2 = renumbered_label(label, numbers);
    if let Some(k) = index_of(numbers, label) {
        lemma_index_of(numbers, label);
        lemma_decimal((k + 1) as nat);
        assert(is_label(label));
        assert(!has_ws(l2)) by {
            if has_ws(l2) {
                let w = choose|w: int| 0 <= w < l2.len() && is_ws(#[trigger] l2[w]);
                assert('0' <= l2[w] <= '9');
            }
        }
        assert forall|k2: int| 0 <= k2 < l2.len() implies l2[k2] != ']' by {
            assert('0' <= l2[k2] <= '9');
        }
    }
}

/// Renumbering keeps where the first `]:` is, and whether the text before it
/// holds whitespace.
proof fn lemma_renumber_colon(u: Seq<char>, numbers: Seq<Seq<char>>)
    requires
        all_labels(numbers),
    ensures
        ({
            let v = renumber_from(u, 0, numbers);
            &&& (find_from(v, seq![']', ':'], 0) is Some) == (find_from(u, seq![']', ':'], 0) is Some)
            &&& (find_from(u, seq![']', ':'], 0) matches Some(qu) ==> (find_from(
                v,
                seq![']', ':'],
                0,
            ) matches Some(qv) && qv <= v.len() && qu <= u.len() && has_ws(v.take(qv)) == has_ws(
                u.take(qu),
            )))
        }),
    decreases u.len(), 1int,
{
    let v = renumber_from(u, 0, numbers);
    let colon = seq![']', ':'];
    lemma_find_from(u, colon, 0);
    lemma_find_from(v, colon, 0);
    match find_from(u, seq!['[', '^'], 0) {
        None => {
            assert(v =~= u);
        },
        Some(o) => {
            lemma_find_from(u, seq!['[', '^'], 0);
            match find_from(u, seq![']'], o + 2) {
                None => {
                    lemma_renumber_unclosed(u, o + 2, o + 2, numbers);
                    assert(u.subrange(o, o + 2) =~= seq!['[', '^']);
                    assert(v =~= u);
                },
                Some(c) => {
                    lemma_renumber_colon_ref(u, o, c, numbers);
                },
            }
        },
    }
}

/// A text whose first reference is at `o`, closed at `c`: renumbering keeps
/// where its first `]:` is and the whitespace before it.
#[verifier::rlimit(60)]
#[verifier::spinoff_prover]
proof fn lemma_renumber_colon_ref(u: Seq<char>, o: int, c: int, numbers: Seq<Seq<char>>)
    requires
        all_labels(numbers),
        find_from(u, seq!['[', '^'], 0) == Some(o),
        find_from(u, seq![']'], o + 2) == Some(c),
    ensures
        ({
            let v = renumber_from(u, 0, numbers);
            &&& (find_from(v, seq![']', ':'], 0) is Some) == (find_from(u, seq![']', ':'], 0) is Some)
            &&& (find_from(u, seq![']', ':'], 0) matches Some(qu) ==> (find_from(
                v,
                seq![']', ':'],
                0,
            ) matches Some(qv) && qv <= v.len() && qu <= u.len() && has_ws(v.take(qv)) == has_ws(
                u.take(qu),
            )))
        }),
    decreases u.len(), 0int,
{
    let v = renumber_from(u, 0, numbers);
    lemma_find_from(u, seq!['[', '^'], 0);
    lemma_find_from(u, seq![']'], o + 2);
    lemma_find_first(u, seq![']'], o + 2);
    let pre = u.subrange(0, o);
    let label = u.subrange(o + 2, c);
    assert forall|k: int| 0 <= k < label.len() implies label[k] != ']' by {
        assert(!occurs_at(u, seq![']'], o + 2 + k));
        assert(u.subrange(o + 2 + k, o + 3 + k) =~= seq![u[o + 2 + k]]);
    }
    lemma_relabel_shape(label, numbers);
    let l2 = renumbered_label(label, numbers);
    let rest = u.skip(c + 1);
    let t = renumber_from(u, c + 1, numbers);
    assert(u =~= u.take(c + 1) + rest);
    lemma_renumber_shift(u.take(c + 1), rest, 0, numbers);
    assert(t == renumber_from(rest, 0, numbers));
    assert(v == pre + renumbered_ref(label, numbers) + t);
    let m1 = seq!['[', '^'] + label;
    let m2 = seq!['[', '^'] + l2;
    assert forall|k: int| 0 <= k < m1.len() implies m1[k] != ']' by {
        if k >= 2 {
            assert(m1[k] == label[k - 2]);
        }
    }
    assert forall|k: int| 0 <= k < m2.len() implies m2[k] != ']' by {
        if k >= 2 {
            assert(m2[k] == l2[k - 2]);
        }
    }
    let z1 = m1 + seq![']'] + rest;
    let z2 = m2 + seq![']'] + t;
    assert(u.subrange(o, o + 2) =~= seq!['[', '^']);
    assert(u =~= pre + z1);
    assert(v =~= pre + z2);
    lemma_find_colon_concat(pre, z1);
    lemma_find_colon_concat(pre, z2);
    lemma_find_colon_bracket(m1, rest);
    lemma_find_colon_bracket(m2, t);
    // The rest reads the same either way.
    lemma_renumber_colon(rest, numbers);
    if rest.len() > 0 {
        lemma_renumber_head(rest, 0, numbers);
        if occurs_at(rest, seq!['[', '^'], 0) {
            assert(rest.subrange(0, 2)[0] == rest[0]);
        }
    } else {
        assert(t =~= Seq::<char>::empty());
    }
    lemma_has_ws_concat(seq!['[', '^'], label);
    lemma_has_ws_concat(seq!['[', '^'], l2);
    lemma_brackets_no_ws();
    lemma_colon_pieces(pre, m1, m2, rest, t);
}

/// Where `]:` first is, and the whitespace before it, in text made of the
/// same front, a bracket, and a rest, when the brackets and the rests agree.
#[verifier::rlimit(30)]
proof fn lemma_colon_pieces(
    pre: Seq<char>,
    m1: Seq<char>,
    m2: Seq<char>,
    rest: Seq<char>,
    t: Seq<char>,
)
    requires
        m1.len() > 0 && m1[0] == '[',
        m2.len() > 0 && m2[0] == '[',
        forall|k: int| 0 <= k < m1.len() ==> m1[k] != ']',
        forall|k: int| 0 <= k < m2.len() ==> m2[k] != ']',
        has_ws(m1) == has_ws(m2),
        (t.len() > 0 && t[0] == ':') == (rest.len() > 0 && rest[0] == ':'),
        (find_from(t, seq![']', ':'], 0) is Some) == (find_from(rest, seq![']', ':'], 0) is Some),
        find_from(rest, seq![']', ':'], 0) matches Some(y1) ==> (find_from(t, seq![']', ':'], 0) matches Some(
            y2,
        ) && y2 <= t.len() && y1 <= rest.len() && has_ws(t.take(y2)) == has_ws(rest.take(y1))),
    ensures
        ({
            let u = pre + (m1 + seq![']'] + rest);
            let v = pre + (m2 + seq![']'] + t);
            &&& (find_from(v, seq![']', ':'], 0) is Some) == (find_from(u, seq![']', ':'], 0) is Some)
            &&& (find_from(u, seq![']', ':'], 0) matches Some(qu) ==> (find_from(
                v,
                seq![']', ':'],
                0,
            ) matches Some(qv) && qv <= v.len() && qu <= u.len() && has_ws(v.take(qv)) == has_ws(
                u.take(qu),
            )))
        }),
{
    let colon = seq![']', ':'];
    let z1 = m1 + seq![']'] + rest;
    let z2 = m2 + seq![']'] + t;
    let u = pre + z1;
    let v = pre + z2;
    lemma_find_colon_concat(pre, z1);
    lemma_find_colon_concat(pre, z2);
    lemma_find_colon_bracket(m1, rest);
    lemma_find_colon_bracket(m2, t);
    assert(z1[0] == '[' && z2[0] == '[');
    lemma_find_from(pre, colon, 0);
    lemma_find_from(u, colon, 0);
    lemma_find_from(v, colon, 0);
    lemma_find_from(rest, colon, 0);
    lemma_find_from(t, colon, 0);
    lemma_brackets_no_ws();
    match find_from(pre, colon, 0) {
        Some(p0) => {
            assert(u.take(p0) =~= pre.take(p0));
            assert(v.take(p0) =~= pre.take(p0));
        },
        None => {
            if rest.len() > 0 && rest[0] == ':' {
                let q1 = (pre.len() + m1.len()) as int;
                let q2 = (pre.len() + m2.len()) as int;
                assert(u.take(q1) =~= pre + m1);
                assert(v.take(q2) =~= pre + m2);
                lemma_has_ws_concat(pre, m1);
                lemma_has_ws_concat(pre, m2);
            } else {
                match find_from(rest, colon, 0) {
                    Some(y1) => {
                        let y2 = find_from(t, colon, 0)->Some_0;
                        let q1 = pre.len() + m1.len() + 1 + y1;
                        let q2 = pre.len() + m2.len() + 1 + y2;
                        assert(u.take(q1) =~= (pre + (m1 + seq![']'])) + rest.take(y1));
                        assert(v.take(q2) =~= (pre + (m2 + seq![']'])) + t.take(y2));
                        lemma_has_ws_concat(pre + (m1 + seq![']']), rest.take(y1));
                        lemma_has_ws_concat(pre + (m2 + seq![']']), t.take(y2));
                        lemma_has_ws_concat(pre, m1 + seq![']']);
                        lemma_has_ws_concat(pre, m2 + seq![']']);
                        lemma_has_ws_concat(m1, seq![']']);
                        lemma_has_ws_concat(m2, seq![']']);
                    },
                    None => {},
                }
            }
        },
    }
}

proof fn lemma_brackets_no_ws()
    ensures
        !has_ws(seq![']']),
        !has_ws(seq!['[', '^']),
{
    let a = seq![']'];
    let b = seq!['[', '^'];
    if has_ws(a) {
        let w = choose|w: int| 0 <= w < a.len() && is_ws(#[trigger] a[w]);
        assert(a[w] == ']');
    }
    if has_ws(b) {
        let w = choose|w: int| 0 <= w < b.len() && is_ws(#[trigger] b[w]);
        assert(b[w] == '[' || b[w] == '^');
    }
}

/// A line that is not a definition is not one once renumbered.
#[verifier::rlimit(60)]
#[verifier::spinoff_prover]
proof fn lemma_renumber_not_definition(x: Seq<char>, numbers: Seq<Seq<char>>)
    requires
        all_labels(numbers),
        parse_definition(x) is None,
    ensures
        parse_definition(renumber_from(x, 0, numbers)) is None,
{
    let y = renumber_from(x, 0, numbers);
    let w = skip_ws(x, 0);
    crate::scan::lemma_skip_ws_bounds(x, 0);
    let open = seq!['[', '^'];
    match find_from(x, open, 0) {
        None => {
            assert(y =~= x);
        },
        Some(o) => {
            lemma_find_from(x, open, 0);
            lemma_find_first(x, open, 0);
            assert(x[o] == x.subrange(o, o + 2)[0]);
            assert(o >= w) by {
                if o < w {
                    assert(is_ws(x[o]));
                }
            }
            match find_from(x, seq![']'], o + 2) {
                None => {
                    lemma_renumber_unclosed(x, o + 2, o + 2, numbers);
                    assert(x.subrange(o, o + 2) =~= open);
                    assert(y =~= x);
                },
                Some(c) => {
                    lemma_find_from(x, seq![']'], o + 2);
                    lemma_find_first(x, seq![']'], o + 2);
                    let label = x.subrange(o + 2, c);
                    assert forall|k: int| 0 <= k < label.len() implies label[k] != ']' by {
                        assert(!occurs_at(x, seq![']'], o + 2 + k));
                        assert(x.subrange(o + 2 + k, o + 3 + k) =~= seq![x[o + 2 + k]]);
                    }
                    lemma_relabel_shape(label, numbers);
                    let l2 = renumbered_label(label, numbers);
                    let u = x.skip(c + 1);
                    let t = renumber_from(x, c + 1, numbers);
                    assert(x =~= x.take(c + 1) + u);
                    lemma_renumber_shift(x.take(c + 1), u, 0, numbers);
                    let pre = x.subrange(0, o);
                    assert(y == pre + renumbered_ref(label, numbers) + t);
                    assert(y[o] == '[');
                    if o > w {
                        lemma_not_definition_front(x, y, w, o);
                    } else {
                        assert(x[c] == x.subrange(c, c + 1)[0]);
                        assert(x.subrange(w, w + 2) == open);
                        assert(renumbered_ref(label, numbers) =~= seq!['[', '^'] + l2 + seq![']']);
                        lemma_not_definition_ref(x, y, w, c, label, l2, u, t, numbers);
                    }
                },
            }
        },
    }
}

/// A line whose first reference is not at its start reads the same up to it.
proof fn lemma_not_definition_front(x: Seq<char>, y: Seq<char>, w: int, o: int)
    requires
        w == skip_ws(x, 0),
        w < o < x.len(),
        o <= y.len(),
        y[o] == '[',
        forall|k: int| 0 <= k < o ==> y[k] == x[k],
        !occurs_at(x, seq!['[', '^'], w),
    ensures
        parse_definition(y) is None,
{
    crate::scan::lemma_skip_ws_bounds(x, 0);
    assert forall|k: int| 0 <= k < w implies is_ws(#[trigger] y[k]) by {
        assert(y[k] == x[k]);
    }
    assert(y[w] == x[w]);
    lemma_skip_ws_at(y, 0, w);
    let t = trim_start(y);
    assert(t =~= y.skip(w));
    if starts_with(t, seq!['[', '^']) {
        assert(t.subrange(0, 2)[0] == y[w]);
        assert(t.subrange(0, 2)[1] == y[w + 1]);
        if w + 1 < o {
            assert(y[w + 1] == x[w + 1]);
            assert(x.subrange(w, w + 2) =~= seq!['[', '^']);
        }
    }
}

proof fn lemma_skip_ws_at(s: Seq<char>, i: int, n: int)
    requires
        0 <= i <= n < s.len(),
        forall|k: int| i <= k < n ==> is_ws(#[trigger] s[k]),
        !is_ws(s[n]),
    ensures
        skip_ws(s, i) == n,
    decreases n - i,
{
    if i < n {
        lemma_skip_ws_at(s, i + 1, n);
    }
}

/// A line starting with a reference: its renumbered form is a definition
/// only if the line was one.
#[verifier::rlimit(40)]
#[verifier::spinoff_prover]
proof fn lemma_not_definition_ref(
    x: Seq<char>,
    y: Seq<char>,
    w: int,
    c: int,
    label: Seq<char>,
    l2: Seq<char>,
    u: Seq<char>,
    t: Seq<char>,
    numbers: Seq<Seq<char>>,
)
    requires
        all_labels(numbers),
        parse_definition(x) is None,
        w == skip_ws(x, 0),
        w + 2 <= c < x.len(),
        x.subrange(w, w + 2) == seq!['[', '^'],
        label == x.subrange(w + 2, c),
        x[c] == ']',
        forall|k: int| 0 <= k < label.len() ==> label[k] != ']',
        l2 == renumbered_label(label, numbers),
        u == x.skip(c + 1),
        t == renumber_from(u, 0, numbers),
        y == x.subrange(0, w) + (seq!['[', '^'] + l2 + seq![']']) + t,
    ensures
        parse_definition(y) is None,
{
    crate::scan::lemma_skip_ws_bounds(x, 0);
    lemma_relabel_shape(label, numbers);
    let colon = seq![']', ':'];
    // Both read from the reference on.
    assert forall|k: int| 0 <= k < w implies is_ws(#[trigger] y[k]) by {
        assert(y[k] == x[k]);
    }
    assert(y[w] == '[');
    lemma_skip_ws_at(y, 0, w);
    let ty = trim_start(y);
    assert(ty =~= seq!['[', '^'] + l2 + seq![']'] + t);
    let tx = trim_start(x);
    assert(tx =~= seq!['[', '^'] + label + seq![']'] + u);
    assert(starts_with(tx, seq!['[', '^'])) by {
        assert(tx.subrange(0, 2) =~= seq!['[', '^']);
    }
    assert(ty.subrange(0, 2) =~= seq!['[', '^']);
    let rx = tx.skip(2);
    let ry = ty.skip(2);
    assert(rx =~= label + seq![']'] + u);
    assert(ry =~= l2 + seq![']'] + t);
    lemma_find_colon_bracket(label, u);
    lemma_find_colon_bracket(l2, t);
    lemma_renumber_colon(u, numbers);
    if u.len() > 0 {
        lemma_renumber_head(u, 0, numbers);
        if occurs_at(u, seq!['[', '^'], 0) {
            assert(u.subrange(0, 2)[0] == u[0]);
        }
    } else {
        assert(t =~= Seq::<char>::empty());
    }
    lemma_find_from(u, colon, 0);
    lemma_find_from(t, colon, 0);
    lemma_brackets_no_ws();
    if u.len() > 0 && u[0] == ':' {
        assert(rx.take(label.len() as int) =~= label);
        assert(ry.take(l2.len() as int) =~= l2);
        if index_of(numbers, label) is Some {
            lemma_index_of(numbers, label);
        }
    } else {
        match find_from(u, colon, 0) {
            None => {},
            Some(q) => {
                let q2 = find_from(t, colon, 0)->Some_0;
                assert(rx.take(label.len() + 1 + q) =~= (label + seq![']']) + u.take(q));
                assert(ry.take(l2.len() + 1 + q2) =~= (l2 + seq![']']) + t.take(q2));
                lemma_has_ws_concat(label + seq![']'], u.take(q));
                lemma_has_ws_concat(l2 + seq![']'], t.take(q2));
                lemma_has_ws_concat(label, seq![']']);
                lemma_has_ws_concat(l2, seq![']']);
            },
        }
    }
}

/// The numbers one to `n`, written out.
pub open spec fn written_numbers(n: nat) -> Seq<Seq<char>> {
    Seq::new(n, |k: int| decimal((k + 1) as nat))
}

/// Renumbering text with no `[^` of its own, then a reference, then more.
#[verifier::rlimit(30)]
proof fn lemma_renumber_read(pre: Seq<char>, label: Seq<char>, tail: Seq<char>, numbers: Seq<Seq<char>>)
    requires
        forall|k: int| 0 <= k && k + 2 <= pre.len() ==> #[trigger] pre.subrange(k, k + 2) != seq!['[', '^'],
        forall|k: int| 0 <= k < label.len() ==> label[k] != ']',
    ensures
        renumber_from(pre + (seq!['[', '^'] + label + seq![']']) + tail, 0, numbers) == pre
            + renumbered_ref(label, numbers) + renumber_from(tail, 0, numbers),
{
    let rr = seq!['[', '^'] + label + seq![']'];
    let head = pre + rr;
    let out = head + tail;
    let o = pre.len() as int;
    assert forall|k: int| 0 <= k < o implies !occurs_at(out, seq!['[', '^'], k) by {
        if k + 2 <= o {
            assert(out.subrange(k, k + 2) =~= pre.subrange(k, k + 2));
        } else {
            assert(out[k + 1] == rr[0]);
            if occurs_at(out, seq!['[', '^'], k) {
                assert(out.subrange(k, k + 2)[1] == out[k + 1]);
            }
        }
    }
    assert(out.subrange(o, o + 2) =~= seq!['[', '^']);
    lemma_find_at(out, seq!['[', '^'], 0, o);
    let c2 = o + 2 + label.len();
    assert forall|k: int| o + 2 <= k < c2 implies !occurs_at(out, seq![']'], k) by {
        assert(out[k] == label[k - o - 2]);
        if occurs_at(out, seq![']'], k) {
            assert(out.subrange(k, k + 1)[0] == out[k]);
        }
    }
    assert(out.subrange(c2, c2 + 1) =~= seq![']']);
    lemma_find_at(out, seq![']'], o + 2, c2);
    assert(out.subrange(o + 2, c2) =~= label);
    assert(out.subrange(0, o) =~= pre);
    lemma_renumber_shift(head, tail, 0, numbers);
    assert(c2 + 1 == head.len());
}

/// Renumbering again with the numbers written out changes nothing.
#[verifier::rlimit(40)]
#[verifier::spinoff_prover]
proof fn lemma_renumber_twice(x: Seq<char>, i: int, numbers: Seq<Seq<char>>)
    requires
        0 <= i <= x.len(),
        all_labels(numbers),
        no_repeats(numbers),
        forall|k: int|
            0 <= k < references_from(x, i).len() ==> numbers.contains(#[trigger] references_from(x, i)[k]),
    ensures
        renumber_from(renumber_from(x, i, numbers), 0, written_numbers(numbers.len())) == renumber_from(
            x,
            i,
            numbers,
        ),
    decreases x.len() - i,
{
    let n2 = written_numbers(numbers.len());
    let y = renumber_from(x, i, numbers);
    let open = seq!['[', '^'];
    let rest = x.subrange(i, x.len() as int);
    match find_from(x, open, i) {
        None => {
            lemma_find_none(x, open, i);
            assert(y == rest);
            assert(find_from(rest, open, 0) is None) by {
                assert(x =~= x.take(i) + rest);
                lemma_find_shift(x.take(i), rest, open, 0);
            }
            assert(renumber_from(rest, 0, n2) =~= rest);
        },
        Some(o) => {
            lemma_find_from(x, open, i);
            lemma_find_first(x, open, i);
            let pre = x.subrange(i, o);
            match find_from(x, seq![']'], o + 2) {
                None => {
                    lemma_renumber_unclosed(x, o + 2, o + 2, numbers);
                    assert(x.subrange(o, o + 2) =~= open);
                    assert(y =~= rest);
                    assert(x =~= x.take(i) + rest);
                    lemma_find_shift(x.take(i), rest, open, 0);
                    lemma_find_shift(x.take(i), rest, seq![']'], o + 2 - i);
                    lemma_renumber_unclosed(rest, o + 2 - i, o + 2 - i, n2);
                    assert(rest.subrange(o - i, o - i + 2) =~= open);
                    assert(renumber_from(rest, 0, n2) =~= rest);
                },
                Some(c) => {
                    lemma_find_from(x, seq![']'], o + 2);
                    lemma_find_first(x, seq![']'], o + 2);
                    let label = x.subrange(o + 2, c);
                    assert forall|k: int| 0 <= k < label.len() implies label[k] != ']' by {
                        assert(!occurs_at(x, seq![']'], o + 2 + k));
                        assert(x.subrange(o + 2 + k, o + 3 + k) =~= seq![x[o + 2 + k]]);
                    }
                    lemma_relabel_shape(label, numbers);
                    let l2 = renumbered_label(label, numbers);
                    let t = renumber_from(x, c + 1, numbers);
                    assert(y == pre + renumbered_ref(label, numbers) + t);
                    assert forall|k: int| 0 <= k && k + 2 <= pre.len() implies #[trigger] pre.subrange(
                        k,
                        k + 2,
                    ) != open by {
                        assert(pre.subrange(k, k + 2) =~= x.subrange(i + k, i + k + 2));
                        assert(!occurs_at(x, open, i + k));
                    }
                    lemma_renumber_read(pre, l2, t, n2);
                    // The reference reads back with the same number.
                    let refs = references_from(x, i);
                    assert(refs == (if is_label(label) {
                        seq![label]
                    } else {
                        Seq::<Seq<char>>::empty()
                    }) + references_from(x, c + 1));
                    assert forall|k: int| 0 <= k < references_from(x, c + 1).len() implies numbers.contains(
                        #[trigger] references_from(x, c + 1)[k],
                    ) by {
                        if is_label(label) {
                            assert(refs[k + 1] == references_from(x, c + 1)[k]);
                        } else {
                            assert(refs[k] == references_from(x, c + 1)[k]);
                        }
                    }
                    lemma_renumber_twice(x, c + 1, numbers);
                    if is_label(label) {
                        assert(refs[0] == label);
                        assert(numbers.contains(references_from(x, i)[0]));
                    }
                    lemma_relabel_written(label, numbers);
                },
            }
        },
    }
}

/// A relabelled bracket, relabelled again by the written numbers, stays.
proof fn lemma_relabel_written(label: Seq<char>, numbers: Seq<Seq<char>>)
    requires
        all_labels(numbers),
        no_repeats(numbers),
        is_label(label) ==> numbers.contains(label),
    ensures
        renumbered_ref(renumbered_label(label, numbers), written_numbers(numbers.len()))
            == renumbered_ref(label, numbers),
{
    let n2 = written_numbers(numbers.len());
    lemma_index_of(numbers, label);
    let l2 = renumbered_label(label, numbers);
    lemma_index_of(n2, l2);
    match index_of(numbers, label) {
        Some(k) => {
            assert(n2[k] == l2);
            assert(n2.contains(l2));
            let j = index_of(n2, l2)->Some_0;
            assert(n2[j] == l2);
            lemma_decimal_injective((j + 1) as nat, (k + 1) as nat);
        },
        None => {
            assert(!is_label(label)) by {
                if is_label(label) {
                    assert(numbers.contains(label));
                }
            }
            assert(l2 == label);
            if n2.contains(label) {
                let j = choose|j: int| 0 <= j < n2.len() && n2[j] == label;
                lemma_decimal((j + 1) as nat);
                assert(label.len() > 0);
                assert(!has_ws(label)) by {
                    if has_ws(label) {
                        let w = choose|w: int| 0 <= w < label.len() && is_ws(#[trigger] label[w]);
                        assert('0' <= label[w] <= '9');
                    }
                }
            }
        },
    }
}

/// Each label relabelled.
pub open spec fn relabel_all(labels: Seq<Seq<char>>, numbers: Seq<Seq<char>>) -> Seq<Seq<char>> {
    labels.map_values(|l: Seq<char>| renumbered_label(l, numbers))
}

/// Relabelling tells numbered labels apart.
proof fn lemma_relabel_injective(a: Seq<char>, b: Seq<char>, numbers: Seq<Seq<char>>)
    requires
        numbers.contains(a),
        numbers.contains(b),
        renumbered_label(a, numbers) == renumbered_label(b, numbers),
    ensures
        a == b,
{
    lemma_index_of(numbers, a);
    lemma_index_of(numbers, b);
    let ka = index_of(numbers, a)->Some_0;
    let kb = index_of(numbers, b)->Some_0;
    lemma_decimal_injective((ka + 1) as nat, (kb + 1) as nat);
}

/// Adding relabelled references is relabelling what adding them gives.
proof fn lemma_add_new_relabel(labels: Seq<Seq<char>>, refs: Seq<Seq<char>>, numbers: Seq<Seq<char>>)
    requires
        forall|k: int| 0 <= k < labels.len() ==> numbers.contains(#[trigger] labels[k]),
        forall|k: int| 0 <= k < refs.len() ==> numbers.contains(#[trigger] refs[k]),
    ensures
        add_new(relabel_all(labels, numbers), relabel_all(refs, numbers)) == relabel_all(
            add_new(labels, refs),
            numbers,
        ),
        forall|k: int|
            0 <= k < add_new(labels, refs).len() ==> numbers.contains(#[trigger] add_new(labels, refs)[k]),
    decreases refs.len(),
{
    if refs.len() == 0 {
        assert(relabel_all(refs, numbers) =~= Seq::<Seq<char>>::empty());
    } else {
        let prev = refs.drop_last();
        assert forall|k: int| 0 <= k < prev.len() implies numbers.contains(#[trigger] prev[k]) by {
            assert(prev[k] == refs[k]);
        }
        lemma_add_new_relabel(labels, prev, numbers);
        let before = add_new(labels, prev);
        let x = refs.last();
        assert(numbers.contains(x)) by {
            assert(refs[refs.len() - 1] == x);
        }
        let fx = renumbered_label(x, numbers);
        assert(relabel_all(refs, numbers).drop_last() =~= relabel_all(prev, numbers));
        assert(relabel_all(refs, numbers).last() == fx);
        let rb = relabel_all(before, numbers);
        lemma_index_of(before, x);
        lemma_index_of(rb, fx);
        if rb.contains(fx) {
            let j = choose|j: int| 0 <= j < rb.len() && rb[j] == fx;
            assert(rb[j] == renumbered_label(before[j], numbers));
            lemma_relabel_injective(before[j], x, numbers);
            assert(before.contains(x));
        }
        if before.contains(x) {
            let j = choose|j: int| 0 <= j < before.len() && before[j] == x;
            assert(rb[j] == fx);
            assert(rb.contains(fx));
        }
        if !before.contains(x) {
            assert(relabel_all(before.push(x), numbers) =~= rb.push(fx));
            assert forall|k: int| 0 <= k < before.push(x).len() implies numbers.contains(
                #[trigger] before.push(x)[k],
            ) by {
                if k < before.len() {
                    assert(before.push(x)[k] == before[k]);
                }
            }
        }
    }
}

// ----- a second pass over a first pass's output -----

/// What a scan has gathered: the definitions and the body lines.
pub type FootnoteState = (Seq<(Seq<char>, Seq<char>)>, Seq<Seq<char>>);

/// One line of a note without code, classified: a definition is recorded,
/// any other line kept.
pub open spec fn footnote_step(st: FootnoteState, content: Seq<char>) -> FootnoteState {
    match parse_definition(content) {
        Some(d) => (define(st.0, d.0, d.1), st.1),
        None => (st.0, st.1.push(content)),
    }
}

/// Lines of a note without code, classified in turn from a state.
pub open spec fn footnote_fold(st: FootnoteState, lines: Seq<Seq<char>>) -> FootnoteState
    decreases lines.len(),
{
    if lines.len() == 0 {
        st
    } else {
        footnote_step(footnote_fold(st, lines.drop_last()), lines.last())
    }
}

proof fn lemma_scan_footnotes_fold(s: Seq<char>, n: int)
    requires
        0 <= n <= line_bounds(s).len(),
    ensures
        scan_footnotes(s, seq![], n) == footnote_fold((seq![], seq![]), contents(s, n)),
    decreases n,
{
    if n > 0 {
        lemma_scan_footnotes_fold(s, n - 1);
        assert(contents(s, n).drop_last() =~= contents(s, n - 1));
        let b = line_bounds(s)[n - 1];
        assert(!in_ranges(seq![], byte_offset(s, b.0) as int));
    } else {
        assert(contents(s, 0) =~= Seq::<Seq<char>>::empty());
    }
}

proof fn lemma_footnote_fold_concat(st: FootnoteState, x: Seq<Seq<char>>, y: Seq<Seq<char>>)
    ensures
        footnote_fold(st, x + y) == footnote_fold(footnote_fold(st, x), y),
    decreases y.len(),
{
    if y.len() == 0 {
        assert(x + y =~= x);
    } else {
        lemma_footnote_fold_concat(st, x, y.drop_last());
        assert((x + y).drop_last() =~= x + y.drop_last());
        assert((x + y).last() == y.last());
    }
}

/// Lines that are no definitions are kept, in order.
proof fn lemma_fold_body_lines(st: FootnoteState, xs: Seq<Seq<char>>)
    requires
        forall|k: int| 0 <= k < xs.len() ==> parse_definition(#[trigger] xs[k]) is None,
    ensures
        footnote_fold(st, xs) == (st.0, st.1 + xs),
    decreases xs.len(),
{
    if xs.len() == 0 {
        assert(st.1 + xs =~= st.1);
    } else {
        let prev = xs.drop_last();
        assert forall|k: int| 0 <= k < prev.len() implies parse_definition(#[trigger] prev[k]) is None by {
            assert(prev[k] == xs[k]);
        }
        lemma_fold_body_lines(st, prev);
        assert(parse_definition(xs[xs.len() - 1]) is None);
        assert((st.1 + prev).push(xs.last()) =~= st.1 + xs);
    }
}

/// Definitions as a scan records them: labels, with trimmed one-line texts.
pub open spec fn defs_ok(defs: Seq<(Seq<char>, Seq<char>)>) -> bool {
    forall|k: int|
        0 <= k < defs.len() ==> is_label(#[trigger] defs[k].0) && trim(defs[k].1) == defs[k].1
            && no_newline(defs[k].1)
}

/// Body lines as a scan keeps them: one-line texts that define nothing.
pub open spec fn body_ok(body: Seq<Seq<char>>) -> bool {
    forall|k: int|
        0 <= k < body.len() ==> no_newline(#[trigger] body[k]) && parse_definition(body[k]) is None
}

/// A definition line's label is a label and its text a trimmed line.
proof fn lemma_parse_definition_ok(line: Seq<char>)
    requires
        no_newline(line),
    ensures
        parse_definition(line) matches Some(d) ==> is_label(d.0) && trim(d.1) == d.1 && no_newline(
            d.1,
        ),
{
    if let Some(d) = parse_definition(line) {
        let w = skip_ws(line, 0);
        crate::scan::lemma_skip_ws_bounds(line, 0);
        let t = trim_start(line);
        lemma_no_newline_sub(line, w, line.len() as int);
        assert(t.len() >= 2);
        let rest = t.skip(2);
        assert(rest =~= t.subrange(2, t.len() as int));
        lemma_no_newline_sub(t, 2, t.len() as int);
        let close = find_from(rest, seq![']', ':'], 0)->Some_0;
        lemma_find_from(rest, seq![']', ':'], 0);
        let after = rest.skip(close + 2);
        assert(after =~= rest.subrange(close + 2, rest.len() as int));
        lemma_no_newline_sub(rest, close + 2, rest.len() as int);
        let a = skip_ws(after, 0);
        crate::scan::lemma_skip_ws_bounds(after, 0);
        let ts = after.subrange(a, after.len() as int);
        lemma_no_newline_sub(after, a, after.len() as int);
        crate::scan::lemma_back_ws_bounds(ts, ts.len() as int);
        lemma_no_newline_sub(ts, 0, back_ws(ts, ts.len() as int));
        lemma_trim_twice(after);
    }
}

proof fn lemma_define_ok(defs: Seq<(Seq<char>, Seq<char>)>, label: Seq<char>, text: Seq<char>)
    requires
        defs_ok(defs),
        is_label(label),
        trim(text) == text,
        no_newline(text),
    ensures
        defs_ok(define(defs, label, text)),
{
    lemma_index_of(def_labels(defs), label);
    let d2 = define(defs, label, text);
    assert forall|k: int| 0 <= k < d2.len() implies is_label(#[trigger] d2[k].0) && trim(d2[k].1)
        == d2[k].1 && no_newline(d2[k].1) by {
        if k < defs.len() && d2[k] != (label, text) {
            assert(d2[k] == defs[k]);
        }
    }
}

/// Scanning one-line texts records usable definitions and keeps
/// definition-free body lines.
proof fn lemma_fold_ok(st: FootnoteState, lines: Seq<Seq<char>>)
    requires
        defs_ok(st.0),
        body_ok(st.1),
        forall|k: int| 0 <= k < lines.len() ==> no_newline(#[trigger] lines[k]),
    ensures
        defs_ok(footnote_fold(st, lines).0),
        body_ok(footnote_fold(st, lines).1),
    decreases lines.len(),
{
    if lines.len() > 0 {
        let prev = lines.drop_last();
        assert forall|k: int| 0 <= k < prev.len() implies no_newline(#[trigger] prev[k]) by {
            assert(prev[k] == lines[k]);
        }
        lemma_fold_ok(st, prev);
        let (defs, body) = footnote_fold(st, prev);
        let x = lines.last();
        assert(no_newline(lines[lines.len() - 1]));
        lemma_parse_definition_ok(x);
        if let Some(d) = parse_definition(x) {
            lemma_define_ok(defs, d.0, d.1);
        } else {
            assert forall|k: int| 0 <= k < body.push(x).len() implies no_newline(
                #[trigger] body.push(x)[k],
            ) && parse_definition(body.push(x)[k]) is None by {
                if k < body.len() {
                    assert(body.push(x)[k] == body[k]);
                }
            }
        }
    }
}

/// The definitions a first pass writes out, as a second pass reads them back:
/// each number that has a definition, written out, with its text.
pub open spec fn written_defs(numbers: Seq<Seq<char>>, defs: Seq<(Seq<char>, Seq<char>)>) -> Seq<
    (Seq<char>, Seq<char>),
>
    decreases numbers.len(),
{
    if numbers.len() == 0 {
        seq![]
    } else {
        let rest = written_defs(numbers.drop_last(), defs);
        match lookup_def(defs, numbers.last()) {
            Some(text) => rest.push((decimal(numbers.len()), text)),
            None => rest,
        }
    }
}

/// Only numbers up to the count are written.
proof fn lemma_written_labels(numbers: Seq<Seq<char>>, defs: Seq<(Seq<char>, Seq<char>)>, j: nat)
    requires
        j > numbers.len(),
    ensures
        !def_labels(written_defs(numbers, defs)).contains(decimal(j)),
    decreases numbers.len(),
{
    if numbers.len() > 0 {
        let rest = written_defs(numbers.drop_last(), defs);
        lemma_written_labels(numbers.drop_last(), defs, j);
        if let Some(text) = lookup_def(defs, numbers.last()) {
            let w = rest.push((decimal(numbers.len()), text));
            assert(def_labels(w) =~= def_labels(rest).push(decimal(numbers.len())));
            if decimal(j) == decimal(numbers.len()) {
                lemma_decimal_injective(j, numbers.len());
            }
            if def_labels(w).contains(decimal(j)) {
                let k = choose|k: int| 0 <= k < def_labels(w).len() && def_labels(w)[k] == decimal(j);
                if k < rest.len() {
                    assert(def_labels(rest)[k] == def_labels(w)[k]);
                }
            }
        }
    }
}

proof fn lemma_index_from_push(labels: Seq<Seq<char>>, x: Seq<char>, y: Seq<char>, i: int)
    requires
        0 <= i,
        y != x,
    ensures
        index_from(labels.push(x), y, i) == index_from(labels, y, i),
    decreases labels.len() + 1 - i,
{
    if i < labels.len() {
        assert(labels.push(x)[i] == labels[i]);
        lemma_index_from_push(labels, x, y, i + 1);
    } else if i == labels.len() {
        assert(labels.push(x)[i] == x);
        assert(index_from(labels.push(x), y, i + 1) is None);
    }
}

/// Finding another label after one more is appended finds what it did.
proof fn lemma_index_of_push(labels: Seq<Seq<char>>, x: Seq<char>, y: Seq<char>)
    requires
        y != x,
    ensures
        index_of(labels.push(x), y) == index_of(labels, y),
{
    lemma_index_from_push(labels, x, y, 0);
}

/// A written number's definition is its label's.
#[verifier::rlimit(30)]
proof fn lemma_written_lookup(numbers: Seq<Seq<char>>, defs: Seq<(Seq<char>, Seq<char>)>, m: int)
    requires
        1 <= m <= numbers.len(),
    ensures
        lookup_def(written_defs(numbers, defs), decimal(m as nat)) == lookup_def(defs, numbers[m - 1]),
    decreases numbers.len(),
{
    let len = numbers.len();
    let prev = numbers.drop_last();
    let rest = written_defs(prev, defs);
    let w = written_defs(numbers, defs);
    if m < len {
        lemma_written_lookup(prev, defs, m);
        assert(prev[m - 1] == numbers[m - 1]);
    }
    match lookup_def(defs, numbers.last()) {
        Some(text) => {
            assert(w == rest.push((decimal(len), text)));
            assert(def_labels(w) =~= def_labels(rest).push(decimal(len)));
            if m == len {
                lemma_written_labels(prev, defs, len);
                lemma_index_of(def_labels(w), decimal(len));
                assert(def_labels(w)[rest.len() as int] == decimal(len));
                let k = index_of(def_labels(w), decimal(len))->Some_0;
                if k < rest.len() {
                    assert(def_labels(rest)[k] == def_labels(w)[k]);
                }
                assert(k == rest.len());
                assert(w[k].1 == text);
            } else {
                if decimal(m as nat) == decimal(len) {
                    lemma_decimal_injective(m as nat, len);
                }
                lemma_index_of_push(def_labels(rest), decimal(len), decimal(m as nat));
                lemma_index_of(def_labels(rest), decimal(m as nat));
                if let Some(k) = index_of(def_labels(rest), decimal(m as nat)) {
                    assert(w[k] == rest[k]);
                }
            }
        },
        None => {
            assert(w == rest);
            if m == len {
                lemma_written_labels(prev, defs, len);
                lemma_index_of(def_labels(rest), decimal(len));
            }
        },
    }
}

/// The written definitions, numbered by the written numbers, come out as
/// the first pass wrote them.
proof fn lemma_definition_lines_again(
    numbers: Seq<Seq<char>>,
    defs: Seq<(Seq<char>, Seq<char>)>,
    j: int,
)
    requires
        0 <= j <= numbers.len(),
    ensures
        definition_lines(written_numbers(j as nat), written_defs(numbers, defs)) == definition_lines(
            numbers.take(j),
            defs,
        ),
    decreases j,
{
    if j == 0 {
        assert(written_numbers(0).len() == 0);
        assert(numbers.take(0).len() == 0);
    } else {
        lemma_definition_lines_again(numbers, defs, j - 1);
        assert(written_numbers(j as nat).drop_last() =~= written_numbers((j - 1) as nat));
        assert(numbers.take(j).drop_last() =~= numbers.take(j - 1));
        assert(written_numbers(j as nat).last() == decimal(j as nat));
        lemma_written_lookup(numbers, defs, j);
        assert(numbers.take(j).last() == numbers[j - 1]);
    }
}

/// Reading the written definition lines gives the written definitions.
#[verifier::rlimit(30)]
proof fn lemma_fold_definitions(
    numbers: Seq<Seq<char>>,
    defs: Seq<(Seq<char>, Seq<char>)>,
    body: Seq<Seq<char>>,
)
    requires
        defs_ok(defs),
    ensures
        footnote_fold((seq![], body), definition_lines(numbers, defs)) == (
            written_defs(numbers, defs),
            body,
        ),
    decreases numbers.len(),
{
    if numbers.len() > 0 {
        let len = numbers.len();
        let prev = numbers.drop_last();
        lemma_fold_definitions(prev, defs, body);
        let rest_lines = definition_lines(prev, defs);
        let rest = written_defs(prev, defs);
        if let Some(text) = lookup_def(defs, numbers.last()) {
            let line = seq!['[', '^'] + decimal(len) + seq![']', ':', ' '] + text;
            assert(definition_lines(numbers, defs) == rest_lines.push(line));
            assert(rest_lines.push(line).drop_last() =~= rest_lines);
            lemma_index_of(def_labels(defs), numbers.last());
            let k = index_of(def_labels(defs), numbers.last())->Some_0;
            assert(defs[k].1 == text);
            lemma_definition_line(len, text);
            lemma_written_labels(prev, defs, len);
            lemma_index_of(def_labels(rest), decimal(len));
        }
    } else {
        assert(definition_lines(numbers, defs).len() == 0);
    }
}

/// The numbers from `r + 1` to `j`, written out.
pub open spec fn numbers_between(r: nat, j: nat) -> Seq<Seq<char>> {
    Seq::new((j - r) as nat, |i: int| decimal((r + 1 + i) as nat))
}

/// A second pass finds the first pass's unreferenced numbers unreferenced
/// again, and keeps them in order when they are in lexicographic order.
#[verifier::rlimit(40)]
#[verifier::spinoff_prover]
proof fn lemma_orphans_again(numbers: Seq<Seq<char>>, defs: Seq<(Seq<char>, Seq<char>)>, r: nat, j: nat)
    requires
        r <= numbers.len(),
        j <= numbers.len(),
        forall|k: int| r <= k < numbers.len() ==> lookup_def(defs, #[trigger] numbers[k]) is Some,
        labels_sorted(numbers_between(r, numbers.len())),
    ensures
        orphans(written_defs(numbers.take(j as int), defs), written_numbers(r)) == (if j <= r {
            Seq::<Seq<char>>::empty()
        } else {
            numbers_between(r, j)
        }),
    decreases j,
{
    let wr = written_numbers(r);
    if j > 0 {
        lemma_orphans_again(numbers, defs, r, (j - 1) as nat);
        let t = numbers.take(j as int);
        assert(t.drop_last() =~= numbers.take(j - 1));
        assert(t.last() == numbers[j - 1]);
        let rest = written_defs(numbers.take(j - 1), defs);
        let prev_o = orphans(rest, wr);
        lemma_index_of(wr, decimal(j));
        match lookup_def(defs, numbers[j - 1]) {
            Some(text) => {
                let w = rest.push((decimal(j), text));
                assert(written_defs(t, defs) == w);
                assert(w.drop_last() =~= rest);
                assert(w.last() == (decimal(j), text));
                if j <= r {
                    assert(wr[j - 1] == decimal(j));
                } else {
                    if wr.contains(decimal(j)) {
                        let k = choose|k: int| 0 <= k < wr.len() && wr[k] == decimal(j);
                        lemma_decimal_injective((k + 1) as nat, j);
                    }
                    if j - 1 <= r {
                        assert(prev_o =~= Seq::<Seq<char>>::empty());
                        assert(numbers_between(r, j) =~= seq![decimal(j)]);
                    } else {
                        let all = numbers_between(r, numbers.len());
                        assert(all[j - 2 - r] == decimal((j - 1) as nat));
                        assert(all[j - 1 - r] == decimal(j));
                        assert(!label_lt(all[j - 1 - r], all[j - 2 - r]));
                        assert(prev_o.last() == decimal((j - 1) as nat));
                        assert(prev_o.push(decimal(j)) =~= numbers_between(r, j));
                    }
                }
            },
            None => {
                assert(written_defs(t, defs) == rest);
            },
        }
    } else {
        assert(written_defs(numbers.take(0), defs) == Seq::<(Seq<char>, Seq<char>)>::empty());
    }
}

/// A blank line references nothing.
proof fn lemma_blank_references(b: Seq<char>)
    requires
        is_blank_line(b),
    ensures
        references_from(b, 0) == Seq::<Seq<char>>::empty(),
{
    lemma_find_from(b, seq!['[', '^'], 0);
    if let Some(o) = find_from(b, seq!['[', '^'], 0) {
        assert(b.subrange(o, o + 2)[0] == b[o]);
        assert(is_ws(b[o]));
    }
}

/// Trailing blank lines reference nothing.
proof fn lemma_referenced_blank_tail(xs: Seq<Seq<char>>)
    ensures
        referenced(drop_blank_tail(xs)) == referenced(xs),
    decreases xs.len(),
{
    if xs.len() > 0 && is_blank_line(xs.last()) {
        lemma_referenced_blank_tail(xs.drop_last());
        lemma_blank_references(xs.last());
    }
}

/// Every reference is a label.
proof fn lemma_references_labels(x: Seq<char>, i: int)
    ensures
        forall|k: int|
            0 <= k < references_from(x, i).len() ==> is_label(#[trigger] references_from(x, i)[k]),
    decreases x.len() - i,
{
    if i >= 0 {
        if let Some(open) = find_from(x, seq!['[', '^'], i) {
            lemma_find_from(x, seq!['[', '^'], i);
            if let Some(close) = find_from(x, seq![']'], open + 2) {
                lemma_find_from(x, seq![']'], open + 2);
                lemma_references_labels(x, close + 1);
                let label = x.subrange(open + 2, close);
                let refs = references_from(x, i);
                let later = references_from(x, close + 1);
                assert forall|k: int| 0 <= k < refs.len() implies is_label(#[trigger] refs[k]) by {
                    if is_label(label) {
                        if k > 0 {
                            assert(refs[k] == later[k - 1]);
                        }
                    } else {
                        assert(refs[k] == later[k]);
                    }
                }
            }
        }
    }
}

/// Every label referenced in the body has a number.
pub open spec fn refs_numbered(body: Seq<Seq<char>>, numbers: Seq<Seq<char>>) -> bool {
    forall|i: int, x: Seq<char>|
        0 <= i < body.len() && #[trigger] references_from(body[i], 0).contains(x) ==> numbers.contains(x)
}

/// The labels a renumbered body references, by first appearance, are the
/// body's own, each relabelled.
proof fn lemma_referenced_renumbered(body: Seq<Seq<char>>, numbers: Seq<Seq<char>>)
    requires
        all_labels(numbers),
        refs_numbered(body, numbers),
    ensures
        referenced(body.map_values(|l: Seq<char>| renumber_from(l, 0, numbers))) == relabel_all(
            referenced(body),
            numbers,
        ),
        forall|k: int| 0 <= k < referenced(body).len() ==> numbers.contains(#[trigger] referenced(body)[k]),
    decreases body.len(),
{
    let m = body.map_values(|l: Seq<char>| renumber_from(l, 0, numbers));
    if body.len() == 0 {
        assert(m =~= Seq::<Seq<char>>::empty());
        assert(relabel_all(Seq::<Seq<char>>::empty(), numbers) =~= Seq::<Seq<char>>::empty());
    } else {
        let prev = body.drop_last();
        assert forall|i: int, x: Seq<char>|
            0 <= i < prev.len() && #[trigger] references_from(prev[i], 0).contains(x) implies numbers.contains(x) by {
            assert(prev[i] == body[i]);
        }
        lemma_referenced_renumbered(prev, numbers);
        assert(m.drop_last() =~= prev.map_values(|l: Seq<char>| renumber_from(l, 0, numbers)));
        assert(m.last() == renumber_from(body.last(), 0, numbers));
        let x = body.last();
        assert(x == body[body.len() - 1]);
        crate::scan::lemma_skip_ws_bounds(x, 0);
        renumbered_references(x, 0, numbers);
        let refs = references_from(x, 0);
        assert(refs.map_values(|l: Seq<char>| renumbered_label(l, numbers)) =~= relabel_all(refs, numbers));
        assert forall|k: int| 0 <= k < refs.len() implies numbers.contains(#[trigger] refs[k]) by {
            assert(refs.contains(refs[k]));
        }
        lemma_add_new_relabel(referenced(prev), refs, numbers);
    }
}

/// Relabelling the first labels gives their numbers.
proof fn lemma_relabel_prefix(numbers: Seq<Seq<char>>, r: int)
    requires
        no_repeats(numbers),
        0 <= r <= numbers.len(),
    ensures
        relabel_all(numbers.take(r), numbers) == written_numbers(r as nat),
{
    let a = relabel_all(numbers.take(r), numbers);
    let b = written_numbers(r as nat);
    assert forall|k: int| 0 <= k < r implies a[k] == b[k] by {
        assert(numbers.take(r)[k] == numbers[k]);
        lemma_index_of(numbers, numbers[k]);
        let j = index_of(numbers, numbers[k])->Some_0;
        if j < k {
            assert(numbers[j] != numbers[k]);
        } else if k < j {
            assert(numbers[k] != numbers[j]);
        }
    }
    assert(a =~= b);
}

/// Lines without line breaks renumber to lines without them.
proof fn lemma_renumber_no_newline(x: Seq<char>, i: int, numbers: Seq<Seq<char>>)
    requires
        0 <= i <= x.len(),
        no_newline(x),
    ensures
        no_newline(renumber_from(x, i, numbers)),
    decreases x.len() - i,
{
    let open = seq!['[', '^'];
    match find_from(x, open, i) {
        None => {
            lemma_no_newline_sub(x, i, x.len() as int);
        },
        Some(o) => {
            lemma_find_from(x, open, i);
            lemma_no_newline_sub(x, i, o);
            assert(no_newline(open));
            match find_from(x, seq![']'], o + 2) {
                None => {
                    lemma_renumber_no_newline(x, o + 2, numbers);
                    lemma_no_newline_concat(open, renumber_from(x, o + 2, numbers));
                    lemma_no_newline_concat(
                        x.subrange(i, o),
                        open + renumber_from(x, o + 2, numbers),
                    );
                },
                Some(c) => {
                    lemma_find_from(x, seq![']'], o + 2);
                    lemma_renumber_no_newline(x, c + 1, numbers);
                    let label = x.subrange(o + 2, c);
                    lemma_no_newline_sub(x, o + 2, c);
                    let l2 = renumbered_label(label, numbers);
                    if let Some(k) = index_of(numbers, label) {
                        lemma_decimal((k + 1) as nat);
                        assert forall|q: int| 0 <= q < l2.len() implies l2[q] != '\n' by {
                            assert('0' <= l2[q] <= '9');
                        }
                    }
                    assert(no_newline(seq![']']));
                    lemma_no_newline_concat(open, l2);
                    lemma_no_newline_concat(open + l2, seq![']']);
                    assert(renumbered_ref(label, numbers) == open + l2 + seq![']']);
                    lemma_no_newline_concat(renumbered_ref(label, numbers), renumber_from(x, c + 1, numbers));
                    lemma_no_newline_concat(
                        x.subrange(i, o),
                        renumbered_ref(label, numbers) + renumber_from(x, c + 1, numbers),
                    );
                    assert(renumber_from(x, i, numbers) == x.subrange(i, o) + (renumbered_ref(label, numbers)
                        + renumber_from(x, c + 1, numbers)));
                },
            }
        },
    }
}

/// Dropping trailing blank lines keeps a prefix that does not end blank.
proof fn lemma_drop_blank_tail(xs: Seq<Seq<char>>)
    ensures
        drop_blank_tail(xs).len() <= xs.len(),
        drop_blank_tail(xs) == xs.take(drop_blank_tail(xs).len() as int),
        drop_blank_tail(xs).len() > 0 ==> !is_blank_line(drop_blank_tail(xs).last()),
    decreases xs.len(),
{
    if xs.len() > 0 && is_blank_line(xs.last()) {
        lemma_drop_blank_tail(xs.drop_last());
        let d = drop_blank_tail(xs.drop_last());
        assert(xs.drop_last().take(d.len() as int) =~= xs.take(d.len() as int));
    } else {
        assert(xs.take(xs.len() as int) =~= xs);
    }
}

/// Written definition lines are one-line texts starting with `[^`.
proof fn lemma_definition_lines_shape(numbers: Seq<Seq<char>>, defs: Seq<(Seq<char>, Seq<char>)>)
    requires
        defs_ok(defs),
    ensures
        forall|k: int|
            0 <= k < definition_lines(numbers, defs).len() ==> no_newline(
                #[trigger] definition_lines(numbers, defs)[k],
            ) && definition_lines(numbers, defs)[k].len() > 0,
    decreases numbers.len(),
{
    if numbers.len() > 0 {
        let prev = numbers.drop_last();
        lemma_definition_lines_shape(prev, defs);
        let rest = definition_lines(prev, defs);
        if let Some(text) = lookup_def(defs, numbers.last()) {
            let len = numbers.len();
            let line = seq!['[', '^'] + decimal(len) + seq![']', ':', ' '] + text;
            lemma_index_of(def_labels(defs), numbers.last());
            let j = index_of(def_labels(defs), numbers.last())->Some_0;
            assert(defs[j].1 == text);
            lemma_decimal(len);
            assert forall|q: int| 0 <= q < decimal(len).len() implies decimal(len)[q] != '\n' by {
                assert('0' <= decimal(len)[q] <= '9');
            }
            assert(no_newline(seq!['[', '^']));
            assert(no_newline(seq![']', ':', ' ']));
            lemma_no_newline_concat(seq!['[', '^'], decimal(len));
            lemma_no_newline_concat(seq!['[', '^'] + decimal(len), seq![']', ':', ' ']);
            lemma_no_newline_concat(seq!['[', '^'] + decimal(len) + seq![']', ':', ' '], text);
            let d = rest.push(line);
            assert forall|k: int| 0 <= k < d.len() implies no_newline(#[trigger] d[k]) && d[k].len() > 0 by {
                if k < rest.len() {
                    assert(d[k] == rest[k]);
                }
            }
        }
    }
}

/// What a first pass over a note without code finds, as a second pass needs
/// it.
#[verifier::rlimit(40)]
#[verifier::spinoff_prover]
proof fn lemma_first_pass_facts(s: Seq<char>)
    ensures
        ({
            let (defs, body) = scan_footnotes(s, seq![], line_bounds(s).len() as int);
            let numbers = numbering(body, defs);
            let r = referenced(body).len() as int;
            &&& defs_ok(defs)
            &&& body_ok(body)
            &&& all_labels(numbers)
            &&& no_repeats(numbers)
            &&& refs_numbered(body, numbers)
            &&& numbers.take(r) == referenced(body)
            &&& r <= numbers.len()
            &&& forall|k: int| r <= k < numbers.len() ==> lookup_def(defs, #[trigger] numbers[k]) is Some
        }),
{
    let nl = line_bounds(s).len() as int;
    lemma_scan_footnotes_fold(s, nl);
    let cs = contents(s, nl);
    lemma_line_pieces_wf(s);
    assert forall|k: int| 0 <= k < cs.len() implies no_newline(#[trigger] cs[k]) by {
        assert(cs[k] == line_pieces(s)[k].0);
    }
    let start: FootnoteState = (seq![], seq![]);
    lemma_fold_ok(start, cs);
    let (defs, body) = scan_footnotes(s, seq![], nl);
    let numbers = numbering(body, defs);
    let refs = referenced(body);
    let r = refs.len() as int;
    lemma_scan_defs_unrepeated(s, seq![], nl);
    lemma_numbering_facts(body, defs);
    assert(numbers.take(r) =~= refs);
    assert forall|k: int| 0 <= k < numbers.len() implies is_label(#[trigger] numbers[k]) by {
        let x = numbers[k];
        assert(numbers.contains(x));
        if def_labels(defs).contains(x) {
            let j = choose|j: int| 0 <= j < def_labels(defs).len() && def_labels(defs)[j] == x;
            assert(defs[j].0 == x);
        } else {
            let i = choose|i: int| 0 <= i < body.len() && references_from(#[trigger] body[i], 0).contains(x);
            lemma_references_labels(body[i], 0);
            let q = choose|q: int| 0 <= q < references_from(body[i], 0).len() && references_from(body[i], 0)[q] == x;
        }
    }
    assert forall|i: int, x: Seq<char>|
        0 <= i < body.len() && #[trigger] references_from(body[i], 0).contains(x) implies numbers.contains(x) by {
        assert(references_from(body[i], 0).contains(x));
    }
    assert forall|k: int| r <= k < numbers.len() implies lookup_def(defs, #[trigger] numbers[k]) is Some by {
        let x = numbers[k];
        assert(numbers.contains(x));
        assert(!exists|i: int| 0 <= i < body.len() && references_from(#[trigger] body[i], 0).contains(numbers[k]));
        lemma_index_of(def_labels(defs), x);
    }
}

/// Whether the numbers a first pass gives the footnotes it numbers without a
/// reference are in [`label_lt`] order, as numbers counting up always are.
spec fn settled_footnotes(s: Seq<char>) -> bool {
    let (defs, body) = scan_footnotes(s, seq![], line_bounds(s).len() as int);
    let numbers = numbering(body, defs);
    labels_sorted(numbers_between(referenced(body).len(), numbers.len()))
}

/// The lines a first pass writes, read by a second pass: the renumbered
/// body lines stay as they are, and the definitions come back numbered as
/// written.
#[verifier::rlimit(80)]
#[verifier::spinoff_prover]
proof fn lemma_second_pass(s: Seq<char>)
    requires
        settled_footnotes(s),
        ({
            let (defs, body) = scan_footnotes(s, seq![], line_bounds(s).len() as int);
            numbering(body, defs).len() > 0
        }),
    ensures
        ({
            let (defs, body) = scan_footnotes(s, seq![], line_bounds(s).len() as int);
            let numbers = numbering(body, defs);
            let lines = drop_blank_tail(body.map_values(|l: Seq<char>| renumber_from(l, 0, numbers)));
            let d = definition_lines(numbers, defs);
            let all = if d.len() > 0 {
                lines.push(seq![]) + d
            } else {
                lines
            };
            let out1 = join(all, seq!['\n']) + final_break(s);
            let (defs2, body2) = scan_footnotes(out1, seq![], line_bounds(out1).len() as int);
            let numbers2 = numbering(body2, defs2);
            &&& numbers2.len() > 0
            &&& drop_blank_tail(body2.map_values(|l: Seq<char>| renumber_from(l, 0, numbers2))) == lines
            &&& definition_lines(numbers2, defs2) == d
            &&& final_break(out1) == final_break(s)
        }),
{
    let nl = line_bounds(s).len() as int;
    let (defs, body) = scan_footnotes(s, seq![], nl);
    let numbers = numbering(body, defs);
    lemma_first_pass_facts(s);
    let n = numbers.len();
    let r = referenced(body).len();
    let wn = written_numbers(n);
    let m = body.map_values(|l: Seq<char>| renumber_from(l, 0, numbers));
    let lines = drop_blank_tail(m);
    let d = definition_lines(numbers, defs);
    let all = if d.len() > 0 {
        lines.push(seq![]) + d
    } else {
        lines
    };
    let fb = final_break(s);
    let out1 = join(all, seq!['\n']) + fb;
    // The body lines as written.
    lemma_drop_blank_tail(m);
    let ll = lines.len() as int;
    assert forall|k: int| 0 <= k < ll implies #[trigger] lines[k] == renumber_from(body[k], 0, numbers)
        && no_newline(lines[k]) && parse_definition(lines[k]) is None && renumber_from(
        lines[k],
        0,
        wn,
    ) == lines[k] by {
        assert(lines[k] == m[k]);
        assert(no_newline(body[k]) && parse_definition(body[k]) is None);
        lemma_renumber_no_newline(body[k], 0, numbers);
        lemma_renumber_not_definition(body[k], numbers);
        assert forall|q: int| 0 <= q < references_from(body[k], 0).len() implies numbers.contains(
            #[trigger] references_from(body[k], 0)[q],
        ) by {
            assert(references_from(body[k], 0).contains(references_from(body[k], 0)[q]));
        }
        lemma_renumber_twice(body[k], 0, numbers);
    }
    // The references they make.
    lemma_referenced_renumbered(body, numbers);
    lemma_referenced_blank_tail(m);
    lemma_relabel_prefix(numbers, r as int);
    assert(referenced(lines) == written_numbers(r));
    let empty = Seq::<char>::empty();
    lemma_blank_references(empty);
    assert(lines.push(empty).drop_last() =~= lines);
    assert(referenced(lines.push(empty)) == referenced(lines));
    assert(parse_definition(empty) is None) by {
        assert(skip_ws(empty, 0) == 0);
        assert(trim_start(empty) =~= empty);
    }
    // What a second pass gathers.
    lemma_definition_lines_shape(numbers, defs);
    let start: FootnoteState = (seq![], seq![]);
    let body2 = if d.len() > 0 {
        lines.push(empty)
    } else {
        lines
    };
    let defs2 = written_defs(numbers, defs);
    lemma_fold_definitions(numbers, defs, body2);
    if d.len() > 0 {
        assert forall|k: int| 0 <= k < body2.len() implies parse_definition(#[trigger] body2[k]) is None by {
            if k < ll {
                assert(body2[k] == lines[k]);
            }
        }
        lemma_fold_body_lines(start, body2);
        assert(start.1 + body2 =~= body2);
        lemma_footnote_fold_concat(start, body2, d);
    } else {
        assert forall|k: int| 0 <= k < lines.len() implies parse_definition(#[trigger] lines[k]) is None by {
        }
        lemma_fold_body_lines(start, lines);
        assert(start.1 + lines =~= lines);
        assert(all == lines);
        assert(d =~= Seq::<Seq<char>>::empty());
    }
    assert(footnote_fold(start, all) == (defs2, body2));
    assert(referenced(body2) == written_numbers(r));
    // The second numbering.
    assert(numbers.take(n as int) =~= numbers);
    lemma_orphans_again(numbers, defs, r, n);
    let o2 = orphans(defs2, written_numbers(r));
    assert(o2 == numbers_between(r, n)) by {
        if n <= r {
            assert(numbers_between(r, n) =~= Seq::<Seq<char>>::empty());
        }
    }
    let numbers2 = numbering(body2, defs2);
    assert(numbers2 =~= wn);
    // The text holds the lines it was made of.
    assert(all.len() > 0 && all.last().len() > 0) by {
        if d.len() > 0 {
            assert(all.last() == d.last());
            assert(d.last() == d[d.len() - 1]);
        } else {
            assert(defs2 =~= Seq::<(Seq<char>, Seq<char>)>::empty());
            assert(o2.len() == 0);
            assert(n == r);
            assert(referenced(lines).len() > 0);
            assert(lines.len() > 0);
            assert(!is_blank_line(lines.last()));
        }
    }
    assert forall|k: int| 0 <= k < all.len() implies no_newline(#[trigger] all[k]) by {
        if d.len() > 0 {
            if k < ll {
                assert(all[k] == lines[k]);
            } else if k == ll {
                assert(all[k] == empty);
            } else {
                assert(all[k] == d[k - ll - 1]);
            }
        }
    }
    let brk = fb.len() > 0;
    assert(fb == if brk {
        seq!['\n']
    } else {
        Seq::<char>::empty()
    });
    lemma_join_lines(all, brk);
    let p = joined_pieces(all, brk);
    lemma_line_pieces_of_render(p);
    lemma_line_pieces_last(out1);
    assert(normalize(p) == p);
    let n1 = line_bounds(out1).len() as int;
    lemma_scan_footnotes_fold(out1, n1);
    assert(contents(out1, n1) =~= all) by {
        assert forall|k: int| 0 <= k < n1 implies #[trigger] contents(out1, n1)[k] == all[k] by {
            assert(line_pieces(out1)[k] == p[k]);
        }
    }
    assert(scan_footnotes(out1, seq![], n1) == (defs2, body2));
    // Renumbering the body again changes nothing.
    let mm = body2.map_values(|l: Seq<char>| renumber_from(l, 0, numbers2));
    assert(mm =~= body2) by {
        assert forall|k: int| 0 <= k < body2.len() implies #[trigger] mm[k] == body2[k] by {
            if k < ll {
                assert(body2[k] == lines[k]);
            } else {
                assert(body2[k] == empty);
                assert(renumber_from(empty, 0, numbers2) =~= empty);
            }
        }
    }
    assert(drop_blank_tail(lines) == lines) by {
        if lines.len() > 0 {
            assert(!is_blank_line(lines.last()));
        }
    }
    if d.len() > 0 {
        assert(is_blank_line(body2.last()));
        assert(body2.drop_last() =~= lines);
    }
    assert(drop_blank_tail(mm) == lines);
    lemma_definition_lines_again(numbers, defs, n as int);
    assert(definition_lines(numbers2, defs2) == d);
    if !brk {
        lemma_join_last(all);
        assert(no_newline(all[all.len() - 1]));
        assert(all.last()[all.last().len() - 1] != '\n');
    }
    assert(final_break(out1) == fb);
}

/// A digit sequence of one length comes before another exactly as its first
/// differing digit does; one digit added to each keeps the order.
proof fn lemma_lex_push(p: Seq<char>, q: Seq<char>, x: char, y: char)
    requires
        p.len() == q.len(),
        lex_lt(p, q) || (p == q && x < y),
    ensures
        lex_lt(p.push(x), q.push(y)),
    decreases p.len(),
{
    if p.len() > 0 {
        assert(p.push(x).drop_first() =~= p.drop_first().push(x));
        assert(q.push(y).drop_first() =~= q.drop_first().push(y));
        if p[0] == q[0] {
            lemma_lex_push(p.drop_first(), q.drop_first(), x, y);
        }
    }
}

/// Numbers written out are labels of digits alone.
proof fn lemma_decimal_digits(n: nat)
    ensures
        all_digits(decimal(n)),
    decreases n,
{
    lemma_decimal_len(n);
    if n < 10 {
        lemma_digit_value(n);
        assert(decimal(n)[0] == digit(n));
    } else {
        lemma_decimal_digits(n / 10);
        lemma_digit_value(n % 10);
        let d = decimal(n);
        assert forall|k: int| 0 <= k < d.len() implies '0' <= #[trigger] d[k] <= '9' by {
            if k < d.len() - 1 {
                assert(d[k] == decimal(n / 10)[k]);
            } else {
                assert(d[k] == digit(n % 10));
            }
        }
    }
}

/// Numbers written out come in [`label_lt`] order as they count up.
proof fn lemma_decimal_order(a: nat, b: nat)
    requires
        a < b,
    ensures
        label_lt(decimal(a), decimal(b)),
{
    lemma_decimal_digits(a);
    lemma_decimal_digits(b);
    lemma_decimal_counts(a, b);
}

/// Numbers written out count lower as they count up.
proof fn lemma_decimal_counts(a: nat, b: nat)
    requires
        a < b,
    ensures
        counts_lower(decimal(a), decimal(b)),
    decreases b,
{
    lemma_decimal_len(a);
    lemma_decimal_len(b);
    if b < 10 {
        lemma_digit_value(a);
        lemma_digit_value(b);
        assert(decimal(a) =~= seq![digit(a)]);
        assert(decimal(b) =~= seq![digit(b)]);
        assert(digit(a) != digit(b));
    } else if a >= 10 {
        let qa = a / 10;
        let qb = b / 10;
        assert(a / 10 <= b / 10) by (nonlinear_arith)
            requires
                a < b,
        ;
        lemma_digit_value(a % 10);
        lemma_digit_value(b % 10);
        if qa < qb {
            lemma_decimal_counts(qa, qb);
            if decimal(qa).len() == decimal(qb).len() {
                lemma_lex_push(decimal(qa), decimal(qb), digit(a % 10), digit(b % 10));
            }
        } else {
            assert(a % 10 < b % 10) by (nonlinear_arith)
                requires
                    a < b,
                    a / 10 == b / 10,
            ;
            lemma_lex_push(decimal(qa), decimal(qb), digit(a % 10), digit(b % 10));
        }
    }
}

/// A first pass's unreferenced numbers are always in order.
proof fn lemma_footnotes_settled(s: Seq<char>)
    ensures
        settled_footnotes(s),
{
    let (defs, body) = scan_footnotes(s, seq![], line_bounds(s).len() as int);
    let numbers = numbering(body, defs);
    let r = referenced(body).len();
    let xs = numbers_between(r, numbers.len());
    assert forall|i: int, j: int| 0 <= i < j < xs.len() implies !label_lt(
        #[trigger] xs[j],
        #[trigger] xs[i],
    ) by {
        lemma_decimal_order((r + 1 + i) as nat, (r + 1 + j) as nat);
        if label_lt(xs[j], xs[i]) {
            lemma_label_transitive(xs[i], xs[j], xs[i]);
            lemma_label_irreflexive(xs[i]);
        }
    }
}

/// Formatting footnotes twice is formatting them once, on a note without
/// code.
pub proof fn footnotes_idempotent(s: Seq<char>)
    ensures
        spec_footnotes(spec_footnotes(s, seq![]), seq![]) == spec_footnotes(s, seq![]),
{
    lemma_footnotes_settled(s);
    let (defs, body) = scan_footnotes(s, seq![], line_bounds(s).len() as int);
    lemma_code_free(s);
    if numbering(body, defs).len() > 0 {
        lemma_second_pass(s);
        lemma_code_free(spec_footnotes(s, seq![]));
    }
}

/// Without code a line is one run outside code, or none when it is empty.
proof fn lemma_code_runs_plain(line: Seq<char>, off: int)
    ensures
        code_runs(line, off, seq![]) == if line.len() == 0 {
            Seq::<(Seq<char>, bool)>::empty()
        } else {
            seq![(line, false)]
        },
    decreases line.len(),
{
    if line.len() > 0 {
        let prev = line.drop_last();
        lemma_code_runs_plain(prev, off);
        assert(!in_ranges(seq![], off + utf8_len(prev)));
        if prev.len() == 0 {
            assert(seq![line.last()] =~= line);
        } else {
            assert(prev.push(line.last()) =~= line);
        }
    }
}

/// An empty line renumbers to itself.
proof fn lemma_renumber_empty(numbers: Seq<Seq<char>>)
    ensures
        renumber_from(Seq::<char>::empty(), 0, numbers) == Seq::<char>::empty(),
{
    let e = Seq::<char>::empty();
    lemma_find_from(e, seq!['[', '^'], 0);
    assert(e.subrange(0, 0) =~= e);
}

/// Without code the pieces read for references are the nonempty body
/// lines, which reference what all the body lines reference.
proof fn lemma_code_free_scan(s: Seq<char>, n: int)
    ensures
        referenced(scan_prose(s, seq![], n)) == referenced(scan_footnotes(s, seq![], n).1),
    decreases n,
{
    if n > 0 {
        lemma_code_free_scan(s, n - 1);
        let b = line_bounds(s)[n - 1];
        let off = byte_offset(s, b.0) as int;
        let c = line_text(s, b);
        assert(!in_ranges(seq![], off));
        if parse_definition(c) is None {
            let p = scan_prose(s, seq![], n - 1);
            let body = scan_footnotes(s, seq![], n - 1).1;
            lemma_code_runs_plain(c, off);
            assert(body.push(c).drop_last() =~= body);
            if c.len() == 0 {
                assert(p + prose_runs(code_runs(c, off, seq![])) =~= p);
                lemma_blank_references(c);
            } else {
                let one = seq![(c, false)];
                let e = Seq::<(Seq<char>, bool)>::empty();
                assert(one.drop_last() =~= e);
                assert(one.last() == (c, false));
                assert(prose_runs(e) == Seq::<Seq<char>>::empty());
                assert(prose_runs(one) == prose_runs(e).push(c));
                assert(prose_runs(one) =~= seq![c]);
                assert(p + prose_runs(one) =~= p.push(c));
                assert(p.push(c).drop_last() =~= p);
            }
        }
    }
}

/// Without code the footnotes rule numbers what every body line references
/// and renumbers every body line.
proof fn lemma_code_free(s: Seq<char>)
    ensures
        ({
            let n = line_bounds(s).len() as int;
            let (defs, body) = scan_footnotes(s, seq![], n);
            &&& numbering(scan_prose(s, seq![], n), defs) == numbering(body, defs)
            &&& forall|numbers: Seq<Seq<char>>|
                #[trigger] written_body(body, scan_offsets(s, seq![], n), seq![], numbers)
                    == body.map_values(|l: Seq<char>| renumber_from(l, 0, numbers))
        }),
{
    let n = line_bounds(s).len() as int;
    let (defs, body) = scan_footnotes(s, seq![], n);
    let offs = scan_offsets(s, seq![], n);
    lemma_code_free_scan(s, n);
    assert forall|numbers: Seq<Seq<char>>|
        #[trigger] written_body(body, offs, seq![], numbers) == body.map_values(
            |l: Seq<char>| renumber_from(l, 0, numbers),
        ) by {
        let w = written_body(body, offs, seq![], numbers);
        assert forall|k: int| 0 <= k < body.len() implies #[trigger] w[k] == renumber_from(
            body[k],
            0,
            numbers,
        ) by {
            assert(!in_ranges(seq![], offs[k]));
            lemma_code_runs_plain(body[k], offs[k]);
            if body[k].len() == 0 {
                lemma_renumber_empty(numbers);
                assert(body[k] =~= Seq::<char>::empty());
            } else {
                let one = seq![(body[k], false)];
                let e = Seq::<(Seq<char>, bool)>::empty();
                assert(one.drop_last() =~= e);
                assert(one.last() == (body[k], false));
                assert(renumber_runs(e, numbers) == Seq::<char>::empty());
                assert(renumber_runs(one, numbers) == renumber_runs(e, numbers) + renumber_from(
                    body[k],
                    0,
                    numbers,
                ));
                assert(renumber_runs(one, numbers) =~= renumber_from(body[k], 0, numbers));
            }
        }
        assert(w =~= body.map_values(|l: Seq<char>| renumber_from(l, 0, numbers)));
    }
}

/// The runs of a line without line breaks have none.
proof fn lemma_code_runs_one_line(line: Seq<char>, off: int, ignore: Seq<(int, int)>)
    requires
        no_newline(line),
    ensures
        forall|i: int|
            0 <= i < code_runs(line, off, ignore).len() ==> no_newline(
                #[trigger] code_runs(line, off, ignore)[i].0,
            ),
    decreases line.len(),
{
    if line.len() > 0 {
        let prev = line.drop_last();
        assert(prev =~= line.subrange(0, line.len() - 1));
        lemma_no_newline_sub(line, 0, line.len() - 1);
        lemma_code_runs_one_line(prev, off, ignore);
        let runs = code_runs(prev, off, ignore);
        let c = line.last();
        assert(c == line[line.len() - 1]);
        let now = code_runs(line, off, ignore);
        assert forall|i: int| 0 <= i < now.len() implies no_newline(#[trigger] now[i].0) by {
            if i < runs.len() && !(i == runs.len() - 1 && now.len() == runs.len()) {
                assert(now[i] == runs[i]);
            } else if now.len() == runs.len() {
                let t = runs.last().0.push(c);
                assert(now[i].0 == t);
                assert(runs.last() == runs[runs.len() - 1]);
                assert forall|q: int| 0 <= q < t.len() implies t[q] != '\n' by {
                    if q < t.len() - 1 {
                        assert(t[q] == runs.last().0[q]);
                    }
                }
            } else {
                assert(now[i].0 == seq![c]);
            }
        }
    }
}

/// Runs without line breaks are written without any.
proof fn lemma_renumber_runs_one_line(runs: Seq<(Seq<char>, bool)>, numbers: Seq<Seq<char>>)
    requires
        forall|i: int| 0 <= i < runs.len() ==> no_newline(#[trigger] runs[i].0),
    ensures
        no_newline(renumber_runs(runs, numbers)),
    decreases runs.len(),
{
    if runs.len() > 0 {
        let prev = runs.drop_last();
        assert forall|i: int| 0 <= i < prev.len() implies no_newline(#[trigger] prev[i].0) by {
            assert(prev[i] == runs[i]);
        }
        lemma_renumber_runs_one_line(prev, numbers);
        let last = runs.last();
        assert(last == runs[runs.len() - 1]);
        if !last.1 {
            lemma_renumber_no_newline(last.0, 0, numbers);
        }
        let piece = if last.1 {
            last.0
        } else {
            renumber_from(last.0, 0, numbers)
        };
        lemma_no_newline_concat(renumber_runs(prev, numbers), piece);
    }
}

// ----- code lines -----

/// Where line `k` of `s` comes out of the footnotes rule: where it was when
/// there is nothing to number, else at its place among the body lines.
pub open spec fn footnotes_place(s: Seq<char>, ignore: Seq<(int, int)>, k: int) -> int {
    let n = line_bounds(s).len() as int;
    if numbering(scan_prose(s, ignore, n), scan_footnotes(s, ignore, n).0).len() == 0 {
        k
    } else {
        scan_footnotes(s, ignore, k).1.len() as int
    }
}

/// A scan's definitions and body lines hold no line break, and every body
/// line has its offset.
proof fn lemma_scan_one_line(s: Seq<char>, ignore: Seq<(int, int)>, n: int)
    requires
        0 <= n <= line_bounds(s).len(),
    ensures
        defs_ok(scan_footnotes(s, ignore, n).0),
        forall|k: int|
            0 <= k < scan_footnotes(s, ignore, n).1.len() ==> no_newline(
                #[trigger] scan_footnotes(s, ignore, n).1[k],
            ),
        scan_offsets(s, ignore, n).len() == scan_footnotes(s, ignore, n).1.len(),
    decreases n,
{
    if n > 0 {
        lemma_scan_one_line(s, ignore, n - 1);
        let (defs, body) = scan_footnotes(s, ignore, n - 1);
        let b = line_bounds(s)[n - 1];
        let content = line_text(s, b);
        lemma_line_pieces_wf(s);
        lemma_line_pieces_last(s);
        assert(line_pieces(s)[n - 1].0 == content);
        assert(no_newline(content));
        if !in_ranges(ignore, byte_offset(s, b.0) as int) && parse_definition(content) is Some {
            lemma_parse_definition_ok(content);
            let (label, text) = parse_definition(content)->Some_0;
            lemma_define_ok(defs, label, text);
        } else {
            let b2 = body.push(content);
            assert forall|k: int| 0 <= k < b2.len() implies no_newline(#[trigger] b2[k]) by {
                if k < body.len() {
                    assert(b2[k] == body[k]);
                }
            }
        }
    }
}

/// A scan over more lines keeps the body lines, and their offsets, of a
/// scan over fewer.
proof fn lemma_scan_footnotes_grows(s: Seq<char>, ignore: Seq<(int, int)>, k: int, m: int)
    requires
        0 <= k <= m,
    ensures
        scan_footnotes(s, ignore, k).1.len() <= scan_footnotes(s, ignore, m).1.len(),
        scan_footnotes(s, ignore, m).1.take(scan_footnotes(s, ignore, k).1.len() as int)
            == scan_footnotes(s, ignore, k).1,
        scan_offsets(s, ignore, k).len() <= scan_offsets(s, ignore, m).len(),
        scan_offsets(s, ignore, m).take(scan_offsets(s, ignore, k).len() as int) == scan_offsets(
            s,
            ignore,
            k,
        ),
    decreases m - k,
{
    if k < m {
        lemma_scan_footnotes_grows(s, ignore, k, m - 1);
        let a = scan_footnotes(s, ignore, k).1;
        let b = scan_footnotes(s, ignore, m - 1).1;
        let c = scan_footnotes(s, ignore, m).1;
        assert(c.take(b.len() as int) =~= b);
        assert(c.take(a.len() as int) =~= b.take(a.len() as int));
        let fa = scan_offsets(s, ignore, k);
        let fb = scan_offsets(s, ignore, m - 1);
        let fc = scan_offsets(s, ignore, m);
        assert(fc.take(fb.len() as int) =~= fb);
        assert(fc.take(fa.len() as int) =~= fb.take(fa.len() as int));
    } else {
        assert(scan_footnotes(s, ignore, m).1.take(scan_footnotes(s, ignore, m).1.len() as int)
            =~= scan_footnotes(s, ignore, m).1);
        assert(scan_offsets(s, ignore, m).take(scan_offsets(s, ignore, m).len() as int)
            =~= scan_offsets(s, ignore, m));
    }
}

/// Dropping trailing blank lines keeps every line up to one that is not
/// blank.
proof fn lemma_drop_blank_keeps(xs: Seq<Seq<char>>, j: int)
    requires
        0 <= j < xs.len(),
        !is_blank_line(xs[j]),
    ensures
        drop_blank_tail(xs).len() > j,
    decreases xs.len(),
{
    if is_blank_line(xs.last()) {
        assert(j < xs.len() - 1);
        assert(xs.drop_last()[j] == xs[j]);
        lemma_drop_blank_keeps(xs.drop_last(), j);
    }
}

/// Code is left untouched: every line of code that is not blank comes out
/// as the same line, where it was when there is nothing to number, else at
/// its place among the body lines.
#[verifier::rlimit(40)]
#[verifier::spinoff_prover]
pub proof fn footnotes_keep_code(s: Seq<char>, ignore: Seq<(int, int)>)
    ensures
        forall|k: int|
            0 <= k < line_bounds(s).len() && #[trigger] code_line(s, ignore, k) && !is_blank_line(
                line_text(s, line_bounds(s)[k]),
            ) ==> keeps_line_at(s, spec_footnotes(s, ignore), k, footnotes_place(s, ignore, k)),
{
    let n = line_bounds(s).len() as int;
    let (defs, body) = scan_footnotes(s, ignore, n);
    let offs = scan_offsets(s, ignore, n);
    let numbers = numbering(scan_prose(s, ignore, n), defs);
    let text = spec_footnotes(s, ignore);
    if numbers.len() > 0 {
        lemma_scan_one_line(s, ignore, n);
        let w = written_body(body, offs, ignore, numbers);
        let lines = drop_blank_tail(w);
        let d = definition_lines(numbers, defs);
        let all = if d.len() > 0 {
            lines.push(seq![]) + d
        } else {
            lines
        };
        let fb = final_break(s);
        assert(text == join(all, seq!['\n']) + fb);
        lemma_drop_blank_tail(w);
        lemma_definition_lines_shape(numbers, defs);
        assert forall|j: int| 0 <= j < w.len() implies no_newline(#[trigger] w[j]) by {
            if !(j < offs.len() && in_ranges(ignore, offs[j])) {
                lemma_code_runs_one_line(body[j], offs[j], ignore);
                lemma_renumber_runs_one_line(code_runs(body[j], offs[j], ignore), numbers);
            }
        }
        let ll = lines.len() as int;
        assert forall|j: int| 0 <= j < all.len() implies no_newline(#[trigger] all[j]) by {
            if j < ll {
                assert(all[j] == lines[j]);
                assert(lines[j] == w[j]);
            } else if d.len() > 0 {
                if j == ll {
                    assert(all[j] == Seq::<char>::empty());
                } else {
                    assert(all[j] == d[j - ll - 1]);
                }
            }
        }
        assert forall|k: int|
            0 <= k < n && #[trigger] code_line(s, ignore, k) && !is_blank_line(
                line_text(s, line_bounds(s)[k]),
            ) implies keeps_line_at(s, text, k, footnotes_place(s, ignore, k)) by {
            let content = line_text(s, line_bounds(s)[k]);
            let c = scan_footnotes(s, ignore, k).1.len() as int;
            assert(scan_footnotes(s, ignore, k + 1).1 == scan_footnotes(s, ignore, k).1.push(content));
            let off = byte_offset(s, line_bounds(s)[k].0) as int;
            assert(scan_offsets(s, ignore, k + 1) == scan_offsets(s, ignore, k).push(off));
            lemma_scan_one_line(s, ignore, k);
            lemma_scan_footnotes_grows(s, ignore, k + 1, n);
            assert(body.take(c + 1)[c] == content);
            assert(body[c] == content);
            assert(offs.take(c + 1)[c] == off);
            assert(offs[c] == off);
            assert(in_ranges(ignore, offs[c]));
            assert(w[c] == content);
            lemma_drop_blank_keeps(w, c);
            assert(lines[c] == w[c]);
            assert(all[c] == content);
            let brk = fb.len() > 0;
            assert(fb == if brk {
                seq!['\n']
            } else {
                Seq::<char>::empty()
            });
            lemma_join_lines(all, brk);
            let p = joined_pieces(all, brk);
            lemma_line_pieces_of_render(p);
            lemma_line_pieces_last(text);
            assert(p[c] == (all[c], c < all.len() - 1 || brk));
            assert(content.len() > 0);
            assert(normalize(p)[c] == p[c]);
            assert(line_pieces(text)[c] == normalize(p)[c]);
        }
    }
}

} // verus!
