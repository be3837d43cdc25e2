//! What a second pass of the tables rule reads from the first pass's output:
//! the blocks the first pass writes come back as the same blocks, and a
//! second pass writes the note as it found it.

use crate::rules::tables::{
    cells_row_safe, convert_tab_line, finished_cells_read_back, head_only, is_pipe_line,
    lemma_pipe_run_end, merge_step, merge_tables, parse_blocks_from, parse_table,
    parse_row, parsed_cells_read_back, pipe_run_end, push_gap, push_other, push_others, row_safe,
    scan_escape, scan_row, scan_tab_cells, SpecBlock, SpecTable, pad_cells, pad_aligns, table_width,
    max_row_len, render_row, render_separator, render_table, render_blocks, align_mark, Align,
    lines_with_offsets, spec_tables, parted, pipe_led, written_lines,
};
use crate::lines::{
    joined_pieces, lemma_join_last, lemma_join_lines, lemma_join_one_line, lemma_last_line,
    lemma_line_pieces_last, lemma_line_pieces_of_render, lemma_line_pieces_wf,
    lemma_no_newline_concat, lemma_no_newline_sub, lemma_no_newline_trim, line_pieces, no_newline,
    normalize,
};
use crate::scan::{final_break, is_blank_line, join, trim_end};
use crate::text::{is_ws, line_bounds, line_text};
use vstd::prelude::*;

verus! {

// ----- runs of pipe lines -----


/// The end of the run of pipe-led lines of `v` from `i`.
pub open spec fn pipe_end_in(v: Seq<Seq<char>>, i: int) -> int
    decreases v.len() - i,
{
    if 0 <= i < v.len() && pipe_led(v[i]) {
        pipe_end_in(v, i + 1)
    } else {
        i
    }
}

proof fn lemma_pipe_end_in(v: Seq<Seq<char>>, i: int)
    requires
        0 <= i <= v.len(),
    ensures
        i <= pipe_end_in(v, i) <= v.len(),
        forall|k: int| i <= k < pipe_end_in(v, i) ==> pipe_led(#[trigger] v[k]),
        pipe_end_in(v, i) < v.len() ==> !pipe_led(v[pipe_end_in(v, i)]),
    decreases v.len() - i,
{
    if i < v.len() && pipe_led(v[i]) {
        lemma_pipe_end_in(v, i + 1);
    }
}

/// A run that ends inside `v` ends there in `v` followed by more lines.
proof fn lemma_pipe_end_in_append(v: Seq<Seq<char>>, w: Seq<Seq<char>>, i: int)
    requires
        0 <= i <= v.len(),
        pipe_end_in(v, i) < v.len(),
    ensures
        pipe_end_in(v + w, i) == pipe_end_in(v, i),
    decreases v.len() - i,
{
    assert((v + w)[i] == v[i]);
    if pipe_led(v[i]) {
        lemma_pipe_end_in_append(v, w, i + 1);
    }
}

/// A run of pipe-led lines to the end of `v` ends at its end.
proof fn lemma_pipe_end_all(v: Seq<Seq<char>>, i: int)
    requires
        0 <= i <= v.len(),
        forall|k: int| i <= k < v.len() ==> pipe_led(#[trigger] v[k]),
    ensures
        pipe_end_in(v, i) == v.len(),
    decreases v.len() - i,
{
    if i < v.len() {
        lemma_pipe_end_all(v, i + 1);
    }
}

/// A pipe-led line is not blank.
proof fn lemma_pipe_led_not_blank(l: Seq<char>)
    requires
        pipe_led(l),
    ensures
        !is_blank_line(l),
{
    assert(!is_ws(l[0]));
}

/// Whether a tab line converts does not depend on where it stands, in a note
/// without code.
proof fn lemma_scan_tab_cells_offset(line: Seq<char>, o1: int, o2: int)
    ensures
        scan_tab_cells(line, o1, seq![]) == scan_tab_cells(line, o2, seq![]),
    decreases line.len(),
{
    if line.len() > 0 {
        lemma_scan_tab_cells_offset(line.drop_last(), o1, o2);
    }
}

proof fn lemma_convert_offset(content: Seq<char>, o1: int, o2: int)
    ensures
        convert_tab_line(content, o1, seq![]) == convert_tab_line(content, o2, seq![]),
{
    lemma_scan_tab_cells_offset(trim_end(content), o1, o2);
}

// ----- the blocks a first pass finds -----

/// Verbatim lines as a first pass leaves them: none blank, none a
/// convertible tab line, and no run of pipe lines among them a table.
pub open spec fn other_ok(v: Seq<Seq<char>>) -> bool {
    &&& v.len() > 0
    &&& forall|k: int|
        0 <= k < v.len() ==> !is_blank_line(#[trigger] v[k]) && no_newline(v[k]) && (!pipe_led(v[k])
            ==> convert_tab_line(v[k], 0, seq![]) is None)
    &&& forall|k: int|
        0 <= k < v.len() && pipe_led(#[trigger] v[k]) && (k == 0 || !pipe_led(v[k - 1]))
            ==> parse_table(v.subrange(k, pipe_end_in(v, k))) is None
}

/// Whether no cell of a table holds a line break.
pub open spec fn table_one_line(t: SpecTable) -> bool {
    &&& forall|i: int| 0 <= i < t.header.len() ==> no_newline(#[trigger] t.header[i])
    &&& forall|r: int, i: int|
        0 <= r < t.body.len() && 0 <= i < t.body[r].len() ==> no_newline(#[trigger] t.body[r][i])
}

/// A block as a first pass leaves it.
pub open spec fn block_ok(b: SpecBlock) -> bool {
    match b {
        SpecBlock::Table(t) => cells_row_safe(t) && table_one_line(t),
        SpecBlock::Gap(v) => v.len() > 0 && forall|k: int|
            0 <= k < v.len() ==> is_blank_line(#[trigger] v[k]) && no_newline(v[k]),
        SpecBlock::Other(v) => other_ok(v),
    }
}

/// Two blocks that can stand next to each other: never two verbatim runs or
/// two gaps.
pub open spec fn adjacent_ok(a: SpecBlock, b: SpecBlock) -> bool {
    !(a is Other && b is Other) && !(a is Gap && b is Gap)
}

/// Blocks as a first pass leaves them.
pub open spec fn blocks_ok(bs: Seq<SpecBlock>) -> bool {
    &&& forall|j: int| 0 <= j < bs.len() ==> block_ok(#[trigger] bs[j])
    &&& forall|j: int| 1 <= j < bs.len() ==> adjacent_ok(bs[j - 1], #[trigger] bs[j])
}

/// What holds while the lines are read from `i` on: the blocks so far are as
/// a first pass leaves them, a trailing run of pipe lines is over, and a
/// trailing gap ends with the line before.
pub open spec fn parse_inv(lines: Seq<(Seq<char>, int)>, i: int, acc: Seq<SpecBlock>) -> bool {
    &&& 0 <= i <= lines.len()
    &&& forall|k: int| 0 <= k < lines.len() ==> no_newline(#[trigger] lines[k].0)
    &&& blocks_ok(acc)
    &&& (acc.len() > 0 && acc.last() is Other && pipe_led(acc.last()->Other_0.last()) && i
        < lines.len() ==> !pipe_led(lines[i].0))
    &&& (acc.len() > 0 && acc.last() is Gap ==> i > 0 && acc.last()->Gap_0.last() == lines[i
        - 1].0)
}

/// Verbatim lines added to a trailing verbatim block, or as a new one.
proof fn lemma_push_others(acc: Seq<SpecBlock>, run: Seq<Seq<char>>)
    requires
        run.len() > 0,
    ensures
        push_others(acc, run) == if acc.len() > 0 && acc.last() is Other {
            acc.update(acc.len() - 1, SpecBlock::Other(acc.last()->Other_0 + run))
        } else {
            acc.push(SpecBlock::Other(run))
        },
    decreases run.len(),
{
    if run.len() == 1 {
        assert(run.drop_last() =~= Seq::<Seq<char>>::empty());
        assert(push_others(acc, run.drop_last()) == acc);
        assert(push_others(acc, run) == push_other(acc, run.last()));
        assert(run =~= seq![run.last()]);
        if acc.len() > 0 && acc.last() is Other {
            assert(acc.last()->Other_0.push(run.last()) =~= acc.last()->Other_0 + run);
        }
    } else {
        let prev = run.drop_last();
        lemma_push_others(acc, prev);
        let mid = push_others(acc, prev);
        assert(push_others(acc, run) == push_other(mid, run.last()));
        assert(mid.last() is Other);
        if acc.len() > 0 && acc.last() is Other {
            assert((acc.last()->Other_0 + prev).push(run.last()) =~= acc.last()->Other_0 + run);
            assert(mid.update(mid.len() - 1, SpecBlock::Other((acc.last()->Other_0 + prev).push(run.last())))
                =~= acc.update(acc.len() - 1, SpecBlock::Other(acc.last()->Other_0 + run)));
        } else {
            assert(prev.push(run.last()) =~= run);
            assert(mid.update(mid.len() - 1, SpecBlock::Other(prev.push(run.last()))) =~= acc.push(
                SpecBlock::Other(run),
            ));
        }
    }
}

/// A verbatim block that ends on a line that is no pipe line, followed by
/// more verbatim lines, keeps its runs of pipe lines.
proof fn lemma_other_ok_append(v: Seq<Seq<char>>, w: Seq<Seq<char>>)
    requires
        other_ok(v),
        !pipe_led(v.last()),
        w.len() > 0,
        forall|k: int| 0 <= k < w.len() ==> !is_blank_line(#[trigger] w[k]) && no_newline(w[k]) && (
            !pipe_led(w[k]) ==> convert_tab_line(w[k], 0, seq![]) is None),
        forall|k: int|
            0 <= k < w.len() && pipe_led(#[trigger] w[k]) && (k == 0 || !pipe_led(w[k - 1]))
                ==> parse_table(w.subrange(k, pipe_end_in(w, k))) is None,
    ensures
        other_ok(v + w),
{
    let x = v + w;
    let n = v.len() as int;
    assert forall|k: int| 0 <= k < x.len() implies !is_blank_line(#[trigger] x[k]) && no_newline(x[k])
        && (!pipe_led(x[k]) ==> convert_tab_line(x[k], 0, seq![]) is None) by {
        if k < n {
            assert(x[k] == v[k]);
        } else {
            assert(x[k] == w[k - n]);
        }
    }
    assert forall|k: int|
        0 <= k < x.len() && pipe_led(#[trigger] x[k]) && (k == 0 || !pipe_led(x[k - 1])) implies parse_table(
        x.subrange(k, pipe_end_in(x, k)),
    ) is None by {
        if k < n {
            assert(x[k] == v[k]);
            if k > 0 {
                assert(x[k - 1] == v[k - 1]);
            }
            lemma_pipe_end_in(v, k);
            assert(pipe_end_in(v, k) < n) by {
                if pipe_end_in(v, k) == n {
                    assert(pipe_led(v[n - 1]));
                }
            }
            lemma_pipe_end_in_append(v, w, k);
            assert(x.subrange(k, pipe_end_in(x, k)) =~= v.subrange(k, pipe_end_in(v, k)));
        } else {
            assert(x[k] == w[k - n]);
            if k > n {
                assert(x[k - 1] == w[k - n - 1]);
            } else {
                assert(x[k - 1] == v[n - 1]);
            }
            lemma_pipe_end_in(w, k - n);
            lemma_pipe_end_in_shift(v, w, k - n);
            assert(x.subrange(k, pipe_end_in(x, k)) =~= w.subrange(k - n, pipe_end_in(w, k - n)));
        }
    }
}

/// A run in the lines after `v` ends where it ends in them.
proof fn lemma_pipe_end_in_shift(v: Seq<Seq<char>>, w: Seq<Seq<char>>, i: int)
    requires
        0 <= i <= w.len(),
    ensures
        pipe_end_in(v + w, v.len() + i) == v.len() + pipe_end_in(w, i),
    decreases w.len() - i,
{
    if i < w.len() {
        assert((v + w)[v.len() + i] == w[i]);
        if pipe_led(w[i]) {
            lemma_pipe_end_in_shift(v, w, i + 1);
        }
    }
}

/// A run of pipe lines is all pipe lines, and the line after it is none.
proof fn lemma_pipe_run_facts(lines: Seq<(Seq<char>, int)>, i: int)
    requires
        0 <= i <= lines.len(),
    ensures
        forall|k: int|
            i <= k < pipe_run_end(lines, seq![], i) ==> pipe_led((#[trigger] lines[k]).0),
        pipe_run_end(lines, seq![], i) < lines.len() ==> !pipe_led(
            lines[pipe_run_end(lines, seq![], i)].0,
        ),
    decreases lines.len() - i,
{
    lemma_pipe_run_end(lines, seq![], i);
    if i < lines.len() && is_pipe_line(lines[i], seq![]) {
        lemma_pipe_run_facts(lines, i + 1);
    }
}

/// The cells of a table read from pipe lines read back.
proof fn lemma_parsed_table_safe(run: Seq<Seq<char>>)
    requires
        parse_table(run) is Some,
    ensures
        cells_row_safe(parse_table(run)->Some_0),
{
    let t = parse_table(run)->Some_0;
    parsed_cells_read_back(run[0]);
    assert forall|r: int, i: int| 0 <= r < t.body.len() && 0 <= i < t.body[r].len() implies row_safe(
        #[trigger] t.body[r][i],
    ) by {
        assert(t.body[r] == crate::rules::tables::parse_row(run.skip(2)[r]));
        parsed_cells_read_back(run.skip(2)[r]);
    }
}

proof fn lemma_scan_tab_cells_safe(line: Seq<char>, o: int)
    ensures
        forall|k: int|
            0 <= k < scan_tab_cells(line, o, seq![]).0.len() ==> row_safe(
                #[trigger] scan_tab_cells(line, o, seq![]).0[k],
            ),
    decreases line.len(),
{
    if line.len() > 0 {
        lemma_scan_tab_cells_safe(line.drop_last(), o);
        let (cells, cell, split) = scan_tab_cells(line.drop_last(), o, seq![]);
        finished_cells_read_back(cell);
        let now = scan_tab_cells(line, o, seq![]).0;
        assert forall|k: int| 0 <= k < now.len() implies row_safe(#[trigger] now[k]) by {
            if k < cells.len() {
                assert(now[k] == cells[k]);
            }
        }
    }
}

/// The cells of a converted tab line read back.
proof fn lemma_converted_safe(content: Seq<char>, o: int)
    requires
        convert_tab_line(content, o, seq![]) is Some,
    ensures
        cells_row_safe(head_only(convert_tab_line(content, o, seq![])->Some_0)),
{
    let t = trim_end(content);
    lemma_scan_tab_cells_safe(t, o);
    let (cells, cell, split) = scan_tab_cells(t, o, seq![]);
    finished_cells_read_back(cell);
    let all = cells.push(crate::rules::tables::finish_cell(cell));
    assert forall|k: int| 0 <= k < all.len() implies row_safe(#[trigger] all[k]) by {
        if k < cells.len() {
            assert(all[k] == cells[k]);
        }
    }
}

/// A run ending at the end of `v` stops there when a line that is no pipe
/// line follows.
proof fn lemma_pipe_end_in_push(v: Seq<Seq<char>>, c: Seq<char>, k: int)
    requires
        0 <= k <= v.len(),
        !pipe_led(c),
    ensures
        pipe_end_in(v.push(c), k) == pipe_end_in(v, k),
    decreases v.len() - k,
{
    if k < v.len() {
        assert(v.push(c)[k] == v[k]);
        if pipe_led(v[k]) {
            lemma_pipe_end_in_push(v, c, k + 1);
        }
    } else {
        assert(v.push(c)[k] == c);
    }
}

/// A verbatim block followed by a line that is no pipe line.
proof fn lemma_other_ok_push(v: Seq<Seq<char>>, c: Seq<char>)
    requires
        other_ok(v),
        !pipe_led(c),
        !is_blank_line(c),
        no_newline(c),
        convert_tab_line(c, 0, seq![]) is None,
    ensures
        other_ok(v.push(c)),
{
    let x = v.push(c);
    assert forall|k: int| 0 <= k < x.len() implies !is_blank_line(#[trigger] x[k]) && no_newline(x[k])
        && (!pipe_led(x[k]) ==> convert_tab_line(x[k], 0, seq![]) is None) by {
        if k < v.len() {
            assert(x[k] == v[k]);
        }
    }
    assert forall|k: int|
        0 <= k < x.len() && pipe_led(#[trigger] x[k]) && (k == 0 || !pipe_led(x[k - 1])) implies parse_table(
        x.subrange(k, pipe_end_in(x, k)),
    ) is None by {
        assert(k < v.len());
        assert(x[k] == v[k]);
        if k > 0 {
            assert(x[k - 1] == v[k - 1]);
        }
        lemma_pipe_end_in_push(v, c, k);
        lemma_pipe_end_in(v, k);
        assert(x.subrange(k, pipe_end_in(x, k)) =~= v.subrange(k, pipe_end_in(v, k)));
    }
}

/// A whole run of pipe lines that is no table, as verbatim lines.
proof fn lemma_other_ok_run(run: Seq<Seq<char>>)
    requires
        run.len() > 0,
        forall|k: int| 0 <= k < run.len() ==> pipe_led(#[trigger] run[k]) && no_newline(run[k]),
        parse_table(run) is None,
    ensures
        other_ok(run),
        forall|k: int| 0 <= k < run.len() ==> !is_blank_line(#[trigger] run[k]) && no_newline(run[k])
            && (!pipe_led(run[k]) ==> convert_tab_line(run[k], 0, seq![]) is None),
        forall|k: int|
            0 <= k < run.len() && pipe_led(#[trigger] run[k]) && (k == 0 || !pipe_led(run[k - 1]))
                ==> parse_table(run.subrange(k, pipe_end_in(run, k))) is None,
{
    assert forall|k: int| 0 <= k < run.len() implies !is_blank_line(#[trigger] run[k]) by {
        lemma_pipe_led_not_blank(run[k]);
    }
    lemma_pipe_end_all(run, 0);
    assert(run.subrange(0, run.len() as int) =~= run);
}

/// Reading a run of pipe lines keeps what holds.
#[verifier::rlimit(40)]
#[verifier::spinoff_prover]
proof fn lemma_pipe_step(lines: Seq<(Seq<char>, int)>, i: int, acc: Seq<SpecBlock>)
    requires
        parse_inv(lines, i, acc),
        i < lines.len(),
        is_pipe_line(lines[i], seq![]),
    ensures
        ({
            let end = pipe_run_end(lines, seq![], i);
            let run = lines.subrange(i, end).map_values(|l: (Seq<char>, int)| l.0);
            let acc2 = match parse_table(run) {
                Some(t) => acc.push(SpecBlock::Table(t)),
                None => push_others(acc, run),
            };
            parse_inv(lines, end, acc2)
        }),
{
    lemma_pipe_run_end(lines, seq![], i);
    lemma_pipe_run_facts(lines, i);
    let end = pipe_run_end(lines, seq![], i);
    let run = lines.subrange(i, end).map_values(|l: (Seq<char>, int)| l.0);
    assert forall|k: int| 0 <= k < run.len() implies pipe_led(#[trigger] run[k]) && no_newline(run[k]) by {
        assert(run[k] == lines[i + k].0);
    }
    match parse_table(run) {
        Some(t) => {
            lemma_parsed_table_safe(run);
            lemma_parsed_table_one_line(run);
            let acc2 = acc.push(SpecBlock::Table(t));
            assert forall|j: int| 0 <= j < acc2.len() implies block_ok(#[trigger] acc2[j]) by {
                if j < acc.len() {
                    assert(acc2[j] == acc[j]);
                }
            }
            assert forall|j: int| 1 <= j < acc2.len() implies adjacent_ok(acc2[j - 1], #[trigger] acc2[j]) by {
                if j < acc.len() {
                    assert(acc2[j] == acc[j]);
                    assert(acc2[j - 1] == acc[j - 1]);
                }
            }
        },
        None => {
            lemma_other_ok_run(run);
            lemma_push_others(acc, run);
            let acc2 = push_others(acc, run);
            if acc.len() > 0 && acc.last() is Other {
                let v = acc.last()->Other_0;
                assert(!pipe_led(v.last()));
                lemma_other_ok_append(v, run);
                assert(acc.last() == acc[acc.len() - 1]);
                assert forall|j: int| 0 <= j < acc2.len() implies block_ok(#[trigger] acc2[j]) by {
                    if j < acc.len() - 1 {
                        assert(acc2[j] == acc[j]);
                    }
                }
                assert forall|j: int| 1 <= j < acc2.len() implies adjacent_ok(acc2[j - 1], #[trigger] acc2[j]) by {
                    assert(acc2[j - 1] == acc[j - 1]);
                    if j < acc.len() - 1 {
                        assert(acc2[j] == acc[j]);
                    } else {
                        assert(adjacent_ok(acc[j - 1], acc[j]));
                    }
                }
                assert((v + run).last() == run.last());
            } else {
                assert forall|j: int| 0 <= j < acc2.len() implies block_ok(#[trigger] acc2[j]) by {
                    if j < acc.len() {
                        assert(acc2[j] == acc[j]);
                    }
                }
                assert forall|j: int| 1 <= j < acc2.len() implies adjacent_ok(acc2[j - 1], #[trigger] acc2[j]) by {
                    if j < acc.len() {
                        assert(acc2[j] == acc[j]);
                        assert(acc2[j - 1] == acc[j - 1]);
                    } else {
                        assert(acc2[j - 1] == acc.last());
                    }
                }
            }
            assert(run.last() == run[run.len() - 1]);
        },
    }
}

/// Reading one line that is no pipe line keeps what holds.
#[verifier::rlimit(40)]
#[verifier::spinoff_prover]
proof fn lemma_line_step(lines: Seq<(Seq<char>, int)>, i: int, acc: Seq<SpecBlock>)
    requires
        parse_inv(lines, i, acc),
        i < lines.len(),
        !is_pipe_line(lines[i], seq![]),
    ensures
        ({
            let (content, offset) = lines[i];
            let acc2 = if crate::engine::ignore::in_ranges(seq![], offset) {
                push_other(acc, content)
            } else if is_blank_line(content) {
                push_gap(acc, content)
            } else {
                match convert_tab_line(content, offset, seq![]) {
                    Some(cells) => acc.push(SpecBlock::Table(head_only(cells))),
                    None => push_other(acc, content),
                }
            };
            parse_inv(lines, i + 1, acc2)
        }),
{
    let (content, offset) = lines[i];
    assert(!crate::engine::ignore::in_ranges(seq![], offset));
    assert(!pipe_led(content));
    if is_blank_line(content) {
        let acc2 = push_gap(acc, content);
        if acc.len() > 0 && acc.last() is Gap {
            let v = acc.last()->Gap_0;
            assert(acc.last() == acc[acc.len() - 1]);
            assert forall|j: int| 0 <= j < acc2.len() implies block_ok(#[trigger] acc2[j]) by {
                if j < acc.len() - 1 {
                    assert(acc2[j] == acc[j]);
                } else {
                    assert forall|k: int| 0 <= k < v.push(content).len() implies is_blank_line(
                        #[trigger] v.push(content)[k],
                    ) by {
                        if k < v.len() {
                            assert(v.push(content)[k] == v[k]);
                        }
                    }
                }
            }
            assert forall|j: int| 1 <= j < acc2.len() implies adjacent_ok(acc2[j - 1], #[trigger] acc2[j]) by {
                assert(acc2[j - 1] == acc[j - 1]);
                if j < acc.len() - 1 {
                    assert(acc2[j] == acc[j]);
                } else {
                    assert(adjacent_ok(acc[j - 1], acc[j]));
                }
            }
        } else {
            assert forall|j: int| 0 <= j < acc2.len() implies block_ok(#[trigger] acc2[j]) by {
                if j < acc.len() {
                    assert(acc2[j] == acc[j]);
                }
            }
            assert forall|j: int| 1 <= j < acc2.len() implies adjacent_ok(acc2[j - 1], #[trigger] acc2[j]) by {
                if j < acc.len() {
                    assert(acc2[j] == acc[j]);
                    assert(acc2[j - 1] == acc[j - 1]);
                } else {
                    assert(acc2[j - 1] == acc.last());
                }
            }
        }
    } else {
        match convert_tab_line(content, offset, seq![]) {
            Some(cells) => {
                lemma_converted_safe(content, offset);
                lemma_converted_one_line(content, offset, seq![]);
                let acc2 = acc.push(SpecBlock::Table(head_only(cells)));
                assert forall|j: int| 0 <= j < acc2.len() implies block_ok(#[trigger] acc2[j]) by {
                    if j < acc.len() {
                        assert(acc2[j] == acc[j]);
                    }
                }
                assert forall|j: int| 1 <= j < acc2.len() implies adjacent_ok(acc2[j - 1], #[trigger] acc2[j]) by {
                    if j < acc.len() {
                        assert(acc2[j] == acc[j]);
                        assert(acc2[j - 1] == acc[j - 1]);
                    }
                }
            },
            None => {
                lemma_convert_offset(content, offset, 0);
                let acc2 = push_other(acc, content);
                if acc.len() > 0 && acc.last() is Other {
                    let v = acc.last()->Other_0;
                    lemma_other_ok_push(v, content);
                    assert(acc.last() == acc[acc.len() - 1]);
                    assert forall|j: int| 0 <= j < acc2.len() implies block_ok(#[trigger] acc2[j]) by {
                        if j < acc.len() - 1 {
                            assert(acc2[j] == acc[j]);
                        }
                    }
                    assert forall|j: int| 1 <= j < acc2.len() implies adjacent_ok(acc2[j - 1], #[trigger] acc2[j]) by {
                        assert(acc2[j - 1] == acc[j - 1]);
                        if j < acc.len() - 1 {
                            assert(acc2[j] == acc[j]);
                        } else {
                            assert(adjacent_ok(acc[j - 1], acc[j]));
                        }
                    }
                } else {
                    assert(other_ok(seq![content]));
                    assert forall|j: int| 0 <= j < acc2.len() implies block_ok(#[trigger] acc2[j]) by {
                        if j < acc.len() {
                            assert(acc2[j] == acc[j]);
                        }
                    }
                    assert forall|j: int| 1 <= j < acc2.len() implies adjacent_ok(acc2[j - 1], #[trigger] acc2[j]) by {
                        if j < acc.len() {
                            assert(acc2[j] == acc[j]);
                            assert(acc2[j - 1] == acc[j - 1]);
                        } else {
                            assert(acc2[j - 1] == acc.last());
                        }
                    }
                }
            },
        }
    }
}

/// A first pass over a note without code finds blocks as it leaves them.
proof fn lemma_parse_ok(lines: Seq<(Seq<char>, int)>, i: int, acc: Seq<SpecBlock>)
    requires
        parse_inv(lines, i, acc),
    ensures
        parse_inv(lines, lines.len() as int, parse_blocks_from(lines, seq![], i, acc)),
    decreases lines.len() - i,
{
    if i < lines.len() {
        if is_pipe_line(lines[i], seq![]) {
            lemma_pipe_run_end(lines, seq![], i);
            lemma_pipe_step(lines, i, acc);
            let end = pipe_run_end(lines, seq![], i);
            let run = lines.subrange(i, end).map_values(|l: (Seq<char>, int)| l.0);
            let acc2 = match parse_table(run) {
                Some(t) => acc.push(SpecBlock::Table(t)),
                None => push_others(acc, run),
            };
            lemma_parse_ok(lines, end, acc2);
        } else {
            lemma_line_step(lines, i, acc);
            let (content, offset) = lines[i];
            let acc2 = if crate::engine::ignore::in_ranges(seq![], offset) {
                push_other(acc, content)
            } else if is_blank_line(content) {
                push_gap(acc, content)
            } else {
                match convert_tab_line(content, offset, seq![]) {
                    Some(cells) => acc.push(SpecBlock::Table(head_only(cells))),
                    None => push_other(acc, content),
                }
            };
            lemma_parse_ok(lines, i + 1, acc2);
        }
    }
}

// ----- merging -----

/// Whether a block is a table with no body rows.
pub open spec fn head_only_table(b: SpecBlock) -> bool {
    b is Table && b->Table_0.body.len() == 0
}

/// Blocks that merging leaves as they are: no head-only table follows a
/// table, directly or across a gap.
pub open spec fn no_merge(bs: Seq<SpecBlock>) -> bool {
    forall|j: int|
        0 <= j < bs.len() && head_only_table(#[trigger] bs[j]) ==> !(j >= 1 && bs[j - 1] is Table)
            && !(j >= 2 && bs[j - 1] is Gap && bs[j - 2] is Table)
}

/// The merged blocks end as the last block read does: on that gap or
/// verbatim run, or on a table.
pub open spec fn tracks(out: Seq<SpecBlock>, last_in: SpecBlock) -> bool {
    &&& out.len() > 0
    &&& (last_in is Table ==> out.last() is Table)
    &&& (!(last_in is Table) ==> out.last() == last_in)
}

#[verifier::rlimit(40)]
#[verifier::spinoff_prover]
proof fn lemma_merge_step_ok(out: Seq<SpecBlock>, b: SpecBlock, before: Option<SpecBlock>)
    requires
        blocks_ok(out),
        no_merge(out),
        block_ok(b),
        match before {
            None => out.len() == 0,
            Some(p) => tracks(out, p) && adjacent_ok(p, b),
        },
    ensures
        blocks_ok(merge_step(out, b)),
        no_merge(merge_step(out, b)),
        tracks(merge_step(out, b), b),
{
    let r = merge_step(out, b);
    if out.len() > 0 {
        assert(out.last() == out[out.len() - 1]);
        assert(adjacent_ok(out.last(), b)) by {
            let p = before->Some_0;
            if !(p is Table) {
                assert(out.last() == p);
            }
        }
    }
    if head_only_table(b) {
        let t = b->Table_0;
        let gap_after_table = out.len() >= 2 && out.last() is Gap && out[out.len() - 2] is Table;
        let o2 = if gap_after_table {
            out.drop_last()
        } else {
            out
        };
        if o2.len() > 0 && o2.last() is Table {
            let p = o2.last()->Table_0;
            let np = SpecTable { header: p.header, aligns: p.aligns, body: p.body.push(t.header) };
            assert(r == o2.update(o2.len() - 1, SpecBlock::Table(np)));
            assert(o2.last() == o2[o2.len() - 1]);
            assert(o2[o2.len() - 1] == out[o2.len() - 1]);
            assert(table_one_line(np)) by {
                assert(table_one_line(p));
                assert(table_one_line(t));
                assert forall|rr: int, i: int| 0 <= rr < np.body.len() && 0 <= i < np.body[rr].len() implies no_newline(
                    #[trigger] np.body[rr][i],
                ) by {
                    if rr < p.body.len() {
                        assert(np.body[rr] == p.body[rr]);
                    } else {
                        assert(np.body[rr] == t.header);
                    }
                }
            }
            assert(cells_row_safe(np)) by {
                assert(cells_row_safe(p));
                assert(cells_row_safe(t));
                assert forall|rr: int, i: int| 0 <= rr < np.body.len() && 0 <= i < np.body[rr].len() implies row_safe(
                    #[trigger] np.body[rr][i],
                ) by {
                    if rr < p.body.len() {
                        assert(np.body[rr] == p.body[rr]);
                    } else {
                        assert(np.body[rr] == t.header);
                    }
                }
            }
            assert forall|j: int| 0 <= j < r.len() implies block_ok(#[trigger] r[j]) by {
                if j < o2.len() - 1 {
                    assert(r[j] == out[j]);
                }
            }
            assert forall|j: int| 1 <= j < r.len() implies adjacent_ok(r[j - 1], #[trigger] r[j]) by {
                assert(r[j - 1] == out[j - 1]);
                if j < o2.len() - 1 {
                    assert(r[j] == out[j]);
                }
            }
            assert forall|j: int| 0 <= j < r.len() && head_only_table(#[trigger] r[j]) implies !(j >= 1
                && r[j - 1] is Table) && !(j >= 2 && r[j - 1] is Gap && r[j - 2] is Table) by {
                assert(j < o2.len() - 1);
                assert(r[j] == out[j]);
                if j >= 1 {
                    assert(r[j - 1] == out[j - 1]);
                }
                if j >= 2 {
                    assert(r[j - 2] == out[j - 2]);
                }
            }
        } else {
            assert(!gap_after_table);
            assert(r == out.push(b));
            assert forall|j: int| 0 <= j < r.len() implies block_ok(#[trigger] r[j]) by {
                if j < out.len() {
                    assert(r[j] == out[j]);
                }
            }
            assert forall|j: int| 1 <= j < r.len() implies adjacent_ok(r[j - 1], #[trigger] r[j]) by {
                assert(r[j - 1] == if j - 1 < out.len() { out[j - 1] } else { b });
                if j < out.len() {
                    assert(r[j] == out[j]);
                }
            }
            assert forall|j: int| 0 <= j < r.len() && head_only_table(#[trigger] r[j]) implies !(j >= 1
                && r[j - 1] is Table) && !(j >= 2 && r[j - 1] is Gap && r[j - 2] is Table) by {
                if j >= 1 {
                    assert(r[j - 1] == out[j - 1]);
                }
                if j >= 2 {
                    assert(r[j - 2] == out[j - 2]);
                }
                if j < out.len() {
                    assert(r[j] == out[j]);
                }
            }
        }
    } else {
        assert(r == out.push(b));
        assert forall|j: int| 0 <= j < r.len() implies block_ok(#[trigger] r[j]) by {
            if j < out.len() {
                assert(r[j] == out[j]);
            }
        }
        assert forall|j: int| 1 <= j < r.len() implies adjacent_ok(r[j - 1], #[trigger] r[j]) by {
            assert(r[j - 1] == out[j - 1]);
            if j < out.len() {
                assert(r[j] == out[j]);
            }
        }
        assert forall|j: int| 0 <= j < r.len() && head_only_table(#[trigger] r[j]) implies !(j >= 1
            && r[j - 1] is Table) && !(j >= 2 && r[j - 1] is Gap && r[j - 2] is Table) by {
            assert(j < out.len());
            assert(r[j] == out[j]);
            if j >= 1 {
                assert(r[j - 1] == out[j - 1]);
            }
            if j >= 2 {
                assert(r[j - 2] == out[j - 2]);
            }
        }
    }
}

/// Merging blocks as a first pass finds them gives blocks that merging
/// leaves alone, ending as the last block read does.
proof fn lemma_merge_ok(bs: Seq<SpecBlock>)
    requires
        blocks_ok(bs),
    ensures
        blocks_ok(merge_tables(bs)),
        no_merge(merge_tables(bs)),
        bs.len() > 0 ==> tracks(merge_tables(bs), bs.last()),
        bs.len() == 0 ==> merge_tables(bs).len() == 0,
    decreases bs.len(),
{
    if bs.len() > 0 {
        let prev = bs.drop_last();
        assert forall|j: int| 0 <= j < prev.len() implies block_ok(#[trigger] prev[j]) by {
            assert(prev[j] == bs[j]);
        }
        assert forall|j: int| 1 <= j < prev.len() implies adjacent_ok(prev[j - 1], #[trigger] prev[j]) by {
            assert(prev[j] == bs[j]);
            assert(prev[j - 1] == bs[j - 1]);
        }
        lemma_merge_ok(prev);
        assert(block_ok(bs[bs.len() - 1]));
        if prev.len() > 0 {
            assert(adjacent_ok(bs[bs.len() - 2], bs[bs.len() - 1]));
            lemma_merge_step_ok(merge_tables(prev), bs.last(), Some(prev.last()));
        } else {
            lemma_merge_step_ok(merge_tables(prev), bs.last(), None);
        }
    }
}

/// Blocks that merging leaves alone come out of it as they went in.
proof fn lemma_merge_fixed(bs: Seq<SpecBlock>)
    requires
        no_merge(bs),
    ensures
        merge_tables(bs) == bs,
    decreases bs.len(),
{
    if bs.len() > 0 {
        let prev = bs.drop_last();
        assert forall|j: int| 0 <= j < prev.len() && head_only_table(#[trigger] prev[j]) implies !(j >= 1
            && prev[j - 1] is Table) && !(j >= 2 && prev[j - 1] is Gap && prev[j - 2] is Table) by {
            assert(prev[j] == bs[j]);
            if j >= 1 {
                assert(prev[j - 1] == bs[j - 1]);
            }
            if j >= 2 {
                assert(prev[j - 2] == bs[j - 2]);
            }
        }
        lemma_merge_fixed(prev);
        let b = bs.last();
        assert(b == bs[bs.len() - 1]);
        if prev.len() > 0 {
            assert(prev.last() == bs[bs.len() - 2]);
        }
        if prev.len() > 1 {
            assert(prev[prev.len() - 2] == bs[bs.len() - 3]);
        }
        assert(prev.push(b) =~= bs);
    }
}

// ----- cells hold no line breaks -----

proof fn lemma_scan_row_one_line(t: Seq<char>)
    requires
        no_newline(t),
    ensures
        forall|k: int| 0 <= k < scan_row(t).0.len() ==> no_newline(#[trigger] scan_row(t).0[k]),
        no_newline(scan_row(t).1),
    decreases t.len(),
{
    if t.len() > 0 {
        assert(t.drop_last() =~= t.subrange(0, t.len() - 1));
        lemma_no_newline_sub(t, 0, t.len() - 1);
        lemma_scan_row_one_line(t.drop_last());
        let (cells, cell, escaped, closed) = scan_row(t.drop_last());
        let c = t.last();
        assert(c == t[t.len() - 1]);
        let now = scan_row(t);
        assert forall|k: int| 0 <= k < now.0.len() implies no_newline(#[trigger] now.0[k]) by {
            if k < cells.len() {
                assert(now.0[k] == cells[k]);
            }
        }
        assert forall|k: int| 0 <= k < now.1.len() implies now.1[k] != '\n' by {
            if k < cell.len() {
                assert(now.1[k] == cell[k]);
            }
        }
    }
}

/// The cells of a row without line breaks have none.
proof fn lemma_parse_row_one_line(line: Seq<char>)
    requires
        no_newline(line),
    ensures
        forall|i: int| 0 <= i < parse_row(line).len() ==> no_newline(#[trigger] parse_row(line)[i]),
{
    let t = trim_end(line);
    lemma_no_newline_trim(line);
    lemma_scan_row_one_line(t);
    let (cells, cell, escaped, closed) = scan_row(t);
    let c1 = if !closed {
        cells.push(cell)
    } else {
        cells
    };
    assert forall|i: int| 0 <= i < c1.len() implies no_newline(#[trigger] c1[i]) by {
        if i < cells.len() {
            assert(c1[i] == cells[i]);
        }
    }
    let c2 = if t.len() > 0 && t[0] == '|' && c1.len() > 0 {
        c1.drop_first()
    } else {
        c1
    };
    assert forall|i: int| 0 <= i < c2.len() implies no_newline(#[trigger] c2[i]) by {
        if t.len() > 0 && t[0] == '|' && c1.len() > 0 {
            assert(c2[i] == c1[i + 1]);
        }
    }
    assert forall|i: int| 0 <= i < parse_row(line).len() implies no_newline(#[trigger] parse_row(line)[i]) by {
        assert(parse_row(line)[i] == crate::scan::trim(c2[i]));
        lemma_no_newline_trim(c2[i]);
    }
}

/// A table read from pipe lines without line breaks has none in its cells.
pub(crate) proof fn lemma_parsed_table_one_line(run: Seq<Seq<char>>)
    requires
        parse_table(run) is Some,
        forall|k: int| 0 <= k < run.len() ==> no_newline(#[trigger] run[k]),
    ensures
        table_one_line(parse_table(run)->Some_0),
{
    let t = parse_table(run)->Some_0;
    lemma_parse_row_one_line(run[0]);
    assert forall|r: int, i: int| 0 <= r < t.body.len() && 0 <= i < t.body[r].len() implies no_newline(
        #[trigger] t.body[r][i],
    ) by {
        assert(t.body[r] == parse_row(run.skip(2)[r]));
        assert(run.skip(2)[r] == run[r + 2]);
        lemma_parse_row_one_line(run.skip(2)[r]);
    }
}

proof fn lemma_scan_escape_one_line(t: Seq<char>)
    requires
        no_newline(t),
    ensures
        no_newline(scan_escape(t).0),
    decreases t.len(),
{
    if t.len() > 0 {
        assert(t.drop_last() =~= t.subrange(0, t.len() - 1));
        lemma_no_newline_sub(t, 0, t.len() - 1);
        lemma_scan_escape_one_line(t.drop_last());
        let (out, escaped) = scan_escape(t.drop_last());
        let c = t.last();
        assert(c == t[t.len() - 1]);
        let o2 = if c == '|' && !escaped {
            out.push('\\')
        } else {
            out
        };
        assert forall|k: int| 0 <= k < o2.push(c).len() implies o2.push(c)[k] != '\n' by {
            if k < out.len() {
                assert(o2.push(c)[k] == out[k]);
            }
        }
    }
}

pub(crate) proof fn lemma_scan_tab_cells_one_line(line: Seq<char>, o: int, ignore: Seq<(int, int)>)
    requires
        no_newline(line),
    ensures
        forall|k: int|
            0 <= k < scan_tab_cells(line, o, ignore).0.len() ==> no_newline(
                #[trigger] scan_tab_cells(line, o, ignore).0[k],
            ),
        no_newline(scan_tab_cells(line, o, ignore).1),
    decreases line.len(),
{
    if line.len() > 0 {
        assert(line.drop_last() =~= line.subrange(0, line.len() - 1));
        lemma_no_newline_sub(line, 0, line.len() - 1);
        lemma_scan_tab_cells_one_line(line.drop_last(), o, ignore);
        let (cells, cell, split) = scan_tab_cells(line.drop_last(), o, ignore);
        lemma_no_newline_trim(cell);
        lemma_scan_escape_one_line(crate::scan::trim(cell));
        assert(line.last() == line[line.len() - 1]);
        let now = scan_tab_cells(line, o, ignore);
        assert forall|k: int| 0 <= k < now.0.len() implies no_newline(#[trigger] now.0[k]) by {
            if k < cells.len() {
                assert(now.0[k] == cells[k]);
            }
        }
        assert forall|k: int| 0 <= k < now.1.len() implies now.1[k] != '\n' by {
            if k < cell.len() {
                assert(now.1[k] == cell[k]);
            }
        }
    }
}

/// The cells of a converted line without line breaks have none.
pub(crate) proof fn lemma_converted_one_line(content: Seq<char>, o: int, ignore: Seq<(int, int)>)
    requires
        no_newline(content),
        convert_tab_line(content, o, ignore) is Some,
    ensures
        table_one_line(head_only(convert_tab_line(content, o, ignore)->Some_0)),
{
    let t = trim_end(content);
    lemma_no_newline_trim(content);
    lemma_scan_tab_cells_one_line(t, o, ignore);
    let (cells, cell, split) = scan_tab_cells(t, o, ignore);
    lemma_no_newline_trim(cell);
    lemma_scan_escape_one_line(crate::scan::trim(cell));
    let all = cells.push(crate::rules::tables::finish_cell(cell));
    assert forall|k: int| 0 <= k < all.len() implies no_newline(#[trigger] all[k]) by {
        if k < cells.len() {
            assert(all[k] == cells[k]);
        }
    }
}

// ----- what a second pass reads -----

/// A table as it reads back once written: every row and the alignments
/// padded to its width.
pub open spec fn padded(t: SpecTable) -> SpecTable {
    SpecTable {
        header: pad_cells(t.header, table_width(t)),
        aligns: pad_aligns(t.aligns, table_width(t)),
        body: t.body.map_values(|row: Seq<Seq<char>>| pad_cells(row, table_width(t))),
    }
}

/// The blocks a second pass reads from written blocks, once the last one is
/// read: its table padded, after an empty gap when it follows a table.
pub open spec fn reread_step(prev: Seq<SpecBlock>, bs: Seq<SpecBlock>) -> Seq<SpecBlock> {
    let me = match bs.last() {
        SpecBlock::Table(t) => SpecBlock::Table(padded(t)),
        _ => bs.last(),
    };
    if bs.len() >= 2 && parted(bs[bs.len() - 2], bs.last()) {
        prev.push(SpecBlock::Gap(seq![seq![]])).push(me)
    } else {
        prev.push(me)
    }
}

/// The blocks a second pass reads from written blocks: each table padded,
/// and an empty gap where two tables were written apart.
pub open spec fn reread(bs: Seq<SpecBlock>) -> Seq<SpecBlock>
    decreases bs.len(),
{
    if bs.len() == 0 {
        seq![]
    } else {
        reread_step(reread(bs.drop_last()), bs)
    }
}

proof fn lemma_max_row_len_padded(rows: Seq<Seq<Seq<char>>>, w: nat)
    ensures
        max_row_len(rows.map_values(|row: Seq<Seq<char>>| pad_cells(row, w))) == if rows.len() > 0 {
            w
        } else {
            0
        },
    decreases rows.len(),
{
    if rows.len() > 0 {
        lemma_max_row_len_padded(rows.drop_last(), w);
        assert(rows.map_values(|row: Seq<Seq<char>>| pad_cells(row, w)).drop_last() =~= rows.drop_last().map_values(
            |row: Seq<Seq<char>>| pad_cells(row, w),
        ));
    }
}

/// A padded table writes out as the table does.
proof fn lemma_padded_render(t: SpecTable)
    ensures
        render_table(padded(t)) == render_table(t),
        padded(t).body.len() == t.body.len(),
{
    let w = table_width(t);
    let p = padded(t);
    lemma_max_row_len_padded(t.body, w);
    assert(table_width(p) == w);
    assert(render_row(p.header, w) == render_row(t.header, w)) by {
        assert(Seq::new(w, |i: int| if i < p.header.len() { p.header[i] } else { seq![] }) =~= Seq::new(
            w,
            |i: int| if i < t.header.len() { t.header[i] } else { seq![] },
        ));
    }
    assert(render_separator(p.aligns, w) == render_separator(t.aligns, w)) by {
        assert(Seq::new(
            w,
            |i: int|
                align_mark(
                    if i < p.aligns.len() {
                        p.aligns[i]
                    } else {
                        Align::Unaligned
                    },
                ),
        ) =~= Seq::new(
            w,
            |i: int|
                align_mark(
                    if i < t.aligns.len() {
                        t.aligns[i]
                    } else {
                        Align::Unaligned
                    },
                ),
        ));
    }
    let a = p.body.map_values(|row: Seq<Seq<char>>| render_row(row, w));
    let b = t.body.map_values(|row: Seq<Seq<char>>| render_row(row, w));
    assert forall|r: int| 0 <= r < a.len() implies a[r] == b[r] by {
        let pr = p.body[r];
        let tr = t.body[r];
        assert(pr == pad_cells(tr, w));
        assert(Seq::new(w, |i: int| if i < pr.len() { pr[i] } else { seq![] }) =~= Seq::new(
            w,
            |i: int| if i < tr.len() { tr[i] } else { seq![] },
        ));
    }
    assert(a =~= b);
}

/// Whether the written blocks end on a table.
proof fn lemma_render_last(bs: Seq<SpecBlock>)
    ensures
        render_blocks(bs).1 == (bs.len() > 0 && bs.last() is Table),
{
}

/// A second pass's blocks write out as the first pass's.
proof fn lemma_render_reread(bs: Seq<SpecBlock>)
    ensures
        render_blocks(reread(bs)) == render_blocks(bs),
        bs.len() > 0 ==> reread(bs).len() > 0 && (reread(bs).last() is Table) == (bs.last() is Table)
            && (reread(bs).last() is Other) == (bs.last() is Other) && (bs.last() is Other
            ==> reread(bs).last() == bs.last()),
    decreases bs.len(),
{
    if bs.len() > 0 {
        let prev = bs.drop_last();
        lemma_render_reread(prev);
        let rp = reread(prev);
        let lines = render_blocks(prev).0;
        let last = bs.last();
        let me = match last {
            SpecBlock::Table(t) => SpecBlock::Table(padded(t)),
            _ => last,
        };
        if let SpecBlock::Table(t) = last {
            lemma_padded_render(t);
        }
        assert(written_lines(me) == written_lines(last));
        let split = bs.len() >= 2 && parted(bs[bs.len() - 2], last);
        if bs.len() >= 2 {
            assert(prev.last() == bs[bs.len() - 2]);
        }
        if split {
            let g = rp.push(SpecBlock::Gap(seq![seq![]]));
            assert(g.drop_last() =~= rp);
            let r2 = g.push(me);
            assert(r2.drop_last() =~= g);
            assert(!parted(g.last(), me));
            if rp.len() > 0 {
                assert(g[g.len() - 2] == rp.last());
                assert(!parted(rp.last(), SpecBlock::Gap(seq![seq![]])));
            }
            assert(render_blocks(g).0 =~= lines + seq![seq![]]);
            assert(render_blocks(r2).0 =~= lines + seq![seq![]] + written_lines(last));
        } else {
            let r2 = rp.push(me);
            assert(r2.drop_last() =~= rp);
            if rp.len() > 0 {
                assert(r2[r2.len() - 2] == rp.last());
                // The blocks around keep their kinds, and a verbatim run its lines.
                assert(parted(rp.last(), me) == parted(prev.last(), last));
            }
            assert(render_blocks(r2).0 =~= lines + written_lines(last));
        }
    }
}

/// What a second pass's blocks end with, as the first pass's do.
proof fn lemma_reread_ends(bs: Seq<SpecBlock>)
    ensures
        reread(bs).len() >= bs.len(),
        bs.len() == 1 ==> reread(bs).len() == 1,
        bs.len() > 0 ==> (reread(bs).last() is Table) == (bs.last() is Table) && (reread(
            bs,
        ).last() is Gap) == (bs.last() is Gap) && head_only_table(reread(bs).last()) == head_only_table(
            bs.last(),
        ),
        bs.len() > 0 && !(bs.last() is Table) ==> reread(bs).last() == bs.last(),
        bs.len() >= 2 && bs.last() is Gap ==> (reread(bs)[reread(bs).len() - 2] is Table) == (
        bs[bs.len() - 2] is Table),
    decreases bs.len(),
{
    if bs.len() > 0 {
        let prev = bs.drop_last();
        lemma_reread_ends(prev);
        if let SpecBlock::Table(t) = bs.last() {
            lemma_padded_render(t);
        }
        if bs.len() >= 2 {
            assert(prev.last() == bs[bs.len() - 2]);
        }
    }
}

/// A block added where merging would not take it.
proof fn lemma_no_merge_push(out: Seq<SpecBlock>, b: SpecBlock)
    requires
        no_merge(out),
        head_only_table(b) ==> !(out.len() >= 1 && out.last() is Table) && !(out.len() >= 2
            && out.last() is Gap && out[out.len() - 2] is Table),
    ensures
        no_merge(out.push(b)),
{
    let r = out.push(b);
    assert forall|j: int| 0 <= j < r.len() && head_only_table(#[trigger] r[j]) implies !(j >= 1 && r[j
        - 1] is Table) && !(j >= 2 && r[j - 1] is Gap && r[j - 2] is Table) by {
        if j < out.len() {
            assert(r[j] == out[j]);
        }
        if j >= 1 {
            assert(r[j - 1] == out[j - 1]);
        }
        if j >= 2 {
            assert(r[j - 2] == out[j - 2]);
        }
    }
}

/// Dropping the last block keeps blocks that merging leaves alone.
proof fn lemma_no_merge_prefix(bs: Seq<SpecBlock>)
    requires
        no_merge(bs),
        bs.len() > 0,
    ensures
        no_merge(bs.drop_last()),
{
    let prev = bs.drop_last();
    assert forall|j: int| 0 <= j < prev.len() && head_only_table(#[trigger] prev[j]) implies !(j >= 1
        && prev[j - 1] is Table) && !(j >= 2 && prev[j - 1] is Gap && prev[j - 2] is Table) by {
        assert(prev[j] == bs[j]);
        if j >= 1 {
            assert(prev[j - 1] == bs[j - 1]);
        }
        if j >= 2 {
            assert(prev[j - 2] == bs[j - 2]);
        }
    }
}

/// The last block of a second pass's blocks where merging would not take
/// it.
proof fn lemma_reread_no_merge_last(bs: Seq<SpecBlock>, rp: Seq<SpecBlock>)
    requires
        no_merge(bs),
        bs.len() > 0,
        no_merge(rp),
        (rp.len() > 0) == (bs.len() > 1),
        bs.len() > 1 ==> (rp.last() is Table) == (bs[bs.len() - 2] is Table) && (rp.last() is Gap) == (
        bs[bs.len() - 2] is Gap),
        bs.len() > 2 && bs[bs.len() - 2] is Gap ==> rp.len() >= 2 && (rp[rp.len() - 2] is Table)
            == (bs[bs.len() - 3] is Table),
        bs.len() == 2 ==> rp.len() == 1,
    ensures
        no_merge(reread_step(rp, bs)),
{
    let last = bs.last();
    assert(last == bs[bs.len() - 1]);
    match last {
        SpecBlock::Table(t) => {
            assert(padded(t).body.len() == t.body.len());
            if bs.len() >= 2 && parted(bs[bs.len() - 2], last) {
                if bs[bs.len() - 2] is Table {
                    assert(!head_only_table(last));
                }
                let g = rp.push(SpecBlock::Gap(seq![seq![]]));
                lemma_no_merge_push(rp, SpecBlock::Gap(seq![seq![]]));
                assert(g[g.len() - 2] == rp.last());
                lemma_no_merge_push(g, SpecBlock::Table(padded(t)));
            } else {
                lemma_no_merge_push(rp, SpecBlock::Table(padded(t)));
            }
        },
        _ => {
            if bs.len() >= 2 && parted(bs[bs.len() - 2], last) {
                let g = rp.push(SpecBlock::Gap(seq![seq![]]));
                lemma_no_merge_push(rp, SpecBlock::Gap(seq![seq![]]));
                lemma_no_merge_push(g, last);
            } else {
                lemma_no_merge_push(rp, last);
            }
        },
    }
}

/// A second pass's blocks are left alone by merging.
proof fn lemma_reread_no_merge(bs: Seq<SpecBlock>)
    requires
        no_merge(bs),
    ensures
        no_merge(reread(bs)),
    decreases bs.len(),
{
    if bs.len() > 0 {
        let prev = bs.drop_last();
        lemma_no_merge_prefix(bs);
        lemma_reread_no_merge(prev);
        lemma_reread_ends(prev);
        if bs.len() >= 2 {
            assert(prev.last() == bs[bs.len() - 2]);
        }
        if bs.len() >= 3 {
            assert(prev[prev.len() - 2] == bs[bs.len() - 3]);
        }
        lemma_reread_no_merge_last(bs, reread(prev));
    }
}

// ----- reading written blocks back -----


/// The lines written for block `j`: an empty line first when it is a table
/// after a table.
pub open spec fn block_segment(m: Seq<SpecBlock>, j: int) -> Seq<Seq<char>> {
    (if j >= 1 && parted(m[j - 1], m[j]) {
        seq![seq![]]
    } else {
        Seq::<Seq<char>>::empty()
    }) + written_lines(m[j])
}

pub(crate) proof fn lemma_render_take(m: Seq<SpecBlock>, j: int)
    requires
        0 <= j < m.len(),
    ensures
        render_blocks(m.take(j + 1)).0 == render_blocks(m.take(j)).0 + block_segment(m, j),
{
    let a = m.take(j + 1);
    assert(a.drop_last() =~= m.take(j));
    assert(a.last() == m[j]);
    if j >= 1 {
        assert(a[j - 1] == m[j - 1]);
    }
}

/// The lines written for the first blocks begin the lines written for more.
pub(crate) proof fn lemma_render_prefix(m: Seq<SpecBlock>, j: int, k: int)
    requires
        0 <= j <= k <= m.len(),
    ensures
        render_blocks(m.take(j)).0.len() <= render_blocks(m.take(k)).0.len(),
        render_blocks(m.take(k)).0.take(render_blocks(m.take(j)).0.len() as int) == render_blocks(
            m.take(j),
        ).0,
    decreases k - j,
{
    if j < k {
        lemma_render_prefix(m, j, k - 1);
        lemma_render_take(m, k - 1);
        let a = render_blocks(m.take(j)).0;
        let b = render_blocks(m.take(k - 1)).0;
        let c = render_blocks(m.take(k)).0;
        assert(c.take(a.len() as int) =~= b.take(a.len() as int));
    } else {
        assert(render_blocks(m.take(k)).0.take(render_blocks(m.take(j)).0.len() as int) =~= render_blocks(
            m.take(j),
        ).0);
    }
}

/// Every written table line starts with a pipe.
proof fn lemma_rendered_pipe_led(t: SpecTable)
    ensures
        forall|k: int| 0 <= k < render_table(t).len() ==> pipe_led(#[trigger] render_table(t)[k]),
        render_table(t).len() >= 2,
{
    let w = table_width(t);
    let rt = render_table(t);
    assert forall|k: int| 0 <= k < rt.len() implies pipe_led(#[trigger] rt[k]) by {
        if k == 0 {
            assert(rt[k] == render_row(t.header, w));
        } else if k == 1 {
            assert(rt[k] == render_separator(t.aligns, w));
        } else {
            assert(rt[k] == render_row(t.body[k - 2], w));
        }
    }
}

/// A blank line is no pipe line.
proof fn lemma_blank_not_pipe(l: Seq<char>)
    requires
        is_blank_line(l),
    ensures
        !pipe_led(l),
{
    if l.len() > 0 {
        assert(is_ws(l[0]));
    }
}

/// A run of pipe lines ending where the pipe lines do.
proof fn lemma_pipe_run_exact(lines: Seq<(Seq<char>, int)>, a: int, b: int)
    requires
        0 <= a <= b <= lines.len(),
        forall|k: int| a <= k < b ==> pipe_led((#[trigger] lines[k]).0),
        b == lines.len() || !pipe_led(lines[b].0),
    ensures
        pipe_run_end(lines, seq![], a) == b,
    decreases b - a,
{
    if a < b {
        lemma_pipe_run_exact(lines, a + 1, b);
    }
}

/// Reading back a written table: its lines are one run of pipe lines, read
/// as the table padded.
proof fn lemma_reread_table(lines: Seq<(Seq<char>, int)>, p: int, acc: Seq<SpecBlock>, t: SpecTable)
    requires
        0 <= p,
        p + render_table(t).len() <= lines.len(),
        forall|q: int| 0 <= q < render_table(t).len() ==> #[trigger] lines[p + q].0 == render_table(t)[q],
        p + render_table(t).len() == lines.len() || !pipe_led(lines[p + render_table(t).len()].0),
        cells_row_safe(t),
    ensures
        parse_blocks_from(lines, seq![], p, acc) == parse_blocks_from(
            lines,
            seq![],
            p + render_table(t).len(),
            acc.push(SpecBlock::Table(padded(t))),
        ),
{
    let rt = render_table(t);
    let r = rt.len() as int;
    lemma_rendered_pipe_led(t);
    assert forall|k: int| p <= k < p + r implies pipe_led((#[trigger] lines[k]).0) by {
        assert(lines[p + (k - p)].0 == rt[k - p]);
    }
    lemma_pipe_run_exact(lines, p, p + r);
    lemma_pipe_run_end(lines, seq![], p);
    assert(lines[p + 0].0 == rt[0]);
    assert(is_pipe_line(lines[p], seq![]));
    let run = lines.subrange(p, p + r).map_values(|l: (Seq<char>, int)| l.0);
    assert(run =~= rt) by {
        assert forall|q: int| 0 <= q < r implies run[q] == rt[q] by {
            assert(lines[p + q].0 == rt[q]);
        }
    }
    crate::rules::tables::table_round_trip(t);
    assert(padded(t).body =~= t.body.map_values(|row: Seq<Seq<char>>| pad_cells(row, table_width(t))));
    assert(parse_table(run) == Some(padded(t)));
}

proof fn lemma_reread_gap_from(
    lines: Seq<(Seq<char>, int)>,
    p: int,
    acc: Seq<SpecBlock>,
    v: Seq<Seq<char>>,
    k: int,
)
    requires
        0 <= p,
        1 <= k <= v.len(),
        p + v.len() <= lines.len(),
        forall|q: int| 0 <= q < v.len() ==> #[trigger] lines[p + q].0 == v[q],
        forall|q: int| 0 <= q < v.len() ==> is_blank_line(#[trigger] v[q]),
    ensures
        parse_blocks_from(lines, seq![], p + k, acc.push(SpecBlock::Gap(v.take(k))))
            == parse_blocks_from(lines, seq![], p + v.len(), acc.push(SpecBlock::Gap(v))),
    decreases v.len() - k,
{
    if k < v.len() {
        let x = v[k];
        assert(lines[p + k].0 == x);
        lemma_blank_not_pipe(x);
        assert(!is_pipe_line(lines[p + k], seq![]));
        assert(!crate::engine::ignore::in_ranges(seq![], lines[p + k].1));
        let a1 = acc.push(SpecBlock::Gap(v.take(k)));
        assert(push_gap(a1, x) == acc.push(SpecBlock::Gap(v.take(k + 1)))) by {
            assert(v.take(k).push(x) =~= v.take(k + 1));
            assert(a1.update(a1.len() - 1, SpecBlock::Gap(v.take(k).push(x))) =~= acc.push(
                SpecBlock::Gap(v.take(k + 1)),
            ));
        }
        lemma_reread_gap_from(lines, p, acc, v, k + 1);
    } else {
        assert(v.take(k) =~= v);
    }
}

/// Reading back a written gap.
proof fn lemma_reread_gap(lines: Seq<(Seq<char>, int)>, p: int, acc: Seq<SpecBlock>, v: Seq<Seq<char>>)
    requires
        0 <= p,
        v.len() >= 1,
        p + v.len() <= lines.len(),
        forall|q: int| 0 <= q < v.len() ==> #[trigger] lines[p + q].0 == v[q],
        forall|q: int| 0 <= q < v.len() ==> is_blank_line(#[trigger] v[q]),
        !(acc.len() > 0 && acc.last() is Gap),
    ensures
        parse_blocks_from(lines, seq![], p, acc) == parse_blocks_from(
            lines,
            seq![],
            p + v.len(),
            acc.push(SpecBlock::Gap(v)),
        ),
{
    let x = v[0];
    assert(lines[p + 0].0 == x);
    lemma_blank_not_pipe(x);
    assert(!is_pipe_line(lines[p], seq![]));
    assert(!crate::engine::ignore::in_ranges(seq![], lines[p].1));
    assert(seq![x] =~= v.take(1));
    assert(push_gap(acc, x) == acc.push(SpecBlock::Gap(v.take(1))));
    lemma_reread_gap_from(lines, p, acc, v, 1);
}

/// The blocks read so far while reading back a verbatim block.
pub open spec fn other_state(acc: Seq<SpecBlock>, v: Seq<Seq<char>>, k: int) -> Seq<SpecBlock> {
    if k == 0 {
        acc
    } else {
        acc.push(SpecBlock::Other(v.take(k)))
    }
}

/// Reading back one line of a verbatim block that is no pipe line.
proof fn lemma_other_line_step(
    lines: Seq<(Seq<char>, int)>,
    p: int,
    acc: Seq<SpecBlock>,
    v: Seq<Seq<char>>,
    k: int,
)
    requires
        0 <= p,
        0 <= k < v.len(),
        p + v.len() <= lines.len(),
        lines[p + k].0 == v[k],
        other_ok(v),
        !(acc.len() > 0 && acc.last() is Other),
        !pipe_led(v[k]),
    ensures
        parse_blocks_from(lines, seq![], p + k, other_state(acc, v, k)) == parse_blocks_from(
            lines,
            seq![],
            p + k + 1,
            other_state(acc, v, k + 1),
        ),
{
    let st = other_state(acc, v, k);
    let x = v[k];
    assert(!crate::engine::ignore::in_ranges(seq![], lines[p + k].1));
    assert(!is_pipe_line(lines[p + k], seq![]));
    assert(!is_blank_line(x));
    lemma_convert_offset(x, lines[p + k].1, 0);
    assert(convert_tab_line(x, lines[p + k].1, seq![]) is None);
    assert(push_other(st, x) == other_state(acc, v, k + 1)) by {
        assert(v.take(k + 1) =~= v.take(k).push(x));
        if k == 0 {
            assert(seq![x] =~= v.take(1));
        } else {
            assert(st.update(st.len() - 1, SpecBlock::Other(v.take(k).push(x))) =~= acc.push(
                SpecBlock::Other(v.take(k + 1)),
            ));
        }
    }
}

/// Where a run of pipe lines of a verbatim block ends, read back.
proof fn lemma_other_run_end(lines: Seq<(Seq<char>, int)>, p: int, v: Seq<Seq<char>>, k: int)
    requires
        0 <= p,
        0 <= k < v.len(),
        p + v.len() <= lines.len(),
        forall|q: int| 0 <= q < v.len() ==> #[trigger] lines[p + q].0 == v[q],
        pipe_led(v.last()) ==> p + v.len() == lines.len() || !pipe_led(lines[p + v.len()].0),
        pipe_led(v[k]),
    ensures
        k < pipe_end_in(v, k) <= v.len(),
        pipe_end_in(v, k) == v.len() || !pipe_led(v[pipe_end_in(v, k)]),
        pipe_run_end(lines, seq![], p + k) == p + pipe_end_in(v, k),
        lines.subrange(p + k, p + pipe_end_in(v, k)).map_values(|l: (Seq<char>, int)| l.0)
            == v.subrange(k, pipe_end_in(v, k)),
{
    lemma_pipe_end_in(v, k);
    let e = pipe_end_in(v, k);
    assert forall|q: int| p + k <= q < p + e implies pipe_led((#[trigger] lines[q]).0) by {
        assert(lines[p + (q - p)].0 == v[q - p]);
    }
    if e == v.len() {
        assert(v.last() == v[e - 1]);
    } else {
        assert(lines[p + e].0 == v[e]);
    }
    lemma_pipe_run_exact(lines, p + k, p + e);
    let run = lines.subrange(p + k, p + e).map_values(|l: (Seq<char>, int)| l.0);
    assert forall|q: int| 0 <= q < e - k implies run[q] == v.subrange(k, e)[q] by {
        assert(lines[p + (k + q)].0 == v[k + q]);
    }
    assert(run =~= v.subrange(k, e));
}

/// Reading back a run of pipe lines of a verbatim block.
proof fn lemma_other_run_step(
    lines: Seq<(Seq<char>, int)>,
    p: int,
    acc: Seq<SpecBlock>,
    v: Seq<Seq<char>>,
    k: int,
)
    requires
        0 <= p,
        0 <= k < v.len(),
        p + v.len() <= lines.len(),
        forall|q: int| 0 <= q < v.len() ==> #[trigger] lines[p + q].0 == v[q],
        other_ok(v),
        !(acc.len() > 0 && acc.last() is Other),
        pipe_led(v.last()) ==> p + v.len() == lines.len() || !pipe_led(lines[p + v.len()].0),
        pipe_led(v[k]),
        k == 0 || !pipe_led(v[k - 1]),
    ensures
        k < pipe_end_in(v, k) <= v.len(),
        pipe_end_in(v, k) == v.len() || !pipe_led(v[pipe_end_in(v, k)]),
        parse_blocks_from(lines, seq![], p + k, other_state(acc, v, k)) == parse_blocks_from(
            lines,
            seq![],
            p + pipe_end_in(v, k),
            other_state(acc, v, pipe_end_in(v, k)),
        ),
{
    let st = other_state(acc, v, k);
    lemma_other_run_end(lines, p, v, k);
    let e = pipe_end_in(v, k);
    assert(lines[p + k].0 == v[k]);
    assert(is_pipe_line(lines[p + k], seq![]));
    let run = v.subrange(k, e);
    assert(parse_table(run) is None);
    lemma_pipe_run_end(lines, seq![], p + k);
    assert(parse_blocks_from(lines, seq![], p + k, st) == parse_blocks_from(
        lines,
        seq![],
        p + e,
        push_others(st, run),
    ));
    lemma_push_others(st, run);
    if k == 0 {
        assert(run =~= v.take(e));
    } else {
        assert(v.take(k) + run =~= v.take(e));
        assert(st.update(st.len() - 1, SpecBlock::Other(v.take(k) + run)) =~= acc.push(
            SpecBlock::Other(v.take(e)),
        ));
    }
}

proof fn lemma_reread_other_from(
    lines: Seq<(Seq<char>, int)>,
    p: int,
    acc: Seq<SpecBlock>,
    v: Seq<Seq<char>>,
    k: int,
)
    requires
        0 <= p,
        0 <= k <= v.len(),
        p + v.len() <= lines.len(),
        forall|q: int| 0 <= q < v.len() ==> #[trigger] lines[p + q].0 == v[q],
        other_ok(v),
        !(acc.len() > 0 && acc.last() is Other),
        pipe_led(v.last()) ==> p + v.len() == lines.len() || !pipe_led(lines[p + v.len()].0),
        k == v.len() || k == 0 || !pipe_led(v[k - 1]) || !pipe_led(v[k]),
    ensures
        parse_blocks_from(lines, seq![], p + k, other_state(acc, v, k)) == parse_blocks_from(
            lines,
            seq![],
            p + v.len(),
            acc.push(SpecBlock::Other(v)),
        ),
    decreases v.len() - k,
{
    if k < v.len() {
        if !pipe_led(v[k]) {
            lemma_other_line_step(lines, p, acc, v, k);
            lemma_reread_other_from(lines, p, acc, v, k + 1);
        } else {
            lemma_other_run_step(lines, p, acc, v, k);
            lemma_reread_other_from(lines, p, acc, v, pipe_end_in(v, k));
        }
    } else {
        assert(v.take(k) =~= v);
    }
}

/// Reading back a written verbatim block.
proof fn lemma_reread_other(lines: Seq<(Seq<char>, int)>, p: int, acc: Seq<SpecBlock>, v: Seq<Seq<char>>)
    requires
        0 <= p,
        p + v.len() <= lines.len(),
        forall|q: int| 0 <= q < v.len() ==> #[trigger] lines[p + q].0 == v[q],
        other_ok(v),
        !(acc.len() > 0 && acc.last() is Other),
        pipe_led(v.last()) ==> p + v.len() == lines.len() || !pipe_led(lines[p + v.len()].0),
    ensures
        parse_blocks_from(lines, seq![], p, acc) == parse_blocks_from(
            lines,
            seq![],
            p + v.len(),
            acc.push(SpecBlock::Other(v)),
        ),
{
    lemma_reread_other_from(lines, p, acc, v, 0);
}

// ----- the second pass -----


/// Every block writes some line.
proof fn lemma_segment_nonempty(m: Seq<SpecBlock>, j: int)
    requires
        blocks_ok(m),
        0 <= j < m.len(),
    ensures
        block_segment(m, j).len() > 0,
{
    assert(block_ok(m[j]));
    match m[j] {
        SpecBlock::Table(t) => {
            lemma_rendered_pipe_led(t);
        },
        _ => {},
    }
    assert(block_segment(m, j).len() >= written_lines(m[j]).len());
}

/// Where the lines written for block `j` stand, and what follows them.
#[verifier::spinoff_prover]
#[verifier::rlimit(60)]
proof fn lemma_segment_place(m: Seq<SpecBlock>, j: int)
    requires
        blocks_ok(m),
        0 <= j < m.len(),
    ensures
        ({
            let o = render_blocks(m).0;
            let i = render_blocks(m.take(j)).0.len() as int;
            let seg = block_segment(m, j);
            let i2 = render_blocks(m.take(j + 1)).0.len() as int;
            &&& i2 == i + seg.len()
            &&& i2 <= o.len()
            &&& forall|q: int| 0 <= q < seg.len() ==> o[i + q] == #[trigger] seg[q]
            &&& (j + 1 == m.len() ==> i2 == o.len())
            &&& (j + 1 < m.len() ==> i2 < o.len() && o[i2] == block_segment(m, j + 1)[0])
        }),
{
    let o = render_blocks(m).0;
    lemma_render_take(m, j);
    lemma_render_prefix(m, j + 1, m.len() as int);
    assert(m.take(m.len() as int) =~= m);
    let i = render_blocks(m.take(j)).0.len() as int;
    let seg = block_segment(m, j);
    let pre2 = render_blocks(m.take(j + 1)).0;
    assert forall|q: int| 0 <= q < seg.len() implies o[i + q] == #[trigger] seg[q] by {
        assert(o.take(pre2.len() as int)[i + q] == pre2[i + q]);
    }
    if j + 1 < m.len() {
        lemma_render_take(m, j + 1);
        lemma_render_prefix(m, j + 2, m.len() as int);
        let seg2 = block_segment(m, j + 1);
        let pre3 = render_blocks(m.take(j + 2)).0;
        lemma_segment_nonempty(m, j + 1);
        assert(o.take(pre3.len() as int)[pre2.len() as int] == pre3[pre2.len() as int]);
    }
}

/// The blocks a second pass has read once the lines written for block `j`
/// are read.
#[verifier::rlimit(80)]
#[verifier::spinoff_prover]
proof fn lemma_reread_step(lines: Seq<(Seq<char>, int)>, m: Seq<SpecBlock>, j: int)
    requires
        blocks_ok(m),
        0 <= j < m.len(),
        lines.len() == render_blocks(m).0.len(),
        forall|k: int| 0 <= k < lines.len() ==> #[trigger] lines[k].0 == render_blocks(m).0[k],
    ensures
        parse_blocks_from(lines, seq![], render_blocks(m.take(j)).0.len() as int, reread(m.take(j)))
            == parse_blocks_from(
            lines,
            seq![],
            render_blocks(m.take(j + 1)).0.len() as int,
            reread(m.take(j + 1)),
        ),
{
    let o = render_blocks(m).0;
    let i = render_blocks(m.take(j)).0.len() as int;
    let seg = block_segment(m, j);
    let i2 = render_blocks(m.take(j + 1)).0.len() as int;
    lemma_segment_place(m, j);
    let acc = reread(m.take(j));
    lemma_reread_ends(m.take(j));
    assert(m.take(j + 1).drop_last() =~= m.take(j));
    assert(m.take(j + 1).last() == m[j]);
    assert(reread(m.take(j + 1)) == reread_step(acc, m.take(j + 1)));
    let split = j >= 1 && parted(m[j - 1], m[j]);
    if j >= 1 {
        assert(m.take(j).last() == m[j - 1]);
        assert(m.take(j + 1)[j - 1] == m[j - 1]);
        assert(adjacent_ok(m[j - 1], m[j]));
    }
    assert(block_ok(m[j]));
    let w = written_lines(m[j]);
    let lead: Seq<Seq<char>> = if split {
        seq![seq![]]
    } else {
        Seq::<Seq<char>>::empty()
    };
    assert(seg == lead + w);
    let p = i + lead.len();
    assert forall|q: int| 0 <= q < w.len() implies #[trigger] lines[p + q].0 == w[q] by {
        assert(lines[i + (lead.len() + q)].0 == seg[lead.len() + q]);
    }
    // What follows the written lines is no pipe line where it matters.
    if j + 1 < m.len() {
        assert(adjacent_ok(m[j], m[j + 1]));
        assert(block_ok(m[j + 1]));
        let seg2 = block_segment(m, j + 1);
        assert(lines[i2].0 == seg2[0]);
        if parted(m[j], m[j + 1]) {
            assert(seg2[0] == Seq::<char>::empty());
        } else {
            match m[j + 1] {
                SpecBlock::Gap(v) => {
                    assert(seg2[0] == v[0]);
                    lemma_blank_not_pipe(v[0]);
                },
                SpecBlock::Other(v) => {
                    assert(seg2[0] == v[0]);
                },
                SpecBlock::Table(t) => {
                    lemma_rendered_pipe_led(t);
                    assert(seg2[0] == render_table(t)[0]);
                },
            }
        }
    }
    // The acc the block is read into.
    let acc1 = if split {
        acc.push(SpecBlock::Gap(seq![Seq::<char>::empty()]))
    } else {
        acc
    };
    if split {
        let e = Seq::<char>::empty();
        assert(lines[i + 0].0 == seg[0]);
        assert(seg[0] == e);
        assert(is_blank_line(e));
        lemma_blank_not_pipe(e);
        assert(!is_pipe_line(lines[i], seq![]));
        assert(!crate::engine::ignore::in_ranges(seq![], lines[i].1));
        assert(acc.last() is Table || acc.last() is Other);
        assert(push_gap(acc, e) == acc1);
        assert(parse_blocks_from(lines, seq![], i, acc) == parse_blocks_from(lines, seq![], i + 1, acc1));
    }
    match m[j] {
        SpecBlock::Table(t) => {
            lemma_reread_table(lines, p, acc1, t);
        },
        SpecBlock::Gap(v) => {
            lemma_reread_gap(lines, p, acc1, v);
        },
        SpecBlock::Other(v) => {
            if pipe_led(v.last()) && j + 1 < m.len() {
                assert(!(m[j + 1] is Other));
                assert(v.last() == v[v.len() - 1]);
            }
            lemma_reread_other(lines, p, acc1, v);
        },
    }
}

/// A second pass reads the written blocks back, block by block.
proof fn lemma_reread_parse(lines: Seq<(Seq<char>, int)>, m: Seq<SpecBlock>, j: int)
    requires
        blocks_ok(m),
        0 <= j <= m.len(),
        lines.len() == render_blocks(m).0.len(),
        forall|k: int| 0 <= k < lines.len() ==> #[trigger] lines[k].0 == render_blocks(m).0[k],
    ensures
        parse_blocks_from(lines, seq![], 0, seq![]) == parse_blocks_from(
            lines,
            seq![],
            render_blocks(m.take(j)).0.len() as int,
            reread(m.take(j)),
        ),
    decreases j,
{
    if j > 0 {
        lemma_reread_parse(lines, m, j - 1);
        lemma_reread_step(lines, m, j - 1);
    } else {
        assert(m.take(0) =~= Seq::<SpecBlock>::empty());
    }
}

// ----- the written lines -----

/// Reading lines always leaves some block when there was a line to read or
/// a block already.
proof fn lemma_parse_nonempty(lines: Seq<(Seq<char>, int)>, i: int, acc: Seq<SpecBlock>)
    requires
        0 <= i,
    ensures
        (acc.len() > 0 || i < lines.len()) ==> parse_blocks_from(lines, seq![], i, acc).len() > 0,
    decreases lines.len() - i,
{
    if i < lines.len() {
        if is_pipe_line(lines[i], seq![]) {
            lemma_pipe_run_end(lines, seq![], i);
            let end = pipe_run_end(lines, seq![], i);
            let run = lines.subrange(i, end).map_values(|l: (Seq<char>, int)| l.0);
            let acc2 = match parse_table(run) {
                Some(t) => acc.push(SpecBlock::Table(t)),
                None => push_others(acc, run),
            };
            lemma_push_others(acc, run);
            lemma_parse_nonempty(lines, end, acc2);
        } else {
            let (content, offset) = lines[i];
            let acc2 = if crate::engine::ignore::in_ranges(seq![], offset) {
                push_other(acc, content)
            } else if is_blank_line(content) {
                push_gap(acc, content)
            } else {
                match convert_tab_line(content, offset, seq![]) {
                    Some(cells) => acc.push(SpecBlock::Table(head_only(cells))),
                    None => push_other(acc, content),
                }
            };
            lemma_parse_nonempty(lines, i + 1, acc2);
        }
    }
}

proof fn lemma_row_one_line(cells: Seq<Seq<char>>, w: nat)
    requires
        forall|i: int| 0 <= i < cells.len() ==> no_newline(#[trigger] cells[i]),
    ensures
        no_newline(render_row(cells, w)),
{
    let padded = Seq::new(w, |i: int| if i < cells.len() { cells[i] } else { seq![] });
    assert forall|i: int| 0 <= i < padded.len() implies no_newline(#[trigger] padded[i]) by {}
    assert(no_newline(seq![' ', '|', ' ']));
    lemma_join_one_line(padded, seq![' ', '|', ' ']);
    assert(no_newline(seq!['|', ' ']));
    assert(no_newline(seq![' ', '|']));
    lemma_no_newline_concat(seq!['|', ' '], join(padded, seq![' ', '|', ' ']));
    lemma_no_newline_concat(seq!['|', ' '] + join(padded, seq![' ', '|', ' ']), seq![' ', '|']);
}

proof fn lemma_separator_one_line(aligns: Seq<Align>, w: nat)
    ensures
        no_newline(render_separator(aligns, w)),
{
    let padded = Seq::new(
        w,
        |i: int| align_mark(if i < aligns.len() { aligns[i] } else { Align::Unaligned }),
    );
    assert forall|i: int| 0 <= i < padded.len() implies no_newline(#[trigger] padded[i]) by {}
    assert(no_newline(seq![' ', '|', ' ']));
    lemma_join_one_line(padded, seq![' ', '|', ' ']);
    assert(no_newline(seq!['|', ' ']));
    assert(no_newline(seq![' ', '|']));
    lemma_no_newline_concat(seq!['|', ' '], join(padded, seq![' ', '|', ' ']));
    lemma_no_newline_concat(seq!['|', ' '] + join(padded, seq![' ', '|', ' ']), seq![' ', '|']);
}

/// Whether no line a block holds, and no cell of a table, has a line break.
pub open spec fn block_one_line(b: SpecBlock) -> bool {
    match b {
        SpecBlock::Table(t) => table_one_line(t),
        SpecBlock::Gap(v) => forall|k: int| 0 <= k < v.len() ==> no_newline(#[trigger] v[k]),
        SpecBlock::Other(v) => forall|k: int| 0 <= k < v.len() ==> no_newline(#[trigger] v[k]),
    }
}

pub open spec fn blocks_one_line(bs: Seq<SpecBlock>) -> bool {
    forall|j: int| 0 <= j < bs.len() ==> block_one_line(#[trigger] bs[j])
}

/// Blocks without line breaks write lines without line breaks.
pub(crate) proof fn lemma_render_one_line(m: Seq<SpecBlock>)
    requires
        blocks_one_line(m),
    ensures
        forall|k: int| 0 <= k < render_blocks(m).0.len() ==> no_newline(#[trigger] render_blocks(m).0[k]),
    decreases m.len(),
{
    if m.len() > 0 {
        let j = m.len() - 1;
        let prev = m.take(j);
        assert(m.take(j + 1) =~= m);
        assert forall|q: int| 0 <= q < prev.len() implies block_one_line(#[trigger] prev[q]) by {
            assert(prev[q] == m[q]);
        }
        lemma_render_one_line(prev);
        lemma_render_take(m, j);
        let a = render_blocks(prev).0;
        let seg = block_segment(m, j);
        assert(block_one_line(m[j]));
        assert forall|q: int| 0 <= q < seg.len() implies no_newline(#[trigger] seg[q]) by {
            let lead: Seq<Seq<char>> = if j >= 1 && parted(m[j - 1], m[j]) {
                seq![seq![]]
            } else {
                Seq::<Seq<char>>::empty()
            };
            if q < lead.len() {
                assert(seg[q] == Seq::<char>::empty());
            } else {
                assert(seg[q] == written_lines(m[j])[q - lead.len()]);
                match m[j] {
                    SpecBlock::Table(t) => {
                        let w = table_width(t);
                        let r = q - lead.len();
                        let rt = render_table(t);
                        if r == 0 {
                            assert(rt[r] == render_row(t.header, w));
                            lemma_row_one_line(t.header, w);
                        } else if r == 1 {
                            assert(rt[r] == render_separator(t.aligns, w));
                            lemma_separator_one_line(t.aligns, w);
                        } else {
                            assert(rt[r] == render_row(t.body[r - 2], w));
                            assert forall|i: int| 0 <= i < t.body[r - 2].len() implies no_newline(
                                #[trigger] t.body[r - 2][i],
                            ) by {}
                            lemma_row_one_line(t.body[r - 2], w);
                        }
                    },
                    _ => {},
                }
            }
        }
        let o = render_blocks(m).0;
        assert forall|k: int| 0 <= k < o.len() implies no_newline(#[trigger] o[k]) by {
            if k < a.len() {
                assert(o[k] == a[k]);
            } else {
                assert(o[k] == seg[k - a.len()]);
            }
        }
    }
}

/// The last line written is the last block's last line.
proof fn lemma_render_last_line(m: Seq<SpecBlock>)
    requires
        blocks_ok(m),
        m.len() > 0,
    ensures
        written_lines(m.last()).len() > 0,
        render_blocks(m).0.len() > 0,
        render_blocks(m).0.last() == written_lines(m.last()).last(),
{
    let j = m.len() - 1;
    assert(m.take(j + 1) =~= m);
    lemma_render_take(m, j);
    assert(m.last() == m[j]);
    assert(block_ok(m[j]));
    if let SpecBlock::Table(t) = m[j] {
        lemma_rendered_pipe_led(t);
    }
    let seg = block_segment(m, j);
    assert(seg.last() == written_lines(m[j]).last());
}

/// Converting and normalizing tables twice is doing it once, on a note
/// without code.
#[verifier::rlimit(60)]
#[verifier::spinoff_prover]
pub proof fn tables_idempotent(s: Seq<char>)
    ensures
        spec_tables(spec_tables(s, seq![]), seq![]) == spec_tables(s, seq![]),
{
    let lines1 = lines_with_offsets(s);
    lemma_line_pieces_wf(s);
    assert forall|k: int| 0 <= k < lines1.len() implies no_newline(#[trigger] lines1[k].0) by {
        assert(lines1[k].0 == line_pieces(s)[k].0);
    }
    assert(parse_inv(lines1, 0, seq![]));
    lemma_parse_ok(lines1, 0, seq![]);
    let b = parse_blocks_from(lines1, seq![], 0, seq![]);
    lemma_merge_ok(b);
    let m = merge_tables(b);
    let o = render_blocks(m).0;
    let fb = final_break(s);
    let out1 = join(o, seq!['\n']) + fb;
    assert(spec_tables(s, seq![]) == out1);
    lemma_last_line(s);
    if m.len() == 0 {
        lemma_parse_nonempty(lines1, 0, seq![]);
        assert(b.len() == 0);
        assert(s.len() == 0);
        assert(o =~= Seq::<Seq<char>>::empty());
        assert(out1 =~= s);
    } else {
        assert forall|j: int| 0 <= j < m.len() implies block_one_line(#[trigger] m[j]) by {
            assert(block_ok(m[j]));
        }
        lemma_render_one_line(m);
        lemma_render_last_line(m);
        let brk = fb.len() > 0;
        assert(fb == if brk {
            seq!['\n']
        } else {
            Seq::<char>::empty()
        });
        // The last line written is empty only before a line break.
        assert(o.last().len() > 0 || brk) by {
            assert(block_ok(m[m.len() - 1]));
            assert(m.last() == m[m.len() - 1]);
            match m.last() {
                SpecBlock::Table(t) => {
                    lemma_rendered_pipe_led(t);
                    assert(render_table(t).last() == render_table(t)[render_table(t).len() - 1]);
                },
                SpecBlock::Other(v) => {
                    assert(v.last() == v[v.len() - 1]);
                },
                SpecBlock::Gap(v) => {
                    assert(b.len() > 0);
                    assert(!(b.last() is Table));
                    assert(m.last() == b.last());
                    assert(v.last() == lines1[lines1.len() - 1].0);
                    assert(lines1[lines1.len() - 1].0 == line_text(s, line_bounds(s).last()));
                },
            }
        }
        assert forall|k: int| 0 <= k < o.len() implies no_newline(#[trigger] o[k]) by {}
        lemma_join_lines(o, brk);
        let p = joined_pieces(o, brk);
        lemma_line_pieces_of_render(p);
        lemma_line_pieces_last(out1);
        assert(normalize(p) == p) by {
            assert(p.last() == p[p.len() - 1]);
            assert(p[p.len() - 1].0 == o[o.len() - 1]);
        }
        let lines2 = lines_with_offsets(out1);
        assert(lines2.len() == o.len());
        assert forall|k: int| 0 <= k < lines2.len() implies #[trigger] lines2[k].0 == o[k] by {
            assert(line_pieces(out1)[k] == p[k]);
        }
        lemma_reread_parse(lines2, m, m.len() as int);
        assert(m.take(m.len() as int) =~= m);
        assert(parse_blocks_from(lines2, seq![], 0, seq![]) == reread(m));
        lemma_reread_no_merge(m);
        lemma_merge_fixed(reread(m));
        lemma_render_reread(m);
        if !brk {
            lemma_join_last(o);
            assert(no_newline(o[o.len() - 1]));
            assert(o.last()[o.last().len() - 1] != '\n');
        }
        assert(final_break(out1) == fb);
    }
}

} // verus!
