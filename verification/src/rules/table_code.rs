//! What the tables rule does with lines of code: it keeps each of them, as
//! it was, among the lines it writes.

use crate::engine::ignore::in_ranges;
use crate::lines::{
    code_line, joined_pieces, keeps_line_at, lemma_join_lines, lemma_line_pieces_last,
    lemma_line_pieces_of_render, lemma_line_pieces_wf, line_pieces, no_newline, normalize,
};
use crate::rules::table_reread::{
    block_one_line, block_segment, blocks_one_line, lemma_converted_one_line,
    lemma_parsed_table_one_line, lemma_render_one_line, lemma_render_prefix, lemma_render_take,
    table_one_line,
};
use crate::rules::tables::{
    convert_tab_line, head_only, is_pipe_line, lemma_pipe_run_end, lines_with_offsets, merge_step,
    merge_tables, parse_blocks_from, parse_table, pipe_run_end, push_gap, push_other, push_others,
    render_blocks, spec_tables, written_lines, SpecBlock, SpecTable,
};
use crate::scan::{final_break, is_blank_line, join};
use crate::text::{byte_offset, line_bounds, line_text};
use vstd::prelude::*;

verus! {

/// Whether `c` stands among the verbatim lines of the blocks.
pub open spec fn holds_verbatim(bs: Seq<SpecBlock>, c: Seq<char>) -> bool {
    exists|j: int, q: int|
        0 <= j < bs.len() && bs[j] is Other && 0 <= q < bs[j]->Other_0.len()
            && #[trigger] bs[j]->Other_0[q] == c
}

/// A block added after the others keeps what they hold.
proof fn lemma_push_keeps(bs: Seq<SpecBlock>, b: SpecBlock)
    requires
        blocks_one_line(bs),
        block_one_line(b),
    ensures
        blocks_one_line(bs.push(b)),
        forall|c: Seq<char>| holds_verbatim(bs, c) ==> #[trigger] holds_verbatim(bs.push(b), c),
        b is Other ==> forall|q: int|
            0 <= q < b->Other_0.len() ==> holds_verbatim(bs.push(b), #[trigger] b->Other_0[q]),
{
    let r = bs.push(b);
    let n = bs.len() as int;
    assert forall|j: int| 0 <= j < r.len() implies block_one_line(#[trigger] r[j]) by {
        if j < n {
            assert(r[j] == bs[j]);
        }
    }
    assert forall|c: Seq<char>| holds_verbatim(bs, c) implies #[trigger] holds_verbatim(r, c) by {
        let (j, q) = choose|j: int, q: int|
            0 <= j < bs.len() && bs[j] is Other && 0 <= q < bs[j]->Other_0.len()
                && #[trigger] bs[j]->Other_0[q] == c;
        assert(r[j] == bs[j]);
        assert(r[j]->Other_0[q] == c);
    }
    if b is Other {
        assert forall|q: int| 0 <= q < b->Other_0.len() implies holds_verbatim(
            r,
            #[trigger] b->Other_0[q],
        ) by {
            assert(r[n] == b);
            assert(r[n]->Other_0[q] == b->Other_0[q]);
        }
    }
}

/// A verbatim line added keeps what the blocks held, and is held.
proof fn lemma_push_other_keeps(bs: Seq<SpecBlock>, line: Seq<char>)
    requires
        blocks_one_line(bs),
        no_newline(line),
    ensures
        blocks_one_line(push_other(bs, line)),
        holds_verbatim(push_other(bs, line), line),
        forall|c: Seq<char>| holds_verbatim(bs, c) ==> #[trigger] holds_verbatim(push_other(bs, line), c),
{
    let r = push_other(bs, line);
    if bs.len() > 0 && bs.last() is Other {
        let n = bs.len() - 1;
        let v = bs.last()->Other_0;
        let w = v.push(line);
        assert(r[n] == SpecBlock::Other(w));
        assert(bs[n] == bs.last());
        assert(block_one_line(bs[n]));
        assert forall|j: int| 0 <= j < r.len() implies block_one_line(#[trigger] r[j]) by {
            if j < n {
                assert(r[j] == bs[j]);
            } else {
                assert forall|k: int| 0 <= k < w.len() implies no_newline(#[trigger] w[k]) by {
                    if k < v.len() {
                        assert(w[k] == v[k]);
                    }
                }
            }
        }
        assert(r[n]->Other_0[v.len() as int] == line);
        assert forall|c: Seq<char>| holds_verbatim(bs, c) implies #[trigger] holds_verbatim(r, c) by {
            let (j, q) = choose|j: int, q: int|
                0 <= j < bs.len() && bs[j] is Other && 0 <= q < bs[j]->Other_0.len()
                    && #[trigger] bs[j]->Other_0[q] == c;
            if j < n {
                assert(r[j] == bs[j]);
            } else {
                assert(w[q] == v[q]);
            }
            assert(r[j]->Other_0[q] == c);
        }
    } else {
        let b = SpecBlock::Other(seq![line]);
        assert(block_one_line(b)) by {
            assert forall|k: int| 0 <= k < seq![line].len() implies no_newline(#[trigger] seq![line][k]) by {
                assert(seq![line][k] == line);
            }
        }
        lemma_push_keeps(bs, b);
        assert(b->Other_0[0] == line);
    }
}

/// A blank line added keeps what the blocks held.
proof fn lemma_push_gap_keeps(bs: Seq<SpecBlock>, line: Seq<char>)
    requires
        blocks_one_line(bs),
        no_newline(line),
    ensures
        blocks_one_line(push_gap(bs, line)),
        forall|c: Seq<char>| holds_verbatim(bs, c) ==> #[trigger] holds_verbatim(push_gap(bs, line), c),
{
    let r = push_gap(bs, line);
    if bs.len() > 0 && bs.last() is Gap {
        let n = bs.len() - 1;
        let v = bs.last()->Gap_0;
        let w = v.push(line);
        assert(r[n] == SpecBlock::Gap(w));
        assert(bs[n] == bs.last());
        assert(block_one_line(bs[n]));
        assert forall|j: int| 0 <= j < r.len() implies block_one_line(#[trigger] r[j]) by {
            if j < n {
                assert(r[j] == bs[j]);
            } else {
                assert forall|k: int| 0 <= k < w.len() implies no_newline(#[trigger] w[k]) by {
                    if k < v.len() {
                        assert(w[k] == v[k]);
                    }
                }
            }
        }
        assert forall|c: Seq<char>| holds_verbatim(bs, c) implies #[trigger] holds_verbatim(r, c) by {
            let (j, q) = choose|j: int, q: int|
                0 <= j < bs.len() && bs[j] is Other && 0 <= q < bs[j]->Other_0.len()
                    && #[trigger] bs[j]->Other_0[q] == c;
            assert(j < n);
            assert(r[j] == bs[j]);
            assert(r[j]->Other_0[q] == c);
        }
    } else {
        let b = SpecBlock::Gap(seq![line]);
        assert(block_one_line(b)) by {
            assert forall|k: int| 0 <= k < seq![line].len() implies no_newline(#[trigger] seq![line][k]) by {
                assert(seq![line][k] == line);
            }
        }
        lemma_push_keeps(bs, b);
    }
}

/// Verbatim lines added keep what the blocks held.
proof fn lemma_push_others_keeps(bs: Seq<SpecBlock>, run: Seq<Seq<char>>)
    requires
        blocks_one_line(bs),
        forall|k: int| 0 <= k < run.len() ==> no_newline(#[trigger] run[k]),
    ensures
        blocks_one_line(push_others(bs, run)),
        forall|c: Seq<char>| holds_verbatim(bs, c) ==> #[trigger] holds_verbatim(push_others(bs, run), c),
    decreases run.len(),
{
    if run.len() > 0 {
        let prev = run.drop_last();
        assert forall|k: int| 0 <= k < prev.len() implies no_newline(#[trigger] prev[k]) by {
            assert(prev[k] == run[k]);
        }
        lemma_push_others_keeps(bs, prev);
        assert(no_newline(run[run.len() - 1]));
        lemma_push_other_keeps(push_others(bs, prev), run.last());
        assert forall|c: Seq<char>| holds_verbatim(bs, c) implies #[trigger] holds_verbatim(
            push_others(bs, run),
            c,
        ) by {
            assert(holds_verbatim(push_others(bs, prev), c));
        }
    }
}

/// Every line of a run of pipe lines is one.
proof fn lemma_pipe_run_all(lines: Seq<(Seq<char>, int)>, ignore: Seq<(int, int)>, i: int)
    requires
        0 <= i <= lines.len(),
    ensures
        forall|k: int| i <= k < pipe_run_end(lines, ignore, i) ==> is_pipe_line(#[trigger] lines[k], ignore),
    decreases lines.len() - i,
{
    if i < lines.len() && is_pipe_line(lines[i], ignore) {
        lemma_pipe_run_all(lines, ignore, i + 1);
    }
}

/// Reading lines into blocks keeps every line of code as a verbatim line,
/// and what the blocks already held.
proof fn lemma_parse_keeps(
    lines: Seq<(Seq<char>, int)>,
    ignore: Seq<(int, int)>,
    i: int,
    acc: Seq<SpecBlock>,
)
    requires
        0 <= i <= lines.len(),
        forall|k: int| 0 <= k < lines.len() ==> no_newline(#[trigger] lines[k].0),
        blocks_one_line(acc),
    ensures
        ({
            let r = parse_blocks_from(lines, ignore, i, acc);
            &&& blocks_one_line(r)
            &&& forall|c: Seq<char>| holds_verbatim(acc, c) ==> #[trigger] holds_verbatim(r, c)
            &&& forall|k: int|
                i <= k < lines.len() && in_ranges(ignore, #[trigger] lines[k].1) ==> holds_verbatim(
                    r,
                    lines[k].0,
                )
        }),
    decreases lines.len() - i,
{
    if i < lines.len() {
        let r = parse_blocks_from(lines, ignore, i, acc);
        let (content, offset) = lines[i];
        assert(no_newline(content));
        if is_pipe_line(lines[i], ignore) {
            let end = pipe_run_end(lines, ignore, i);
            lemma_pipe_run_end(lines, ignore, i);
            lemma_pipe_run_all(lines, ignore, i);
            let run = lines.subrange(i, end).map_values(|l: (Seq<char>, int)| l.0);
            assert forall|k: int| 0 <= k < run.len() implies no_newline(#[trigger] run[k]) by {
                assert(run[k] == lines[i + k].0);
            }
            let acc2 = match parse_table(run) {
                Some(t) => acc.push(SpecBlock::Table(t)),
                None => push_others(acc, run),
            };
            match parse_table(run) {
                Some(t) => {
                    lemma_parsed_table_one_line(run);
                    lemma_push_keeps(acc, SpecBlock::Table(t));
                },
                None => {
                    lemma_push_others_keeps(acc, run);
                },
            }
            lemma_parse_keeps(lines, ignore, end, acc2);
            assert(r == parse_blocks_from(lines, ignore, end, acc2));
            assert forall|k: int|
                i <= k < lines.len() && in_ranges(ignore, #[trigger] lines[k].1) implies holds_verbatim(
                r,
                lines[k].0,
            ) by {
                if k < end {
                    assert(is_pipe_line(lines[k], ignore));
                }
            }
        } else {
            let acc2 = if in_ranges(ignore, offset) {
                push_other(acc, content)
            } else if is_blank_line(content) {
                push_gap(acc, content)
            } else {
                match convert_tab_line(content, offset, ignore) {
                    Some(cells) => acc.push(SpecBlock::Table(head_only(cells))),
                    None => push_other(acc, content),
                }
            };
            if in_ranges(ignore, offset) {
                lemma_push_other_keeps(acc, content);
            } else if is_blank_line(content) {
                lemma_push_gap_keeps(acc, content);
            } else {
                match convert_tab_line(content, offset, ignore) {
                    Some(cells) => {
                        lemma_converted_one_line(content, offset, ignore);
                        lemma_push_keeps(acc, SpecBlock::Table(head_only(cells)));
                    },
                    None => {
                        lemma_push_other_keeps(acc, content);
                    },
                }
            }
            lemma_parse_keeps(lines, ignore, i + 1, acc2);
            assert(r == parse_blocks_from(lines, ignore, i + 1, acc2));
            assert forall|c: Seq<char>| holds_verbatim(acc, c) implies #[trigger] holds_verbatim(r, c) by {
                assert(holds_verbatim(acc2, c));
            }
        }
    }
}

/// Merging one block keeps what the merged blocks held, and the block's
/// verbatim lines.
#[verifier::rlimit(30)]
proof fn lemma_merge_step_keeps(out: Seq<SpecBlock>, b: SpecBlock)
    requires
        blocks_one_line(out),
        block_one_line(b),
    ensures
        blocks_one_line(merge_step(out, b)),
        forall|c: Seq<char>| holds_verbatim(out, c) ==> #[trigger] holds_verbatim(merge_step(out, b), c),
        b is Other ==> forall|q: int|
            0 <= q < b->Other_0.len() ==> holds_verbatim(merge_step(out, b), #[trigger] b->Other_0[q]),
{
    let r = merge_step(out, b);
    match b {
        SpecBlock::Table(table) => {
            if table.body.len() == 0 {
                let gap_after_table = out.len() >= 2 && out.last() is Gap && out[out.len() - 2] is Table;
                let o2 = if gap_after_table {
                    out.drop_last()
                } else {
                    out
                };
                assert forall|j: int| 0 <= j < o2.len() implies block_one_line(#[trigger] o2[j]) by {
                    assert(o2[j] == out[j]);
                }
                assert forall|c: Seq<char>| holds_verbatim(out, c) implies #[trigger] holds_verbatim(
                    o2,
                    c,
                ) by {
                    let (j, q) = choose|j: int, q: int|
                        0 <= j < out.len() && out[j] is Other && 0 <= q < out[j]->Other_0.len()
                            && #[trigger] out[j]->Other_0[q] == c;
                    if gap_after_table {
                        assert(j < out.len() - 1) by {
                            if j == out.len() - 1 {
                                assert(out[j] == out.last());
                            }
                        }
                    }
                    assert(o2[j] == out[j]);
                    assert(o2[j]->Other_0[q] == c);
                }
                if o2.len() > 0 && o2.last() is Table {
                    let previous = o2.last()->Table_0;
                    let n = o2.len() - 1;
                    let nt = SpecTable {
                        header: previous.header,
                        aligns: previous.aligns,
                        body: previous.body.push(table.header),
                    };
                    assert(r == o2.update(n, SpecBlock::Table(nt)));
                    assert(o2[n] == o2.last());
                    assert(block_one_line(o2[n]));
                    assert(table_one_line(nt)) by {
                        assert forall|rr: int, i: int|
                            0 <= rr < nt.body.len() && 0 <= i < nt.body[rr].len() implies no_newline(
                            #[trigger] nt.body[rr][i],
                        ) by {
                            if rr < previous.body.len() {
                                assert(nt.body[rr] == previous.body[rr]);
                            } else {
                                assert(nt.body[rr] == table.header);
                            }
                        }
                    }
                    assert forall|j: int| 0 <= j < r.len() implies block_one_line(#[trigger] r[j]) by {
                        if j < n {
                            assert(r[j] == o2[j]);
                        }
                    }
                    assert forall|c: Seq<char>| holds_verbatim(o2, c) implies #[trigger] holds_verbatim(
                        r,
                        c,
                    ) by {
                        let (j, q) = choose|j: int, q: int|
                            0 <= j < o2.len() && o2[j] is Other && 0 <= q < o2[j]->Other_0.len()
                                && #[trigger] o2[j]->Other_0[q] == c;
                        assert(j < n) by {
                            if j == n {
                                assert(o2[j] == o2.last());
                            }
                        }
                        assert(r[j] == o2[j]);
                        assert(r[j]->Other_0[q] == c);
                    }
                } else {
                    lemma_push_keeps(o2, b);
                }
                assert forall|c: Seq<char>| holds_verbatim(out, c) implies #[trigger] holds_verbatim(
                    r,
                    c,
                ) by {
                    assert(holds_verbatim(o2, c));
                }
            } else {
                lemma_push_keeps(out, b);
            }
        },
        _ => {
            lemma_push_keeps(out, b);
        },
    }
}

/// Merging tables keeps every verbatim line.
proof fn lemma_merge_keeps(bs: Seq<SpecBlock>)
    requires
        blocks_one_line(bs),
    ensures
        blocks_one_line(merge_tables(bs)),
        forall|c: Seq<char>| holds_verbatim(bs, c) ==> #[trigger] holds_verbatim(merge_tables(bs), c),
    decreases bs.len(),
{
    if bs.len() > 0 {
        let prev = bs.drop_last();
        assert forall|j: int| 0 <= j < prev.len() implies block_one_line(#[trigger] prev[j]) by {
            assert(prev[j] == bs[j]);
        }
        lemma_merge_keeps(prev);
        assert(bs.last() == bs[bs.len() - 1]);
        assert(block_one_line(bs[bs.len() - 1]));
        lemma_merge_step_keeps(merge_tables(prev), bs.last());
        assert forall|c: Seq<char>| holds_verbatim(bs, c) implies #[trigger] holds_verbatim(
            merge_tables(bs),
            c,
        ) by {
            let (j, q) = choose|j: int, q: int|
                0 <= j < bs.len() && bs[j] is Other && 0 <= q < bs[j]->Other_0.len()
                    && #[trigger] bs[j]->Other_0[q] == c;
            if j < prev.len() {
                assert(prev[j] == bs[j]);
                assert(prev[j]->Other_0[q] == c);
                assert(holds_verbatim(prev, c));
                assert(holds_verbatim(merge_tables(prev), c));
            } else {
                assert(bs[j] == bs.last());
                assert(bs.last()->Other_0[q] == c);
            }
        }
    }
}

/// A verbatim line of the blocks is a line they write.
proof fn lemma_render_keeps(m: Seq<SpecBlock>, c: Seq<char>)
    requires
        holds_verbatim(m, c),
    ensures
        exists|i: int| 0 <= i < render_blocks(m).0.len() && #[trigger] render_blocks(m).0[i] == c,
{
    let (j, q) = choose|j: int, q: int|
        0 <= j < m.len() && m[j] is Other && 0 <= q < m[j]->Other_0.len()
            && #[trigger] m[j]->Other_0[q] == c;
    lemma_render_take(m, j);
    lemma_render_prefix(m, j + 1, m.len() as int);
    assert(m.take(m.len() as int) =~= m);
    let a = render_blocks(m.take(j)).0;
    let b = render_blocks(m.take(j + 1)).0;
    let seg = block_segment(m, j);
    let lead = seg.len() - written_lines(m[j]).len();
    assert(lead == 0 || lead == 1);
    assert(seg[lead + q] == written_lines(m[j])[q]);
    assert(seg[lead + q] == c);
    let i = a.len() + lead + q;
    assert(b[i] == c);
    let o = render_blocks(m).0;
    assert(o.take(b.len() as int)[i] == b[i]);
    assert(o[i] == c);
}

/// Code is left untouched: every line of code that is not empty comes out
/// as a line of the note the tables rule writes, unchanged.
#[verifier::rlimit(30)]
pub proof fn tables_keep_code(s: Seq<char>, ignore: Seq<(int, int)>)
    ensures
        forall|k: int|
            0 <= k < line_bounds(s).len() && #[trigger] code_line(s, ignore, k) && line_text(
                s,
                line_bounds(s)[k],
            ).len() > 0 ==> exists|j: int| keeps_line_at(s, spec_tables(s, ignore), k, j),
{
    let lines = lines_with_offsets(s);
    lemma_line_pieces_wf(s);
    lemma_line_pieces_last(s);
    assert forall|k: int| 0 <= k < lines.len() implies no_newline(#[trigger] lines[k].0) by {
        assert(lines[k].0 == line_pieces(s)[k].0);
    }
    lemma_parse_keeps(lines, ignore, 0, seq![]);
    let b = parse_blocks_from(lines, ignore, 0, seq![]);
    lemma_merge_keeps(b);
    let m = merge_tables(b);
    lemma_render_one_line(m);
    let o = render_blocks(m).0;
    let fb = final_break(s);
    let text = spec_tables(s, ignore);
    assert(text == join(o, seq!['\n']) + fb);
    assert forall|k: int|
        0 <= k < line_bounds(s).len() && #[trigger] code_line(s, ignore, k) && line_text(
            s,
            line_bounds(s)[k],
        ).len() > 0 implies exists|j: int| keeps_line_at(s, text, k, j) by {
        let content = line_text(s, line_bounds(s)[k]);
        assert(lines[k] == (content, byte_offset(s, line_bounds(s)[k].0) as int));
        assert(in_ranges(ignore, lines[k].1));
        assert(holds_verbatim(m, content));
        lemma_render_keeps(m, content);
        let j = choose|i: int| 0 <= i < o.len() && #[trigger] o[i] == content;
        let brk = fb.len() > 0;
        assert(fb == if brk {
            seq!['\n']
        } else {
            Seq::<char>::empty()
        });
        lemma_join_lines(o, brk);
        let p = joined_pieces(o, brk);
        lemma_line_pieces_of_render(p);
        lemma_line_pieces_last(text);
        assert(p[j] == (o[j], j < o.len() - 1 || brk));
        assert(normalize(p)[j] == p[j]);
        assert(line_pieces(text)[j] == normalize(p)[j]);
        assert(keeps_line_at(s, text, k, j));
    }
}

} // verus!
