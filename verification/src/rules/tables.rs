//! **tables** — tab-separated lines become Markdown tables, and tables are
//! normalized.
//!
//! A flush-left line that contains a tab and is not already a block construct
//! (heading, list item, blockquote, tag line, footnote, pipe line) converts to
//! a table row — tabs become cell dividers, pipes in cell text are escaped —
//! followed by the minimal separator (`| - | - |`), forming a head-only table.
//! A head-only table separated from a preceding table by nothing but
//! whitespace merges into it as a body row. Tables that already have bodies
//! never merge, and pipe blocks without a separator row are left alone.
//!
//! Recognized tables re-emit canonically: cells trimmed to `| cell | cell |`,
//! the separator minimized (alignment colons kept), and ragged rows padded
//! with empty cells to the widest row. An empty line parts a table from a
//! verbatim line that starts with a pipe, so that the two stay apart.

use crate::engine::ignore::{in_ranges, IgnoreRanges};
use crate::engine::Rule;
use crate::rules::support::{
    heading_level_of, list_item_indent_of, spec_heading_level, spec_list_item_indent,
    spec_starts_with_tag, starts_with_tag_of,
};
use crate::scan::{
    copy_chars, final_break, final_break_exec, is_blank_line, is_blank_line_exec, join, join_exec,
    back_ws, lemma_views_push, push_all, run_end, run_end_exec, skip_ws, trim, trim_end,
    trim_end_exec, trim_exec, views,
};
use crate::text::{
    byte_offset, char_width_exec, is_ws, line_at, line_bounds, line_bounds_exec, line_text,
    string_of, utf8_len, Doc,
};
use vstd::prelude::*;

verus! {

pub struct Tables;

/// A column's alignment, from the separator row's colons.
#[derive(Clone, Copy, PartialEq, Eq, Structural)]
pub enum Align {
    Unaligned,
    Left,
    Right,
    Center,
}

/// A table: header cells, column alignments, body rows.
pub struct Table {
    pub header: Vec<Vec<char>>,
    pub aligns: Vec<Align>,
    pub body: Vec<Vec<Vec<char>>>,
}

pub struct SpecTable {
    pub header: Seq<Seq<char>>,
    pub aligns: Seq<Align>,
    pub body: Seq<Seq<Seq<char>>>,
}

/// A run of lines as this rule sees it.
pub enum Block {
    Table(Table),
    /// A run of whitespace-only lines — a candidate merge gap.
    Gap(Vec<Vec<char>>),
    /// Verbatim lines this rule does not touch.
    Other(Vec<Vec<char>>),
}

pub enum SpecBlock {
    Table(SpecTable),
    Gap(Seq<Seq<char>>),
    Other(Seq<Seq<char>>),
}

pub open spec fn rows_view(rows: Seq<Vec<Vec<char>>>) -> Seq<Seq<Seq<char>>> {
    rows.map_values(|r: Vec<Vec<char>>| views(r@))
}

pub open spec fn table_view(t: Table) -> SpecTable {
    SpecTable { header: views(t.header@), aligns: t.aligns@, body: rows_view(t.body@) }
}

pub open spec fn block_view(b: Block) -> SpecBlock {
    match b {
        Block::Table(t) => SpecBlock::Table(table_view(t)),
        Block::Gap(lines) => SpecBlock::Gap(views(lines@)),
        Block::Other(lines) => SpecBlock::Other(views(lines@)),
    }
}

pub open spec fn blocks_view(bs: Seq<Block>) -> Seq<SpecBlock> {
    bs.map_values(|b: Block| block_view(b))
}

// ----- converting a tab-separated line -----

/// A cell's text trimmed, with each pipe not already escaped by a backslash
/// escaped: the scan state (text so far, whether the last character escapes).
pub open spec fn scan_escape(t: Seq<char>) -> (Seq<char>, bool)
    decreases t.len(),
{
    if t.len() == 0 {
        (seq![], false)
    } else {
        let (out, escaped) = scan_escape(t.drop_last());
        let c = t.last();
        let out = if c == '|' && !escaped {
            out.push('\\')
        } else {
            out
        };
        (out.push(c), c == '\\' && !escaped)
    }
}

pub open spec fn finish_cell(raw: Seq<char>) -> Seq<char> {
    scan_escape(trim(raw)).0
}

/// Splitting a line at tabs outside code: the cells so far, the open cell,
/// and whether any split happened. `offset` is the line's byte offset.
pub open spec fn scan_tab_cells(line: Seq<char>, offset: int, ignore: Seq<(int, int)>) -> (
    Seq<Seq<char>>,
    Seq<char>,
    bool,
)
    decreases line.len(),
{
    if line.len() == 0 {
        (seq![], seq![], false)
    } else {
        let (cells, cell, split) = scan_tab_cells(line.drop_last(), offset, ignore);
        let c = line.last();
        if c == '\t' && !in_ranges(ignore, offset + utf8_len(line.drop_last())) {
            (cells.push(finish_cell(cell)), seq![], true)
        } else {
            (cells, cell.push(c), split)
        }
    }
}

/// Whether a line cannot be converted whatever its tabs: indented, a quote, a
/// footnote, a heading, tag-led, or a list item.
pub open spec fn is_marked_line(content: Seq<char>) -> bool {
    ||| content.len() > 0 && (content[0] == ' ' || content[0] == '\t' || content[0] == '>')
    ||| content.len() > 1 && content[0] == '[' && content[1] == '^'
    ||| spec_heading_level(content) is Some
    ||| spec_starts_with_tag(content)
    ||| spec_list_item_indent(content) is Some
}

/// The cells of a convertible tab-separated line.
pub open spec fn convert_tab_line(content: Seq<char>, offset: int, ignore: Seq<(int, int)>) -> Option<Seq<Seq<char>>> {
    if is_marked_line(content) {
        None
    } else {
        let (cells, cell, split) = scan_tab_cells(trim_end(content), offset, ignore);
        if split {
            Some(cells.push(finish_cell(cell)))
        } else {
            None
        }
    }
}

// ----- parsing pipe tables -----

/// Splitting a row at unescaped pipes: cells, the open cell, whether the last
/// character escapes, whether the row ended on a pipe.
pub open spec fn scan_row(t: Seq<char>) -> (Seq<Seq<char>>, Seq<char>, bool, bool)
    decreases t.len(),
{
    if t.len() == 0 {
        (seq![], seq![], false, false)
    } else {
        let (cells, cell, escaped, closed) = scan_row(t.drop_last());
        let c = t.last();
        let (cells, cell, closed) = if c == '|' && !escaped {
            (cells.push(cell), seq![], true)
        } else {
            (cells, cell.push(c), false)
        };
        (cells, cell, c == '\\' && !escaped, closed)
    }
}

/// A table row's trimmed cells.
pub open spec fn parse_row(line: Seq<char>) -> Seq<Seq<char>> {
    let t = trim_end(line);
    let (cells, cell, escaped, closed) = scan_row(t);
    let cells = if !closed {
        cells.push(cell)
    } else {
        cells
    };
    let cells = if t.len() > 0 && t[0] == '|' && cells.len() > 0 {
        cells.drop_first()
    } else {
        cells
    };
    cells.map_values(|c: Seq<char>| trim(c))
}

/// The first index at or before `j` not preceded by a `:`.
pub open spec fn back_colons(s: Seq<char>, j: int) -> int
    decreases j,
{
    if 0 < j <= s.len() && s[j - 1] == ':' {
        back_colons(s, j - 1)
    } else {
        j
    }
}

/// A separator cell's alignment, if the cell is one (colons around dashes).
pub open spec fn cell_align(cell: Seq<char>) -> Option<Align> {
    let left = cell.len() > 0 && cell[0] == ':';
    let right = cell.len() > 1 && cell.last() == ':';
    let a = run_end(cell, 0, ':');
    let b = back_colons(cell, cell.len() as int);
    if b <= a || !(forall|k: int| a <= k < b ==> cell[k] == '-') {
        None
    } else {
        Some(
            if left && right {
                Align::Center
            } else if left {
                Align::Left
            } else if right {
                Align::Right
            } else {
                Align::Unaligned
            },
        )
    }
}

/// The alignments of the first `n` separator cells, if all are separator cells.
pub open spec fn aligns_of(cells: Seq<Seq<char>>, n: int) -> Option<Seq<Align>>
    decreases n,
{
    if n <= 0 {
        Some(seq![])
    } else {
        match aligns_of(cells, n - 1) {
            None => None,
            Some(aligns) => match cell_align(cells[n - 1]) {
                None => None,
                Some(a) => Some(aligns.push(a)),
            },
        }
    }
}

/// A separator row's alignments.
pub open spec fn parse_separator(line: Seq<char>) -> Option<Seq<Align>> {
    let cells = parse_row(line);
    if cells.len() == 0 {
        None
    } else {
        aligns_of(cells, cells.len() as int)
    }
}

/// A run of pipe lines read as a table, when its second line is a separator.
pub open spec fn parse_table(run: Seq<Seq<char>>) -> Option<SpecTable> {
    if run.len() < 2 {
        None
    } else {
        match parse_separator(run[1]) {
            None => None,
            Some(aligns) => Some(
                SpecTable {
                    header: parse_row(run[0]),
                    aligns,
                    body: run.skip(2).map_values(|l: Seq<char>| parse_row(l)),
                },
            ),
        }
    }
}

// ----- grouping lines into blocks -----

/// The lines of a note with their byte offsets.
pub open spec fn lines_with_offsets(s: Seq<char>) -> Seq<(Seq<char>, int)> {
    line_bounds(s).map_values(|b: (int, int)| (line_text(s, b), byte_offset(s, b.0) as int))
}

/// Whether a line is a pipe line outside code.
pub open spec fn is_pipe_line(line: (Seq<char>, int), ignore: Seq<(int, int)>) -> bool {
    !in_ranges(ignore, line.1) && line.0.len() > 0 && line.0[0] == '|'
}

/// The end of the run of pipe lines starting at `i`.
pub open spec fn pipe_run_end(lines: Seq<(Seq<char>, int)>, ignore: Seq<(int, int)>, i: int) -> int
    decreases lines.len() - i,
{
    if 0 <= i < lines.len() && is_pipe_line(lines[i], ignore) {
        pipe_run_end(lines, ignore, i + 1)
    } else {
        i
    }
}

/// `line` added to a trailing run of verbatim lines, or as a new one.
pub open spec fn push_other(blocks: Seq<SpecBlock>, line: Seq<char>) -> Seq<SpecBlock> {
    if blocks.len() > 0 && blocks.last() is Other {
        blocks.update(blocks.len() - 1, SpecBlock::Other(blocks.last()->Other_0.push(line)))
    } else {
        blocks.push(SpecBlock::Other(seq![line]))
    }
}

/// Every line of `run` added as verbatim.
pub open spec fn push_others(blocks: Seq<SpecBlock>, run: Seq<Seq<char>>) -> Seq<SpecBlock>
    decreases run.len(),
{
    if run.len() == 0 {
        blocks
    } else {
        push_other(push_others(blocks, run.drop_last()), run.last())
    }
}

/// `line` added to a trailing gap, or as a new one.
pub open spec fn push_gap(blocks: Seq<SpecBlock>, line: Seq<char>) -> Seq<SpecBlock> {
    if blocks.len() > 0 && blocks.last() is Gap {
        blocks.update(blocks.len() - 1, SpecBlock::Gap(blocks.last()->Gap_0.push(line)))
    } else {
        blocks.push(SpecBlock::Gap(seq![line]))
    }
}

/// A head-only table made from converted cells.
pub open spec fn head_only(cells: Seq<Seq<char>>) -> SpecTable {
    SpecTable { header: cells, aligns: Seq::new(cells.len(), |i: int| Align::Unaligned), body: seq![] }
}

/// The blocks of the lines from `i` on, added to `blocks`.
pub open spec fn parse_blocks_from(
    lines: Seq<(Seq<char>, int)>,
    ignore: Seq<(int, int)>,
    i: int,
    blocks: Seq<SpecBlock>,
) -> Seq<SpecBlock>
    decreases lines.len() - i,
{
    if i < 0 || i >= lines.len() {
        blocks
    } else {
        let (content, offset) = lines[i];
        if is_pipe_line(lines[i], ignore) {
            let end = pipe_run_end(lines, ignore, i);
            proof {
                lemma_pipe_run_end(lines, ignore, i);
            }
            let run = lines.subrange(i, end).map_values(|l: (Seq<char>, int)| l.0);
            let blocks = match parse_table(run) {
                Some(t) => blocks.push(SpecBlock::Table(t)),
                None => push_others(blocks, run),
            };
            parse_blocks_from(lines, ignore, end, blocks)
        } else {
            let blocks = if in_ranges(ignore, offset) {
                push_other(blocks, content)
            } else if is_blank_line(content) {
                push_gap(blocks, content)
            } else {
                match convert_tab_line(content, offset, ignore) {
                    Some(cells) => blocks.push(SpecBlock::Table(head_only(cells))),
                    None => push_other(blocks, content),
                }
            };
            parse_blocks_from(lines, ignore, i + 1, blocks)
        }
    }
}

pub proof fn lemma_pipe_run_end(lines: Seq<(Seq<char>, int)>, ignore: Seq<(int, int)>, i: int)
    requires
        0 <= i <= lines.len(),
    ensures
        i <= pipe_run_end(lines, ignore, i) <= lines.len(),
        i < lines.len() && is_pipe_line(lines[i], ignore) ==> i < pipe_run_end(lines, ignore, i),
    decreases lines.len() - i,
{
    if i < lines.len() && is_pipe_line(lines[i], ignore) {
        lemma_pipe_run_end(lines, ignore, i + 1);
    }
}

// ----- merging and rendering -----

/// One block folded into the merged blocks: a head-only table after a table
/// (across a whitespace-only gap) becomes a body row of it.
pub open spec fn merge_step(out: Seq<SpecBlock>, block: SpecBlock) -> Seq<SpecBlock> {
    match block {
        SpecBlock::Table(table) => if table.body.len() == 0 {
            let gap_after_table = out.len() >= 2 && out.last() is Gap && out[out.len() - 2] is Table;
            let out = if gap_after_table {
                out.drop_last()
            } else {
                out
            };
            if out.len() > 0 && out.last() is Table {
                let previous = out.last()->Table_0;
                out.update(
                    out.len() - 1,
                    SpecBlock::Table(
                        SpecTable {
                            header: previous.header,
                            aligns: previous.aligns,
                            body: previous.body.push(table.header),
                        },
                    ),
                )
            } else {
                out.push(block)
            }
        } else {
            out.push(block)
        },
        _ => out.push(block),
    }
}

pub open spec fn merge_tables(blocks: Seq<SpecBlock>) -> Seq<SpecBlock>
    decreases blocks.len(),
{
    if blocks.len() == 0 {
        seq![]
    } else {
        merge_step(merge_tables(blocks.drop_last()), blocks.last())
    }
}

pub open spec fn max_row_len(rows: Seq<Seq<Seq<char>>>) -> nat
    decreases rows.len(),
{
    if rows.len() == 0 {
        0
    } else {
        let m = max_row_len(rows.drop_last());
        if rows.last().len() > m {
            rows.last().len()
        } else {
            m
        }
    }
}

pub open spec fn max_nat(a: nat, b: nat) -> nat {
    if a > b {
        a
    } else {
        b
    }
}

/// The number of columns a table renders with.
pub open spec fn table_width(t: SpecTable) -> nat {
    max_nat(max_nat(max_nat(t.header.len(), t.aligns.len()), max_row_len(t.body)), 1)
}

/// `| a | b |`, padded with empty cells to `width` columns.
pub open spec fn render_row(cells: Seq<Seq<char>>, width: nat) -> Seq<char> {
    let padded = Seq::new(width, |i: int| if i < cells.len() { cells[i] } else { seq![] });
    seq!['|', ' '] + join(padded, seq![' ', '|', ' ']) + seq![' ', '|']
}

pub open spec fn align_mark(a: Align) -> Seq<char> {
    match a {
        Align::Unaligned => seq!['-'],
        Align::Left => seq![':', '-'],
        Align::Right => seq!['-', ':'],
        Align::Center => seq![':', '-', ':'],
    }
}

/// The minimal separator row for `width` columns, alignments kept.
pub open spec fn render_separator(aligns: Seq<Align>, width: nat) -> Seq<char> {
    let padded = Seq::new(
        width,
        |i: int| align_mark(if i < aligns.len() { aligns[i] } else { Align::Unaligned }),
    );
    seq!['|', ' '] + join(padded, seq![' ', '|', ' ']) + seq![' ', '|']
}

pub open spec fn render_table(t: SpecTable) -> Seq<Seq<char>> {
    let width = table_width(t);
    seq![render_row(t.header, width), render_separator(t.aligns, width)] + t.body.map_values(
        |row: Seq<Seq<char>>| render_row(row, width),
    )
}

/// Whether a line starts with a pipe.
pub open spec fn pipe_led(l: Seq<char>) -> bool {
    l.len() > 0 && l[0] == '|'
}

/// Whether an empty line is written between two blocks: between two tables,
/// and between a table and a verbatim line that starts with a pipe, which a
/// second pass would otherwise read as one more row.
pub open spec fn parted(a: SpecBlock, b: SpecBlock) -> bool {
    ||| a is Table && b is Table
    ||| a is Table && b is Other && b->Other_0.len() > 0 && pipe_led(b->Other_0[0])
    ||| a is Other && a->Other_0.len() > 0 && pipe_led(a->Other_0.last()) && b is Table
}

/// The lines a block writes.
pub open spec fn written_lines(b: SpecBlock) -> Seq<Seq<char>> {
    match b {
        SpecBlock::Table(t) => render_table(t),
        SpecBlock::Gap(v) => v,
        SpecBlock::Other(v) => v,
    }
}

/// The output lines of the blocks, and whether the last block was a table.
pub open spec fn render_blocks(blocks: Seq<SpecBlock>) -> (Seq<Seq<char>>, bool)
    decreases blocks.len(),
{
    if blocks.len() == 0 {
        (seq![], false)
    } else {
        let lines = render_blocks(blocks.drop_last()).0;
        let b = blocks.last();
        let lead: Seq<Seq<char>> = if blocks.len() >= 2 && parted(blocks[blocks.len() - 2], b) {
            seq![seq![]]
        } else {
            seq![]
        };
        (lines + lead + written_lines(b), b is Table)
    }
}

/// The note with tab lines converted and tables merged and normalized.
pub open spec fn spec_tables(s: Seq<char>, ignore: Seq<(int, int)>) -> Seq<char> {
    let blocks = parse_blocks_from(lines_with_offsets(s), ignore, 0, seq![]);
    join(render_blocks(merge_tables(blocks)).0, seq!['\n']) + final_break(s)
}

// ----- executable -----

pub proof fn lemma_blocks_push(bs: Seq<Block>, b: Block)
    ensures
        blocks_view(bs.push(b)) == blocks_view(bs).push(block_view(b)),
{
    assert(blocks_view(bs.push(b)) =~= blocks_view(bs).push(block_view(b)));
}

pub proof fn lemma_rows_push(rows: Seq<Vec<Vec<char>>>, r: Vec<Vec<char>>)
    ensures
        rows_view(rows.push(r)) == rows_view(rows).push(views(r@)),
{
    assert(rows_view(rows.push(r)) =~= rows_view(rows).push(views(r@)));
}

fn finish_cell_exec(raw: &Vec<char>) -> (r: Vec<char>)
    ensures
        r@ == finish_cell(raw@),
{
    let t = trim_exec(raw);
    let mut out: Vec<char> = Vec::new();
    let mut escaped = false;
    let mut i: usize = 0;
    while i < t.len()
        invariant
            i <= t@.len(),
            (out@, escaped) == scan_escape(t@.take(i as int)),
        decreases t.len() - i,
    {
        proof {
            assert(t@.take(i + 1).drop_last() =~= t@.take(i as int));
        }
        let c = t[i];
        if c == '|' && !escaped {
            out.push('\\');
        }
        escaped = c == '\\' && !escaped;
        out.push(c);
        i = i + 1;
    }
    assert(t@.take(t@.len() as int) =~= t@);
    out
}

fn is_marked_line_exec(content: &Vec<char>) -> (b: bool)
    ensures
        b == is_marked_line(content@),
{
    (content.len() > 0 && (content[0] == ' ' || content[0] == '\t' || content[0] == '>')) || (
    content.len() > 1 && content[0] == '[' && content[1] == '^') || heading_level_of(
        content,
    ).is_some() || starts_with_tag_of(content) || list_item_indent_of(content).is_some()
}

fn convert_tab_line_exec(content: &Vec<char>, offset: u128, ignore: &IgnoreRanges) -> (r: Option<
    Vec<Vec<char>>,
>)
    requires
        offset <= 4 * (usize::MAX as int),
    ensures
        match r {
            Some(cells) => convert_tab_line(content@, offset as int, ignore@) == Some(views(cells@)),
            None => convert_tab_line(content@, offset as int, ignore@) is None,
        },
{
    if is_marked_line_exec(content) {
        return None;
    }
    let line = trim_end_exec(content);
    let mut cells: Vec<Vec<char>> = Vec::new();
    let mut cell: Vec<char> = Vec::new();
    let mut split = false;
    let mut local: u128 = 0;
    let mut i: usize = 0;
    while i < line.len()
        invariant
            i <= line@.len(),
            local == utf8_len(line@.take(i as int)),
            local <= 4 * i,
            i <= usize::MAX,
            offset <= 4 * (usize::MAX as int),
            (views(cells@), cell@, split) == scan_tab_cells(
                line@.take(i as int),
                offset as int,
                ignore@,
            ),
        decreases line.len() - i,
    {
        proof {
            assert(line@.take(i + 1).drop_last() =~= line@.take(i as int));
        }
        let c = line[i];
        proof {
            crate::text::lemma_utf8_len_bound(line@.take(i as int));
        }
        if c == '\t' && !ignore.contains_wide(offset + local) {
            let finished = finish_cell_exec(&cell);
            proof {
                lemma_views_push(cells@, finished);
            }
            cells.push(finished);
            cell = Vec::new();
            split = true;
        } else {
            cell.push(c);
        }
        local = local + char_width_exec(c);
        i = i + 1;
    }
    assert(line@.take(line@.len() as int) =~= line@);
    if !split {
        return None;
    }
    let finished = finish_cell_exec(&cell);
    proof {
        lemma_views_push(cells@, finished);
    }
    cells.push(finished);
    Some(cells)
}

fn parse_row_exec(line: &Vec<char>) -> (r: Vec<Vec<char>>)
    ensures
        views(r@) == parse_row(line@),
{
    let t = trim_end_exec(line);
    let mut cells: Vec<Vec<char>> = Vec::new();
    let mut cell: Vec<char> = Vec::new();
    let mut escaped = false;
    let mut closed = false;
    let mut i: usize = 0;
    while i < t.len()
        invariant
            i <= t@.len(),
            (views(cells@), cell@, escaped, closed) == scan_row(t@.take(i as int)),
        decreases t.len() - i,
    {
        proof {
            assert(t@.take(i + 1).drop_last() =~= t@.take(i as int));
        }
        let c = t[i];
        if c == '|' && !escaped {
            proof {
                lemma_views_push(cells@, cell);
            }
            cells.push(cell);
            cell = Vec::new();
            closed = true;
        } else {
            cell.push(c);
            closed = false;
        }
        escaped = c == '\\' && !escaped;
        i = i + 1;
    }
    assert(t@.take(t@.len() as int) =~= t@);
    if !closed {
        proof {
            lemma_views_push(cells@, cell);
        }
        cells.push(cell);
    }
    let ghost all = views(cells@);
    let skip: usize = if t.len() > 0 && t[0] == '|' && cells.len() > 0 {
        1
    } else {
        0
    };
    let ghost kept = if skip == 1 {
        all.drop_first()
    } else {
        all
    };
    let mut r: Vec<Vec<char>> = Vec::new();
    let mut k: usize = skip;
    while k < cells.len()
        invariant
            skip <= k <= cells@.len(),
            all == views(cells@),
            kept == all.skip(skip as int),
            views(r@) == kept.take(k - skip).map_values(|c: Seq<char>| trim(c)),
        decreases cells.len() - k,
    {
        let trimmed = trim_exec(&cells[k]);
        proof {
            lemma_views_push(r@, trimmed);
            assert(kept.take(k + 1 - skip) =~= kept.take(k - skip).push(all[k as int]));
            assert(kept.take(k + 1 - skip).map_values(|c: Seq<char>| trim(c)) =~= kept.take(
                k - skip,
            ).map_values(|c: Seq<char>| trim(c)).push(trimmed@));
        }
        r.push(trimmed);
        k = k + 1;
    }
    assert(kept.take(kept.len() as int) =~= kept);
    r
}

fn cell_align_exec(cell: &Vec<char>) -> (r: Option<Align>)
    ensures
        r == cell_align(cell@),
{
    let left = cell.len() > 0 && cell[0] == ':';
    let right = cell.len() > 1 && cell[cell.len() - 1] == ':';
    let a = run_end_exec(cell, 0, ':');
    let mut b = cell.len();
    while b > 0 && cell[b - 1] == ':'
        invariant
            b <= cell@.len(),
            back_colons(cell@, cell@.len() as int) == back_colons(cell@, b as int),
        decreases b,
    {
        b = b - 1;
    }
    if b <= a {
        return None;
    }
    let mut k = a;
    while k < b
        invariant
            a <= k <= b <= cell@.len(),
            a == run_end(cell@, 0, ':'),
            b == back_colons(cell@, cell@.len() as int),
            left == (cell@.len() > 0 && cell@[0] == ':'),
            right == (cell@.len() > 1 && cell@.last() == ':'),
            forall|m: int| a <= m < k ==> cell@[m] == '-',
        decreases b - k,
    {
        if cell[k] != '-' {
            assert(cell@[k as int] != '-');
            return None;
        }
        k = k + 1;
    }
    Some(
        if left && right {
            Align::Center
        } else if left {
            Align::Left
        } else if right {
            Align::Right
        } else {
            Align::Unaligned
        },
    )
}

fn parse_separator_exec(line: &Vec<char>) -> (r: Option<Vec<Align>>)
    ensures
        match r {
            Some(aligns) => parse_separator(line@) == Some(aligns@),
            None => parse_separator(line@) is None,
        },
{
    let cells = parse_row_exec(line);
    let ghost cv = views(cells@);
    if cells.len() == 0 {
        return None;
    }
    let mut aligns: Vec<Align> = Vec::new();
    let mut k: usize = 0;
    while k < cells.len()
        invariant
            cv == views(cells@),
            cv == parse_row(line@),
            k <= cells@.len(),
            aligns_of(cv, k as int) == Some(aligns@),
        decreases cells.len() - k,
    {
        assert(cv[k as int] == cells@[k as int]@);
        match cell_align_exec(&cells[k]) {
            None => {
                proof {
                    lemma_aligns_of_none(cv, k as int + 1, cells@.len() as int);
                }
                return None;
            },
            Some(a) => {
                aligns.push(a);
            },
        }
        k = k + 1;
    }
    Some(aligns)
}

proof fn lemma_aligns_of_none(cells: Seq<Seq<char>>, n: int, m: int)
    requires
        n <= m,
        aligns_of(cells, n) is None,
    ensures
        aligns_of(cells, m) is None,
    decreases m - n,
{
    if n < m {
        lemma_aligns_of_none(cells, n + 1, m);
    }
}

fn parse_table_exec(run: &Vec<Vec<char>>) -> (r: Option<Table>)
    ensures
        match r {
            Some(t) => parse_table(views(run@)) == Some(table_view(t)),
            None => parse_table(views(run@)) is None,
        },
{
    let ghost rv = views(run@);
    if run.len() < 2 {
        return None;
    }
    assert(rv[1] == run@[1]@);
    assert(rv[0] == run@[0]@);
    let aligns = match parse_separator_exec(&run[1]) {
        Some(a) => a,
        None => return None,
    };
    let header = parse_row_exec(&run[0]);
    let mut body: Vec<Vec<Vec<char>>> = Vec::new();
    let mut k: usize = 2;
    while k < run.len()
        invariant
            rv == views(run@),
            2 <= k <= run@.len(),
            rows_view(body@) == rv.subrange(2, k as int).map_values(|l: Seq<char>| parse_row(l)),
        decreases run.len() - k,
    {
        let row = parse_row_exec(&run[k]);
        proof {
            lemma_rows_push(body@, row);
            assert(rv.subrange(2, k + 1).map_values(|l: Seq<char>| parse_row(l)) =~= rv.subrange(
                2,
                k as int,
            ).map_values(|l: Seq<char>| parse_row(l)).push(views(row@)));
        }
        body.push(row);
        k = k + 1;
    }
    assert(rv.subrange(2, rv.len() as int) =~= rv.skip(2));
    Some(Table { header, aligns, body })
}

fn push_other_exec(blocks: &mut Vec<Block>, line: Vec<char>)
    ensures
        blocks_view(final(blocks)@) == push_other(blocks_view(old(blocks)@), line@),
{
    let ghost before = blocks_view(blocks@);
    let n = blocks.len();
    if n > 0 {
        match blocks.pop() {
            Some(Block::Other(mut lines)) => {
                proof {
                    assert(before.last() == block_view(Block::Other(lines)));
                    lemma_views_push(lines@, line);
                }
                lines.push(line);
                proof {
                    lemma_blocks_push(blocks@, Block::Other(lines));
                }
                blocks.push(Block::Other(lines));
                assert(blocks_view(blocks@) =~= push_other(before, line@));
                return;
            },
            Some(other) => {
                proof {
                    lemma_blocks_push(blocks@, other);
                }
                blocks.push(other);
                assert(blocks_view(blocks@) =~= before);
            },
            None => {},
        }
    }
    let mut lines: Vec<Vec<char>> = Vec::new();
    proof {
        lemma_views_push(lines@, line);
    }
    lines.push(line);
    assert(views(lines@) =~= seq![line@]);
    proof {
        lemma_blocks_push(blocks@, Block::Other(lines));
    }
    blocks.push(Block::Other(lines));
}

fn push_gap_exec(blocks: &mut Vec<Block>, line: Vec<char>)
    ensures
        blocks_view(final(blocks)@) == push_gap(blocks_view(old(blocks)@), line@),
{
    let ghost before = blocks_view(blocks@);
    let n = blocks.len();
    if n > 0 {
        match blocks.pop() {
            Some(Block::Gap(mut lines)) => {
                proof {
                    assert(before.last() == block_view(Block::Gap(lines)));
                    lemma_views_push(lines@, line);
                }
                lines.push(line);
                proof {
                    lemma_blocks_push(blocks@, Block::Gap(lines));
                }
                blocks.push(Block::Gap(lines));
                assert(blocks_view(blocks@) =~= push_gap(before, line@));
                return;
            },
            Some(other) => {
                proof {
                    lemma_blocks_push(blocks@, other);
                }
                blocks.push(other);
                assert(blocks_view(blocks@) =~= before);
            },
            None => {},
        }
    }
    let mut lines: Vec<Vec<char>> = Vec::new();
    proof {
        lemma_views_push(lines@, line);
    }
    lines.push(line);
    assert(views(lines@) =~= seq![line@]);
    proof {
        lemma_blocks_push(blocks@, Block::Gap(lines));
    }
    blocks.push(Block::Gap(lines));
}

pub open spec fn lines_view(v: Seq<(Vec<char>, u128)>) -> Seq<(Seq<char>, int)> {
    v.map_values(|p: (Vec<char>, u128)| (p.0@, p.1 as int))
}

fn push_others_exec(blocks: &mut Vec<Block>, run: &Vec<Vec<char>>)
    ensures
        blocks_view(final(blocks)@) == push_others(blocks_view(old(blocks)@), views(run@)),
{
    let ghost b0 = blocks_view(blocks@);
    let ghost rv = views(run@);
    let mut m: usize = 0;
    while m < run.len()
        invariant
            rv == views(run@),
            m <= run@.len(),
            blocks_view(blocks@) == push_others(b0, rv.take(m as int)),
        decreases run.len() - m,
    {
        proof {
            assert(rv.take(m + 1).drop_last() =~= rv.take(m as int));
            assert(rv.take(m + 1).last() == run@[m as int]@);
        }
        let line = copy_chars(&run[m]);
        push_other_exec(blocks, line);
        m = m + 1;
    }
    assert(rv.take(rv.len() as int) =~= rv);
}

fn parse_blocks_exec(lines: &Vec<(Vec<char>, u128)>, ignore: &IgnoreRanges) -> (blocks: Vec<Block>)
    requires
        forall|k: int| 0 <= k < lines@.len() ==> #[trigger] lines@[k].1 <= 4 * (usize::MAX as int),
    ensures
        blocks_view(blocks@) == parse_blocks_from(lines_view(lines@), ignore@, 0, seq![]),
{
    let ghost lv = lines_view(lines@);
    let mut blocks: Vec<Block> = Vec::new();
    assert(blocks_view(blocks@) =~= Seq::<SpecBlock>::empty());
    let mut i: usize = 0;
    while i < lines.len()
        invariant
            lv == lines_view(lines@),
            i <= lines@.len(),
            forall|k: int| 0 <= k < lines@.len() ==> #[trigger] lines@[k].1 <= 4 * (usize::MAX as int),
            parse_blocks_from(lv, ignore@, 0, seq![]) == parse_blocks_from(
                lv,
                ignore@,
                i as int,
                blocks_view(blocks@),
            ),
        decreases lines.len() - i,
    {
        let offset = lines[i].1;
        assert(lv[i as int] == (lines@[i as int].0@, offset as int));
        let code = ignore.contains_wide(offset);
        if !code && lines[i].0.len() > 0 && lines[i].0[0] == '|' {
            let mut j = i;
            while j < lines.len() && !ignore.contains_wide(lines[j].1) && lines[j].0.len() > 0
                && lines[j].0[0] == '|'
                invariant
                    lv == lines_view(lines@),
                    i <= j <= lines@.len(),
                    pipe_run_end(lv, ignore@, i as int) == pipe_run_end(lv, ignore@, j as int),
                decreases lines.len() - j,
            {
                assert(lv[j as int] == (lines@[j as int].0@, lines@[j as int].1 as int));
                j = j + 1;
            }
            proof {
                if j < lines@.len() {
                    assert(lv[j as int] == (lines@[j as int].0@, lines@[j as int].1 as int));
                }
            }
            let mut run: Vec<Vec<char>> = Vec::new();
            let mut k = i;
            while k < j
                invariant
                    lv == lines_view(lines@),
                    i <= k <= j <= lines@.len(),
                    views(run@) == lv.subrange(i as int, k as int).map_values(
                        |l: (Seq<char>, int)| l.0,
                    ),
                decreases j - k,
            {
                let line = copy_chars(&lines[k].0);
                proof {
                    lemma_views_push(run@, line);
                    assert(lv[k as int].0 == line@);
                    assert(lv.subrange(i as int, k + 1).map_values(|l: (Seq<char>, int)| l.0)
                        =~= lv.subrange(i as int, k as int).map_values(
                        |l: (Seq<char>, int)| l.0,
                    ).push(line@));
                }
                run.push(line);
                k = k + 1;
            }
            match parse_table_exec(&run) {
                Some(t) => {
                    proof {
                        lemma_blocks_push(blocks@, Block::Table(t));
                    }
                    blocks.push(Block::Table(t));
                },
                None => {
                    push_others_exec(&mut blocks, &run);
                },
            }
            i = j;
            continue;
        }
        let content = copy_chars(&lines[i].0);
        if code {
            push_other_exec(&mut blocks, content);
        } else if is_blank_line_exec(&content) {
            push_gap_exec(&mut blocks, content);
        } else {
            match convert_tab_line_exec(&content, offset, ignore) {
                Some(cells) => {
                    let mut aligns: Vec<Align> = Vec::new();
                    let mut c: usize = 0;
                    while c < cells.len()
                        invariant
                            c <= cells@.len(),
                            aligns@ == Seq::new(c as nat, |x: int| Align::Unaligned),
                        decreases cells.len() - c,
                    {
                        aligns.push(Align::Unaligned);
                        c = c + 1;
                        assert(aligns@ =~= Seq::new(c as nat, |x: int| Align::Unaligned));
                    }
                    let t = Table { header: cells, aligns, body: Vec::new() };
                    assert(table_view(t) == head_only(views(t.header@))) by {
                        assert(rows_view(t.body@) =~= Seq::<Seq<Seq<char>>>::empty());
                    }
                    proof {
                        lemma_blocks_push(blocks@, Block::Table(t));
                    }
                    blocks.push(Block::Table(t));
                },
                None => {
                    push_other_exec(&mut blocks, content);
                },
            }
        }
        i = i + 1;
    }
    blocks
}

fn merge_tables_exec(blocks: Vec<Block>) -> (out: Vec<Block>)
    ensures
        blocks_view(out@) == merge_tables(blocks_view(blocks@)),
{
    let ghost bv = blocks_view(blocks@);
    assert(bv.skip(0) =~= bv);
    assert(bv.len() == blocks.len());
    let mut rest = blocks;
    let mut out: Vec<Block> = Vec::new();
    let mut i: usize = 0;
    while rest.len() > 0
        invariant
            i <= bv.len(),
            bv.len() <= usize::MAX,
            rest@.len() == bv.len() - i,
            blocks_view(rest@) == bv.skip(i as int),
            blocks_view(out@) == merge_tables(bv.take(i as int)),
        decreases rest.len(),
    {
        proof {
            assert(bv.take(i + 1).drop_last() =~= bv.take(i as int));
        }
        let ghost before = blocks_view(out@);
        let ghost old_rest = rest@;
        let block = rest.remove(0);
        proof {
            assert(rest@ =~= old_rest.subrange(1, old_rest.len() as int));
            assert(blocks_view(old_rest)[0] == block_view(block));
            assert(bv.skip(i as int)[0] == block_view(block));
            assert(bv.take(i + 1).last() == block_view(block));
            assert(blocks_view(rest@) =~= blocks_view(old_rest).skip(1));
            assert(blocks_view(rest@) =~= bv.skip(i + 1));
        }
        match block {
            Block::Table(table) => {
                if table.body.len() == 0 {
                    let n = out.len();
                    let gap_after_table = n >= 2 && match &out[n - 1] {
                        Block::Gap(_) => true,
                        _ => false,
                    } && match &out[n - 2] {
                        Block::Table(_) => true,
                        _ => false,
                    };
                    proof {
                        if n >= 2 {
                            assert(before.last() == block_view(out@[n - 1]));
                            assert(before[n - 2] == block_view(out@[n - 2]));
                        }
                    }
                    if gap_after_table {
                        out.pop();
                        assert(blocks_view(out@) =~= before.drop_last());
                    }
                    let ghost mid = blocks_view(out@);
                    let m = out.len();
                    let last_is_table = m > 0 && match &out[m - 1] {
                        Block::Table(_) => true,
                        _ => false,
                    };
                    proof {
                        if m > 0 {
                            assert(mid.last() == block_view(out@[m - 1]));
                        }
                    }
                    if last_is_table {
                        match out.pop() {
                            Some(Block::Table(previous)) => {
                                let Table { header, aligns, body } = previous;
                                let mut body = body;
                                proof {
                                    lemma_rows_push(body@, table.header);
                                }
                                body.push(table.header);
                                let merged = Table { header, aligns, body };
                                proof {
                                    lemma_blocks_push(out@, Block::Table(merged));
                                }
                                out.push(Block::Table(merged));
                                assert(blocks_view(out@) =~= merge_step(before, bv[i as int]));
                            },
                            _ => {},
                        }
                    } else {
                        let b = Block::Table(table);
                        proof {
                            lemma_blocks_push(out@, b);
                        }
                        out.push(b);
                        assert(blocks_view(out@) =~= merge_step(before, bv[i as int]));
                    }
                } else {
                    let b = Block::Table(table);
                    proof {
                        lemma_blocks_push(out@, b);
                    }
                    out.push(b);
                }
            },
            other => {
                proof {
                    lemma_blocks_push(out@, other);
                }
                out.push(other);
            },
        }
        i = i + 1;
    }
    assert(bv.take(i as int) =~= bv);
    out
}

fn bar_sep() -> (r: Vec<char>)
    ensures
        r@ == seq![' ', '|', ' '],
{
    let r = vec![' ', '|', ' '];
    assert(r@ =~= seq![' ', '|', ' ']);
    r
}

fn wrap_row(inner: Vec<char>) -> (r: Vec<char>)
    ensures
        r@ == seq!['|', ' '] + inner@ + seq![' ', '|'],
{
    let mut r = vec!['|', ' '];
    push_all(&mut r, &inner);
    r.push(' ');
    r.push('|');
    assert(r@ =~= seq!['|', ' '] + inner@ + seq![' ', '|']);
    r
}

fn render_row_exec(cells: &Vec<Vec<char>>, width: usize) -> (r: Vec<char>)
    ensures
        r@ == render_row(views(cells@), width as nat),
{
    let ghost cv = views(cells@);
    let ghost target = Seq::new(width as nat, |i: int| if i < cv.len() { cv[i] } else { seq![] });
    let mut padded: Vec<Vec<char>> = Vec::new();
    let mut i: usize = 0;
    while i < width
        invariant
            cv == views(cells@),
            i <= width,
            target == Seq::new(width as nat, |i: int| if i < cv.len() { cv[i] } else { seq![] }),
            views(padded@) == target.take(i as int),
        decreases width - i,
    {
        let cell = if i < cells.len() {
            copy_chars(&cells[i])
        } else {
            Vec::new()
        };
        proof {
            lemma_views_push(padded@, cell);
            assert(target.take(i + 1) =~= target.take(i as int).push(cell@));
        }
        padded.push(cell);
        i = i + 1;
    }
    assert(target.take(width as int) =~= target);
    let sep = bar_sep();
    wrap_row(join_exec(&padded, &sep))
}

fn align_mark_exec(a: Align) -> (r: Vec<char>)
    ensures
        r@ == align_mark(a),
{
    let r = match a {
        Align::Unaligned => vec!['-'],
        Align::Left => vec![':', '-'],
        Align::Right => vec!['-', ':'],
        Align::Center => vec![':', '-', ':'],
    };
    assert(r@ =~= align_mark(a));
    r
}

fn render_separator_exec(aligns: &Vec<Align>, width: usize) -> (r: Vec<char>)
    ensures
        r@ == render_separator(aligns@, width as nat),
{
    let ghost target = Seq::new(
        width as nat,
        |i: int| align_mark(if i < aligns@.len() { aligns@[i] } else { Align::Unaligned }),
    );
    let mut padded: Vec<Vec<char>> = Vec::new();
    let mut i: usize = 0;
    while i < width
        invariant
            i <= width,
            target == Seq::new(
                width as nat,
                |i: int| align_mark(if i < aligns@.len() { aligns@[i] } else { Align::Unaligned }),
            ),
            views(padded@) == target.take(i as int),
        decreases width - i,
    {
        let a = if i < aligns.len() {
            aligns[i]
        } else {
            Align::Unaligned
        };
        let mark = align_mark_exec(a);
        proof {
            lemma_views_push(padded@, mark);
            assert(target.take(i + 1) =~= target.take(i as int).push(mark@));
        }
        padded.push(mark);
        i = i + 1;
    }
    assert(target.take(width as int) =~= target);
    let sep = bar_sep();
    wrap_row(join_exec(&padded, &sep))
}

fn table_width_exec(t: &Table) -> (w: usize)
    ensures
        w == table_width(table_view(*t)),
{
    let ghost tv = table_view(*t);
    let mut longest: usize = 0;
    let mut k: usize = 0;
    while k < t.body.len()
        invariant
            tv == table_view(*t),
            k <= t.body@.len(),
            longest == max_row_len(tv.body.take(k as int)),
        decreases t.body.len() - k,
    {
        proof {
            assert(tv.body.take(k + 1).drop_last() =~= tv.body.take(k as int));
            assert(tv.body.take(k + 1).last() == views(t.body@[k as int]@));
        }
        if t.body[k].len() > longest {
            longest = t.body[k].len();
        }
        k = k + 1;
    }
    assert(tv.body.take(tv.body.len() as int) =~= tv.body);
    let mut w = t.header.len();
    if t.aligns.len() > w {
        w = t.aligns.len();
    }
    if longest > w {
        w = longest;
    }
    if w < 1 {
        w = 1;
    }
    w
}

fn render_table_exec(t: &Table, lines: &mut Vec<Vec<char>>)
    ensures
        views(final(lines)@) == views(old(lines)@) + render_table(table_view(*t)),
{
    let ghost tv = table_view(*t);
    let ghost start = views(lines@);
    let width = table_width_exec(t);
    let head = render_row_exec(&t.header, width);
    proof {
        lemma_views_push(lines@, head);
    }
    lines.push(head);
    let sep = render_separator_exec(&t.aligns, width);
    proof {
        lemma_views_push(lines@, sep);
    }
    lines.push(sep);
    let ghost rows = tv.body.map_values(|row: Seq<Seq<char>>| render_row(row, width as nat));
    let mut k: usize = 0;
    while k < t.body.len()
        invariant
            tv == table_view(*t),
            rows == tv.body.map_values(|row: Seq<Seq<char>>| render_row(row, width as nat)),
            k <= t.body@.len(),
            views(lines@) == start + seq![
                render_row(tv.header, width as nat),
                render_separator(tv.aligns, width as nat),
            ] + rows.take(k as int),
        decreases t.body.len() - k,
    {
        let row = render_row_exec(&t.body[k], width);
        proof {
            assert(tv.body[k as int] == views(t.body@[k as int]@));
            lemma_views_push(lines@, row);
            assert(rows.take(k + 1) =~= rows.take(k as int).push(row@));
        }
        lines.push(row);
        k = k + 1;
    }
    assert(rows.take(rows.len() as int) =~= rows);
    assert(views(lines@) =~= start + render_table(tv));
}

fn pipe_led_exec(l: &Vec<char>) -> (r: bool)
    ensures
        r == pipe_led(l@),
{
    l.len() > 0 && l[0] == '|'
}

fn parted_exec(a: &Block, b: &Block) -> (r: bool)
    ensures
        r == parted(block_view(*a), block_view(*b)),
{
    match (a, b) {
        (Block::Table(_), Block::Table(_)) => true,
        (Block::Table(_), Block::Other(v)) => {
            if v.len() > 0 {
                assert(views(v@)[0] == v@[0]@);
                pipe_led_exec(&v[0])
            } else {
                false
            }
        },
        (Block::Other(v), Block::Table(_)) => {
            if v.len() > 0 {
                assert(views(v@).last() == v@[v@.len() - 1]@);
                pipe_led_exec(&v[v.len() - 1])
            } else {
                false
            }
        },
        _ => false,
    }
}

fn render_blocks_exec(blocks: &Vec<Block>) -> (lines: Vec<Vec<char>>)
    ensures
        views(lines@) == render_blocks(blocks_view(blocks@)).0,
{
    let ghost bv = blocks_view(blocks@);
    let mut lines: Vec<Vec<char>> = Vec::new();
    let mut k: usize = 0;
    while k < blocks.len()
        invariant
            bv == blocks_view(blocks@),
            k <= blocks@.len(),
            views(lines@) == render_blocks(bv.take(k as int)).0,
        decreases blocks.len() - k,
    {
        proof {
            assert(bv.take(k + 1).drop_last() =~= bv.take(k as int));
            assert(bv.take(k + 1).last() == block_view(blocks@[k as int]));
            if k >= 1 {
                assert(bv.take(k + 1)[k - 1] == block_view(blocks@[k - 1]));
            }
        }
        let ghost before = views(lines@);
        let split = k >= 1 && parted_exec(&blocks[k - 1], &blocks[k]);
        if split {
            let blank: Vec<char> = Vec::new();
            proof {
                lemma_views_push(lines@, blank);
                assert(blank@ =~= Seq::<char>::empty());
            }
            lines.push(blank);
        }
        let ghost led = views(lines@);
        assert(led =~= before + if split {
            seq![Seq::<char>::empty()]
        } else {
            Seq::<Seq<char>>::empty()
        });
        match &blocks[k] {
            Block::Table(t) => {
                render_table_exec(t, &mut lines);
            },
            Block::Gap(verbatim) | Block::Other(verbatim) => {
                let ghost start = views(lines@);
                let mut m: usize = 0;
                while m < verbatim.len()
                    invariant
                        m <= verbatim@.len(),
                        views(lines@) == start + views(verbatim@).take(m as int),
                    decreases verbatim.len() - m,
                {
                    let line = copy_chars(&verbatim[m]);
                    proof {
                        lemma_views_push(lines@, line);
                        assert(views(verbatim@).take(m + 1) =~= views(verbatim@).take(m as int).push(
                            line@,
                        ));
                    }
                    lines.push(line);
                    m = m + 1;
                }
                assert(views(verbatim@).take(verbatim@.len() as int) =~= views(verbatim@));
            },
        }
        k = k + 1;
    }
    assert(bv.take(bv.len() as int) =~= bv);
    lines
}

impl Rule for Tables {
    open spec fn spec_name(&self) -> Seq<char> {
        "tables"@
    }

    open spec fn spec_apply(&self, text: Seq<char>, ignore: Seq<(int, int)>) -> Seq<char> {
        spec_tables(text, ignore)
    }

    fn name(&self) -> (name: &'static str) {
        "tables"
    }

    fn apply(&self, text: &str, ignore: &IgnoreRanges) -> (out: String) {
        let doc = Doc::new(text);
        let bounds = line_bounds_exec(&doc.chars);
        let ghost s = doc.chars@;
        let mut lines: Vec<(Vec<char>, u128)> = Vec::new();
        let mut k: usize = 0;
        while k < bounds.len()
            invariant
                doc.wf(),
                s == doc.chars@,
                crate::text::bounds_view(bounds@) == line_bounds(s),
                k <= bounds@.len(),
                lines_view(lines@) == lines_with_offsets(s).take(k as int),
                forall|m: int| 0 <= m < lines@.len() ==> #[trigger] lines@[m].1 <= 4 * (
                usize::MAX as int),
            decreases bounds.len() - k,
        {
            let (content, offset) = line_at(&doc, &bounds, k);
            proof {
                crate::text::lemma_line_bounds_shape(s);
                let b = line_bounds(s)[k as int];
                crate::text::lemma_utf8_len_bound(s.take(b.0));
                assert(b.0 <= s.len());
                assert(s.len() == doc.chars.len());
                assert(lines_with_offsets(s).take(k + 1) =~= lines_with_offsets(s).take(
                    k as int,
                ).push((content@, offset as int)));
                assert(lines_view(lines@.push((content, offset))) =~= lines_view(lines@).push(
                    (content@, offset as int),
                ));
            }
            lines.push((content, offset));
            k = k + 1;
        }
        assert(lines_with_offsets(s).take(bounds@.len() as int) =~= lines_with_offsets(s));
        let blocks = parse_blocks_exec(&lines, ignore);
        let merged = merge_tables_exec(blocks);
        let rendered = render_blocks_exec(&merged);
        let newline = vec!['\n'];
        assert(newline@ =~= seq!['\n']);
        let mut out = join_exec(&rendered, &newline);
        let tail = final_break_exec(&doc.chars);
        push_all(&mut out, &tail);
        string_of(&out)
    }
}

// ----- reading back what was written -----

/// A cell that reads back as itself between pipes: trimmed, and without a
/// pipe that would split it.
pub open spec fn row_safe(c: Seq<char>) -> bool {
    trim(c) == c && scan_row(c).0.len() == 0
}

/// One step of splitting a row.
pub open spec fn row_step(st: (Seq<Seq<char>>, Seq<char>, bool, bool), c: char) -> (
    Seq<Seq<char>>,
    Seq<char>,
    bool,
    bool,
) {
    let (cells, cell, escaped, closed) = st;
    let (cells, cell, closed) = if c == '|' && !escaped {
        (cells.push(cell), seq![], true)
    } else {
        (cells, cell.push(c), false)
    };
    (cells, cell, c == '\\' && !escaped, closed)
}

/// Splitting `t` from a given state.
pub open spec fn scan_row_from(st: (Seq<Seq<char>>, Seq<char>, bool, bool), t: Seq<char>) -> (
    Seq<Seq<char>>,
    Seq<char>,
    bool,
    bool,
)
    decreases t.len(),
{
    if t.len() == 0 {
        st
    } else {
        row_step(scan_row_from(st, t.drop_last()), t.last())
    }
}

proof fn lemma_scan_row_concat(a: Seq<char>, b: Seq<char>)
    ensures
        scan_row(a + b) == scan_row_from(scan_row(a), b),
    decreases b.len(),
{
    if b.len() == 0 {
        assert(a + b =~= a);
    } else {
        assert((a + b).drop_last() =~= a + b.drop_last());
        lemma_scan_row_concat(a, b.drop_last());
    }
}

/// A cell with no splitting pipe passes through an open cell whole.
proof fn lemma_scan_row_cell(
    cs: Seq<Seq<char>>,
    cl: Seq<char>,
    closed: bool,
    c: Seq<char>,
)
    requires
        scan_row(c).0.len() == 0,
    ensures
        scan_row(c).1 == c,
        scan_row_from((cs, cl, false, closed), c) == (cs, cl + c, scan_row(c).2, if c.len() == 0 {
            closed
        } else {
            false
        }),
    decreases c.len(),
{
    if c.len() == 0 {
        assert(cl + c =~= cl);
    } else {
        let prev = c.drop_last();
        assert(scan_row(prev).0.len() <= scan_row(c).0.len());
        lemma_scan_row_cell(cs, cl, closed, prev);
        assert(scan_row(c).1 =~= c);
        assert(cl + prev.push(c.last()) =~= cl + c);
    }
}

/// A trimmed cell between single spaces trims back to itself.
proof fn lemma_trim_spaced(c: Seq<char>)
    requires
        trim(c) == c,
    ensures
        trim(seq![' '] + c + seq![' ']) == c,
{
    let x = seq![' '] + c + seq![' '];
    crate::scan::lemma_skip_ws_bounds(c, 0);
    crate::scan::lemma_skip_ws_bounds(x, 0);
    if c.len() > 0 {
        let ts = c.subrange(skip_ws(c, 0), c.len() as int);
        crate::scan::lemma_back_ws_bounds(ts, ts.len() as int);
        assert(skip_ws(c, 0) == 0) by {
            if skip_ws(c, 0) > 0 {
                assert(trim(c).len() < c.len());
            }
        }
        assert(ts =~= c);
        assert(back_ws(c, c.len() as int) == c.len()) by {
            if back_ws(c, c.len() as int) < c.len() {
                assert(trim(c).len() < c.len());
            }
        }
        crate::scan::lemma_back_ws_bounds(c, c.len() as int);
        assert(!is_ws(c[0]));
        assert(!is_ws(c[c.len() - 1]));
        assert(x[1] == c[0]);
        assert(skip_ws(x, 1) == 1);
        assert(skip_ws(x, 0) == 1);
        let y = x.subrange(1, x.len() as int);
        assert(y =~= c + seq![' ']);
        assert(y[c.len() - 1] == c[c.len() - 1]);
        assert(back_ws(y, y.len() as int) == back_ws(y, c.len() as int));
        assert(back_ws(y, c.len() as int) == c.len());
        assert(y.subrange(0, c.len() as int) =~= c);
    } else {
        assert(x =~= seq![' ', ' ']);
        assert(skip_ws(x, 2) == 2);
        assert(skip_ws(x, 1) == 2);
        assert(skip_ws(x, 0) == 2);
        assert(x.subrange(2, 2) =~= Seq::<char>::empty());
        assert(back_ws(Seq::<char>::empty(), 0) == 0);
    }
}

/// The split state after `| c0 | ... | ck-1`: the empty cell before the
/// leading pipe and each earlier cell with its spaces, and the last cell open.
proof fn lemma_row_prefix(p: Seq<Seq<char>>, k: int)
    requires
        1 <= k <= p.len(),
        forall|i: int| 0 <= i < p.len() ==> #[trigger] scan_row(p[i]).0.len() == 0,
    ensures
        scan_row(seq!['|', ' '] + join(p.take(k), seq![' ', '|', ' '])) == (
            seq![Seq::<char>::empty()] + Seq::new(
                (k - 1) as nat,
                |i: int| seq![' '] + p[i] + seq![' '],
            ),
            seq![' '] + p[k - 1],
            scan_row(p[k - 1]).2,
            false,
        ),
    decreases k,
{
    let sep = seq![' ', '|', ' '];
    let start = seq!['|', ' '];
    let e: Seq<char> = seq![];
    assert(start.drop_last() =~= seq!['|']);
    assert(seq!['|'].drop_last() =~= e);
    assert(scan_row(e) == (Seq::<Seq<char>>::empty(), e, false, false));
    assert(Seq::<Seq<char>>::empty().push(e) =~= seq![e]);
    assert(scan_row(seq!['|']) == (seq![e], e, false, true));
    assert(scan_row(start) == (seq![e], seq![' '], false, false)) by {
        assert(e.push(' ') =~= seq![' ']);
    }
    if k == 1 {
        assert(join(p.take(1), sep) == p[0]);
        lemma_scan_row_concat(start, p[0]);
        lemma_scan_row_cell(seq![e], seq![' '], false, p[0]);
        assert(seq![e] + Seq::new(0, |i: int| seq![' '] + p[i] + seq![' ']) =~= seq![e]);
    } else {
        lemma_row_prefix(p, k - 1);
        let before = start + join(p.take(k - 1), sep);
        assert(p.take(k).drop_last() =~= p.take(k - 1));
        assert(join(p.take(k), sep) == join(p.take(k - 1), sep) + sep + p[k - 1]);
        assert(start + join(p.take(k), sep) =~= (before + sep) + p[k - 1]);
        lemma_scan_row_concat(before, sep);
        let cells = seq![e] + Seq::new((k - 2) as nat, |i: int| seq![' '] + p[i] + seq![' ']);
        let open = seq![' '] + p[k - 2];
        let st = (cells, open, scan_row(p[k - 2]).2, false);
        assert(sep.drop_last() =~= seq![' ', '|']);
        assert(seq![' ', '|'].drop_last() =~= seq![' ']);
        assert(seq![' '].drop_last() =~= e);
        let after = scan_row_from(st, sep);
        let st1 = row_step(st, ' ');
        assert(st1 == (cells, open.push(' '), false, false));
        let st2 = row_step(st1, '|');
        assert(st2 == (cells.push(open.push(' ')), e, false, true));
        let st3 = row_step(st2, ' ');
        assert(st3 == (cells.push(open.push(' ')), seq![' '], false, false)) by {
            assert(e.push(' ') =~= seq![' ']);
        }
        assert(scan_row_from(st, e) == st);
        assert(scan_row_from(st, seq![' ']) == st1);
        assert(scan_row_from(st, seq![' ', '|']) == st2);
        assert(after == st3);
        lemma_scan_row_concat(before + sep, p[k - 1]);
        lemma_scan_row_cell(cells.push(open.push(' ')), seq![' '], false, p[k - 1]);
        assert(open.push(' ') =~= seq![' '] + p[k - 2] + seq![' ']);
        assert(cells.push(open.push(' ')) =~= seq![e] + Seq::new(
            (k - 1) as nat,
            |i: int| seq![' '] + p[i] + seq![' '],
        ));
    }
}

/// Rendering a row of cells that read back as themselves and parsing it
/// again gives those cells, padded with empty ones to the width.
pub proof fn table_row_round_trip(cells: Seq<Seq<char>>, width: nat)
    requires
        width >= 1,
        forall|i: int| 0 <= i < cells.len() ==> row_safe(#[trigger] cells[i]),
    ensures
        parse_row(render_row(cells, width)) == pad_cells(cells, width),
{
    let p = Seq::new(width, |i: int| if i < cells.len() { cells[i] } else { Seq::<char>::empty() });
    let e: Seq<char> = seq![];
    assert(trim(e) =~= e) by {
        assert(skip_ws(e, 0) == 0);
        assert(back_ws(e, 0) == 0);
    }
    assert(scan_row(e) == (Seq::<Seq<char>>::empty(), e, false, false));
    assert forall|i: int| 0 <= i < p.len() implies #[trigger] scan_row(p[i]).0.len() == 0 && trim(
        p[i],
    ) == p[i] by {
        if i < cells.len() {
            assert(row_safe(cells[i]));
        }
    }
    let w = width as int;
    lemma_row_prefix(p, w);
    let sep = seq![' ', '|', ' '];
    let start = seq!['|', ' '];
    let body = start + join(p.take(w), sep);
    assert(p.take(w) =~= p);
    let line = render_row(cells, width);
    assert(line =~= body + seq![' ', '|']);
    lemma_scan_row_concat(body, seq![' ', '|']);
    let cells_before = seq![e] + Seq::new((w - 1) as nat, |i: int| seq![' '] + p[i] + seq![' ']);
    assert(seq![' ', '|'].drop_last() =~= seq![' ']);
    assert(seq![' '].drop_last() =~= e);
    let last = seq![' '] + p[w - 1];
    let st = (cells_before, last, scan_row(p[w - 1]).2, false);
    let st1 = row_step(st, ' ');
    assert(st1 == (cells_before, last.push(' '), false, false));
    let st2 = row_step(st1, '|');
    assert(st2 == (cells_before.push(last.push(' ')), e, false, true));
    assert(scan_row_from(st, e) == st);
    assert(scan_row_from(st, seq![' ']) == st1);
    assert(scan_row_from(st, seq![' ', '|']) == st2);
    assert(scan_row(line) == st2);
    // The line ends with a pipe, so trimming its end changes nothing.
    assert(line[line.len() - 1] == '|');
    assert(back_ws(line, line.len() as int) == line.len());
    assert(trim_end(line) =~= line);
    assert(line[0] == '|');
    let all = cells_before.push(last.push(' '));
    let kept = all.drop_first();
    assert(last.push(' ') =~= seq![' '] + p[w - 1] + seq![' ']);
    assert(kept =~= Seq::new(width, |i: int| seq![' '] + p[i] + seq![' ']));
    let trimmed = kept.map_values(|c: Seq<char>| trim(c));
    assert forall|i: int| 0 <= i < w implies #[trigger] trimmed[i] == p[i] by {
        lemma_trim_spaced(p[i]);
    }
    assert(parse_row(line) =~= p);
}

proof fn lemma_scan_escape(t: Seq<char>)
    ensures
        scan_row(scan_escape(t).0) == (
            Seq::<Seq<char>>::empty(),
            scan_escape(t).0,
            scan_escape(t).1,
            false,
        ),
        t.len() > 0 ==> scan_escape(t).0.len() > 0 && (scan_escape(t).0[0] == t[0]
            || scan_escape(t).0[0] == '\\') && scan_escape(t).0.last() == t.last(),
    decreases t.len(),
{
    if t.len() > 0 {
        let prev = t.drop_last();
        lemma_scan_escape(prev);
        let (out, escaped) = scan_escape(prev);
        let none = Seq::<Seq<char>>::empty();
        let c = t.last();
        if c == '|' && !escaped {
            let o1 = out.push('\\');
            let o2 = o1.push(c);
            assert(scan_escape(t) == (o2, false));
            assert(o1.drop_last() =~= out);
            assert(o2.drop_last() =~= o1);
            assert(scan_row(o1) == (none, o1, true, false));
            assert(scan_row(o2) == (none, o2, false, false));
            if prev.len() == 0 {
                assert(out =~= Seq::<char>::empty());
                assert(o2[0] == '\\');
            } else {
                assert(o2[0] == out[0]);
                assert(t[0] == prev[0]);
            }
        } else {
            let o2 = out.push(c);
            assert(scan_escape(t) == (o2, c == '\\' && !escaped));
            assert(o2.drop_last() =~= out);
            assert(scan_row(o2) == (none, o2, c == '\\' && !escaped, false));
            if prev.len() == 0 {
                assert(out =~= Seq::<char>::empty());
            } else {
                assert(o2[0] == out[0]);
                assert(t[0] == prev[0]);
            }
        }
    }
}

/// A cell with no pipe has nothing to split.
proof fn lemma_scan_row_no_pipe(t: Seq<char>)
    requires
        forall|k: int| 0 <= k < t.len() ==> t[k] != '|',
    ensures
        scan_row(t).0.len() == 0,
    decreases t.len(),
{
    if t.len() > 0 {
        lemma_scan_row_no_pipe(t.drop_last());
        assert(t[t.len() - 1] != '|');
    }
}

/// A cell converted from a tab-separated line reads back as itself: its
/// pipes are escaped so that it stays one cell.
pub proof fn finished_cells_read_back(raw: Seq<char>)
    ensures
        row_safe(finish_cell(raw)),
{
    let t = trim(raw);
    let out = finish_cell(raw);
    lemma_scan_escape(t);
    crate::scan::lemma_skip_ws_bounds(raw, 0);
    let ts = raw.subrange(skip_ws(raw, 0), raw.len() as int);
    crate::scan::lemma_back_ws_bounds(ts, ts.len() as int);
    if t.len() > 0 {
        assert(t[0] == ts[0]);
        assert(ts[0] == raw[skip_ws(raw, 0)]);
        assert(t.last() == ts[back_ws(ts, ts.len() as int) - 1]);
        assert(!is_ws(out[0]));
        assert(!is_ws(out[out.len() - 1]));
        crate::scan::lemma_skip_ws_bounds(out, 0);
        assert(skip_ws(out, 0) == 0);
        assert(out.subrange(0, out.len() as int) =~= out);
        assert(back_ws(out, out.len() as int) == out.len());
        assert(trim(out) =~= out);
    } else {
        assert(out =~= Seq::<char>::empty());
        assert(skip_ws(out, 0) == 0);
        assert(back_ws(out, 0) == 0);
        assert(trim(out) =~= out);
    }
}

/// The alignments a separator row's cells spell, cell by cell.
proof fn lemma_align_marks(marks: Seq<Seq<char>>, aligns: Seq<Align>, n: int)
    requires
        0 <= n <= marks.len(),
        marks.len() == aligns.len(),
        forall|i: int| 0 <= i < marks.len() ==> #[trigger] marks[i] == align_mark(aligns[i]),
    ensures
        aligns_of(marks, n) == Some(aligns.take(n)),
    decreases n,
{
    if n > 0 {
        lemma_align_marks(marks, aligns, n - 1);
        let m = marks[n - 1];
        assert(m == align_mark(aligns[n - 1]));
        let d: Seq<char> = seq!['-'];
        let l: Seq<char> = seq![':', '-'];
        let r: Seq<char> = seq!['-', ':'];
        let c: Seq<char> = seq![':', '-', ':'];
        match aligns[n - 1] {
            Align::Unaligned => {
                assert(run_end(d, 0, ':') == 0);
                assert(back_colons(d, 1) == 1);
            },
            Align::Left => {
                assert(run_end(l, 1, ':') == 1);
                assert(run_end(l, 0, ':') == 1);
                assert(back_colons(l, 2) == 2);
            },
            Align::Right => {
                assert(run_end(r, 0, ':') == 0);
                assert(back_colons(r, 1) == 1);
                assert(back_colons(r, 2) == 1);
            },
            Align::Center => {
                assert(run_end(c, 1, ':') == 1);
                assert(run_end(c, 0, ':') == 1);
                assert(back_colons(c, 2) == 2);
                assert(back_colons(c, 3) == 2);
            },
        }
        assert(aligns.take(n - 1).push(aligns[n - 1]) =~= aligns.take(n));
    }
}

/// A rendered separator row parses back to its alignments, padded with
/// unaligned columns to the width.
pub proof fn separator_round_trip(aligns: Seq<Align>, width: nat)
    requires
        width >= 1,
    ensures
        parse_separator(render_separator(aligns, width)) == Some(pad_aligns(aligns, width)),
{
    let padded = Seq::new(
        width,
        |i: int|
            if i < aligns.len() {
                aligns[i]
            } else {
                Align::Unaligned
            },
    );
    let marks = Seq::new(width, |i: int| align_mark(padded[i]));
    assert forall|i: int| 0 <= i < marks.len() implies row_safe(#[trigger] marks[i]) by {
        let m = marks[i];
        assert(forall|k: int| 0 <= k < m.len() ==> m[k] == '-' || m[k] == ':');
        lemma_scan_row_no_pipe(m);
        assert(!is_ws(m[0]) && !is_ws(m[m.len() - 1]));
        crate::scan::lemma_skip_ws_bounds(m, 0);
        assert(skip_ws(m, 0) == 0);
        assert(back_ws(m, m.len() as int) == m.len());
        assert(m.subrange(0, m.len() as int) =~= m);
        assert(trim(m) =~= m);
    }
    table_row_round_trip(marks, width);
    assert(render_separator(aligns, width) == render_row(marks, width)) by {
        assert(Seq::new(
            width,
            |i: int|
                align_mark(
                    if i < aligns.len() {
                        aligns[i]
                    } else {
                        Align::Unaligned
                    },
                ),
        ) =~= Seq::new(
            width,
            |i: int|
                if i < marks.len() {
                    marks[i]
                } else {
                    seq![]
                },
        ));
    }
    let cells = parse_row(render_separator(aligns, width));
    assert(cells =~= marks);
    lemma_align_marks(marks, padded, width as int);
    assert(padded.take(width as int) =~= padded);
}

/// A row's cells padded with empty ones to `width` columns.
pub open spec fn pad_cells(cells: Seq<Seq<char>>, width: nat) -> Seq<Seq<char>> {
    Seq::new(width, |i: int| if i < cells.len() { cells[i] } else { seq![] })
}

/// Alignments padded with unaligned columns to `width` columns.
pub open spec fn pad_aligns(aligns: Seq<Align>, width: nat) -> Seq<Align> {
    Seq::new(width, |i: int| if i < aligns.len() { aligns[i] } else { Align::Unaligned })
}

/// Whether every cell of the table reads back as itself.
pub open spec fn cells_row_safe(t: SpecTable) -> bool {
    &&& forall|i: int| 0 <= i < t.header.len() ==> row_safe(#[trigger] t.header[i])
    &&& forall|r: int, i: int|
        0 <= r < t.body.len() && 0 <= i < t.body[r].len() ==> row_safe(#[trigger] t.body[r][i])
}

/// A table written out canonically reads back as the same table, every row
/// and the alignments padded to the table's width.
pub proof fn table_round_trip(t: SpecTable)
    requires
        cells_row_safe(t),
    ensures
        parse_table(render_table(t)) == Some(
            SpecTable {
                header: pad_cells(t.header, table_width(t)),
                aligns: pad_aligns(t.aligns, table_width(t)),
                body: t.body.map_values(|row: Seq<Seq<char>>| pad_cells(row, table_width(t))),
            },
        ),
{
    let w = table_width(t);
    let run = render_table(t);
    assert(w >= 1);
    table_row_round_trip(t.header, w);
    separator_round_trip(t.aligns, w);
    assert(run[0] == render_row(t.header, w));
    assert(run[1] == render_separator(t.aligns, w));
    let body = run.skip(2).map_values(|l: Seq<char>| parse_row(l));
    assert forall|r: int| 0 <= r < t.body.len() implies #[trigger] body[r] == pad_cells(
        t.body[r],
        w,
    ) by {
        assert(run.skip(2)[r] == render_row(t.body[r], w));
        assert forall|i: int| 0 <= i < t.body[r].len() implies row_safe(#[trigger] t.body[r][i]) by {}
        table_row_round_trip(t.body[r], w);
    }
    assert(body =~= t.body.map_values(|row: Seq<Seq<char>>| pad_cells(row, w)));
    assert(parse_row(run[0]) =~= pad_cells(t.header, w));
    assert(pad_aligns(t.aligns, w) =~= Seq::new(
        w,
        |i: int|
            if i < t.aligns.len() {
                t.aligns[i]
            } else {
                Align::Unaligned
            },
    ));
}

/// From a state with no pending escape, splitting goes as from the start:
/// the same number of new cells and the same escape state at the end.
proof fn lemma_scan_row_from_fresh(st: (Seq<Seq<char>>, Seq<char>, bool, bool), x: Seq<char>)
    requires
        !st.2,
    ensures
        scan_row_from(st, x).0.len() == st.0.len() + scan_row(x).0.len(),
        scan_row_from(st, x).2 == scan_row(x).2,
    decreases x.len(),
{
    if x.len() > 0 {
        lemma_scan_row_from_fresh(st, x.drop_last());
    }
}

/// Splitting only ever adds cells.
proof fn lemma_scan_row_prefix(c: Seq<char>, b: int)
    requires
        0 <= b <= c.len(),
    ensures
        scan_row(c.take(b)).0.len() <= scan_row(c).0.len(),
    decreases c.len() - b,
{
    if b < c.len() {
        lemma_scan_row_prefix(c, b + 1);
        assert(c.take(b + 1).drop_last() =~= c.take(b));
    } else {
        assert(c.take(b) =~= c);
    }
}

/// While splitting, every cell so far, and the open one, holds no splitting
/// pipe, and the open cell's own escape state is the row's.
proof fn lemma_scan_row_cells(t: Seq<char>)
    ensures
        forall|i: int|
            0 <= i < scan_row(t).0.len() ==> #[trigger] scan_row(scan_row(t).0[i]).0.len() == 0,
        scan_row(scan_row(t).1).0.len() == 0,
        scan_row(scan_row(t).1).2 == scan_row(t).2,
    decreases t.len(),
{
    if t.len() > 0 {
        lemma_scan_row_cells(t.drop_last());
        let (cells, cell, escaped, closed) = scan_row(t.drop_last());
        let c = t.last();
        if c == '|' && !escaped {
            let e: Seq<char> = seq![];
            assert(scan_row(e).0.len() == 0);
            assert forall|i: int| 0 <= i < scan_row(t).0.len() implies #[trigger] scan_row(
                scan_row(t).0[i],
            ).0.len() == 0 by {
                if i < cells.len() {
                    assert(scan_row(t).0[i] == cells[i]);
                }
            }
        } else {
            assert(cell.push(c).drop_last() =~= cell);
        }
    }
}

/// Trimming a cell with no splitting pipe leaves one without, and trimming
/// twice is trimming once.
proof fn lemma_trim_cell(c: Seq<char>)
    requires
        scan_row(c).0.len() == 0,
    ensures
        row_safe(trim(c)),
{
    let a = skip_ws(c, 0);
    crate::scan::lemma_skip_ws_bounds(c, 0);
    let ts = c.subrange(a, c.len() as int);
    let bk = back_ws(ts, ts.len() as int);
    crate::scan::lemma_back_ws_bounds(ts, ts.len() as int);
    let t = trim(c);
    assert(t == c.subrange(a, a + bk));
    // No splitting pipe.
    lemma_scan_row_prefix(c, a + bk);
    let pre = c.take(a);
    assert(c.take(a + bk) =~= pre + t);
    lemma_scan_row_concat(pre, t);
    if a > 0 {
        assert(pre.drop_last() =~= c.take(a - 1));
        assert(is_ws(c[a - 1]));
        assert(pre.last() == c[a - 1]);
    }
    assert(!scan_row(pre).2);
    lemma_scan_row_from_fresh(scan_row(pre), t);
    // Trimmed already.
    if t.len() > 0 {
        assert(t[0] == c[a]);
        assert(!is_ws(t[0]));
        assert(t[t.len() - 1] == ts[bk - 1]);
        assert(!is_ws(t[t.len() - 1]));
        crate::scan::lemma_skip_ws_bounds(t, 0);
        assert(skip_ws(t, 0) == 0);
        assert(t.subrange(0, t.len() as int) =~= t);
        assert(back_ws(t, t.len() as int) == t.len());
        assert(trim(t) =~= t);
    } else {
        assert(skip_ws(t, 0) == 0);
        assert(back_ws(t, 0) == 0);
        assert(trim(t) =~= t);
    }
}

/// Every cell a row yields reads back as itself.
pub proof fn parsed_cells_read_back(line: Seq<char>)
    ensures
        forall|i: int| 0 <= i < parse_row(line).len() ==> row_safe(#[trigger] parse_row(line)[i]),
{
    let t = trim_end(line);
    lemma_scan_row_cells(t);
    let (cells, cell, escaped, closed) = scan_row(t);
    let all = if !closed {
        cells.push(cell)
    } else {
        cells
    };
    assert forall|i: int| 0 <= i < all.len() implies #[trigger] scan_row(all[i]).0.len() == 0 by {
        if i < cells.len() {
            assert(all[i] == cells[i]);
        }
    }
    let kept = if t.len() > 0 && t[0] == '|' && all.len() > 0 {
        all.drop_first()
    } else {
        all
    };
    assert forall|i: int| 0 <= i < kept.len() implies row_safe(#[trigger] parse_row(line)[i]) by {
        if t.len() > 0 && t[0] == '|' && all.len() > 0 {
            assert(kept[i] == all[i + 1]);
        }
        assert(scan_row(kept[i]).0.len() == 0);
        lemma_trim_cell(kept[i]);
    }
}

/// A table read from a run of lines and written out canonically reads back
/// as the same table, padded to its width.
pub proof fn parsed_table_round_trip(run: Seq<Seq<char>>)
    requires
        parse_table(run) is Some,
    ensures
        ({
            let t = parse_table(run)->Some_0;
            parse_table(render_table(t)) == Some(
                SpecTable {
                    header: pad_cells(t.header, table_width(t)),
                    aligns: pad_aligns(t.aligns, table_width(t)),
                    body: t.body.map_values(|row: Seq<Seq<char>>| pad_cells(row, table_width(t))),
                },
            )
        }),
{
    let t = parse_table(run)->Some_0;
    parsed_cells_read_back(run[0]);
    assert forall|r: int, i: int| 0 <= r < t.body.len() && 0 <= i < t.body[r].len() implies row_safe(
        #[trigger] t.body[r][i],
    ) by {
        assert(t.body[r] == parse_row(run.skip(2)[r]));
        parsed_cells_read_back(run.skip(2)[r]);
    }
    table_round_trip(t);
}

} // verus!
