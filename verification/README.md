# bear_formatter

A formatter for Bear notes: Markdown in, canonical Markdown out. Thirteen
rules run in order (line endings, typography, whitespace, horizontal rules,
headings, list markers, footnotes, tags, title case, heading levels, tables,
layout, final newline), each a total rewrite.

The library is written in Verus. Every rule's `apply` is proved equal to a
specification of what the rule does, and the rules' laws are proved next to
them as `pub proof fn`s:

- idempotence, on every text without code, for every rule but title case;
- code is kept. Typography copies every run of code characters as it is;
  footnotes split each line into runs of code and prose that join back to
  it, renumbering only the prose runs; whitespace writes every run of code
  in a line that is not blank unchanged; title case writes every run of
  code in the title's text unchanged, and every word that touches code as
  it is; heading levels keep every stretch of a heading's text after its
  `#`s; headings keep every stretch of a heading's text that starts with a
  character other than whitespace and ends with one that is neither
  whitespace nor trailing punctuation (as an inline code span, closed by
  its backtick, does); list markers write an item's text, after its
  markers, as a stretch of the line as it was; layout writes every laid-out
  line ending with the line's text after its indentation. Line by line, a line that starts in code comes out
  unchanged — at its place from whitespace (for lines that lie wholly in
  code), headings, horizontal rules and heading levels, as it is among lines
  each written with its own line break from title case, after the lines kept
  before it from list markers and layout, at its place among the kept or
  body lines from tags and footnotes, and among the written lines from
  tables. Tags split a tag-led line only at whitespace outside code, so a
  code span stays one word with its spacing. That every code run inside a
  rewritten line survives is not proved for tags and tables (horizontal
  rules rewrite only lines made of rule characters);
- converted table cells and rendered tables read back as written;
- footnote numbers are one per label, referenced labels first, the others
  after them: labels of digits alone first, by value, then the rest
  alphabetically, with references rewritten to them;
- merged tags are sorted and unique by key, on one line indented as the
  first bare tag was;
- a span overlaps the code ranges exactly when one of its offsets is in
  code, when no range is empty;
- heading levels are placed between the top level (1, or 2 under a prose
  first line) and 6, never more than one deeper than the heading before,
  with the biggest heading at the top level;
- a laid-out note has no blank first or last line, and a final newline pass
  leaves exactly one line break.

Layout:

- `src/text.rs`, `src/scan.rs`, `src/lines.rs` — characters, byte offsets,
  lines, tokens, and the line-by-line rewriting lemmas the laws share.
- `src/engine/` — the `Rule` trait, the `Formatter`, and the ranges of code
  (found with pulldown-cmark) that rules leave untouched.
- `src/rules/` — one module per rule; `table_reread.rs` and
  `layout_reread.rs` hold what a second pass of the tables and layout rules
  reads back, `table_code.rs` what the tables rule does with code.
- `src/cli.rs`, `src/bear.rs`, `src/config.rs` — the decisions the command
  line makes, on plain values.
- `app/` — the program: argument parsing, the configuration file, the Bear
  database and `bearcli`.
- `tests/` — the rules' scenarios and properties on concrete notes.

Choices the rules make: footnote references inside inline code are left
as they are; merged bare tags take the first bare tag's indentation;
unreferenced footnotes whose labels are digits alone come first, by value,
so that a second pass numbers them as the first did; an empty line parts a
table from a verbatim line that starts with a pipe; tag lines go right
under the first heading, or to the top when the note has none; every
horizontal rule at the end of a note goes; a list item indented between
two open levels takes the place of the item it closes; and a line indented
outside any list is laid out as the block its text is.

Footnote definitions and the tags already merged are kept in vectors and
searched in order: with `String` keys, std's `HashMap` and `HashSet` carry
no specification in Verus that a proof could build on.
