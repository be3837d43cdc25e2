//! Character-level text model shared by every rule.
//!
//! A note is handled as a sequence of `char`s. Byte offsets (the unit the
//! protected ranges are measured in) are the UTF-8 lengths of prefixes, and
//! lines are the pieces between `\n` characters, as `str::split_inclusive`
//! yields them.

use vstd::prelude::*;

verus! {

/// Number of bytes the UTF-8 encoding of `c` takes.
pub open spec fn char_width(c: char) -> nat {
    let u = c as u32;
    if u < 0x80 {
        1
    } else if u < 0x800 {
        2
    } else if u < 0x10000 {
        3
    } else {
        4
    }
}

/// Number of bytes the UTF-8 encoding of `s` takes.
pub open spec fn utf8_len(s: Seq<char>) -> nat
    decreases s.len(),
{
    if s.len() == 0 {
        0
    } else {
        utf8_len(s.drop_last()) + char_width(s.last())
    }
}

/// The byte offset of the character at index `i`.
pub open spec fn byte_offset(s: Seq<char>, i: int) -> nat {
    utf8_len(s.take(i))
}

/// The UTF-8 length of two texts one after the other.
pub proof fn lemma_utf8_len_concat(a: Seq<char>, b: Seq<char>)
    ensures
        utf8_len(a + b) == utf8_len(a) + utf8_len(b),
    decreases b.len(),
{
    if b.len() > 0 {
        lemma_utf8_len_concat(a, b.drop_last());
        assert((a + b).drop_last() =~= a + b.drop_last());
        assert((a + b).last() == b.last());
    } else {
        assert(a + b =~= a);
    }
}

pub proof fn lemma_utf8_len_bound(s: Seq<char>)
    ensures
        utf8_len(s) <= 4 * s.len(),
    decreases s.len(),
{
    if s.len() > 0 {
        lemma_utf8_len_bound(s.drop_last());
    }
}

pub fn char_width_exec(c: char) -> (w: u128)
    ensures
        w == char_width(c),
{
    let u = c as u32;
    if u < 0x80 {
        1
    } else if u < 0x800 {
        2
    } else if u < 0x10000 {
        3
    } else {
        4
    }
}

/// Unicode `White_Space` (what `char::is_whitespace`, `str::trim` and
/// `str::split_whitespace` go by).
pub open spec fn is_ws(c: char) -> bool {
    let u = c as u32;
    (0x09 <= u && u <= 0x0D) || u == 0x20 || u == 0x85 || u == 0xA0 || u == 0x1680 || (0x2000
        <= u && u <= 0x200A) || u == 0x2028 || u == 0x2029 || u == 0x202F || u == 0x205F || u
        == 0x3000
}

pub fn is_ws_exec(c: char) -> (b: bool)
    ensures
        b == is_ws(c),
{
    let u = c as u32;
    (0x09 <= u && u <= 0x0D) || u == 0x20 || u == 0x85 || u == 0xA0 || u == 0x1680 || (0x2000
        <= u && u <= 0x200A) || u == 0x2028 || u == 0x2029 || u == 0x202F || u == 0x205F || u
        == 0x3000
}

/// A space or a tab: what `trim_start_matches([' ', '\t'])` strips.
pub open spec fn is_blank(c: char) -> bool {
    c == ' ' || c == '\t'
}

/// A note's characters together with the byte offset of every position.
pub struct Doc {
    pub chars: Vec<char>,
    pub offsets: Vec<u128>,
}

impl Doc {
    pub open spec fn wf(&self) -> bool {
        &&& self.offsets@.len() == self.chars@.len() + 1
        &&& forall|i: int|
            0 <= i <= self.chars@.len() ==> #[trigger] self.offsets@[i] == byte_offset(
                self.chars@,
                i,
            )
    }

    pub fn from_chars(chars: Vec<char>) -> (doc: Doc)
        ensures
            doc.wf(),
            doc.chars@ == chars@,
    {
        let mut offsets: Vec<u128> = Vec::new();
        offsets.push(0);
        let mut total: u128 = 0;
        let mut i: usize = 0;
        assert(chars@.take(0) =~= Seq::<char>::empty());
        while i < chars.len()
            invariant
                i <= chars@.len(),
                offsets@.len() == i + 1,
                total == byte_offset(chars@, i as int),
                forall|k: int| 0 <= k <= i ==> #[trigger] offsets@[k] == byte_offset(chars@, k),
            decreases chars.len() - i,
        {
            proof {
                assert(chars@.take(i + 1).drop_last() =~= chars@.take(i as int));
                lemma_utf8_len_bound(chars@.take(i as int));
            }
            let w = char_width_exec(chars[i]);
            total = total + w;
            i = i + 1;
            offsets.push(total);
        }
        Doc { chars, offsets }
    }

    pub fn new(text: &str) -> (doc: Doc)
        ensures
            doc.wf(),
            doc.chars@ == text@,
    {
        Doc::from_chars(chars_of(text))
    }
}

/// The characters of `text`.
pub fn chars_of(text: &str) -> (chars: Vec<char>)
    ensures
        chars@ == text@,
{
    let mut chars: Vec<char> = Vec::new();
    for c in it: text.chars()
        invariant
            chars@ == it.seq().take(it.index()),
            it.seq() == text@,
    {
        chars.push(c);
    }
    chars
}


/// Turns a character sequence into an owned `String`.
///
/// Trusted: `String`'s `FromIterator<&char>` implementation, which the standard
/// library documents as collecting the characters in order.
#[verifier::external_body]
pub(crate) fn string_of(chars: &Vec<char>) -> (s: String)
    ensures
        s@ == chars@,
{
    chars.iter().collect()
}

/// Scans `s` for line breaks: the lines finished so far, as character index
/// ranges, and the index where the open line starts.
pub open spec fn scan_lines(s: Seq<char>) -> (Seq<(int, int)>, int)
    decreases s.len(),
{
    if s.len() == 0 {
        (seq![], 0)
    } else {
        let (done, open) = scan_lines(s.drop_last());
        if s.last() == '\n' {
            (done.push((open, s.len() - 1)), s.len() as int)
        } else {
            (done, open)
        }
    }
}

/// The lines of `s` as `split_inclusive('\n')` yields them, each given by the
/// character range of its content (the `\n` excluded). An empty text has no
/// lines; a final `\n` does not open an empty last line.
pub open spec fn line_bounds(s: Seq<char>) -> Seq<(int, int)> {
    let (done, open) = scan_lines(s);
    if open < s.len() {
        done.push((open, s.len() as int))
    } else {
        done
    }
}

/// Whether the line with these bounds is followed by a `\n`.
pub open spec fn ends_line(s: Seq<char>, b: (int, int)) -> bool {
    b.1 < s.len()
}

/// The `\n` that follows a line, if any.
pub open spec fn line_break(s: Seq<char>, b: (int, int)) -> Seq<char> {
    if ends_line(s, b) {
        seq!['\n']
    } else {
        seq![]
    }
}

/// The content of a line.
pub open spec fn line_text(s: Seq<char>, b: (int, int)) -> Seq<char> {
    s.subrange(b.0, b.1)
}

pub open spec fn bounds_view(b: Seq<(usize, usize)>) -> Seq<(int, int)> {
    b.map_values(|p: (usize, usize)| (p.0 as int, p.1 as int))
}

pub proof fn lemma_scan_lines_shape(s: Seq<char>)
    ensures
        0 <= scan_lines(s).1 <= s.len(),
        forall|k: int|
            0 <= k < scan_lines(s).0.len() ==> {
                let b = #[trigger] scan_lines(s).0[k];
                &&& 0 <= b.0 <= b.1 < scan_lines(s).1
                &&& s[b.1] == '\n'
            },
    decreases s.len(),
{
    if s.len() > 0 {
        lemma_scan_lines_shape(s.drop_last());
    }
}

/// Every line lies inside the text.
pub proof fn lemma_line_bounds_shape(s: Seq<char>)
    ensures
        forall|k: int|
            0 <= k < line_bounds(s).len() ==> {
                let b = #[trigger] line_bounds(s)[k];
                0 <= b.0 <= b.1 <= s.len()
            },
{
    lemma_scan_lines_shape(s);
}

/// The lines of a text, as character index ranges.
#[verifier::spinoff_prover]
pub fn line_bounds_exec(chars: &Vec<char>) -> (lines: Vec<(usize, usize)>)
    ensures
        bounds_view(lines@) == line_bounds(chars@),
        forall|k: int|
            0 <= k < lines@.len() ==> #[trigger] lines@[k].0 <= lines@[k].1 <= chars@.len(),
{
    let mut lines: Vec<(usize, usize)> = Vec::new();
    let mut open: usize = 0;
    let mut i: usize = 0;
    while i < chars.len()
        invariant
            i <= chars@.len(),
            (bounds_view(lines@), open as int) == scan_lines(chars@.take(i as int)),
            open <= i,
            forall|k: int| 0 <= k < lines@.len() ==> #[trigger] lines@[k].0 <= lines@[k].1 <= i,
        decreases chars.len() - i,
    {
        proof {
            assert(chars@.take(i + 1).drop_last() =~= chars@.take(i as int));
            assert(chars@.take(i + 1).last() == chars@[i as int]);
        }
        if chars[i] == '\n' {
            lines.push((open, i));
            proof {
                assert(bounds_view(lines@) =~= bounds_view(lines@.drop_last()).push(
                    (open as int, i as int),
                ));
            }
            open = i + 1;
        }
        i = i + 1;
    }
    assert(chars@.take(chars@.len() as int) =~= chars@);
    if open < chars.len() {
        lines.push((open, chars.len()));
        proof {
            assert(bounds_view(lines@) =~= bounds_view(lines@.drop_last()).push(
                (open as int, chars@.len() as int),
            ));
        }
    }
    lines
}

} // verus!

verus! {

/// The content of line `k` of a document and the byte offset where it starts.
pub fn line_at(doc: &Doc, lines: &Vec<(usize, usize)>, k: usize) -> (r: (Vec<char>, u128))
    requires
        doc.wf(),
        bounds_view(lines@) == line_bounds(doc.chars@),
        k < lines@.len(),
    ensures
        r.0@ == line_text(doc.chars@, line_bounds(doc.chars@)[k as int]),
        r.1 == byte_offset(doc.chars@, line_bounds(doc.chars@)[k as int].0),
{
    proof {
        lemma_line_bounds_shape(doc.chars@);
        assert(line_bounds(doc.chars@)[k as int] == (lines@[k as int].0 as int, lines@[k as int].1 as int));
    }
    let (a, b) = lines[k];
    let mut content: Vec<char> = Vec::new();
    let mut i = a;
    while i < b
        invariant
            a <= i <= b <= doc.chars@.len(),
            content@ == doc.chars@.subrange(a as int, i as int),
        decreases b - i,
    {
        content.push(doc.chars[i]);
        i = i + 1;
        assert(content@ =~= doc.chars@.subrange(a as int, i as int));
    }
    (content, doc.offsets[a])
}

} // verus!
