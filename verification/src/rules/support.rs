//! Small parsing helpers shared by rules.

use crate::scan::{
    has_char, has_char_exec, run_end, run_end_exec, skip_blanks, skip_blanks_exec, subvec, tokens,
    tokens_exec, views,
};
use crate::text::{chars_of, is_blank};
use vstd::prelude::*;

verus! {

/// The level of an ATX heading: after leading spaces/tabs, 1–6 `#`s followed
/// by a space, a tab, or the end of the line.
pub open spec fn spec_heading_level(s: Seq<char>) -> Option<int> {
    let a = skip_blanks(s, 0);
    let e = run_end(s, a, '#');
    if 1 <= e - a <= 6 && (e == s.len() || is_blank(s[e])) {
        Some(e - a)
    } else {
        None
    }
}

/// The unordered list bullets.
pub open spec fn is_bullet(c: char) -> bool {
    c == '-' || c == '*' || c == '+' || c == '•' || c == '§'
}

pub open spec fn is_digit(c: char) -> bool {
    '0' <= c <= '9'
}

/// The first index at or after `i` that is not an ASCII digit.
pub open spec fn digits_end(s: Seq<char>, i: int) -> int
    decreases s.len() - i,
{
    if 0 <= i < s.len() && is_digit(s[i]) {
        digits_end(s, i + 1)
    } else {
        i
    }
}

/// Whether `s[a..]` starts with a list marker followed by a space, a tab, or
/// the end: a bullet, digits then `.` or `)`, or a bare `.` followed by a tab
/// (a pasted numbered item that lost its number).
pub open spec fn marker_at(s: Seq<char>, a: int) -> bool {
    if 0 <= a < s.len() && is_bullet(s[a]) {
        a + 1 == s.len() || is_blank(s[a + 1])
    } else if 0 <= a && a + 1 < s.len() && s[a] == '.' && s[a + 1] == '\t' {
        true
    } else {
        let d = digits_end(s, a);
        &&& d > a
        &&& d < s.len()
        &&& (s[d] == '.' || s[d] == ')')
        &&& (d + 1 == s.len() || is_blank(s[d + 1]))
    }
}

/// The indentation width of a list item line, if it is one.
pub open spec fn spec_list_item_indent(s: Seq<char>) -> Option<int> {
    let a = skip_blanks(s, 0);
    if marker_at(s, a) {
        Some(a)
    } else {
        None
    }
}

/// Whether a list item line is a numbered one.
pub open spec fn spec_is_ordered_item(s: Seq<char>) -> bool {
    let a = skip_blanks(s, 0);
    marker_at(s, a) && a < s.len() && is_digit(s[a])
}

/// The core of a tag token: the text after `#`, less one closing `#`.
pub open spec fn tag_core(t: Seq<char>) -> Seq<char> {
    let inner = t.drop_first();
    if inner.len() > 0 && inner.last() == '#' {
        inner.drop_last()
    } else {
        inner
    }
}

/// Whether a token is a single Bear tag: `#`, then non-`#` characters,
/// optionally closed by one `#`.
pub open spec fn is_tag_token(t: Seq<char>) -> bool {
    t.len() > 0 && t[0] == '#' && tag_core(t).len() > 0 && !has_char(tag_core(t), '#')
}

/// Whether every whitespace-separated token of the line is a tag (and there is
/// at least one).
pub open spec fn spec_is_pure_tag_line(s: Seq<char>) -> bool {
    tokens(s).len() > 0 && forall|k: int| 0 <= k < tokens(s).len() ==> is_tag_token(#[trigger] tokens(s)[k])
}

/// Whether the line is led by a tag: its first whitespace-separated token is one.
pub open spec fn spec_starts_with_tag(s: Seq<char>) -> bool {
    tokens(s).len() > 0 && is_tag_token(tokens(s)[0])
}

pub fn heading_level_of(s: &Vec<char>) -> (level: Option<usize>)
    ensures
        match level {
            Some(l) => spec_heading_level(s@) == Some(l as int),
            None => spec_heading_level(s@) is None,
        },
{
    let a = skip_blanks_exec(s, 0);
    let e = run_end_exec(s, a, '#');
    let h = e - a;
    if 1 <= h && h <= 6 && (e == s.len() || s[e] == ' ' || s[e] == '\t') {
        Some(h)
    } else {
        None
    }
}

/// If `line` is an ATX heading, return its level (1–6): 1–6 `#` characters
/// followed by a space or the end of the line. `#tag` (no space) is not a
/// heading.
pub fn heading_level(line: &str) -> (level: Option<usize>)
    ensures
        match level {
            Some(l) => spec_heading_level(line@) == Some(l as int),
            None => spec_heading_level(line@) is None,
        },
{
    let s = chars_of(line);
    heading_level_of(&s)
}

pub(crate) fn digits_end_exec(s: &Vec<char>, i: usize) -> (j: usize)
    requires
        i <= s@.len(),
    ensures
        j == digits_end(s@, i as int),
        i <= j <= s@.len(),
{
    let mut j = i;
    while j < s.len() && '0' <= s[j] && s[j] <= '9'
        invariant
            i <= j <= s@.len(),
            digits_end(s@, i as int) == digits_end(s@, j as int),
        decreases s.len() - j,
    {
        j = j + 1;
    }
    j
}

pub(crate) fn is_bullet_exec(c: char) -> (b: bool)
    ensures
        b == is_bullet(c),
{
    c == '-' || c == '*' || c == '+' || c == '•' || c == '§'
}

/// Whether the text from index `a` on starts with a list marker.
fn starts_list_marker(s: &Vec<char>, a: usize) -> (b: bool)
    requires
        a <= s@.len(),
    ensures
        b == marker_at(s@, a as int),
{
    if a < s.len() && is_bullet_exec(s[a]) {
        return a + 1 == s.len() || s[a + 1] == ' ' || s[a + 1] == '\t';
    }
    if a < s.len() && s.len() - a > 1 && s[a] == '.' && s[a + 1] == '\t' {
        return true;
    }
    let d = digits_end_exec(s, a);
    d > a && d < s.len() && (s[d] == '.' || s[d] == ')') && (d + 1 == s.len() || s[d + 1]
        == ' ' || s[d + 1] == '\t')
}

pub fn list_item_indent_of(s: &Vec<char>) -> (indent: Option<usize>)
    ensures
        match indent {
            Some(w) => spec_list_item_indent(s@) == Some(w as int),
            None => spec_list_item_indent(s@) is None,
        },
{
    let a = skip_blanks_exec(s, 0);
    if starts_list_marker(s, a) {
        Some(a)
    } else {
        None
    }
}

/// The indentation width (in leading whitespace characters) if `line` is a list
/// item (bullet or ordered), else `None`.
pub fn list_item_indent(line: &str) -> (indent: Option<usize>)
    ensures
        match indent {
            Some(w) => spec_list_item_indent(line@) == Some(w as int),
            None => spec_list_item_indent(line@) is None,
        },
{
    let s = chars_of(line);
    list_item_indent_of(&s)
}

pub fn is_ordered_item_of(s: &Vec<char>) -> (b: bool)
    ensures
        b == spec_is_ordered_item(s@),
{
    let a = skip_blanks_exec(s, 0);
    starts_list_marker(s, a) && a < s.len() && '0' <= s[a] && s[a] <= '9'
}

/// The core of `t` if it is a tag token.
pub fn tag_core_of(t: &Vec<char>) -> (core: Option<Vec<char>>)
    ensures
        match core {
            Some(c) => is_tag_token(t@) && c@ == tag_core(t@),
            None => !is_tag_token(t@),
        },
{
    if t.len() == 0 || t[0] != '#' {
        return None;
    }
    let end = if t.len() > 1 && t[t.len() - 1] == '#' {
        t.len() - 1
    } else {
        t.len()
    };
    let core = subvec(t, 1, end);
    proof {
        let inner = t@.drop_first();
        if inner.len() > 0 && inner.last() == '#' {
            assert(core@ =~= inner.drop_last());
        } else {
            assert(core@ =~= inner);
        }
    }
    if core.len() == 0 || has_char_exec(&core, '#') {
        None
    } else {
        Some(core)
    }
}

pub fn is_pure_tag_line_of(s: &Vec<char>) -> (b: bool)
    ensures
        b == spec_is_pure_tag_line(s@),
{
    let toks = tokens_exec(s);
    let ghost ts = tokens(s@);
    let mut i: usize = 0;
    while i < toks.len()
        invariant
            views(toks@) == ts,
            ts == tokens(s@),
            i <= toks@.len(),
            forall|k: int| 0 <= k < i ==> is_tag_token(#[trigger] ts[k]),
        decreases toks.len() - i,
    {
        assert(ts[i as int] == toks@[i as int]@);
        if tag_core_of(&toks[i]).is_none() {
            return false;
        }
        i = i + 1;
    }
    toks.len() > 0
}

/// Whether every whitespace-separated token on `line` is a Bear tag (so the
/// line is metadata, not prose).
pub fn is_pure_tag_line(line: &str) -> (b: bool)
    ensures
        b == spec_is_pure_tag_line(line@),
{
    let s = chars_of(line);
    is_pure_tag_line_of(&s)
}

/// Whether the line is led by a tag.
pub fn starts_with_tag_of(s: &Vec<char>) -> (b: bool)
    ensures
        b == spec_starts_with_tag(s@),
{
    let toks = tokens_exec(s);
    if toks.len() == 0 {
        return false;
    }
    assert(tokens(s@)[0] == toks@[0]@);
    tag_core_of(&toks[0]).is_some()
}

} // verus!

verus! {

pub proof fn lemma_digits_end(s: Seq<char>, i: int)
    requires
        0 <= i,
    ensures
        i <= digits_end(s, i),
        i <= s.len() ==> digits_end(s, i) <= s.len(),
    decreases s.len() - i,
{
    if 0 <= i < s.len() && is_digit(s[i]) {
        lemma_digits_end(s, i + 1);
    }
}

pub proof fn lemma_digits_end_bounds(s: Seq<char>, i: int)
    requires
        0 <= i <= s.len(),
    ensures
        i <= digits_end(s, i) <= s.len(),
        forall|k: int| i <= k < digits_end(s, i) ==> is_digit(#[trigger] s[k]),
        digits_end(s, i) < s.len() ==> !is_digit(s[digits_end(s, i)]),
    decreases s.len() - i,
{
    if i < s.len() && is_digit(s[i]) {
        lemma_digits_end_bounds(s, i + 1);
    }
}

/// Digits up to `n` and none at `n`: the run of digits ends at `n`.
pub proof fn lemma_digits_end_same(s: Seq<char>, i: int, n: int)
    requires
        0 <= i <= n < s.len(),
        forall|k: int| i <= k < n ==> is_digit(#[trigger] s[k]),
        !is_digit(s[n]),
    ensures
        digits_end(s, i) == n,
    decreases n - i,
{
    if i < n {
        lemma_digits_end_same(s, i + 1, n);
    }
}

} // verus!
