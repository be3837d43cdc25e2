//! **title-case** — the note's title (a first-line heading) is title-cased.
//!
//! Only the first non-blank line, and only when it is a heading, is touched —
//! every other heading keeps its casing. Words that already contain an interior
//! capital (URL, iPhone, McDonald) are left alone, and nothing is ever
//! lowercased except small words (articles, short conjunctions and prepositions)
//! in the middle of the title. First and last words are always capitalized.
//! A word with a character in code (inline code in the title) is left as it
//! is.

use crate::engine::ignore::{in_ranges, IgnoreRanges};
use crate::engine::Rule;
use crate::lines::{code_line, occurs_in, rewritten_lines};
use crate::rules::headings::{hashes, hashes_exec};
use crate::rules::support::{heading_level_of, spec_heading_level};
use crate::scan::{
    chars_eq, flagged_views, is_blank_line, is_blank_line_exec, join, join_exec, lemma_views_push,
    push_all, skip_blanks, skip_blanks_exec, subvec, trim, trim_exec, views,
};
use crate::text::{
    byte_offset, char_width_exec, is_ws, is_ws_exec, line_at, line_bounds, line_bounds_exec,
    line_break, line_text, string_of, utf8_len, Doc,
};
use crate::unicode::{char_is_uppercase, char_uppercase, is_uppercase, lowercase, str_lowercase, uppercase};
use vstd::prelude::*;

verus! {

pub struct TitleCase;

/// Words kept lowercase in the middle of a title (an AP-ish subset).
pub open spec fn is_small_word(w: Seq<char>) -> bool {
    ||| w == seq!['a']
    ||| w == seq!['a', 'n']
    ||| w == seq!['a', 'n', 'd']
    ||| w == seq!['a', 's']
    ||| w == seq!['a', 't']
    ||| w == seq!['b', 'u', 't']
    ||| w == seq!['b', 'y']
    ||| w == seq!['f', 'o', 'r']
    ||| w == seq!['i', 'f']
    ||| w == seq!['i', 'n']
    ||| w == seq!['n', 'o', 'r']
    ||| w == seq!['o', 'f']
    ||| w == seq!['o', 'n']
    ||| w == seq!['o', 'r']
    ||| w == seq!['p', 'e', 'r']
    ||| w == seq!['t', 'h', 'e']
    ||| w == seq!['t', 'o']
    ||| w == seq!['u', 'p']
    ||| w == seq!['v', 'i', 'a']
    ||| w == seq!['v', 's']
}

/// Whether a character after the first is uppercase.
pub open spec fn has_interior_capital(word: Seq<char>) -> bool {
    exists|k: int| 1 <= k < word.len() && char_is_uppercase(#[trigger] word[k])
}

/// `word` with its first character uppercased.
pub open spec fn capitalize_first(word: Seq<char>) -> Seq<char> {
    if word.len() == 0 {
        seq![]
    } else {
        char_uppercase(word[0]) + word.skip(1)
    }
}

/// A title word: left alone with an interior capital, lowercased when a small
/// word in the middle, else capitalized.
pub open spec fn title_word(word: Seq<char>, is_edge: bool) -> Seq<char> {
    if has_interior_capital(word) {
        word
    } else if !is_edge && is_small_word(str_lowercase(word)) {
        str_lowercase(word)
    } else {
        capitalize_first(word)
    }
}

/// Splitting on whitespace outside code, character by character, each token
/// with whether one of its characters lies in code: the finished tokens and
/// the token being read. Whitespace inside code belongs to its token, so a
/// code span comes out whole. `start` is the byte offset of `s`.
pub open spec fn scan_code_tokens(s: Seq<char>, start: int, ignore: Seq<(int, int)>) -> (
    Seq<(Seq<char>, bool)>,
    (Seq<char>, bool),
)
    decreases s.len(),
{
    if s.len() == 0 {
        (seq![], (seq![], false))
    } else {
        let (done, current) = scan_code_tokens(s.drop_last(), start, ignore);
        let code = in_ranges(ignore, start + utf8_len(s.drop_last()));
        if is_ws(s.last()) && !code {
            if current.0.len() > 0 {
                (done.push(current), (seq![], false))
            } else {
                (done, current)
            }
        } else {
            (done, (current.0.push(s.last()), current.1 || code))
        }
    }
}

/// The tokens of `s` separated by whitespace outside code, each with whether
/// it touches code.
pub open spec fn code_tokens(s: Seq<char>, start: int, ignore: Seq<(int, int)>) -> Seq<(Seq<char>, bool)> {
    let (done, current) = scan_code_tokens(s, start, ignore);
    if current.0.len() > 0 {
        done.push(current)
    } else {
        done
    }
}

/// The title's words cased: a word that touches code as it is, the others
/// title-cased, the first and last as edges.
pub open spec fn cased_words(words: Seq<(Seq<char>, bool)>) -> Seq<Seq<char>> {
    Seq::new(
        words.len(),
        |i: int|
            if words[i].1 {
                words[i].0
            } else {
                title_word(words[i].0, i == 0 || i == words.len() - 1)
            },
    )
}

/// A heading of `level` with its words title-cased and single-spaced; words
/// that touch code, whitespace inside the code included, are kept as they
/// are. `off` is the line's byte offset.
pub open spec fn retitle(line: Seq<char>, level: int, off: int, ignore: Seq<(int, int)>) -> Seq<char> {
    let at = skip_blanks(line, 0) + level;
    let rest = line.subrange(at, line.len() as int);
    if trim(rest).len() == 0 {
        line
    } else {
        let words = code_tokens(rest, off + utf8_len(line.take(at)), ignore);
        hashes(level as nat) + seq![' '] + join(cased_words(words), seq![' '])
    }
}

/// The first `n` lines rewritten (each followed by its line break) and
/// whether the first non-blank line has been seen.
pub open spec fn title_lines(s: Seq<char>, ignore: Seq<(int, int)>, n: int) -> (Seq<char>, bool)
    decreases n,
{
    if n <= 0 {
        (seq![], false)
    } else {
        let (out, handled) = title_lines(s, ignore, n - 1);
        let b = line_bounds(s)[n - 1];
        let content = line_text(s, b);
        if !handled && !is_blank_line(content) {
            let rendered = match spec_heading_level(content) {
                Some(level) => if !in_ranges(ignore, byte_offset(s, b.0) as int) {
                    retitle(content, level, byte_offset(s, b.0) as int, ignore)
                } else {
                    content
                },
                None => content,
            };
            (out + rendered + line_break(s, b), true)
        } else {
            (out + content + line_break(s, b), handled)
        }
    }
}

pub open spec fn spec_title_case(s: Seq<char>, ignore: Seq<(int, int)>) -> Seq<char> {
    title_lines(s, ignore, line_bounds(s).len() as int).0
}

fn is_small_word_exec(w: &Vec<char>) -> (b: bool)
    ensures
        b == is_small_word(w@),
{
    {
        let lit = vec!['a'];
        assert(lit@ =~= seq!['a']);
        if chars_eq(w, &lit) {
            return true;
        }
    }
    {
        let lit = vec!['a', 'n'];
        assert(lit@ =~= seq!['a', 'n']);
        if chars_eq(w, &lit) {
            return true;
        }
    }
    {
        let lit = vec!['a', 'n', 'd'];
        assert(lit@ =~= seq!['a', 'n', 'd']);
        if chars_eq(w, &lit) {
            return true;
        }
    }
    {
        let lit = vec!['a', 's'];
        assert(lit@ =~= seq!['a', 's']);
        if chars_eq(w, &lit) {
            return true;
        }
    }
    {
        let lit = vec!['a', 't'];
        assert(lit@ =~= seq!['a', 't']);
        if chars_eq(w, &lit) {
            return true;
        }
    }
    {
        let lit = vec!['b', 'u', 't'];
        assert(lit@ =~= seq!['b', 'u', 't']);
        if chars_eq(w, &lit) {
            return true;
        }
    }
    {
        let lit = vec!['b', 'y'];
        assert(lit@ =~= seq!['b', 'y']);
        if chars_eq(w, &lit) {
            return true;
        }
    }
    {
        let lit = vec!['f', 'o', 'r'];
        assert(lit@ =~= seq!['f', 'o', 'r']);
        if chars_eq(w, &lit) {
            return true;
        }
    }
    {
        let lit = vec!['i', 'f'];
        assert(lit@ =~= seq!['i', 'f']);
        if chars_eq(w, &lit) {
            return true;
        }
    }
    {
        let lit = vec!['i', 'n'];
        assert(lit@ =~= seq!['i', 'n']);
        if chars_eq(w, &lit) {
            return true;
        }
    }
    {
        let lit = vec!['n', 'o', 'r'];
        assert(lit@ =~= seq!['n', 'o', 'r']);
        if chars_eq(w, &lit) {
            return true;
        }
    }
    {
        let lit = vec!['o', 'f'];
        assert(lit@ =~= seq!['o', 'f']);
        if chars_eq(w, &lit) {
            return true;
        }
    }
    {
        let lit = vec!['o', 'n'];
        assert(lit@ =~= seq!['o', 'n']);
        if chars_eq(w, &lit) {
            return true;
        }
    }
    {
        let lit = vec!['o', 'r'];
        assert(lit@ =~= seq!['o', 'r']);
        if chars_eq(w, &lit) {
            return true;
        }
    }
    {
        let lit = vec!['p', 'e', 'r'];
        assert(lit@ =~= seq!['p', 'e', 'r']);
        if chars_eq(w, &lit) {
            return true;
        }
    }
    {
        let lit = vec!['t', 'h', 'e'];
        assert(lit@ =~= seq!['t', 'h', 'e']);
        if chars_eq(w, &lit) {
            return true;
        }
    }
    {
        let lit = vec!['t', 'o'];
        assert(lit@ =~= seq!['t', 'o']);
        if chars_eq(w, &lit) {
            return true;
        }
    }
    {
        let lit = vec!['u', 'p'];
        assert(lit@ =~= seq!['u', 'p']);
        if chars_eq(w, &lit) {
            return true;
        }
    }
    {
        let lit = vec!['v', 'i', 'a'];
        assert(lit@ =~= seq!['v', 'i', 'a']);
        if chars_eq(w, &lit) {
            return true;
        }
    }
    {
        let lit = vec!['v', 's'];
        assert(lit@ =~= seq!['v', 's']);
        if chars_eq(w, &lit) {
            return true;
        }
    }
    false
}

fn title_word_exec(word: &Vec<char>, is_edge: bool) -> (r: Vec<char>)
    ensures
        r@ == title_word(word@, is_edge),
{
    let mut k: usize = 1;
    while k < word.len()
        invariant
            1 <= k,
            forall|m: int| 1 <= m < k && m < word@.len() ==> !char_is_uppercase(#[trigger] word@[m]),
        decreases word.len() - k,
    {
        if is_uppercase(word[k]) {
            assert(has_interior_capital(word@)) by {
                assert(char_is_uppercase(word@[k as int]));
            }
            return subvec(word, 0, word.len());
        }
        k = k + 1;
    }
    assert(!has_interior_capital(word@));
    let lowered = lowercase(word);
    if !is_edge && is_small_word_exec(&lowered) {
        return lowered;
    }
    if word.len() == 0 {
        return Vec::new();
    }
    let mut r = uppercase(word[0]);
    let rest = subvec(word, 1, word.len());
    push_all(&mut r, &rest);
    r
}

pub(crate) fn code_tokens_exec(s: &Vec<char>, start: u128, ignore: &IgnoreRanges) -> (r: Vec<(Vec<char>, bool)>)
    requires
        start <= 8 * (usize::MAX as int),
    ensures
        flagged_views(r@) == code_tokens(s@, start as int, ignore@),
{
    let mut done: Vec<(Vec<char>, bool)> = Vec::new();
    let mut current: Vec<char> = Vec::new();
    let mut touched = false;
    let mut local: u128 = 0;
    let mut i: usize = 0;
    assert(s@.take(0) =~= Seq::<char>::empty());
    while i < s.len()
        invariant
            i <= s@.len(),
            local == utf8_len(s@.take(i as int)),
            local <= 4 * i,
            start <= 8 * (usize::MAX as int),
            (flagged_views(done@), (current@, touched)) == scan_code_tokens(
                s@.take(i as int),
                start as int,
                ignore@,
            ),
        decreases s.len() - i,
    {
        proof {
            assert(s@.take(i + 1).drop_last() =~= s@.take(i as int));
            assert(s@.take(i + 1).last() == s@[i as int]);
            crate::text::lemma_utf8_len_bound(s@.take(i as int));
        }
        let c = s[i];
        let code = ignore.contains_wide(start + local);
        if is_ws_exec(c) && !code {
            if current.len() > 0 {
                let ghost before = flagged_views(done@);
                let finished = current;
                let flag = touched;
                done.push((finished, flag));
                assert(flagged_views(done@) =~= before.push((finished@, flag)));
                current = Vec::new();
                touched = false;
                assert(current@ =~= Seq::<char>::empty());
            }
        } else {
            current.push(c);
            touched = touched || code;
        }
        local = local + char_width_exec(c);
        i = i + 1;
    }
    assert(s@.take(s@.len() as int) =~= s@);
    if current.len() > 0 {
        let ghost before = flagged_views(done@);
        let flag = touched;
        done.push((current, flag));
        assert(flagged_views(done@) =~= before.push((current@, flag)));
    }
    done
}

fn retitle_exec(line: &Vec<char>, level: usize, off: u128, ignore: &IgnoreRanges) -> (r: Vec<char>)
    requires
        spec_heading_level(line@) == Some(level as int),
        off <= 4 * (usize::MAX as int),
    ensures
        r@ == retitle(line@, level as int, off as int, ignore@),
{
    proof {
        crate::scan::lemma_skip_blanks_bounds(line@, 0);
        crate::scan::lemma_run_end_bounds(line@, crate::scan::skip_blanks(line@, 0), '#');
    }
    let a = skip_blanks_exec(line, 0);
    let len = line.len();
    assert(a + level == crate::scan::run_end(line@, a as int, '#'));
    assert(a + level <= len);
    let at = a + level;
    let rest = subvec(line, at, line.len());
    let body = trim_exec(&rest);
    if body.len() == 0 {
        let same = subvec(line, 0, line.len());
        assert(same@ =~= line@);
        return same;
    }
    let mut width: u128 = 0;
    let mut j: usize = 0;
    while j < at
        invariant
            j <= at <= line@.len(),
            width == utf8_len(line@.take(j as int)),
            width <= 4 * j,
        decreases at - j,
    {
        proof {
            assert(line@.take(j + 1).drop_last() =~= line@.take(j as int));
            assert(line@.take(j + 1).last() == line@[j as int]);
            crate::text::lemma_utf8_len_bound(line@.take(j as int));
        }
        width = width + char_width_exec(line[j]);
        j = j + 1;
    }
    let words = code_tokens_exec(&rest, off + width, ignore);
    let ghost ws = flagged_views(words@);
    let ghost target = Seq::new(
        ws.len(),
        |i: int|
            if ws[i].1 {
                ws[i].0
            } else {
                title_word(ws[i].0, i == 0 || i == ws.len() - 1)
            },
    );
    let mut cased: Vec<Vec<char>> = Vec::new();
    let mut i: usize = 0;
    while i < words.len()
        invariant
            ws == flagged_views(words@),
            target == Seq::new(
                ws.len(),
                |i: int|
                    if ws[i].1 {
                        ws[i].0
                    } else {
                        title_word(ws[i].0, i == 0 || i == ws.len() - 1)
                    },
            ),
            i <= words@.len(),
            views(cased@) == target.take(i as int),
        decreases words.len() - i,
    {
        assert(ws[i as int] == (words@[i as int].0@, words@[i as int].1));
        let word = if words[i].1 {
            subvec(&words[i].0, 0, words[i].0.len())
        } else {
            title_word_exec(&words[i].0, i == 0 || i == words.len() - 1)
        };
        proof {
            if words@[i as int].1 {
                assert(word@ =~= words@[i as int].0@);
            }
            lemma_views_push(cased@, word);
            assert(target.take(i + 1) =~= target.take(i as int).push(word@));
        }
        cased.push(word);
        i = i + 1;
    }
    assert(target.take(target.len() as int) =~= target);
    let mut r = hashes_exec(level);
    r.push(' ');
    let space = vec![' '];
    assert(space@ =~= seq![' ']);
    let joined = join_exec(&cased, &space);
    push_all(&mut r, &joined);
    r
}

impl Rule for TitleCase {
    open spec fn spec_name(&self) -> Seq<char> {
        "title-case"@
    }

    open spec fn spec_apply(&self, text: Seq<char>, ignore: Seq<(int, int)>) -> Seq<char> {
        spec_title_case(text, ignore)
    }

    fn name(&self) -> (name: &'static str) {
        "title-case"
    }

    fn apply(&self, text: &str, ignore: &IgnoreRanges) -> (out: String) {
        let doc = Doc::new(text);
        let bounds = line_bounds_exec(&doc.chars);
        let ghost s = doc.chars@;
        let mut out: Vec<char> = Vec::new();
        let mut handled = false;
        let mut k: usize = 0;
        while k < bounds.len()
            invariant
                doc.wf(),
                s == doc.chars@,
                crate::text::bounds_view(bounds@) == line_bounds(s),
                k <= bounds@.len(),
                (out@, handled) == title_lines(s, ignore@, k as int),
            decreases bounds.len() - k,
        {
            let (content, offset) = line_at(&doc, &bounds, k);
            proof {
                crate::text::lemma_line_bounds_shape(s);
                let b = line_bounds(s)[k as int];
                crate::text::lemma_utf8_len_bound(s.take(b.0));
                assert(b.0 <= s.len());
                assert(s.len() == doc.chars.len());
            }
            if !handled && !is_blank_line_exec(&content) {
                handled = true;
                match heading_level_of(&content) {
                    Some(level) => {
                        if !ignore.contains_wide(offset) {
                            let rendered = retitle_exec(&content, level, offset, ignore);
                            push_all(&mut out, &rendered);
                        } else {
                            push_all(&mut out, &content);
                        }
                    },
                    None => {
                        push_all(&mut out, &content);
                    },
                }
            } else {
                push_all(&mut out, &content);
            }
            if bounds[k].1 < doc.chars.len() {
                out.push('\n');
            }
            k = k + 1;
            proof {
                let b = line_bounds(s)[k - 1];
                assert(b.1 == bounds@[k - 1].1);
                assert(out@ =~= title_lines(s, ignore@, k as int).0);
            }
        }
        string_of(&out)
    }
}

/// Line `k` as this rule writes it: the title rewritten, every other line
/// as it is.
pub open spec fn title_out(s: Seq<char>, ignore: Seq<(int, int)>, k: int) -> Seq<char> {
    let b = line_bounds(s)[k];
    let content = line_text(s, b);
    if !title_lines(s, ignore, k).1 && !is_blank_line(content) {
        match spec_heading_level(content) {
            Some(level) => if !in_ranges(ignore, byte_offset(s, b.0) as int) {
                retitle(content, level, byte_offset(s, b.0) as int, ignore)
            } else {
                content
            },
            None => content,
        }
    } else {
        content
    }
}

proof fn lemma_title_lines_rewritten(s: Seq<char>, ignore: Seq<(int, int)>, n: int)
    requires
        0 <= n <= line_bounds(s).len(),
    ensures
        title_lines(s, ignore, n).0 == rewritten_lines(s, |k: int| title_out(s, ignore, k), n),
    decreases n,
{
    if n > 0 {
        lemma_title_lines_rewritten(s, ignore, n - 1);
    }
}

/// Code is left untouched: the note is written line by line, each line
/// followed by its own line break, and a line that starts in code is written
/// as it is; in the title, every word that touches code, with the spacing
/// inside the code, is written as it is.
pub proof fn title_case_keeps_code(s: Seq<char>, ignore: Seq<(int, int)>)
    ensures
        spec_title_case(s, ignore) == rewritten_lines(
            s,
            |k: int| title_out(s, ignore, k),
            line_bounds(s).len() as int,
        ),
        forall|k: int|
            0 <= k < line_bounds(s).len() && #[trigger] code_line(s, ignore, k) ==> title_out(
                s,
                ignore,
                k,
            ) == line_text(s, line_bounds(s)[k]),
        forall|words: Seq<(Seq<char>, bool)>, i: int|
            0 <= i < words.len() && words[i].1 ==> #[trigger] cased_words(words)[i] == words[i].0,
{
    lemma_title_lines_rewritten(s, ignore, line_bounds(s).len() as int);
}

/// Whether the characters `i..j` of `s`, read from byte offset `start`, all
/// lie in code.
pub open spec fn code_span(s: Seq<char>, start: int, ignore: Seq<(int, int)>, i: int, j: int) -> bool {
    &&& 0 <= i < j <= s.len()
    &&& forall|p: int| i <= p < j ==> #[trigger] in_ranges(ignore, start + utf8_len(s.take(p)))
}

/// A run of code that reaches the end of what has been read is the end of
/// the word being read, and that word touches code.
proof fn lemma_code_run_current(s: Seq<char>, start: int, ignore: Seq<(int, int)>, i: int, j: int)
    requires
        code_span(s, start, ignore, i, j),
    ensures
        ({
            let cur = scan_code_tokens(s.take(j), start, ignore).1;
            &&& cur.1
            &&& j - i <= cur.0.len()
            &&& cur.0.subrange(cur.0.len() - (j - i), cur.0.len() as int) == s.subrange(i, j)
        }),
    decreases j - i,
{
    let x = s.take(j);
    assert(x.drop_last() =~= s.take(j - 1));
    assert(x.last() == s[j - 1]);
    assert(in_ranges(ignore, start + utf8_len(s.take(j - 1))));
    let prev = scan_code_tokens(s.take(j - 1), start, ignore).1;
    let cur = scan_code_tokens(x, start, ignore).1;
    assert(cur.0 == prev.0.push(s[j - 1]));
    if j - 1 > i {
        assert(code_span(s, start, ignore, i, j - 1));
        lemma_code_run_current(s, start, ignore, i, j - 1);
        assert(cur.0.subrange(cur.0.len() - (j - i), cur.0.len() as int) =~= prev.0.subrange(
            prev.0.len() - (j - 1 - i),
            prev.0.len() as int,
        ).push(s[j - 1]));
        assert(s.subrange(i, j) =~= s.subrange(i, j - 1).push(s[j - 1]));
    } else {
        assert(cur.0.subrange(cur.0.len() - 1, cur.0.len() as int) =~= seq![s[j - 1]]);
        assert(s.subrange(i, j) =~= seq![s[j - 1]]);
    }
}

/// A word being read that touches code is, further on, the start of a word
/// being read or of a finished one that touches code.
proof fn lemma_word_persists(s: Seq<char>, start: int, ignore: Seq<(int, int)>, j: int, m: int)
    requires
        0 <= j <= m <= s.len(),
        scan_code_tokens(s.take(j), start, ignore).1.1,
        scan_code_tokens(s.take(j), start, ignore).1.0.len() > 0,
    ensures
        ({
            let w = scan_code_tokens(s.take(j), start, ignore).1.0;
            let (done, cur) = scan_code_tokens(s.take(m), start, ignore);
            ||| (cur.1 && w.len() <= cur.0.len() && cur.0.take(w.len() as int) == w)
            ||| exists|t: int|
                0 <= t < done.len() && (#[trigger] done[t]).1 && w.len() <= done[t].0.len()
                    && done[t].0.take(w.len() as int) == w
        }),
    decreases m - j,
{
    let w = scan_code_tokens(s.take(j), start, ignore).1.0;
    if m == j {
        assert(w.take(w.len() as int) =~= w);
    } else {
        lemma_word_persists(s, start, ignore, j, m - 1);
        let x = s.take(m);
        assert(x.drop_last() =~= s.take(m - 1));
        assert(x.last() == s[m - 1]);
        let (done0, cur0) = scan_code_tokens(s.take(m - 1), start, ignore);
        let (done, cur) = scan_code_tokens(x, start, ignore);
        if cur0.1 && w.len() <= cur0.0.len() && cur0.0.take(w.len() as int) == w {
            if cur.0 == cur0.0.push(s[m - 1]) {
                assert(cur.0.take(w.len() as int) =~= cur0.0.take(w.len() as int));
            } else {
                assert(done == done0.push(cur0) || (done == done0 && cur == cur0));
                if done == done0.push(cur0) {
                    assert(done[done0.len() as int] == cur0);
                }
            }
        } else {
            let t = choose|t: int|
                0 <= t < done0.len() && (#[trigger] done0[t]).1 && w.len() <= done0[t].0.len()
                    && done0[t].0.take(w.len() as int) == w;
            assert(done.len() >= done0.len());
            assert(done[t] == done0[t]);
        }
    }
}

/// A run of code in what the title's words are read from lies inside one
/// word, and that word touches code.
pub proof fn lemma_code_run_in_word(s: Seq<char>, start: int, ignore: Seq<(int, int)>, i: int, j: int)
    requires
        code_span(s, start, ignore, i, j),
    ensures
        exists|t: int|
            0 <= t < code_tokens(s, start, ignore).len() && (#[trigger] code_tokens(s, start, ignore)[t]).1
                && occurs_in(code_tokens(s, start, ignore)[t].0, s.subrange(i, j)),
{
    lemma_code_run_current(s, start, ignore, i, j);
    let w = scan_code_tokens(s.take(j), start, ignore).1.0;
    lemma_word_persists(s, start, ignore, j, s.len() as int);
    assert(s.take(s.len() as int) =~= s);
    let (done, cur) = scan_code_tokens(s, start, ignore);
    let words = code_tokens(s, start, ignore);
    let piece = s.subrange(i, j);
    let q = w.len() - (j - i);
    if cur.1 && w.len() <= cur.0.len() && cur.0.take(w.len() as int) == w {
        assert(words == done.push(cur));
        let t = done.len() as int;
        assert(words[t] == cur);
        assert(cur.0.subrange(q, q + piece.len()) =~= w.subrange(q, w.len() as int));
    } else {
        let t = choose|t: int|
            0 <= t < done.len() && (#[trigger] done[t]).1 && w.len() <= done[t].0.len()
                && done[t].0.take(w.len() as int) == w;
        assert(words[t] == done[t]);
        assert(done[t].0.subrange(q, q + piece.len()) =~= w.subrange(q, w.len() as int));
    }
}

/// Each part of a join occurs in it.
proof fn lemma_part_occurs(parts: Seq<Seq<char>>, sep: Seq<char>, t: int)
    requires
        0 <= t < parts.len(),
    ensures
        occurs_in(join(parts, sep), parts[t]),
    decreases parts.len(),
{
    let x = parts[t];
    let j = join(parts, sep);
    if parts.len() == 1 {
        let p: int = 0;
        assert(j.subrange(p, p + x.len()) =~= x);
    } else if t == parts.len() - 1 {
        let p = (join(parts.drop_last(), sep) + sep).len() as int;
        assert(j.subrange(p, p + x.len()) =~= x);
    } else {
        lemma_part_occurs(parts.drop_last(), sep, t);
        assert(parts.drop_last()[t] == x);
        let pre = join(parts.drop_last(), sep);
        let p = choose|p: int| 0 <= p && p + x.len() <= pre.len() && #[trigger] pre.subrange(p, p + x.len()) == x;
        assert(j.subrange(p, p + x.len()) =~= pre.subrange(p, p + x.len()));
    }
}

/// Code is left untouched inside the title: every run of characters in code
/// in the heading's text comes out, unchanged, in the rewritten title.
pub proof fn title_keeps_code_runs(
    line: Seq<char>,
    level: int,
    off: int,
    ignore: Seq<(int, int)>,
    i: int,
    j: int,
)
    requires
        spec_heading_level(line) == Some(level),
        skip_blanks(line, 0) + level <= i < j <= line.len(),
        forall|p: int| i <= p < j ==> #[trigger] in_ranges(ignore, off + utf8_len(line.take(p))),
    ensures
        occurs_in(retitle(line, level, off, ignore), line.subrange(i, j)),
{
    let at = skip_blanks(line, 0) + level;
    let rest = line.subrange(at, line.len() as int);
    let out = retitle(line, level, off, ignore);
    let piece = line.subrange(i, j);
    if trim(rest).len() == 0 {
        assert(out == line);
        assert(out.subrange(i, i + piece.len()) =~= piece);
    } else {
        let start = off + utf8_len(line.take(at));
        assert forall|p: int| i - at <= p < j - at implies #[trigger] in_ranges(
            ignore,
            start + utf8_len(rest.take(p)),
        ) by {
            assert(line.take(p + at) =~= line.take(at) + rest.take(p));
            crate::text::lemma_utf8_len_concat(line.take(at), rest.take(p));
            assert(in_ranges(ignore, off + utf8_len(line.take(p + at))));
        }
        assert(code_span(rest, start, ignore, i - at, j - at));
        lemma_code_run_in_word(rest, start, ignore, i - at, j - at);
        assert(rest.subrange(i - at, j - at) =~= piece);
        let words = code_tokens(rest, start, ignore);
        let t = choose|t: int|
            0 <= t < words.len() && (#[trigger] words[t]).1 && occurs_in(words[t].0, piece);
        let cased = cased_words(words);
        assert(cased[t] == words[t].0);
        lemma_part_occurs(cased, seq![' '], t);
        let jn = join(cased, seq![' ']);
        let head = hashes(level as nat) + seq![' '];
        assert(out == head + jn);
        let p1 = choose|p: int| 0 <= p && p + cased[t].len() <= jn.len() && #[trigger] jn.subrange(p, p + cased[t].len()) == cased[t];
        let p2 = choose|p: int| 0 <= p && p + piece.len() <= cased[t].len() && #[trigger] cased[t].subrange(p, p + piece.len()) == piece;
        let p = head.len() + p1 + p2;
        assert(out.subrange(p, p + piece.len()) =~= piece);
    }
}

/// Every word read is one character or more, and a text with a character
/// that is not whitespace has a word.
proof fn lemma_words_nonempty(s: Seq<char>, start: int, ignore: Seq<(int, int)>)
    ensures
        ({
            let (done, current) = scan_code_tokens(s, start, ignore);
            &&& forall|t: int| 0 <= t < done.len() ==> (#[trigger] done[t]).0.len() > 0
            &&& (exists|k: int| 0 <= k < s.len() && !is_ws(#[trigger] s[k])) ==> (done.len() > 0
                || current.0.len() > 0)
        }),
    decreases s.len(),
{
    if s.len() > 0 {
        lemma_words_nonempty(s.drop_last(), start, ignore);
        let (done0, cur0) = scan_code_tokens(s.drop_last(), start, ignore);
        let (done, current) = scan_code_tokens(s, start, ignore);
        assert forall|t: int| 0 <= t < done.len() implies (#[trigger] done[t]).0.len() > 0 by {
            if t < done0.len() {
                assert(done[t] == done0[t]);
            }
        }
        if exists|k: int| 0 <= k < s.len() && !is_ws(#[trigger] s[k]) {
            let k = choose|k: int| 0 <= k < s.len() && !is_ws(#[trigger] s[k]);
            if k < s.len() - 1 {
                assert(s.drop_last()[k] == s[k]);
            }
        }
    }
}

/// The words of a join's parts start and end it.
proof fn lemma_join_ends(parts: Seq<Seq<char>>, sep: Seq<char>)
    requires
        parts.len() > 0,
    ensures
        join(parts, sep).len() >= parts[0].len(),
        join(parts, sep).take(parts[0].len() as int) == parts[0],
        join(parts, sep).len() >= parts.last().len(),
        join(parts, sep).skip(join(parts, sep).len() - parts.last().len()) == parts.last(),
    decreases parts.len(),
{
    let j = join(parts, sep);
    if parts.len() == 1 {
        assert(j.take(parts[0].len() as int) =~= parts[0]);
        assert(j.skip(0) =~= j);
    } else {
        lemma_join_ends(parts.drop_last(), sep);
        let pre = join(parts.drop_last(), sep);
        assert(parts.drop_last()[0] == parts[0]);
        assert(j.take(parts[0].len() as int) =~= pre.take(parts[0].len() as int));
        assert(j.skip(j.len() - parts.last().len()) =~= parts.last());
    }
}

/// A title word written with its first character uppercased.
pub open spec fn with_first_upper(w: Seq<char>) -> Seq<char> {
    char_uppercase(w[0]) + w.skip(1)
}

/// The first and last words of a retitled heading are always capitalized —
/// small words (`a`, `for`, `the` …) included — unless a word touches code
/// or has a capital after its first character: the title starts with the
/// `#`s, one space and the first word with its first character uppercased,
/// and ends with the last word with its first character uppercased.
pub proof fn title_capitalizes_edge_words(line: Seq<char>, level: int, off: int, ignore: Seq<(int, int)>)
    requires
        spec_heading_level(line) == Some(level),
        trim(line.subrange(skip_blanks(line, 0) + level, line.len() as int)).len() > 0,
    ensures
        ({
            let at = skip_blanks(line, 0) + level;
            let words = code_tokens(
                line.subrange(at, line.len() as int),
                off + utf8_len(line.take(at)),
                ignore,
            );
            let out = retitle(line, level, off, ignore);
            let first = words[0].0;
            let last = words.last().0;
            let head = Seq::new(level as nat, |k: int| '#') + seq![' '];
            &&& words.len() > 0 && first.len() > 0 && last.len() > 0
            &&& (!words[0].1 && (forall|k: int| 1 <= k < first.len() ==> !char_is_uppercase(
                #[trigger] first[k],
            ))) ==> out.len() >= head.len() + with_first_upper(first).len() && out.take(
                (head.len() + with_first_upper(first).len()) as int,
            ) == head + with_first_upper(first)
            &&& (!words.last().1 && (forall|k: int| 1 <= k < last.len() ==> !char_is_uppercase(
                #[trigger] last[k],
            ))) ==> out.len() >= with_first_upper(last).len() && out.skip(
                out.len() - with_first_upper(last).len(),
            ) == with_first_upper(last)
        }),
{
    let at = skip_blanks(line, 0) + level;
    crate::scan::lemma_skip_blanks_bounds(line, 0);
    crate::scan::lemma_run_end_bounds(line, skip_blanks(line, 0), '#');
    let rest = line.subrange(at, line.len() as int);
    let start = off + utf8_len(line.take(at));
    let words = code_tokens(rest, start, ignore);
    // The text has a character that is not whitespace.
    let ts = crate::scan::trim_start(rest);
    crate::scan::lemma_skip_ws_bounds(rest, 0);
    assert(ts.len() > 0);
    let k0 = crate::scan::skip_ws(rest, 0);
    assert(!is_ws(rest[k0]));
    lemma_words_nonempty(rest, start, ignore);
    let (done, current) = scan_code_tokens(rest, start, ignore);
    assert(words.len() > 0);
    assert forall|t: int| 0 <= t < words.len() implies (#[trigger] words[t]).0.len() > 0 by {
        if t < done.len() {
            assert(words[t] == done[t]);
        }
    }
    let first = words[0].0;
    let last = words.last().0;
    assert(words[words.len() - 1] == words.last());
    let cased = cased_words(words);
    let out = retitle(line, level, off, ignore);
    let jn = join(cased, seq![' ']);
    let head = Seq::new(level as nat, |k: int| '#') + seq![' '];
    assert(crate::rules::headings::hashes(level as nat) =~= Seq::new(level as nat, |k: int| '#'));
    assert(out == head + jn);
    lemma_join_ends(cased, seq![' ']);
    if !words[0].1 && (forall|k: int| 1 <= k < first.len() ==> !char_is_uppercase(#[trigger] first[k])) {
        assert(!has_interior_capital(first));
        assert(cased[0] == capitalize_first(first));
        assert(capitalize_first(first) == with_first_upper(first));
        let c = with_first_upper(first);
        assert(out.take((head.len() + c.len()) as int) =~= head + jn.take(c.len() as int));
    }
    if !words.last().1 && (forall|k: int| 1 <= k < last.len() ==> !char_is_uppercase(#[trigger] last[k])) {
        assert(!has_interior_capital(last));
        assert(cased.last() == cased[cased.len() - 1]);
        assert(cased[cased.len() - 1] == capitalize_first(last));
        let c = with_first_upper(last);
        assert(out.skip(out.len() - c.len()) =~= jn.skip(jn.len() - c.len()));
    }
}

} // verus!
