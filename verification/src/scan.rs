//! Small scanning helpers over character sequences: skipping runs, trimming,
//! splitting on whitespace, copying and concatenating.

use crate::text::{is_blank, is_ws, is_ws_exec};
use vstd::prelude::*;

verus! {

/// The first index at or after `i` whose character is not a space or tab.
pub open spec fn skip_blanks(s: Seq<char>, i: int) -> int
    decreases s.len() - i,
{
    if 0 <= i < s.len() && is_blank(s[i]) {
        skip_blanks(s, i + 1)
    } else {
        i
    }
}

/// The first index at or after `i` whose character is not `c`.
pub open spec fn run_end(s: Seq<char>, i: int, c: char) -> int
    decreases s.len() - i,
{
    if 0 <= i < s.len() && s[i] == c {
        run_end(s, i + 1, c)
    } else {
        i
    }
}

/// The first index at or after `i` whose character is not whitespace.
pub open spec fn skip_ws(s: Seq<char>, i: int) -> int
    decreases s.len() - i,
{
    if 0 <= i < s.len() && is_ws(s[i]) {
        skip_ws(s, i + 1)
    } else {
        i
    }
}

/// The last index at or before `j` such that the character before it is not
/// whitespace (or 0).
pub open spec fn back_ws(s: Seq<char>, j: int) -> int
    decreases j,
{
    if 0 < j <= s.len() && is_ws(s[j - 1]) {
        back_ws(s, j - 1)
    } else {
        j
    }
}

/// `s` with leading whitespace removed (`str::trim_start`).
pub open spec fn trim_start(s: Seq<char>) -> Seq<char> {
    s.subrange(skip_ws(s, 0), s.len() as int)
}

/// `s` with trailing whitespace removed (`str::trim_end`).
pub open spec fn trim_end(s: Seq<char>) -> Seq<char> {
    s.subrange(0, back_ws(s, s.len() as int))
}

/// `s` with leading and trailing whitespace removed (`str::trim`).
pub open spec fn trim(s: Seq<char>) -> Seq<char> {
    trim_end(trim_start(s))
}

/// Whether `s` is empty or all whitespace (`s.trim().is_empty()`).
pub open spec fn is_blank_line(s: Seq<char>) -> bool {
    forall|k: int| 0 <= k < s.len() ==> is_ws(#[trigger] s[k])
}

/// `s` with leading spaces and tabs removed.
pub open spec fn strip_blanks(s: Seq<char>) -> Seq<char> {
    s.subrange(skip_blanks(s, 0), s.len() as int)
}

/// Whether `s` starts with `p`.
pub open spec fn starts_with(s: Seq<char>, p: Seq<char>) -> bool {
    p.len() <= s.len() && s.subrange(0, p.len() as int) == p
}

/// Whether `s` ends with `p`.
pub open spec fn ends_with(s: Seq<char>, p: Seq<char>) -> bool {
    p.len() <= s.len() && s.subrange(s.len() - p.len(), s.len() as int) == p
}

/// Whether `p` occurs in `s` starting at index `i`.
pub open spec fn occurs_at(s: Seq<char>, p: Seq<char>, i: int) -> bool {
    0 <= i && i + p.len() <= s.len() && s.subrange(i, i + p.len()) == p
}

/// Whether `s` contains the character `c`.
pub open spec fn has_char(s: Seq<char>, c: char) -> bool {
    exists|k: int| 0 <= k < s.len() && s[k] == c
}

/// Whether `s` contains a whitespace character.
pub open spec fn has_ws(s: Seq<char>) -> bool {
    exists|k: int| 0 <= k < s.len() && is_ws(#[trigger] s[k])
}

/// Splitting on whitespace, character by character: the finished tokens and
/// the token being read.
pub open spec fn scan_tokens(s: Seq<char>) -> (Seq<Seq<char>>, Seq<char>)
    decreases s.len(),
{
    if s.len() == 0 {
        (seq![], seq![])
    } else {
        let (done, current) = scan_tokens(s.drop_last());
        if is_ws(s.last()) {
            if current.len() > 0 {
                (done.push(current), seq![])
            } else {
                (done, current)
            }
        } else {
            (done, current.push(s.last()))
        }
    }
}

/// The whitespace-separated tokens of `s` (`str::split_whitespace`).
pub open spec fn tokens(s: Seq<char>) -> Seq<Seq<char>> {
    let (done, current) = scan_tokens(s);
    if current.len() > 0 {
        done.push(current)
    } else {
        done
    }
}

/// Every token is non-empty and holds no whitespace.
pub proof fn lemma_tokens_shape(s: Seq<char>)
    ensures
        forall|i: int| 0 <= i < tokens(s).len() ==> #[trigger] tokens(s)[i].len() > 0,
        forall|i: int, k: int|
            0 <= i < tokens(s).len() && 0 <= k < tokens(s)[i].len() ==> !is_ws(
                #[trigger] tokens(s)[i][k],
            ),
{
    lemma_scan_tokens_shape(s);
}

proof fn lemma_scan_tokens_shape(s: Seq<char>)
    ensures
        forall|i: int| 0 <= i < scan_tokens(s).0.len() ==> #[trigger] scan_tokens(s).0[i].len() > 0,
        forall|i: int, k: int|
            0 <= i < scan_tokens(s).0.len() && 0 <= k < scan_tokens(s).0[i].len() ==> !is_ws(
                #[trigger] scan_tokens(s).0[i][k],
            ),
        forall|k: int| 0 <= k < scan_tokens(s).1.len() ==> !is_ws(#[trigger] scan_tokens(s).1[k]),
    decreases s.len(),
{
    if s.len() > 0 {
        lemma_scan_tokens_shape(s.drop_last());
        let (done, current) = scan_tokens(s.drop_last());
        if !is_ws(s.last()) {
            assert forall|k: int| 0 <= k < current.push(s.last()).len() implies !is_ws(
                #[trigger] current.push(s.last())[k],
            ) by {
                if k < current.len() {
                    assert(current.push(s.last())[k] == current[k]);
                }
            }
        } else if current.len() > 0 {
            assert forall|i: int, k: int|
                0 <= i < done.push(current).len() && 0 <= k < done.push(current)[i].len() implies !is_ws(
                #[trigger] done.push(current)[i][k],
            ) by {
                if i < done.len() {
                    assert(done.push(current)[i] == done[i]);
                }
            }
        }
    }
}

/// Splitting `t` on whitespace from a given state.
pub open spec fn scan_tokens_from(st: (Seq<Seq<char>>, Seq<char>), t: Seq<char>) -> (
    Seq<Seq<char>>,
    Seq<char>,
)
    decreases t.len(),
{
    if t.len() == 0 {
        st
    } else {
        let (done, current) = scan_tokens_from(st, t.drop_last());
        if is_ws(t.last()) {
            if current.len() > 0 {
                (done.push(current), seq![])
            } else {
                (done, current)
            }
        } else {
            (done, current.push(t.last()))
        }
    }
}

pub proof fn lemma_scan_tokens_concat(a: Seq<char>, b: Seq<char>)
    ensures
        scan_tokens(a + b) == scan_tokens_from(scan_tokens(a), b),
    decreases b.len(),
{
    if b.len() == 0 {
        assert(a + b =~= a);
    } else {
        assert((a + b).drop_last() =~= a + b.drop_last());
        lemma_scan_tokens_concat(a, b.drop_last());
    }
}

/// Whitespace closes the open token, if any, and adds nothing.
pub proof fn lemma_scan_tokens_ws(st: (Seq<Seq<char>>, Seq<char>), w: Seq<char>)
    requires
        w.len() > 0,
        forall|k: int| 0 <= k < w.len() ==> is_ws(#[trigger] w[k]),
    ensures
        scan_tokens_from(st, w) == if st.1.len() > 0 {
            (st.0.push(st.1), Seq::<char>::empty())
        } else {
            st
        },
    decreases w.len(),
{
    let prev = scan_tokens_from(st, w.drop_last());
    if w.len() > 1 {
        lemma_scan_tokens_ws(st, w.drop_last());
    } else {
        assert(w.drop_last().len() == 0);
        assert(prev == st);
    }
    assert(is_ws(w[w.len() - 1]));
    assert(w[w.len() - 1] == w.last());
    assert(scan_tokens_from(st, w) == if prev.1.len() > 0 {
        (prev.0.push(prev.1), Seq::<char>::empty())
    } else {
        prev
    });
}

/// A word with no whitespace extends the open token.
pub proof fn lemma_scan_tokens_word(st: (Seq<Seq<char>>, Seq<char>), c: Seq<char>)
    requires
        forall|k: int| 0 <= k < c.len() ==> !is_ws(#[trigger] c[k]),
    ensures
        scan_tokens_from(st, c) == (st.0, st.1 + c),
    decreases c.len(),
{
    if c.len() == 0 {
        assert(st.1 + c =~= st.1);
    } else {
        lemma_scan_tokens_word(st, c.drop_last());
        assert(c[c.len() - 1] == c.last());
        assert((st.1 + c.drop_last()).push(c.last()) =~= st.1 + c);
    }
}

/// Parts that are whitespace then a word, joined with spaces, split back
/// into the words.
pub proof fn lemma_tokens_of_join(parts: Seq<Seq<char>>, ws: Seq<Seq<char>>, words: Seq<Seq<char>>)
    requires
        parts.len() == ws.len() == words.len(),
        forall|i: int| 0 <= i < parts.len() ==> #[trigger] parts[i] == ws[i] + words[i],
        forall|i: int, k: int| 0 <= i < ws.len() && 0 <= k < ws[i].len() ==> is_ws(#[trigger] ws[i][k]),
        forall|i: int| 0 <= i < words.len() ==> #[trigger] words[i].len() > 0,
        forall|i: int, k: int|
            0 <= i < words.len() && 0 <= k < words[i].len() ==> !is_ws(#[trigger] words[i][k]),
    ensures
        parts.len() > 0 ==> scan_tokens(join(parts, seq![' '])) == (
            words.drop_last(),
            words.last(),
        ),
        tokens(join(parts, seq![' '])) == words,
    decreases parts.len(),
{
    let e: Seq<char> = seq![];
    if parts.len() == 0 {
        assert(scan_tokens(e) == (Seq::<Seq<char>>::empty(), e));
        assert(words =~= Seq::<Seq<char>>::empty());
    } else {
        let n = parts.len() - 1;
        let st0 = (Seq::<Seq<char>>::empty(), e);
        if n == 0 {
            assert(join(parts, seq![' ']) == parts[0]);
            lemma_scan_tokens_concat(e, parts[0]);
            assert(e + parts[0] =~= parts[0]);
            lemma_scan_tokens_concat(ws[0], words[0]);
            if ws[0].len() > 0 {
                lemma_scan_tokens_concat(e, ws[0]);
                assert(e + ws[0] =~= ws[0]);
                lemma_scan_tokens_ws(st0, ws[0]);
            } else {
                assert(ws[0] =~= e);
            }
            lemma_scan_tokens_word(st0, words[0]);
            assert(e + words[0] =~= words[0]);
            assert(words.drop_last() =~= Seq::<Seq<char>>::empty());
        } else {
            lemma_tokens_of_join(parts.drop_last(), ws.drop_last(), words.drop_last());
            let before = join(parts.drop_last(), seq![' ']);
            assert(join(parts, seq![' ']) == before + seq![' '] + parts[n]);
            let st = scan_tokens(before);
            assert(st == (words.drop_last().drop_last(), words[n - 1]));
            lemma_scan_tokens_concat(before, seq![' '] + ws[n]);
            assert(before + seq![' '] + parts[n] =~= (before + (seq![' '] + ws[n])) + words[n]);
            lemma_scan_tokens_concat(before + (seq![' '] + ws[n]), words[n]);
            let sp = seq![' '] + ws[n];
            assert forall|k: int| 0 <= k < sp.len() implies is_ws(#[trigger] sp[k]) by {
                if k > 0 {
                    assert(sp[k] == ws[n][k - 1]);
                }
            }
            lemma_scan_tokens_ws(st, sp);
            assert(words[n - 1].len() > 0);
            let st2 = (words.drop_last().drop_last().push(words[n - 1]), e);
            lemma_scan_tokens_word(st2, words[n]);
            assert(words.drop_last().drop_last().push(words[n - 1]) =~= words.drop_last());
            assert(e + words[n] =~= words[n]);
        }
        assert(words.drop_last().push(words.last()) =~= words);
    }
}


/// Deep view of a vector of character vectors.
pub open spec fn views(v: Seq<Vec<char>>) -> Seq<Seq<char>> {
    v.map_values(|x: Vec<char>| x@)
}

/// Texts with a flag each, as sequences.
pub open spec fn flagged_views(v: Seq<(Vec<char>, bool)>) -> Seq<(Seq<char>, bool)> {
    v.map_values(|x: (Vec<char>, bool)| (x.0@, x.1))
}

/// Concatenation of `parts` with `sep` between consecutive ones.
pub open spec fn join(parts: Seq<Seq<char>>, sep: Seq<char>) -> Seq<char>
    decreases parts.len(),
{
    if parts.len() == 0 {
        seq![]
    } else if parts.len() == 1 {
        parts[0]
    } else {
        join(parts.drop_last(), sep) + sep + parts.last()
    }
}

pub fn skip_blanks_exec(s: &Vec<char>, i: usize) -> (j: usize)
    requires
        i <= s@.len(),
    ensures
        j == skip_blanks(s@, i as int),
        i <= j <= s@.len(),
{
    let mut j = i;
    while j < s.len() && (s[j] == ' ' || s[j] == '\t')
        invariant
            i <= j <= s@.len(),
            skip_blanks(s@, i as int) == skip_blanks(s@, j as int),
        decreases s.len() - j,
    {
        j = j + 1;
    }
    j
}

pub fn run_end_exec(s: &Vec<char>, i: usize, c: char) -> (j: usize)
    requires
        i <= s@.len(),
    ensures
        j == run_end(s@, i as int, c),
        i <= j <= s@.len(),
{
    let mut j = i;
    while j < s.len() && s[j] == c
        invariant
            i <= j <= s@.len(),
            run_end(s@, i as int, c) == run_end(s@, j as int, c),
        decreases s.len() - j,
    {
        j = j + 1;
    }
    j
}

pub fn skip_ws_exec(s: &Vec<char>, i: usize) -> (j: usize)
    requires
        i <= s@.len(),
    ensures
        j == skip_ws(s@, i as int),
        i <= j <= s@.len(),
{
    let mut j = i;
    while j < s.len() && is_ws_exec(s[j])
        invariant
            i <= j <= s@.len(),
            skip_ws(s@, i as int) == skip_ws(s@, j as int),
        decreases s.len() - j,
    {
        j = j + 1;
    }
    j
}

pub fn back_ws_exec(s: &Vec<char>, j: usize) -> (k: usize)
    requires
        j <= s@.len(),
    ensures
        k == back_ws(s@, j as int),
        k <= j,
{
    let mut k = j;
    while k > 0 && is_ws_exec(s[k - 1])
        invariant
            k <= j <= s@.len(),
            back_ws(s@, j as int) == back_ws(s@, k as int),
        decreases k,
    {
        k = k - 1;
    }
    k
}

pub proof fn lemma_skip_blanks_bounds(s: Seq<char>, i: int)
    requires
        0 <= i <= s.len(),
    ensures
        i <= skip_blanks(s, i) <= s.len(),
        forall|k: int| i <= k < skip_blanks(s, i) ==> is_blank(#[trigger] s[k]),
        skip_blanks(s, i) < s.len() ==> !is_blank(s[skip_blanks(s, i)]),
    decreases s.len() - i,
{
    if i < s.len() && is_blank(s[i]) {
        lemma_skip_blanks_bounds(s, i + 1);
    }
}

/// Blanks up to `n` and none at `n`: the run of blanks ends at `n`.
pub proof fn lemma_skip_blanks_same(s: Seq<char>, n: int)
    requires
        0 <= n < s.len(),
        forall|k: int| 0 <= k < n ==> is_blank(#[trigger] s[k]),
        !is_blank(s[n]),
    ensures
        skip_blanks(s, 0) == n,
{
    lemma_skip_blanks_from(s, 0, n);
}

pub proof fn lemma_skip_blanks_from(s: Seq<char>, i: int, n: int)
    requires
        0 <= i <= n < s.len(),
        forall|k: int| i <= k < n ==> is_blank(#[trigger] s[k]),
        !is_blank(s[n]),
    ensures
        skip_blanks(s, i) == n,
    decreases n - i,
{
    if i < n {
        lemma_skip_blanks_from(s, i + 1, n);
    }
}

/// A run of `c` up to `n` and none at `n`: the run ends at `n`.
pub proof fn lemma_run_end_same(s: Seq<char>, i: int, n: int, c: char)
    requires
        0 <= i <= n <= s.len(),
        forall|j: int| i <= j < n ==> s[j] == c,
        n == s.len() || s[n] != c,
    ensures
        run_end(s, i, c) == n,
    decreases n - i,
{
    if i < n {
        lemma_run_end_same(s, i + 1, n, c);
    }
}

pub proof fn lemma_run_end_bounds(s: Seq<char>, i: int, c: char)
    requires
        0 <= i <= s.len(),
    ensures
        i <= run_end(s, i, c) <= s.len(),
        forall|k: int| i <= k < run_end(s, i, c) ==> #[trigger] s[k] == c,
        run_end(s, i, c) < s.len() ==> s[run_end(s, i, c)] != c,
    decreases s.len() - i,
{
    if i < s.len() && s[i] == c {
        lemma_run_end_bounds(s, i + 1, c);
    }
}

pub proof fn lemma_skip_ws_bounds(s: Seq<char>, i: int)
    requires
        0 <= i <= s.len(),
    ensures
        i <= skip_ws(s, i) <= s.len(),
        forall|k: int| i <= k < skip_ws(s, i) ==> is_ws(#[trigger] s[k]),
        skip_ws(s, i) < s.len() ==> !is_ws(s[skip_ws(s, i)]),
    decreases s.len() - i,
{
    if i < s.len() && is_ws(s[i]) {
        lemma_skip_ws_bounds(s, i + 1);
    }
}

pub proof fn lemma_back_ws_bounds(s: Seq<char>, j: int)
    requires
        0 <= j <= s.len(),
    ensures
        0 <= back_ws(s, j) <= j,
        forall|k: int| back_ws(s, j) <= k < j ==> is_ws(#[trigger] s[k]),
        back_ws(s, j) > 0 ==> !is_ws(s[back_ws(s, j) - 1]),
    decreases j,
{
    if 0 < j && is_ws(s[j - 1]) {
        lemma_back_ws_bounds(s, j - 1);
    }
}

/// Trimming twice is trimming once.
pub proof fn lemma_trim_twice(s: Seq<char>)
    ensures
        trim(trim(s)) == trim(s),
{
    let a = skip_ws(s, 0);
    lemma_skip_ws_bounds(s, 0);
    let ts = s.subrange(a, s.len() as int);
    let bk = back_ws(ts, ts.len() as int);
    lemma_back_ws_bounds(ts, ts.len() as int);
    let t = trim(s);
    assert(t == ts.subrange(0, bk));
    if t.len() > 0 {
        assert(t[0] == s[a]);
        assert(!is_ws(t[0]));
        assert(t[t.len() - 1] == ts[bk - 1]);
        assert(!is_ws(t[t.len() - 1]));
        lemma_skip_ws_bounds(t, 0);
        assert(skip_ws(t, 0) == 0);
        assert(t.subrange(0, t.len() as int) =~= t);
        assert(back_ws(t, t.len() as int) == t.len());
        assert(trim(t) =~= t);
    } else {
        assert(skip_ws(t, 0) == 0);
        assert(back_ws(t, 0) == 0);
        assert(trim(t) =~= t);
    }
}

/// A copy of `s[a..b]`.
pub fn subvec(s: &Vec<char>, a: usize, b: usize) -> (r: Vec<char>)
    requires
        a <= b <= s@.len(),
    ensures
        r@ == s@.subrange(a as int, b as int),
{
    let mut r: Vec<char> = Vec::new();
    let mut i = a;
    while i < b
        invariant
            a <= i <= b <= s@.len(),
            r@ == s@.subrange(a as int, i as int),
        decreases b - i,
    {
        r.push(s[i]);
        i = i + 1;
        assert(r@ =~= s@.subrange(a as int, i as int));
    }
    r
}

/// Appends `s` to `out`.
pub fn push_all(out: &mut Vec<char>, s: &Vec<char>)
    ensures
        final(out)@ == old(out)@ + s@,
{
    let ghost start = out@;
    let mut i: usize = 0;
    while i < s.len()
        invariant
            i <= s@.len(),
            out@ == start + s@.subrange(0, i as int),
        decreases s.len() - i,
    {
        out.push(s[i]);
        i = i + 1;
        assert(out@ =~= start + s@.subrange(0, i as int));
    }
    assert(s@.subrange(0, s@.len() as int) =~= s@);
}

/// A copy of `s`.
pub fn copy_chars(s: &Vec<char>) -> (r: Vec<char>)
    ensures
        r@ == s@,
{
    let mut r: Vec<char> = Vec::new();
    push_all(&mut r, s);
    assert(r@ =~= s@);
    r
}

/// `s` with leading whitespace removed.
pub fn trim_start_exec(s: &Vec<char>) -> (r: Vec<char>)
    ensures
        r@ == trim_start(s@),
{
    let a = skip_ws_exec(s, 0);
    subvec(s, a, s.len())
}

/// `s` with trailing whitespace removed.
pub fn trim_end_exec(s: &Vec<char>) -> (r: Vec<char>)
    ensures
        r@ == trim_end(s@),
{
    let b = back_ws_exec(s, s.len());
    subvec(s, 0, b)
}

/// `s` with leading and trailing whitespace removed.
pub fn trim_exec(s: &Vec<char>) -> (r: Vec<char>)
    ensures
        r@ == trim(s@),
{
    let t = trim_start_exec(s);
    trim_end_exec(&t)
}

/// `s` with leading spaces and tabs removed.
pub fn strip_blanks_exec(s: &Vec<char>) -> (r: Vec<char>)
    ensures
        r@ == strip_blanks(s@),
{
    let a = skip_blanks_exec(s, 0);
    subvec(s, a, s.len())
}

/// Whether `s` is empty or all whitespace.
pub fn is_blank_line_exec(s: &Vec<char>) -> (b: bool)
    ensures
        b == is_blank_line(s@),
{
    let mut i: usize = 0;
    while i < s.len()
        invariant
            i <= s@.len(),
            forall|k: int| 0 <= k < i ==> is_ws(#[trigger] s@[k]),
        decreases s.len() - i,
    {
        if !is_ws_exec(s[i]) {
            return false;
        }
        i = i + 1;
    }
    true
}

/// Whether `p` occurs in `s` at index `i`.
pub fn occurs_at_exec(s: &Vec<char>, p: &Vec<char>, i: usize) -> (b: bool)
    ensures
        b == occurs_at(s@, p@, i as int),
{
    if i > s.len() || p.len() > s.len() - i {
        return false;
    }
    let n = s.len();
    let mut k: usize = 0;
    while k < p.len()
        invariant
            n == s@.len(),
            k <= p@.len(),
            i + p@.len() <= s@.len(),
            forall|m: int| 0 <= m < k ==> s@[i + m] == #[trigger] p@[m],
        decreases p.len() - k,
    {
        if s[i + k] != p[k] {
            assert(s@.subrange(i as int, i + p@.len())[k as int] != p@[k as int]);
            return false;
        }
        k = k + 1;
    }
    assert(s@.subrange(i as int, i + p@.len()) =~= p@);
    true
}

/// Whether `s` starts with `p`.
pub fn starts_with_exec(s: &Vec<char>, p: &Vec<char>) -> (b: bool)
    ensures
        b == starts_with(s@, p@),
{
    occurs_at_exec(s, p, 0)
}

/// Whether `s` ends with `p`.
pub fn ends_with_exec(s: &Vec<char>, p: &Vec<char>) -> (b: bool)
    ensures
        b == ends_with(s@, p@),
{
    if p.len() > s.len() {
        return false;
    }
    occurs_at_exec(s, p, s.len() - p.len())
}

/// Whether `s` contains `c`.
pub fn has_char_exec(s: &Vec<char>, c: char) -> (b: bool)
    ensures
        b == has_char(s@, c),
{
    let mut i: usize = 0;
    while i < s.len()
        invariant
            i <= s@.len(),
            forall|k: int| 0 <= k < i ==> s@[k] != c,
        decreases s.len() - i,
    {
        if s[i] == c {
            return true;
        }
        i = i + 1;
    }
    false
}

/// Whether `s` contains whitespace.
pub fn has_ws_exec(s: &Vec<char>) -> (b: bool)
    ensures
        b == has_ws(s@),
{
    let mut i: usize = 0;
    while i < s.len()
        invariant
            i <= s@.len(),
            forall|k: int| 0 <= k < i ==> !is_ws(#[trigger] s@[k]),
        decreases s.len() - i,
    {
        if is_ws_exec(s[i]) {
            return true;
        }
        i = i + 1;
    }
    false
}

/// The whitespace-separated tokens of `s`.
pub fn tokens_exec(s: &Vec<char>) -> (r: Vec<Vec<char>>)
    ensures
        views(r@) == tokens(s@),
{
    let mut done: Vec<Vec<char>> = Vec::new();
    let mut current: Vec<char> = Vec::new();
    let mut i: usize = 0;
    while i < s.len()
        invariant
            i <= s@.len(),
            (views(done@), current@) == scan_tokens(s@.take(i as int)),
        decreases s.len() - i,
    {
        proof {
            assert(s@.take(i + 1).drop_last() =~= s@.take(i as int));
        }
        if is_ws_exec(s[i]) {
            if current.len() > 0 {
                let ghost before = done@;
                done.push(current);
                current = Vec::new();
                proof {
                    assert(views(done@) =~= views(before).push(done@.last()@));
                }
            }
        } else {
            current.push(s[i]);
        }
        i = i + 1;
    }
    assert(s@.take(s@.len() as int) =~= s@);
    if current.len() > 0 {
        let ghost before = done@;
        done.push(current);
        proof {
            assert(views(done@) =~= views(before).push(done@.last()@));
        }
    }
    done
}

/// `parts` joined with `sep` between consecutive ones.
pub fn join_exec(parts: &Vec<Vec<char>>, sep: &Vec<char>) -> (r: Vec<char>)
    ensures
        r@ == join(views(parts@), sep@),
{
    let mut r: Vec<char> = Vec::new();
    let mut i: usize = 0;
    while i < parts.len()
        invariant
            i <= parts@.len(),
            r@ == join(views(parts@.take(i as int)), sep@),
        decreases parts.len() - i,
    {
        proof {
            assert(views(parts@.take(i + 1)).drop_last() =~= views(parts@.take(i as int)));
        }
        if i > 0 {
            push_all(&mut r, sep);
        }
        push_all(&mut r, &parts[i]);
        i = i + 1;
        proof {
            if i == 1 {
                assert(views(parts@.take(1)) =~= seq![parts@[0]@]);
            }
        }
    }
    assert(parts@.take(parts@.len() as int) =~= parts@);
    r
}

} // verus!

verus! {

/// Lexicographic order on character sequences (by code point), which is the
/// order `String`'s `Ord` gives.
pub open spec fn lex_lt(a: Seq<char>, b: Seq<char>) -> bool
    decreases a.len(),
{
    if a.len() == 0 {
        b.len() > 0
    } else if b.len() == 0 {
        false
    } else if a[0] != b[0] {
        a[0] < b[0]
    } else {
        lex_lt(a.drop_first(), b.drop_first())
    }
}

/// No sequence comes before itself.
pub proof fn lemma_lex_irreflexive(a: Seq<char>)
    ensures
        !lex_lt(a, a),
    decreases a.len(),
{
    if a.len() > 0 {
        lemma_lex_irreflexive(a.drop_first());
    }
}

/// Of two different sequences, one comes first.
pub proof fn lemma_lex_total(a: Seq<char>, b: Seq<char>)
    ensures
        a == b || lex_lt(a, b) || lex_lt(b, a),
    decreases a.len(),
{
    if a.len() > 0 && b.len() > 0 && a[0] == b[0] {
        lemma_lex_total(a.drop_first(), b.drop_first());
        if a.drop_first() == b.drop_first() {
            assert(a =~= seq![a[0]] + a.drop_first());
            assert(b =~= seq![b[0]] + b.drop_first());
        }
    } else if a.len() == 0 && b.len() == 0 {
        assert(a =~= b);
    }
}

pub proof fn lemma_lex_transitive(a: Seq<char>, b: Seq<char>, c: Seq<char>)
    requires
        lex_lt(a, b),
        lex_lt(b, c),
    ensures
        lex_lt(a, c),
    decreases a.len(),
{
    if a.len() > 0 && b.len() > 0 && c.len() > 0 && a[0] == b[0] && b[0] == c[0] {
        lemma_lex_transitive(a.drop_first(), b.drop_first(), c.drop_first());
    }
}

pub fn lex_lt_exec(a: &Vec<char>, b: &Vec<char>) -> (r: bool)
    ensures
        r == lex_lt(a@, b@),
{
    let mut i: usize = 0;
    assert(a@.skip(0) =~= a@);
    assert(b@.skip(0) =~= b@);
    while i < a.len() && i < b.len() && a[i] == b[i]
        invariant
            i <= a@.len(),
            i <= b@.len(),
            lex_lt(a@, b@) == lex_lt(a@.skip(i as int), b@.skip(i as int)),
        decreases a.len() - i,
    {
        assert(a@.skip(i as int).drop_first() =~= a@.skip(i + 1));
        assert(b@.skip(i as int).drop_first() =~= b@.skip(i + 1));
        i = i + 1;
    }
    if i == a.len() {
        i < b.len()
    } else if i == b.len() {
        false
    } else {
        a[i] < b[i]
    }
}

/// Whether two character sequences are equal.
pub fn chars_eq(a: &Vec<char>, b: &Vec<char>) -> (r: bool)
    ensures
        r == (a@ == b@),
{
    if a.len() != b.len() {
        return false;
    }
    let mut i: usize = 0;
    while i < a.len()
        invariant
            i <= a@.len(),
            a@.len() == b@.len(),
            forall|k: int| 0 <= k < i ==> a@[k] == b@[k],
        decreases a.len() - i,
    {
        if a[i] != b[i] {
            return false;
        }
        i = i + 1;
    }
    assert(a@ =~= b@);
    true
}

} // verus!

verus! {

pub proof fn lemma_views_push(v: Seq<Vec<char>>, x: Vec<char>)
    ensures
        views(v.push(x)) == views(v).push(x@),
{
    assert(views(v.push(x)) =~= views(v).push(x@));
}

/// The trailing `\n` of a text that ends with one.
pub open spec fn final_break(s: Seq<char>) -> Seq<char> {
    if s.len() > 0 && s.last() == '\n' {
        seq!['\n']
    } else {
        seq![]
    }
}

pub fn final_break_exec(s: &Vec<char>) -> (r: Vec<char>)
    ensures
        r@ == final_break(s@),
{
    let mut r: Vec<char> = Vec::new();
    if s.len() > 0 && s[s.len() - 1] == '\n' {
        r.push('\n');
    }
    proof {
        if s@.len() > 0 && s@.last() == '\n' {
            assert(r@ =~= seq!['\n']);
        } else {
            assert(r@ =~= Seq::<char>::empty());
        }
    }
    r
}

} // verus!
