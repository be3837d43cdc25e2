//! **typography** — curly quotes and apostrophes, and a proper ellipsis:
//! `...` and a spaced `. . .` (three dots or more) become `…`.
//! Code (fenced and inline) is left untouched.

use crate::engine::ignore::{in_ranges, IgnoreRanges};
use crate::engine::Rule;
use crate::text::{byte_offset, is_ws, is_ws_exec, string_of, Doc};
use crate::unicode::{char_is_alphanumeric, is_alphanumeric};
use vstd::prelude::*;

verus! {

pub struct Typography;

/// Whether a quote here should be an opening one: at the start, or after
/// whitespace or an opening bracket.
pub open spec fn opens(previous: Option<char>) -> bool {
    match previous {
        None => true,
        Some(c) => is_ws(c) || c == '(' || c == '[' || c == '{',
    }
}

/// A curly single quote: opening before a word character where a quote
/// opens, else an apostrophe.
pub open spec fn single_quote(previous: Option<char>, next: Option<char>) -> char {
    if opens(previous) && (next matches Some(n) && char_is_alphanumeric(n)) {
        '‘'
    } else {
        '’'
    }
}

/// The end of a spaced run of dots: from `j`, as long as a space and a dot
/// follow, past them.
pub open spec fn spaced_dots_end(s: Seq<char>, j: int) -> int
    decreases s.len() - j,
{
    if 0 <= j && j + 2 <= s.len() && s[j] == ' ' && s[j + 1] == '.' {
        spaced_dots_end(s, j + 2)
    } else {
        j
    }
}

pub proof fn lemma_spaced_dots_end_bounds(s: Seq<char>, j: int)
    requires
        0 <= j <= s.len(),
    ensures
        j <= spaced_dots_end(s, j) <= s.len(),
    decreases s.len() - j,
{
    if j + 2 <= s.len() && s[j] == ' ' && s[j + 1] == '.' {
        lemma_spaced_dots_end_bounds(s, j + 2);
    }
}

/// Whether a spaced ellipsis (`. . .`, three dots or more) starts at `i`.
pub open spec fn spaced_ellipsis_at(s: Seq<char>, i: int) -> bool {
    0 <= i < s.len() && s[i] == '.' && spaced_dots_end(s, i + 1) >= i + 5
}

/// The text from index `i` on with quotes curled and `...` made `…`, given the
/// character before `i` in the source.
pub open spec fn curl_from(s: Seq<char>, ignore: Seq<(int, int)>, i: int, previous: Option<char>) -> Seq<char>
    decreases s.len() - i,
{
    if i < 0 || i >= s.len() {
        seq![]
    } else {
        let c = s[i];
        if in_ranges(ignore, byte_offset(s, i) as int) {
            seq![c] + curl_from(s, ignore, i + 1, Some(c))
        } else if i + 3 <= s.len() && s[i] == '.' && s[i + 1] == '.' && s[i + 2] == '.' {
            seq!['…'] + curl_from(s, ignore, i + 3, Some('…'))
        } else if spaced_ellipsis_at(s, i) {
            proof {
                lemma_spaced_dots_end_bounds(s, i + 1);
            }
            seq!['…'] + curl_from(s, ignore, spaced_dots_end(s, i + 1), Some('…'))
        } else {
            let emitted = if c == '"' {
                if opens(previous) {
                    '“'
                } else {
                    '”'
                }
            } else if c == '\'' {
                single_quote(
                    previous,
                    if i + 1 < s.len() {
                        Some(s[i + 1])
                    } else {
                        None
                    },
                )
            } else {
                c
            };
            seq![emitted] + curl_from(s, ignore, i + 1, Some(c))
        }
    }
}

pub open spec fn spec_typography(s: Seq<char>, ignore: Seq<(int, int)>) -> Seq<char> {
    curl_from(s, ignore, 0, None)
}

fn opens_exec(previous: Option<char>) -> (b: bool)
    ensures
        b == opens(previous),
{
    match previous {
        None => true,
        Some(c) => is_ws_exec(c) || c == '(' || c == '[' || c == '{',
    }
}

fn spaced_dots_end_exec(s: &Vec<char>, j: usize) -> (e: usize)
    requires
        j <= s@.len(),
    ensures
        e == spaced_dots_end(s@, j as int),
{
    let mut e = j;
    while e < s.len() && s.len() - e >= 2 && s[e] == ' ' && s[e + 1] == '.'
        invariant
            j <= e <= s@.len(),
            spaced_dots_end(s@, j as int) == spaced_dots_end(s@, e as int),
        decreases s.len() - e,
    {
        e = e + 2;
    }
    e
}

impl Rule for Typography {
    open spec fn spec_name(&self) -> Seq<char> {
        "typography"@
    }

    open spec fn spec_apply(&self, text: Seq<char>, ignore: Seq<(int, int)>) -> Seq<char> {
        spec_typography(text, ignore)
    }

    fn name(&self) -> (name: &'static str) {
        "typography"
    }

    fn apply(&self, text: &str, ignore: &IgnoreRanges) -> (out: String) {
        let doc = Doc::new(text);
        let ghost s = doc.chars@;
        let mut out: Vec<char> = Vec::new();
        let mut previous: Option<char> = None;
        let mut i: usize = 0;
        while i < doc.chars.len()
            invariant
                doc.wf(),
                s == doc.chars@,
                i <= s.len(),
                spec_typography(s, ignore@) == out@ + curl_from(s, ignore@, i as int, previous),
            decreases doc.chars.len() - i,
        {
            let current = doc.chars[i];
            let n = doc.chars.len();
            if ignore.contains_wide(doc.offsets[i]) {
                out.push(current);
                previous = Some(current);
                i = i + 1;
                continue;
            }
            if 3 <= n - i && doc.chars[i] == '.' && doc.chars[i + 1] == '.' && doc.chars[i + 2]
                == '.' {
                out.push('…');
                previous = Some('…');
                i = i + 3;
                continue;
            }
            if current == '.' {
                let end = spaced_dots_end_exec(&doc.chars, i + 1);
                proof {
                    lemma_spaced_dots_end_bounds(s, i + 1);
                }
                if end - i >= 5 {
                    out.push('…');
                    previous = Some('…');
                    i = end;
                    continue;
                }
            }
            let emitted = if current == '"' {
                if opens_exec(previous) {
                    '“'
                } else {
                    '”'
                }
            } else if current == '\'' {
                let followed_by_word = i + 1 < n && is_alphanumeric(doc.chars[i + 1]);
                if opens_exec(previous) && followed_by_word {
                    '‘'
                } else {
                    '’'
                }
            } else {
                current
            };
            out.push(emitted);
            previous = Some(current);
            i = i + 1;
        }
        string_of(&out)
    }
}

/// Three dots in a row at `k`.
pub open spec fn three_dots_at(o: Seq<char>, k: int) -> bool {
    0 <= k && k + 3 <= o.len() && o[k] == '.' && o[k + 1] == '.' && o[k + 2] == '.'
}

/// Three dots spaced by single spaces at `k`.
pub open spec fn spaced_dots_at(o: Seq<char>, k: int) -> bool {
    0 <= k && k + 5 <= o.len() && o[k] == '.' && o[k + 1] == ' ' && o[k + 2] == '.' && o[k + 3]
        == ' ' && o[k + 4] == '.'
}

/// A text typography has nothing left to do in: no straight quote and no
/// ellipsis written with dots.
pub open spec fn settled_typography(o: Seq<char>) -> bool {
    forall|k: int|
        0 <= k < o.len() ==> #[trigger] o[k] != '"' && o[k] != '\'' && !three_dots_at(o, k)
            && !spaced_dots_at(o, k)
}

proof fn lemma_spaced_ellipsis_dots(o: Seq<char>, i: int)
    requires
        spaced_ellipsis_at(o, i),
    ensures
        spaced_dots_at(o, i),
{
    if !(i + 3 <= o.len() && o[i + 1] == ' ' && o[i + 2] == '.') {
        assert(spaced_dots_end(o, i + 1) == i + 1);
    } else {
        assert(spaced_dots_end(o, i + 1) == spaced_dots_end(o, i + 3));
        if !(i + 5 <= o.len() && o[i + 3] == ' ' && o[i + 4] == '.') {
            assert(spaced_dots_end(o, i + 3) == i + 3);
        }
    }
}

/// Without code, the first character produced from index `j` on: a dot or a
/// space comes from the same character in the source, one step at a time.
proof fn lemma_curl_head(s: Seq<char>, j: int, previous: Option<char>)
    requires
        0 <= j < s.len(),
    ensures
        ({
            let o = curl_from(s, seq![], j, previous);
            &&& o.len() > 0
            &&& o[0] == '.' ==> s[j] == '.' && !three_dots_at(s, j) && !spaced_ellipsis_at(s, j)
                && o.skip(1) == curl_from(s, seq![], j + 1, Some('.'))
            &&& o[0] == ' ' ==> s[j] == ' ' && o.skip(1) == curl_from(s, seq![], j + 1, Some(' '))
        }),
{
    assert(!in_ranges(seq![], byte_offset(s, j) as int));
    let o = curl_from(s, seq![], j, previous);
    if three_dots_at(s, j) {
        assert(o[0] == '…');
    } else if spaced_ellipsis_at(s, j) {
        assert(o[0] == '…');
    } else {
        let rest = curl_from(s, seq![], j + 1, Some(s[j]));
        assert(o.skip(1) =~= rest);
    }
}

/// Without code, the result is settled.
proof fn lemma_curl_settled(s: Seq<char>, i: int, previous: Option<char>)
    requires
        0 <= i <= s.len(),
    ensures
        settled_typography(curl_from(s, seq![], i, previous)),
    decreases s.len() - i,
{
    let o = curl_from(s, seq![], i, previous);
    if i < s.len() {
        assert(!in_ranges(seq![], byte_offset(s, i) as int));
        let c = s[i];
        let (x, i2, p2) = if three_dots_at(s, i) {
            ('…', i + 3, Some('…'))
        } else if spaced_ellipsis_at(s, i) {
            lemma_spaced_dots_end_bounds(s, i + 1);
            ('…', spaced_dots_end(s, i + 1), Some('…'))
        } else {
            (o[0], i + 1, Some(c))
        };
        lemma_spaced_dots_end_bounds(s, i + 1);
        lemma_curl_settled(s, i2, p2);
        let rest = curl_from(s, seq![], i2, p2);
        assert(o =~= seq![x] + rest);
        assert(x != '"' && x != '\'');
        assert forall|k: int| 0 <= k < o.len() implies #[trigger] o[k] != '"' && o[k] != '\''
            && !three_dots_at(o, k) && !spaced_dots_at(o, k) by {
            if k > 0 {
                assert(o[k] == rest[k - 1]);
                assert(rest[k - 1] != '"');
                if three_dots_at(o, k) {
                    assert(three_dots_at(rest, k - 1));
                }
                if spaced_dots_at(o, k) {
                    assert(spaced_dots_at(rest, k - 1));
                }
            } else if x == '.' {
                lemma_curl_head(s, i, previous);
                assert(s[i] == '.' && !three_dots_at(s, i) && !spaced_ellipsis_at(s, i));
                assert(rest == o.skip(1));
                if three_dots_at(o, 0) || spaced_dots_at(o, 0) {
                    lemma_curl_head(s, i + 1, Some('.'));
                    assert(rest[0] == o[1]);
                    if three_dots_at(o, 0) {
                        assert(rest.skip(1) == curl_from(s, seq![], i + 2, Some('.')));
                        lemma_curl_head(s, i + 2, Some('.'));
                        assert(rest.skip(1)[0] == o[2]);
                        assert(three_dots_at(s, i));
                    } else {
                        assert(rest.skip(1) == curl_from(s, seq![], i + 2, Some(' ')));
                        lemma_curl_head(s, i + 2, Some(' '));
                        let r3 = curl_from(s, seq![], i + 2, Some(' '));
                        assert(r3[0] == o[2]);
                        assert(r3.skip(1) == curl_from(s, seq![], i + 3, Some('.')));
                        lemma_curl_head(s, i + 3, Some('.'));
                        let r4 = curl_from(s, seq![], i + 3, Some('.'));
                        assert(r4[0] == o[3]);
                        assert(r4.skip(1) == curl_from(s, seq![], i + 4, Some(' ')));
                        lemma_curl_head(s, i + 4, Some(' '));
                        let r5 = curl_from(s, seq![], i + 4, Some(' '));
                        assert(r5[0] == o[4]);
                        assert(s[i + 4] == '.');
                        assert(spaced_dots_end(s, i + 5) >= i + 5) by {
                            lemma_spaced_dots_end_bounds(s, i + 5);
                        }
                        assert(spaced_dots_end(s, i + 3) == spaced_dots_end(s, i + 5));
                        assert(spaced_dots_end(s, i + 1) == spaced_dots_end(s, i + 3));
                        assert(spaced_ellipsis_at(s, i));
                    }
                }
            }
        }
    }
}

/// A settled text comes through unchanged.
proof fn lemma_curl_identity(o: Seq<char>, i: int, previous: Option<char>)
    requires
        settled_typography(o),
        0 <= i <= o.len(),
    ensures
        curl_from(o, seq![], i, previous) == o.skip(i),
    decreases o.len() - i,
{
    if i < o.len() {
        assert(!in_ranges(seq![], byte_offset(o, i) as int));
        assert(o[i] != '"' && !three_dots_at(o, i));
        if spaced_ellipsis_at(o, i) {
            lemma_spaced_ellipsis_dots(o, i);
        }
        lemma_curl_identity(o, i + 1, Some(o[i]));
        assert(o.skip(i) =~= seq![o[i]] + o.skip(i + 1));
    } else {
        assert(o.skip(i) =~= Seq::<char>::empty());
    }
}

/// Typography is idempotent: on a text without code, a second pass changes
/// nothing.
pub proof fn typography_idempotent(s: Seq<char>)
    ensures
        spec_typography(spec_typography(s, seq![]), seq![]) == spec_typography(s, seq![]),
{
    let o = spec_typography(s, seq![]);
    lemma_curl_settled(s, 0, None);
    lemma_curl_identity(o, 0, None);
    assert(o.skip(0) =~= o);
}

/// Code is left untouched: wherever the rule reads a run of characters that
/// all lie in code, it writes them as they are and goes on after the run.
pub proof fn typography_copies_code(
    s: Seq<char>,
    ignore: Seq<(int, int)>,
    i: int,
    j: int,
    previous: Option<char>,
)
    requires
        0 <= i < j <= s.len(),
        forall|p: int| i <= p < j ==> #[trigger] in_ranges(ignore, byte_offset(s, p) as int),
    ensures
        curl_from(s, ignore, i, previous) == s.subrange(i, j) + curl_from(s, ignore, j, Some(s[j - 1])),
    decreases j - i,
{
    assert(in_ranges(ignore, byte_offset(s, i) as int));
    if i + 1 < j {
        typography_copies_code(s, ignore, i + 1, j, Some(s[i]));
        assert(seq![s[i]] + s.subrange(i + 1, j) =~= s.subrange(i, j));
    } else {
        assert(seq![s[i]] =~= s.subrange(i, j));
    }
}

/// A note that is all code comes out of typography as it went in.
pub proof fn typography_keeps_all_code(s: Seq<char>, ignore: Seq<(int, int)>)
    requires
        forall|p: int| 0 <= p < s.len() ==> #[trigger] in_ranges(ignore, byte_offset(s, p) as int),
    ensures
        spec_typography(s, ignore) == s,
{
    if s.len() > 0 {
        typography_copies_code(s, ignore, 0, s.len() as int, None);
        assert(s.subrange(0, s.len() as int) =~= s);
    }
}

/// Before any dot, the rule writes one character for each it reads and
/// goes on with the character it read as the one before.
proof fn lemma_curl_prefix(s: Seq<char>, ignore: Seq<(int, int)>, j: int)
    requires
        0 <= j <= s.len(),
        forall|p: int| 0 <= p < j ==> #[trigger] s[p] != '.',
    ensures
        ({
            let out = curl_from(s, ignore, 0, None);
            let rest = curl_from(s, ignore, j, if j == 0 {
                None
            } else {
                Some(s[j - 1])
            });
            out.len() == j + rest.len() && out.skip(j) == rest
        }),
    decreases j,
{
    if j == 0 {
        assert(curl_from(s, ignore, 0, None).skip(0) =~= curl_from(s, ignore, 0, None));
    } else {
        lemma_curl_prefix(s, ignore, j - 1);
        let prev: Option<char> = if j - 1 == 0 {
            None
        } else {
            Some(s[j - 2])
        };
        let here = curl_from(s, ignore, j - 1, prev);
        let rest = curl_from(s, ignore, j, Some(s[j - 1]));
        assert(s[j - 1] != '.');
        assert(!spaced_ellipsis_at(s, j - 1));
        assert(here.len() == 1 + rest.len() && here.skip(1) =~= rest);
        let out = curl_from(s, ignore, 0, None);
        assert(out.skip(j) =~= out.skip(j - 1).skip(1));
    }
}

/// A straight double quote outside code becomes an opening quote `“` at the
/// start of the text, or right after whitespace or an opening bracket `(`,
/// `[` or `{`, and a closing quote `”` anywhere else. Read before any dot (so
/// that no ellipsis has shortened the text), it is written at its own index.
pub proof fn typography_curls_double_quotes(s: Seq<char>, ignore: Seq<(int, int)>, i: int)
    requires
        0 <= i < s.len(),
        s[i] == '"',
        !in_ranges(ignore, byte_offset(s, i) as int),
        forall|p: int| 0 <= p < i ==> #[trigger] s[p] != '.',
    ensures
        i < spec_typography(s, ignore).len(),
        spec_typography(s, ignore)[i] == if i == 0 || is_ws(s[i - 1]) || s[i - 1] == '(' || s[i - 1]
            == '[' || s[i - 1] == '{' {
            '“'
        } else {
            '”'
        },
{
    lemma_curl_prefix(s, ignore, i);
    let prev: Option<char> = if i == 0 {
        None
    } else {
        Some(s[i - 1])
    };
    let rest = curl_from(s, ignore, i, prev);
    assert(!spaced_ellipsis_at(s, i));
    assert(rest.len() > 0);
    let out = spec_typography(s, ignore);
    assert(out[i] == out.skip(i)[0]);
}

/// A straight single quote outside code becomes an opening quote `‘` where
/// a quote opens (at the start, or after whitespace or `(` `[` `{`) and a
/// letter or digit follows, and an apostrophe `’` anywhere else. Read before
/// any dot, it is written at its own index.
pub proof fn typography_curls_single_quotes(s: Seq<char>, ignore: Seq<(int, int)>, i: int)
    requires
        0 <= i < s.len(),
        s[i] == '\'',
        !in_ranges(ignore, byte_offset(s, i) as int),
        forall|p: int| 0 <= p < i ==> #[trigger] s[p] != '.',
    ensures
        i < spec_typography(s, ignore).len(),
        spec_typography(s, ignore)[i] == if (i == 0 || is_ws(s[i - 1]) || s[i - 1] == '(' || s[i
            - 1] == '[' || s[i - 1] == '{') && i + 1 < s.len() && char_is_alphanumeric(s[i + 1]) {
            '‘'
        } else {
            '’'
        },
{
    lemma_curl_prefix(s, ignore, i);
    let prev: Option<char> = if i == 0 {
        None
    } else {
        Some(s[i - 1])
    };
    let rest = curl_from(s, ignore, i, prev);
    assert(!spaced_ellipsis_at(s, i));
    assert(rest.len() > 0);
    let out = spec_typography(s, ignore);
    assert(out[i] == out.skip(i)[0]);
}

} // verus!
