//! **final-newline** — a note ends with exactly one trailing newline.

use crate::engine::ignore::IgnoreRanges;
use crate::engine::Rule;
use crate::text::{chars_of, string_of};
use vstd::prelude::*;

verus! {

/// Ensures a single trailing newline.
pub struct FinalNewline;

/// The end of `s[..j]` once trailing `\n` and `\r` characters are removed.
pub open spec fn strip_line_breaks(s: Seq<char>, j: int) -> int
    decreases j,
{
    if 0 < j <= s.len() && (s[j - 1] == '\n' || s[j - 1] == '\r') {
        strip_line_breaks(s, j - 1)
    } else {
        j
    }
}

/// An empty note stays empty; any other ends with exactly one `\n`, the
/// trailing run of `\n`/`\r` replaced.
pub open spec fn spec_final_newline(s: Seq<char>) -> Seq<char> {
    if s.len() == 0 {
        seq![]
    } else {
        s.take(strip_line_breaks(s, s.len() as int)).push('\n')
    }
}

proof fn lemma_strip_line_breaks(s: Seq<char>, j: int)
    requires
        0 <= j <= s.len(),
    ensures
        0 <= strip_line_breaks(s, j) <= j,
        strip_line_breaks(s, j) > 0 ==> s[strip_line_breaks(s, j) - 1] != '\n' && s[strip_line_breaks(s, j) - 1] != '\r',
    decreases j,
{
    if 0 < j && (s[j - 1] == '\n' || s[j - 1] == '\r') {
        lemma_strip_line_breaks(s, j - 1);
    }
}

/// The final newline is idempotent.
pub proof fn final_newline_idempotent(s: Seq<char>)
    ensures
        spec_final_newline(spec_final_newline(s)) == spec_final_newline(s),
{
    if s.len() > 0 {
        let once = spec_final_newline(s);
        let k = strip_line_breaks(s, s.len() as int);
        lemma_strip_line_breaks(s, s.len() as int);
        assert(once[once.len() - 1] == '\n');
        assert(strip_line_breaks(once, once.len() as int) == strip_line_breaks(once, once.len() - 1));
        assert(strip_line_breaks(once, once.len() - 1) == k);
        assert(once.take(k) =~= s.take(k));
        assert(spec_final_newline(once) =~= once);
    }
}

impl Rule for FinalNewline {
    open spec fn spec_name(&self) -> Seq<char> {
        "final-newline"@
    }

    open spec fn spec_apply(&self, text: Seq<char>, ignore: Seq<(int, int)>) -> Seq<char> {
        spec_final_newline(text)
    }

    fn name(&self) -> (name: &'static str) {
        "final-newline"
    }

    fn apply(&self, text: &str, _ignore: &IgnoreRanges) -> (out: String) {
        let chars = chars_of(text);
        if chars.len() == 0 {
            return String::new();
        }
        let mut end = chars.len();
        while end > 0 && (chars[end - 1] == '\n' || chars[end - 1] == '\r')
            invariant
                end <= chars@.len(),
                strip_line_breaks(chars@, chars@.len() as int) == strip_line_breaks(chars@, end as int),
            decreases end,
        {
            end = end - 1;
        }
        let mut out = crate::scan::subvec(&chars, 0, end);
        out.push('\n');
        assert(out@ =~= chars@.take(end as int).push('\n'));
        string_of(&out)
    }
}

/// A non-empty note comes out ending in exactly one newline: a `\n` last,
/// with no `\n` or `\r` before it.
pub proof fn final_newline_exactly_one(s: Seq<char>)
    requires
        s.len() > 0,
    ensures
        ({
            let out = spec_final_newline(s);
            &&& out.len() > 0
            &&& out.last() == '\n'
            &&& out.len() >= 2 ==> out[out.len() - 2] != '\n' && out[out.len() - 2] != '\r'
        }),
{
    lemma_strip_line_breaks(s, s.len() as int);
}

} // verus!
