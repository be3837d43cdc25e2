//! **line-endings** — normalize CRLF and lone CR to LF so later rules can
//! assume `\n`.

use crate::engine::ignore::IgnoreRanges;
use crate::engine::Rule;
use crate::text::{chars_of, string_of};
use vstd::prelude::*;

verus! {

pub struct LineEndings;

/// `s` from index `i` on with every `\r\n` and every other `\r` turned into `\n`.
pub open spec fn unify_line_endings_from(s: Seq<char>, i: int) -> Seq<char>
    decreases s.len() - i,
{
    if i < 0 || i >= s.len() {
        seq![]
    } else if s[i] == '\r' {
        if i + 1 < s.len() && s[i + 1] == '\n' {
            seq!['\n'] + unify_line_endings_from(s, i + 2)
        } else {
            seq!['\n'] + unify_line_endings_from(s, i + 1)
        }
    } else {
        seq![s[i]] + unify_line_endings_from(s, i + 1)
    }
}

pub open spec fn unify_line_endings(s: Seq<char>) -> Seq<char> {
    unify_line_endings_from(s, 0)
}

impl Rule for LineEndings {
    open spec fn spec_name(&self) -> Seq<char> {
        "line-endings"@
    }

    open spec fn spec_apply(&self, text: Seq<char>, ignore: Seq<(int, int)>) -> Seq<char> {
        unify_line_endings(text)
    }

    fn name(&self) -> (name: &'static str) {
        "line-endings"
    }

    fn apply(&self, text: &str, _ignore: &IgnoreRanges) -> (out: String) {
        let chars = chars_of(text);
        let mut out: Vec<char> = Vec::new();
        let mut i: usize = 0;
        while i < chars.len()
            invariant
                i <= chars@.len(),
                unify_line_endings(chars@) == out@ + unify_line_endings_from(chars@, i as int),
            decreases chars.len() - i,
        {
            if chars[i] == '\r' {
                out.push('\n');
                if i + 1 < chars.len() && chars[i + 1] == '\n' {
                    i = i + 2;
                } else {
                    i = i + 1;
                }
            } else {
                out.push(chars[i]);
                i = i + 1;
            }
        }
        string_of(&out)
    }
}

proof fn lemma_unify_has_no_cr(s: Seq<char>, i: int)
    requires
        0 <= i,
    ensures
        forall|k: int|
            0 <= k < unify_line_endings_from(s, i).len() ==> #[trigger] unify_line_endings_from(
                s,
                i,
            )[k] != '\r',
    decreases s.len() - i,
{
    if i < s.len() {
        let next = if s[i] == '\r' && i + 1 < s.len() && s[i + 1] == '\n' {
            i + 2
        } else {
            i + 1
        };
        lemma_unify_has_no_cr(s, next);
        let head = if s[i] == '\r' {
            '\n'
        } else {
            s[i]
        };
        let rest = unify_line_endings_from(s, next);
        assert(unify_line_endings_from(s, i) == seq![head] + rest);
        assert forall|k: int| 0 <= k < unify_line_endings_from(s, i).len() implies #[trigger] unify_line_endings_from(s, i)[k] != '\r' by {
            if k > 0 {
                assert(unify_line_endings_from(s, i)[k] == rest[k - 1]);
            }
        }
    }
}

proof fn lemma_unify_without_cr(s: Seq<char>, i: int)
    requires
        0 <= i <= s.len(),
        forall|k: int| 0 <= k < s.len() ==> s[k] != '\r',
    ensures
        unify_line_endings_from(s, i) == s.subrange(i, s.len() as int),
    decreases s.len() - i,
{
    if i < s.len() {
        lemma_unify_without_cr(s, i + 1);
        assert(s.subrange(i, s.len() as int) =~= seq![s[i]] + s.subrange(i + 1, s.len() as int));
    } else {
        assert(s.subrange(i, s.len() as int) =~= Seq::<char>::empty());
    }
}

/// Line endings are idempotent: once normalized, a text stays as it is.
pub proof fn line_endings_idempotent(text: Seq<char>)
    ensures
        unify_line_endings(unify_line_endings(text)) == unify_line_endings(text),
{
    let once = unify_line_endings(text);
    lemma_unify_has_no_cr(text, 0);
    lemma_unify_without_cr(once, 0);
    assert(once.subrange(0, once.len() as int) =~= once);
}

/// After normalizing, no carriage return is left.
pub proof fn line_endings_leave_no_cr(text: Seq<char>)
    ensures
        forall|k: int|
            0 <= k < unify_line_endings(text).len() ==> #[trigger] unify_line_endings(text)[k]
                != '\r',
{
    lemma_unify_has_no_cr(text, 0);
}

} // verus!
