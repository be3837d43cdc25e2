//! Line structure of texts built line by line.
//!
//! A text is a sequence of pieces — a line's content and whether a `\n`
//! follows it. Rules that rewrite a note line by line produce a text from the
//! rewritten pieces; the lemmas here say which lines that text has, which is
//! what a second pass over it sees.

use crate::text::{ends_line, line_bounds, line_text, scan_lines};
use vstd::prelude::*;

verus! {

/// Whether `c` holds no `\n`.
pub open spec fn no_newline(c: Seq<char>) -> bool {
    forall|k: int| 0 <= k < c.len() ==> c[k] != '\n'
}

/// The lines of `s` as pieces: content and whether a `\n` follows.
pub open spec fn line_pieces(s: Seq<char>) -> Seq<(Seq<char>, bool)> {
    line_bounds(s).map_values(|b: (int, int)| (line_text(s, b), ends_line(s, b)))
}

/// The text made of pieces, each followed by `\n` where its flag says so.
pub open spec fn render_pieces(p: Seq<(Seq<char>, bool)>) -> Seq<char>
    decreases p.len(),
{
    if p.len() == 0 {
        seq![]
    } else {
        render_pieces(p.drop_last()) + p.last().0 + if p.last().1 {
            seq!['\n']
        } else {
            seq![]
        }
    }
}

/// Pieces as a text's lines come: no `\n` inside, and every piece but the
/// last followed by one.
pub open spec fn pieces_wf(p: Seq<(Seq<char>, bool)>) -> bool {
    forall|k: int|
        0 <= k < p.len() ==> no_newline(#[trigger] p[k].0) && (k < p.len() - 1 ==> p[k].1)
}

/// The pieces a rendered text reads back as: a last empty piece with no `\n`
/// leaves no trace.
pub open spec fn normalize(p: Seq<(Seq<char>, bool)>) -> Seq<(Seq<char>, bool)> {
    if p.len() > 0 && !p.last().1 && p.last().0.len() == 0 {
        p.drop_last()
    } else {
        p
    }
}

pub open spec fn shift(bs: Seq<(int, int)>, d: int) -> Seq<(int, int)> {
    bs.map_values(|b: (int, int)| (b.0 + d, b.1 + d))
}

pub proof fn lemma_scan_shape(s: Seq<char>)
    ensures
        0 <= scan_lines(s).1 <= s.len(),
        forall|j: int| scan_lines(s).1 <= j < s.len() ==> s[j] != '\n',
        forall|k: int|
            0 <= k < scan_lines(s).0.len() ==> {
                let b = #[trigger] scan_lines(s).0[k];
                &&& 0 <= b.0 <= b.1 < scan_lines(s).1
                &&& s[b.1] == '\n'
                &&& forall|j: int| b.0 <= j < b.1 ==> s[j] != '\n'
            },
        forall|k: int, m: int|
            0 <= k < m < scan_lines(s).0.len() ==> scan_lines(s).0[k].1 < scan_lines(s).0[m].0,
    decreases s.len(),
{
    if s.len() > 0 {
        lemma_scan_shape(s.drop_last());
        let (done, open) = scan_lines(s.drop_last());
        assert forall|j: int| 0 <= j < s.len() - 1 implies s.drop_last()[j] == s[j] by {}
        if s.last() == '\n' {
            let d2 = done.push((open, s.len() - 1));
            assert forall|k: int| 0 <= k < d2.len() implies {
                let b = #[trigger] d2[k];
                &&& 0 <= b.0 <= b.1 < s.len()
                &&& s[b.1] == '\n'
                &&& forall|j: int| b.0 <= j < b.1 ==> s[j] != '\n'
            } by {
                if k < done.len() {
                    let b = done[k];
                    assert forall|j: int| b.0 <= j < b.1 implies s[j] != '\n' by {
                        assert(s.drop_last()[j] != '\n');
                    }
                } else {
                    assert forall|j: int| open <= j < s.len() - 1 implies s[j] != '\n' by {
                        assert(s.drop_last()[j] != '\n');
                    }
                }
            }
        } else {
            assert forall|k: int| 0 <= k < done.len() implies {
                let b = #[trigger] done[k];
                &&& 0 <= b.0 <= b.1 < open
                &&& s[b.1] == '\n'
                &&& forall|j: int| b.0 <= j < b.1 ==> s[j] != '\n'
            } by {
                let b = done[k];
                assert(s.drop_last()[b.1] == '\n');
                assert forall|j: int| b.0 <= j < b.1 implies s[j] != '\n' by {
                    assert(s.drop_last()[j] != '\n');
                }
            }
            assert forall|j: int| open <= j < s.len() implies s[j] != '\n' by {
                if j < s.len() - 1 {
                    assert(s.drop_last()[j] != '\n');
                }
            }
        }
    }
}

/// Every line's content has no `\n`, and every line but the last ends with one.
pub proof fn lemma_line_pieces_wf(s: Seq<char>)
    ensures
        pieces_wf(line_pieces(s)),
        forall|k: int|
            0 <= k < line_bounds(s).len() ==> 0 <= #[trigger] line_bounds(s)[k].0 <= line_bounds(
                s,
            )[k].1 <= s.len(),
{
    lemma_scan_shape(s);
    let (done, open) = scan_lines(s);
    let p = line_pieces(s);
    assert forall|k: int| 0 <= k < p.len() implies no_newline(#[trigger] p[k].0) && (k < p.len()
        - 1 ==> p[k].1) by {
        let b = line_bounds(s)[k];
        if k < done.len() {
            assert(b == done[k]);
            assert forall|j: int| 0 <= j < line_text(s, b).len() implies line_text(s, b)[j]
                != '\n' by {
                assert(line_text(s, b)[j] == s[b.0 + j]);
            }
        } else {
            assert(b == (open, s.len() as int));
            assert forall|j: int| 0 <= j < line_text(s, b).len() implies line_text(s, b)[j]
                != '\n' by {
                assert(line_text(s, b)[j] == s[b.0 + j]);
            }
        }
    }
}

pub proof fn lemma_scan_no_newline(c: Seq<char>)
    requires
        no_newline(c),
    ensures
        scan_lines(c) == (Seq::<(int, int)>::empty(), 0int),
    decreases c.len(),
{
    if c.len() > 0 {
        assert(no_newline(c.drop_last()));
        lemma_scan_no_newline(c.drop_last());
    }
}

/// Scanning a text that continues another, which ended at a line boundary.
pub proof fn lemma_scan_concat(a: Seq<char>, b: Seq<char>)
    requires
        scan_lines(a).1 == a.len(),
    ensures
        scan_lines(a + b) == (scan_lines(a).0 + shift(scan_lines(b).0, a.len() as int), a.len()
            + scan_lines(b).1),
    decreases b.len(),
{
    if b.len() == 0 {
        assert(a + b =~= a);
        assert(shift(scan_lines(b).0, a.len() as int) =~= Seq::<(int, int)>::empty());
        assert(scan_lines(a).0 + Seq::<(int, int)>::empty() =~= scan_lines(a).0);
    } else {
        assert((a + b).drop_last() =~= a + b.drop_last());
        lemma_scan_concat(a, b.drop_last());
        let (db, ob) = scan_lines(b.drop_last());
        if b.last() == '\n' {
            assert(shift(db.push((ob, b.len() - 1)), a.len() as int) =~= shift(
                db,
                a.len() as int,
            ).push((a.len() + ob, a.len() + b.len() - 1)));
            assert(scan_lines(a).0 + shift(db, a.len() as int).push(
                (a.len() + ob, a.len() + b.len() - 1),
            ) =~= (scan_lines(a).0 + shift(db, a.len() as int)).push(
                (a.len() + ob, a.len() + b.len() - 1),
            ));
        }
    }
}

/// A rendered text reads back as its pieces.
#[verifier::spinoff_prover]
#[verifier::rlimit(30)]
pub proof fn lemma_line_pieces_of_render(p: Seq<(Seq<char>, bool)>)
    requires
        pieces_wf(p),
    ensures
        line_pieces(render_pieces(p)) == normalize(p),
        (p.len() == 0 || p.last().1) ==> scan_lines(render_pieces(p)).1 == render_pieces(p).len()
            && line_bounds(render_pieces(p)) == scan_lines(render_pieces(p)).0,
    decreases p.len(),
{
    if p.len() == 0 {
        let e: Seq<char> = seq![];
        assert(render_pieces(p) =~= e);
        assert(line_pieces(e) =~= Seq::<(Seq<char>, bool)>::empty());
    } else {
        let q = p.drop_last();
        assert forall|k: int| 0 <= k < q.len() implies no_newline(#[trigger] q[k].0) && (k < q.len()
            - 1 ==> q[k].1) by {
            assert(q[k] == p[k]);
        }
        lemma_line_pieces_of_render(q);
        let a = render_pieces(q);
        let (c, brk) = p.last();
        assert(no_newline(c)) by {
            assert(p[p.len() - 1] == p.last());
        }
        if q.len() > 0 {
            assert(q.last() == p[p.len() - 2]);
        }
        assert(normalize(q) == q);
        let b = c + if brk {
            seq!['\n']
        } else {
            seq![]
        };
        assert(render_pieces(p) == a + b);
        lemma_scan_no_newline(c);
        if brk {
            assert(b.drop_last() =~= c);
        } else {
            assert(b =~= c);
        }
        lemma_scan_concat(a, b);
        lemma_line_pieces_wf(a);
        let t = a + b;
        let la = line_bounds(a);
        assert(la == scan_lines(a).0);
        assert forall|k: int| 0 <= k < la.len() implies line_text(t, #[trigger] la[k]) == line_text(
            a,
            la[k],
        ) && ends_line(t, la[k]) == ends_line(a, la[k]) by {
            let bk = la[k];
            assert(0 <= bk.0 <= bk.1 <= a.len());
            assert(line_text(t, bk) =~= line_text(a, bk));
            assert(line_pieces(a)[k] == q[k]);
            assert(q[k] == p[k]);
            assert(no_newline(p[k].0));
            assert(q[k].1);
        }
        if brk {
            assert(line_bounds(t) =~= la.push((a.len() as int, (a.len() + c.len()) as int)));
            assert(line_text(t, (a.len() as int, (a.len() + c.len()) as int)) =~= c);
            assert(line_pieces(t) =~= line_pieces(a).push((c, true)));
            assert(line_pieces(a) == q);
            assert(normalize(p) == p);
            assert(q.push((c, true)) =~= p);
        } else {
            if c.len() > 0 {
                assert(line_bounds(t) =~= la.push((a.len() as int, (a.len() + c.len()) as int)));
                assert(line_text(t, (a.len() as int, (a.len() + c.len()) as int)) =~= c);
                assert(line_pieces(t) =~= line_pieces(a).push((c, false)));
                assert(q.push((c, false)) =~= p);
            } else {
                assert(t =~= a);
                assert(line_pieces(t) =~= line_pieces(a));
            }
        }
    }
}

/// Dropping a trailing empty piece with no `\n` leaves the text as it is.
pub proof fn lemma_render_normalize(p: Seq<(Seq<char>, bool)>)
    ensures
        render_pieces(normalize(p)) == render_pieces(p),
{
    if p.len() > 0 && !p.last().1 && p.last().0.len() == 0 {
        assert(render_pieces(p) =~= render_pieces(p.drop_last()));
    }
}

/// Each piece's content rewritten by `g`, its line break kept.
pub open spec fn map_pieces(
    p: Seq<(Seq<char>, bool)>,
    g: spec_fn(Seq<char>) -> Seq<char>,
) -> Seq<(Seq<char>, bool)> {
    p.map_values(|x: (Seq<char>, bool)| (g(x.0), x.1))
}

/// A text with each line's content rewritten by `g`.
pub open spec fn map_lines(s: Seq<char>, g: spec_fn(Seq<char>) -> Seq<char>) -> Seq<char> {
    render_pieces(map_pieces(line_pieces(s), g))
}

/// Rewriting the first `n + 1` lines is rewriting the first `n` and then line `n`.
pub proof fn lemma_map_pieces_take(p: Seq<(Seq<char>, bool)>, g: spec_fn(Seq<char>) -> Seq<char>, n: int)
    requires
        0 <= n < p.len(),
    ensures
        render_pieces(map_pieces(p.take(n + 1), g)) == render_pieces(map_pieces(p.take(n), g)) + g(
            p[n].0,
        ) + if p[n].1 {
            seq!['\n']
        } else {
            seq![]
        },
{
    let m = map_pieces(p.take(n + 1), g);
    assert(m.drop_last() =~= map_pieces(p.take(n), g));
    assert(m.last() == (g(p[n].0), p[n].1));
}

/// A line rewrite that keeps the text's lines whole, leaves an empty line
/// empty and changes none of the lines it produced on a second application
/// is idempotent on the text.
pub proof fn lemma_map_lines_idempotent(s: Seq<char>, g: spec_fn(Seq<char>) -> Seq<char>)
    requires
        forall|k: int|
            0 <= k < line_pieces(s).len() ==> no_newline(#[trigger] g(line_pieces(s)[k].0)) && g(
                g(line_pieces(s)[k].0),
            ) == g(line_pieces(s)[k].0),
        g(seq![]) == Seq::<char>::empty(),
    ensures
        map_lines(map_lines(s, g), g) == map_lines(s, g),
{
    let p = line_pieces(s);
    lemma_line_pieces_wf(s);
    let q = map_pieces(p, g);
    assert forall|k: int| 0 <= k < q.len() implies no_newline(#[trigger] q[k].0) && (k < q.len()
        - 1 ==> q[k].1) by {
        assert(no_newline(p[k].0));
        assert(no_newline(g(p[k].0)));
    }
    lemma_line_pieces_of_render(q);
    let t = render_pieces(q);
    assert(line_pieces(t) == normalize(q));
    let r = normalize(q);
    assert(map_pieces(r, g) =~= r) by {
        assert forall|k: int| 0 <= k < r.len() implies #[trigger] map_pieces(r, g)[k] == r[k] by {
            assert(r[k] == q[k]);
            assert(no_newline(g(p[k].0)));
            assert(g(g(p[k].0)) == g(p[k].0));
        }
    }
    lemma_render_normalize(q);
}

/// Each piece's content rewritten by `g`, or dropped with its line break
/// where `g` gives nothing.
pub open spec fn filter_pieces(
    p: Seq<(Seq<char>, bool)>,
    g: spec_fn(Seq<char>) -> Option<Seq<char>>,
) -> Seq<(Seq<char>, bool)>
    decreases p.len(),
{
    if p.len() == 0 {
        seq![]
    } else {
        let rest = filter_pieces(p.drop_last(), g);
        match g(p.last().0) {
            Some(r) => rest.push((r, p.last().1)),
            None => rest,
        }
    }
}

/// A text with each line rewritten by `g` or dropped.
pub open spec fn filter_lines(s: Seq<char>, g: spec_fn(Seq<char>) -> Option<Seq<char>>) -> Seq<
    char,
> {
    render_pieces(filter_pieces(line_pieces(s), g))
}

/// Every kept piece is what `g` made of some piece, with that piece's break.
pub proof fn lemma_filter_pieces_origin(
    p: Seq<(Seq<char>, bool)>,
    g: spec_fn(Seq<char>) -> Option<Seq<char>>,
)
    ensures
        filter_pieces(p, g).len() <= p.len(),
        forall|k: int|
            0 <= k < filter_pieces(p, g).len() ==> exists|j: int|
                0 <= j < p.len() && g(p[j].0) == Some(#[trigger] filter_pieces(p, g)[k].0)
                    && filter_pieces(p, g)[k].1 == p[j].1 && (j < p.len() - 1 || k
                    == filter_pieces(p, g).len() - 1),
    decreases p.len(),
{
    if p.len() > 0 {
        let q = p.drop_last();
        lemma_filter_pieces_origin(q, g);
        let f = filter_pieces(p, g);
        let fq = filter_pieces(q, g);
        assert forall|k: int| 0 <= k < f.len() implies exists|j: int|
            0 <= j < p.len() && g(p[j].0) == Some(#[trigger] f[k].0) && f[k].1 == p[j].1 && (j
                < p.len() - 1 || k == f.len() - 1) by {
            if k < fq.len() {
                let j = choose|j: int|
                    0 <= j < q.len() && g(q[j].0) == Some(#[trigger] fq[k].0) && fq[k].1 == q[j].1
                        && (j < q.len() - 1 || k == fq.len() - 1);
                assert(f[k] == fq[k]);
                assert(p[j] == q[j]);
            } else {
                assert(g(p[p.len() - 1].0) == Some(f[k].0));
            }
        }
    }
}

/// Pieces every one of which `g` keeps as it is come through unchanged.
pub proof fn lemma_filter_pieces_fixed(
    p: Seq<(Seq<char>, bool)>,
    g: spec_fn(Seq<char>) -> Option<Seq<char>>,
)
    requires
        forall|k: int| 0 <= k < p.len() ==> g(#[trigger] p[k].0) == Some(p[k].0),
    ensures
        filter_pieces(p, g) == p,
    decreases p.len(),
{
    if p.len() > 0 {
        let q = p.drop_last();
        assert forall|k: int| 0 <= k < q.len() implies g(#[trigger] q[k].0) == Some(q[k].0) by {
            assert(q[k] == p[k]);
        }
        lemma_filter_pieces_fixed(q, g);
        assert(g(p[p.len() - 1].0) == Some(p[p.len() - 1].0));
        assert(q.push(p.last()) =~= p);
    } else {
        assert(p =~= Seq::<(Seq<char>, bool)>::empty());
    }
}

/// Rewriting the first `n + 1` lines is rewriting the first `n` and then line
/// `n`, or dropping it.
pub proof fn lemma_filter_pieces_take(
    p: Seq<(Seq<char>, bool)>,
    g: spec_fn(Seq<char>) -> Option<Seq<char>>,
    n: int,
)
    requires
        0 <= n < p.len(),
    ensures
        render_pieces(filter_pieces(p.take(n + 1), g)) == render_pieces(filter_pieces(p.take(n), g))
            + match g(p[n].0) {
            Some(r) => r + if p[n].1 {
                seq!['\n']
            } else {
                seq![]
            },
            None => seq![],
        },
{
    assert(p.take(n + 1).drop_last() =~= p.take(n));
    assert(p.take(n + 1).last() == p[n]);
    let f = filter_pieces(p.take(n), g);
    match g(p[n].0) {
        Some(r) => {
            assert(f.push((r, p[n].1)).drop_last() =~= f);
        },
        None => {
            assert(render_pieces(f) + Seq::<char>::empty() =~= render_pieces(f));
        },
    }
}

/// A line rewrite that may drop lines, keeps the lines it produces whole and
/// unchanged on a second application, and keeps an empty line, is idempotent
/// on the text.
pub proof fn lemma_filter_lines_idempotent(
    s: Seq<char>,
    g: spec_fn(Seq<char>) -> Option<Seq<char>>,
)
    requires
        forall|k: int|
            0 <= k < line_pieces(s).len() ==> match #[trigger] g(line_pieces(s)[k].0) {
                Some(r) => no_newline(r) && g(r) == Some(r),
                None => true,
            },
        g(seq![]) == Some(Seq::<char>::empty()),
    ensures
        filter_lines(filter_lines(s, g), g) == filter_lines(s, g),
{
    let p = line_pieces(s);
    lemma_line_pieces_wf(s);
    let q = filter_pieces(p, g);
    lemma_filter_pieces_origin(p, g);
    assert forall|k: int| 0 <= k < q.len() implies no_newline(#[trigger] q[k].0) && (k < q.len()
        - 1 ==> q[k].1) && g(q[k].0) == Some(q[k].0) by {
        let j = choose|j: int|
            0 <= j < p.len() && g(p[j].0) == Some(#[trigger] q[k].0) && q[k].1 == p[j].1 && (j
                < p.len() - 1 || k == q.len() - 1);
        assert(no_newline(p[j].0));
        match g(p[j].0) {
            Some(r) => {},
            None => {},
        }
    }
    lemma_line_pieces_of_render(q);
    let t = render_pieces(q);
    assert(line_pieces(t) == normalize(q));
    let r = normalize(q);
    assert forall|k: int| 0 <= k < r.len() implies g(#[trigger] r[k].0) == Some(r[k].0) by {
        assert(r[k] == q[k]);
    }
    lemma_filter_pieces_fixed(r, g);
    lemma_render_normalize(q);
}

/// A text's last line is never an empty one without a line break.
pub proof fn lemma_line_pieces_last(s: Seq<char>)
    ensures
        line_pieces(s).len() == line_bounds(s).len(),
        normalize(line_pieces(s)) == line_pieces(s),
{
    lemma_scan_shape(s);
    let (done, open) = scan_lines(s);
    let p = line_pieces(s);
    if p.len() > 0 {
        let b = line_bounds(s)[p.len() - 1];
        if open < s.len() {
            assert(b == (open, s.len() as int));
            assert(line_text(s, b).len() > 0);
        } else {
            assert(b == done[done.len() - 1]);
            assert(ends_line(s, b));
        }
    }
}

/// Lines joined with line breaks, and a final break or not, as pieces.
pub open spec fn joined_pieces(lines: Seq<Seq<char>>, brk: bool) -> Seq<(Seq<char>, bool)> {
    Seq::new(lines.len(), |k: int| (lines[k], k < lines.len() - 1 || brk))
}

pub proof fn lemma_join_lines(lines: Seq<Seq<char>>, brk: bool)
    requires
        lines.len() > 0,
        forall|k: int| 0 <= k < lines.len() ==> no_newline(#[trigger] lines[k]),
    ensures
        crate::scan::join(lines, seq!['\n']) + (if brk {
            seq!['\n']
        } else {
            Seq::<char>::empty()
        }) == render_pieces(joined_pieces(lines, brk)),
        pieces_wf(joined_pieces(lines, brk)),
    decreases lines.len(),
{
    let p = joined_pieces(lines, brk);
    let nl: Seq<char> = if brk {
        seq!['\n']
    } else {
        Seq::<char>::empty()
    };
    if lines.len() == 1 {
        assert(p.drop_last() =~= Seq::<(Seq<char>, bool)>::empty());
        assert(render_pieces(Seq::<(Seq<char>, bool)>::empty()) == Seq::<char>::empty());
        assert(p.last() == (lines[0], brk));
        assert(crate::scan::join(lines, seq!['\n']) == lines[0]);
        assert(render_pieces(p) =~= lines[0] + nl);
    } else {
        let prev = lines.drop_last();
        assert forall|k: int| 0 <= k < prev.len() implies no_newline(#[trigger] prev[k]) by {
            assert(prev[k] == lines[k]);
        }
        lemma_join_lines(prev, true);
        assert(p.drop_last() =~= joined_pieces(prev, true));
        assert(p.last() == (lines.last(), brk));
        assert(crate::scan::join(lines, seq!['\n']) == crate::scan::join(prev, seq!['\n'])
            + seq!['\n'] + lines.last());
        assert(render_pieces(p) =~= crate::scan::join(lines, seq!['\n']) + nl);
    }
    assert forall|k: int| 0 <= k < p.len() implies no_newline(#[trigger] p[k].0) && (k < p.len()
        - 1 ==> p[k].1) by {
        assert(p[k].0 == lines[k]);
    }
}

/// The line contents of the first `n` lines.
pub open spec fn contents(s: Seq<char>, n: int) -> Seq<Seq<char>> {
    Seq::new(n as nat, |k: int| line_text(s, line_bounds(s)[k]))
}

/// The last character of lines joined with line breaks is the last line's.
pub proof fn lemma_join_last(lines: Seq<Seq<char>>)
    requires
        lines.len() > 0,
        lines.last().len() > 0,
    ensures
        crate::scan::join(lines, seq!['\n']).len() > 0,
        crate::scan::join(lines, seq!['\n']).last() == lines.last().last(),
{
}

/// A piece of a text without line breaks has none either.
pub proof fn lemma_no_newline_sub(c: Seq<char>, a: int, b: int)
    requires
        no_newline(c),
        0 <= a <= b <= c.len(),
    ensures
        no_newline(c.subrange(a, b)),
{
    assert forall|k: int| 0 <= k < b - a implies c.subrange(a, b)[k] != '\n' by {
        assert(c.subrange(a, b)[k] == c[a + k]);
    }
}

/// Two texts without line breaks put together have none.
pub proof fn lemma_no_newline_concat(a: Seq<char>, b: Seq<char>)
    requires
        no_newline(a),
        no_newline(b),
    ensures
        no_newline(a + b),
{
    assert forall|k: int| 0 <= k < (a + b).len() implies (a + b)[k] != '\n' by {
        if k < a.len() {
            assert((a + b)[k] == a[k]);
        } else {
            assert((a + b)[k] == b[k - a.len()]);
        }
    }
}

/// Trimming a text without line breaks leaves one without.
pub proof fn lemma_no_newline_trim(c: Seq<char>)
    requires
        no_newline(c),
    ensures
        no_newline(crate::scan::trim(c)),
        no_newline(crate::scan::trim_end(c)),
{
    let a = crate::scan::skip_ws(c, 0);
    crate::scan::lemma_skip_ws_bounds(c, 0);
    let ts = c.subrange(a, c.len() as int);
    lemma_no_newline_sub(c, a, c.len() as int);
    crate::scan::lemma_back_ws_bounds(ts, ts.len() as int);
    lemma_no_newline_sub(ts, 0, crate::scan::back_ws(ts, ts.len() as int));
    crate::scan::lemma_back_ws_bounds(c, c.len() as int);
    lemma_no_newline_sub(c, 0, crate::scan::back_ws(c, c.len() as int));
}

/// Parts without line breaks joined by a separator without one.
pub proof fn lemma_join_one_line(parts: Seq<Seq<char>>, sep: Seq<char>)
    requires
        no_newline(sep),
        forall|k: int| 0 <= k < parts.len() ==> no_newline(#[trigger] parts[k]),
    ensures
        no_newline(crate::scan::join(parts, sep)),
    decreases parts.len(),
{
    if parts.len() > 1 {
        let prev = parts.drop_last();
        assert forall|k: int| 0 <= k < prev.len() implies no_newline(#[trigger] prev[k]) by {
            assert(prev[k] == parts[k]);
        }
        lemma_join_one_line(prev, sep);
        assert(no_newline(parts[parts.len() - 1]));
        lemma_no_newline_concat(crate::scan::join(prev, sep), sep);
        lemma_no_newline_concat(crate::scan::join(prev, sep) + sep, parts.last());
    } else if parts.len() == 1 {
        assert(no_newline(parts[0]));
    }
}

/// A text has no lines only when it is empty, and its last line is empty
/// only when a line break follows it.
pub proof fn lemma_last_line(s: Seq<char>)
    ensures
        line_bounds(s).len() == 0 ==> s.len() == 0,
        line_bounds(s).len() > 0 && line_text(s, line_bounds(s).last()).len() == 0
            ==> crate::scan::final_break(s) == seq!['\n'],
{
    if s.len() > 0 {
        lemma_scan_shape(s.drop_last());
        let (d0, o0) = scan_lines(s.drop_last());
        if s.last() != '\n' {
            assert(scan_lines(s) == (d0, o0));
            assert(o0 < s.len());
            assert(line_bounds(s).last() == (o0, s.len() as int));
        }
    }
}

proof fn lemma_scan_count(s: Seq<char>)
    ensures
        scan_lines(s).0.len() + (if scan_lines(s).1 < s.len() {
            1int
        } else {
            0int
        }) <= s.len(),
    decreases s.len(),
{
    if s.len() > 0 {
        lemma_scan_count(s.drop_last());
        lemma_scan_shape(s.drop_last());
    }
}

/// A text has no more lines than characters.
pub proof fn lemma_line_count(s: Seq<char>)
    ensures
        line_bounds(s).len() <= s.len(),
{
    lemma_scan_count(s);
}

/// A text rewritten line by line: line `k`'s content replaced by `f(k)`,
/// its line break kept.
pub open spec fn rewritten_lines(s: Seq<char>, f: spec_fn(int) -> Seq<char>, n: int) -> Seq<char>
    decreases n,
{
    if n <= 0 {
        seq![]
    } else {
        rewritten_lines(s, f, n - 1) + f(n - 1) + crate::text::line_break(s, line_bounds(s)[n - 1])
    }
}

/// The pieces of a text rewritten line by line.
pub open spec fn rewritten_pieces(s: Seq<char>, f: spec_fn(int) -> Seq<char>, n: int) -> Seq<
    (Seq<char>, bool),
> {
    Seq::new(n as nat, |k: int| (f(k), ends_line(s, line_bounds(s)[k])))
}

proof fn lemma_rewritten_render(s: Seq<char>, f: spec_fn(int) -> Seq<char>, n: int)
    requires
        0 <= n <= line_bounds(s).len(),
    ensures
        rewritten_lines(s, f, n) == render_pieces(rewritten_pieces(s, f, n)),
    decreases n,
{
    if n > 0 {
        lemma_rewritten_render(s, f, n - 1);
        let p = rewritten_pieces(s, f, n);
        assert(p.drop_last() =~= rewritten_pieces(s, f, n - 1));
        assert(p.last() == (f(n - 1), ends_line(s, line_bounds(s)[n - 1])));
    } else {
        assert(rewritten_pieces(s, f, n) =~= Seq::<(Seq<char>, bool)>::empty());
    }
}

/// Every line but the last is followed by a line break.
proof fn lemma_line_breaks(s: Seq<char>, k: int)
    requires
        0 <= k < line_bounds(s).len() - 1,
    ensures
        ends_line(s, line_bounds(s)[k]),
{
    lemma_line_pieces_wf(s);
    assert(no_newline(line_pieces(s)[k].0));
}

/// Rewriting a text line by line into lines without line breaks: a line
/// left as it was, or rewritten to one that is not empty, comes out at the
/// same place.
#[verifier::spinoff_prover]
pub proof fn lemma_rewritten_keeps(s: Seq<char>, f: spec_fn(int) -> Seq<char>)
    requires
        forall|k: int| 0 <= k < line_bounds(s).len() ==> no_newline(#[trigger] f(k)),
    ensures
        ({
            let out = rewritten_lines(s, f, line_bounds(s).len() as int);
            forall|k: int|
                0 <= k < line_bounds(s).len() && (#[trigger] f(k) == line_text(s, line_bounds(s)[k])
                    || f(k).len() > 0) ==> k < line_bounds(out).len() && line_text(
                    out,
                    line_bounds(out)[k],
                ) == f(k)
        }),
{
    let n = line_bounds(s).len() as int;
    lemma_rewritten_render(s, f, n);
    let p = rewritten_pieces(s, f, n);
    let out = rewritten_lines(s, f, n);
    lemma_line_pieces_wf(s);
    lemma_line_pieces_last(s);
    assert forall|k: int| 0 <= k < p.len() implies no_newline(#[trigger] p[k].0) && (k < p.len() - 1
        ==> p[k].1) by {
        assert(p[k].0 == f(k));
        assert(no_newline(f(k)));
        if k < p.len() - 1 {
            lemma_line_breaks(s, k);
        }
    }
    lemma_line_pieces_of_render(p);
    lemma_line_pieces_last(out);
    assert forall|k: int|
        0 <= k < n && (#[trigger] f(k) == line_text(s, line_bounds(s)[k]) || f(k).len() > 0) implies k
        < line_bounds(out).len() && line_text(out, line_bounds(out)[k]) == f(k) by {
        if k == n - 1 && normalize(p) != p {
            assert(line_pieces(s)[k] == (line_text(s, line_bounds(s)[k]), ends_line(s, line_bounds(s)[k])));
            assert(line_pieces(s).last() == line_pieces(s)[k]);
        }
        assert(line_pieces(out)[k] == normalize(p)[k]);
        assert(normalize(p)[k] == p[k]);
    }
}

/// Whether line `k` of `s` starts inside one of the `ignore` ranges: a
/// line of a code block.
pub open spec fn code_line(s: Seq<char>, ignore: Seq<(int, int)>, k: int) -> bool {
    crate::engine::ignore::in_ranges(ignore, crate::text::byte_offset(s, line_bounds(s)[k].0) as int)
}

/// Whether line `k` of `s` comes out of `out` as its line `j`, unchanged.
pub open spec fn keeps_line_at(s: Seq<char>, out: Seq<char>, k: int, j: int) -> bool {
    0 <= j < line_bounds(out).len() && line_text(out, line_bounds(out)[j]) == line_text(
        s,
        line_bounds(s)[k],
    )
}

/// Whether line `k` of `s` comes out of `out` as its line `k`, unchanged.
pub open spec fn keeps_line(s: Seq<char>, out: Seq<char>, k: int) -> bool {
    keeps_line_at(s, out, k, k)
}

/// A text rewritten line by line, some lines dropped with their line break:
/// line `k`'s content replaced by `f(k)`, or dropped where that is `None`.
pub open spec fn filtered_lines(s: Seq<char>, f: spec_fn(int) -> Option<Seq<char>>, n: int) -> Seq<
    char,
>
    decreases n,
{
    if n <= 0 {
        seq![]
    } else {
        filtered_lines(s, f, n - 1) + match f(n - 1) {
            Some(c) => c + crate::text::line_break(s, line_bounds(s)[n - 1]),
            None => seq![],
        }
    }
}

/// The pieces of the first `n` lines that a filtering rewrite keeps.
pub open spec fn kept_pieces(s: Seq<char>, f: spec_fn(int) -> Option<Seq<char>>, n: int) -> Seq<
    (Seq<char>, bool),
>
    decreases n,
{
    if n <= 0 {
        seq![]
    } else {
        match f(n - 1) {
            Some(c) => kept_pieces(s, f, n - 1).push((c, ends_line(s, line_bounds(s)[n - 1]))),
            None => kept_pieces(s, f, n - 1),
        }
    }
}

proof fn lemma_filtered_render(s: Seq<char>, f: spec_fn(int) -> Option<Seq<char>>, n: int)
    ensures
        filtered_lines(s, f, n) == render_pieces(kept_pieces(s, f, n)),
    decreases n,
{
    if n > 0 {
        lemma_filtered_render(s, f, n - 1);
        let p = kept_pieces(s, f, n - 1);
        if let Some(c) = f(n - 1) {
            assert(p.push((c, ends_line(s, line_bounds(s)[n - 1]))).drop_last() =~= p);
        } else {
            assert(filtered_lines(s, f, n) =~= filtered_lines(s, f, n - 1));
        }
    }
}

/// The kept pieces: at most one per line, each line's at the count of
/// pieces kept before it, every one but a last line's followed by a break.
proof fn lemma_kept_pieces(s: Seq<char>, f: spec_fn(int) -> Option<Seq<char>>, n: int)
    requires
        0 <= n <= line_bounds(s).len(),
    ensures
        kept_pieces(s, f, n).len() <= n,
        forall|k: int| 0 <= k <= n ==> kept_pieces(s, f, k).len() <= kept_pieces(s, f, n).len(),
        forall|k: int|
            0 <= k < n && #[trigger] f(k) is Some ==> kept_pieces(s, f, k).len() < kept_pieces(
                s,
                f,
                n,
            ).len() && kept_pieces(s, f, n)[kept_pieces(s, f, k).len() as int] == (
                f(k)->Some_0,
                ends_line(s, line_bounds(s)[k]),
            ),
        forall|q: int|
            0 <= q < kept_pieces(s, f, n).len() - 1 ==> #[trigger] kept_pieces(s, f, n)[q].1,
        n < line_bounds(s).len() ==> forall|q: int|
            0 <= q < kept_pieces(s, f, n).len() ==> #[trigger] kept_pieces(s, f, n)[q].1,
    decreases n,
{
    if n > 0 {
        lemma_kept_pieces(s, f, n - 1);
        let p = kept_pieces(s, f, n - 1);
        let now = kept_pieces(s, f, n);
        if n - 1 < line_bounds(s).len() - 1 {
            lemma_line_breaks(s, n - 1);
        }
        if let Some(c) = f(n - 1) {
            assert forall|k: int|
                0 <= k < n && #[trigger] f(k) is Some implies kept_pieces(s, f, k).len() < now.len()
                && now[kept_pieces(s, f, k).len() as int] == (f(k)->Some_0, ends_line(
                s,
                line_bounds(s)[k],
            )) by {
                if k < n - 1 {
                    assert(now[kept_pieces(s, f, k).len() as int] == p[kept_pieces(s, f, k).len() as int]);
                }
            }
            assert forall|q: int| 0 <= q < now.len() - 1 implies #[trigger] now[q].1 by {
                assert(now[q] == p[q]);
            }
            if n < line_bounds(s).len() {
                assert forall|q: int| 0 <= q < now.len() implies #[trigger] now[q].1 by {
                    if q < p.len() {
                        assert(now[q] == p[q]);
                    }
                }
            }
        }
        assert forall|k: int| 0 <= k <= n implies kept_pieces(s, f, k).len() <= now.len() by {
            if k < n {
                assert(kept_pieces(s, f, k).len() <= p.len());
            }
        }
    }
}

/// Rewriting a text line by line, dropping some lines, into lines without
/// line breaks: a line kept as it was comes out as the same line, after
/// the lines kept before it.
#[verifier::spinoff_prover]
pub proof fn lemma_filtered_keeps(s: Seq<char>, f: spec_fn(int) -> Option<Seq<char>>)
    requires
        forall|k: int| 0 <= k < line_bounds(s).len() && #[trigger] f(k) is Some ==> no_newline(
            f(k)->Some_0,
        ),
    ensures
        ({
            let out = filtered_lines(s, f, line_bounds(s).len() as int);
            forall|k: int|
                0 <= k < line_bounds(s).len() && #[trigger] f(k) == Some(line_text(s, line_bounds(s)[k]))
                    ==> keeps_line_at(s, out, k, kept_pieces(s, f, k).len() as int)
        }),
{
    let n = line_bounds(s).len() as int;
    lemma_filtered_render(s, f, n);
    lemma_kept_pieces(s, f, n);
    let p = kept_pieces(s, f, n);
    let out = filtered_lines(s, f, n);
    assert forall|q: int| 0 <= q < p.len() implies no_newline(#[trigger] p[q].0) && (q < p.len() - 1
        ==> p[q].1) by {
        lemma_kept_one_line(s, f, n, q);
    }
    lemma_line_pieces_of_render(p);
    lemma_line_pieces_last(out);
    lemma_line_pieces_last(s);
    assert forall|k: int|
        0 <= k < n && #[trigger] f(k) == Some(line_text(s, line_bounds(s)[k])) implies keeps_line_at(
        s,
        out,
        k,
        kept_pieces(s, f, k).len() as int,
    ) by {
        let j = kept_pieces(s, f, k).len() as int;
        assert(f(k) is Some);
        assert(p[j] == (line_text(s, line_bounds(s)[k]), ends_line(s, line_bounds(s)[k])));
        if normalize(p) != p && j == p.len() - 1 {
            if k < n - 1 {
                lemma_line_breaks(s, k);
            }
            assert(line_pieces(s)[n - 1] == (line_text(s, line_bounds(s)[n - 1]), ends_line(
                s,
                line_bounds(s)[n - 1],
            )));
            assert(line_pieces(s).last() == line_pieces(s)[n - 1]);
        }
        assert(line_pieces(out)[j] == normalize(p)[j]);
        assert(normalize(p)[j] == p[j]);
    }
}

/// Each kept piece holds no line break.
proof fn lemma_kept_one_line(s: Seq<char>, f: spec_fn(int) -> Option<Seq<char>>, n: int, q: int)
    requires
        0 <= n <= line_bounds(s).len(),
        0 <= q < kept_pieces(s, f, n).len(),
        forall|k: int| 0 <= k < line_bounds(s).len() && #[trigger] f(k) is Some ==> no_newline(
            f(k)->Some_0,
        ),
    ensures
        no_newline(kept_pieces(s, f, n)[q].0),
    decreases n,
{
    if n > 0 {
        let p = kept_pieces(s, f, n - 1);
        if let Some(c) = f(n - 1) {
            if q < p.len() {
                assert(kept_pieces(s, f, n)[q] == p[q]);
                lemma_kept_one_line(s, f, n - 1, q);
            } else {
                assert(f(n - 1) is Some);
            }
        } else {
            lemma_kept_one_line(s, f, n - 1, q);
        }
    }
}

/// Whether `piece` occurs in `text`.
pub open spec fn occurs_in(text: Seq<char>, piece: Seq<char>) -> bool {
    exists|p: int| 0 <= p && p + piece.len() <= text.len() && #[trigger] text.subrange(p, p + piece.len()) == piece
}

} // verus!
