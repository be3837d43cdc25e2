//! **tags** — Bear tags, tidied.
//!
//! A line that *starts* with a tag is metadata: it is gathered and moved to the
//! top — right under the first heading, or the very top if there is none. Bare
//! tags are merged, deduped, and sorted onto one line, indented as the first; a tag carrying trailing
//! text (like a meeting date) keeps that text on its own line. Multiple tags on
//! one line are split so each keeps the text that follows it. A redundant
//! closing `#` is stripped. Tags mid-prose (not at the line start) and tags
//! inside code are left where they are.

use crate::engine::ignore::{in_ranges, IgnoreRanges};
use crate::engine::Rule;
use crate::lines::{
    code_line, contents, joined_pieces, keeps_line_at, lemma_join_last, lemma_join_lines, lemma_line_pieces_last, lemma_line_pieces_of_render,
    lemma_line_pieces_wf, line_pieces, no_newline, normalize,
};
use crate::rules::support::{
    heading_level_of, is_tag_token, spec_heading_level, spec_starts_with_tag, starts_with_tag_of,
    tag_core, tag_core_of,
};
use crate::scan::{
    chars_eq, final_break, final_break_exec, has_char, join, join_exec, lemma_lex_irreflexive,
    lemma_lex_total,
    lemma_lex_transitive, lemma_tokens_of_join, lemma_views_push, lex_lt, lex_lt_exec,
    flagged_views, push_all, scan_tokens, skip_ws, skip_ws_exec, subvec, tokens, tokens_exec, views,
};
use crate::text::{
    byte_offset, is_ws, line_at, line_bounds, line_bounds_exec, line_text, string_of, utf8_len, Doc,
};
use crate::rules::title_case::{code_tokens, code_tokens_exec, scan_code_tokens};
use crate::unicode::{lowercase, str_lowercase};
use vstd::prelude::*;

verus! {

pub struct Tags;

/// A token with a tag's redundant closing `#` stripped; other tokens as they are.
pub open spec fn normalized_token(t: Seq<char>) -> Seq<char> {
    if is_tag_token(t) {
        seq!['#'] + tag_core(t)
    } else {
        t
    }
}

/// The leading whitespace of a line.
pub open spec fn leading_ws(line: Seq<char>) -> Seq<char> {
    line.take(skip_ws(line, 0))
}

/// Splitting a tag-led line token by token: finished entries and the entry
/// being built.
pub open spec fn scan_mixed(toks: Seq<Seq<char>>, indent: Seq<char>) -> (Seq<Seq<char>>, Seq<char>)
    decreases toks.len(),
{
    if toks.len() == 0 {
        (seq![], seq![])
    } else {
        let (entries, current) = scan_mixed(toks.drop_last(), indent);
        let t = toks.last();
        let (entries, current) = if is_tag_token(t) && current.len() > 0 {
            (entries.push(current), seq![])
        } else {
            (entries, current)
        };
        let current = if current.len() == 0 {
            indent
        } else {
            current.push(' ')
        };
        (entries, current + normalized_token(t))
    }
}

/// A tag-led line split so each tag starts a new entry carrying the text after
/// it, each entry keeping the line's indentation.
pub open spec fn split_mixed(line: Seq<char>) -> Seq<Seq<char>> {
    let (entries, current) = scan_mixed(tokens(line), leading_ws(line));
    if current.len() > 0 {
        entries.push(current)
    } else {
        entries
    }
}

/// The words of a line read at byte offset `off`: split on whitespace
/// outside code, so that a code span stays one word with its spacing.
pub open spec fn entry_words(line: Seq<char>, off: int, ignore: Seq<(int, int)>) -> Seq<Seq<char>> {
    code_tokens(line, off, ignore).map_values(|w: (Seq<char>, bool)| w.0)
}

/// A tag-led line split so each tag starts a new entry carrying the text after
/// it, each entry keeping the line's indentation, and code inside it kept as
/// it is.
pub open spec fn split_entries(line: Seq<char>, off: int, ignore: Seq<(int, int)>) -> Seq<Seq<char>> {
    let (entries, current) = scan_mixed(entry_words(line, off, ignore), leading_ws(line));
    if current.len() > 0 {
        entries.push(current)
    } else {
        entries
    }
}

/// The key tags are deduplicated and ordered by.
pub open spec fn tag_key(t: Seq<char>) -> Seq<char> {
    str_lowercase(t)
}

pub open spec fn has_key(tags: Seq<Seq<char>>, key: Seq<char>) -> bool {
    exists|k: int| 0 <= k < tags.len() && tag_key(#[trigger] tags[k]) == key
}

/// The tags with later duplicates (same key) dropped.
pub open spec fn dedupe_tags(tags: Seq<Seq<char>>) -> Seq<Seq<char>>
    decreases tags.len(),
{
    if tags.len() == 0 {
        seq![]
    } else {
        let kept = dedupe_tags(tags.drop_last());
        if has_key(kept, tag_key(tags.last())) {
            kept
        } else {
            kept.push(tags.last())
        }
    }
}

/// `t` inserted into `sorted` after every element whose key is not greater.
pub open spec fn insert_by_key(sorted: Seq<Seq<char>>, t: Seq<char>) -> Seq<Seq<char>>
    decreases sorted.len(),
{
    if sorted.len() == 0 {
        seq![t]
    } else if !lex_lt(tag_key(t), tag_key(sorted.last())) {
        sorted.push(t)
    } else {
        insert_by_key(sorted.drop_last(), t).push(sorted.last())
    }
}

/// The tags stably sorted by key.
pub open spec fn sort_tags(tags: Seq<Seq<char>>) -> Seq<Seq<char>>
    decreases tags.len(),
{
    if tags.len() == 0 {
        seq![]
    } else {
        insert_by_key(sort_tags(tags.drop_last()), tags.last())
    }
}

/// Bare tags merged onto one line: deduplicated, sorted, space-separated.
pub open spec fn merged_tags(tags: Seq<Seq<char>>) -> Seq<char> {
    join(sort_tags(dedupe_tags(tags)), seq![' '])
}

/// A bare tag entry without its indentation.
pub open spec fn bare_tag(e: Seq<char>) -> Seq<char> {
    e.skip(skip_ws(e, 0))
}

/// The tags of bare entries, without their indentation.
pub open spec fn tags_of(bare: Seq<Seq<char>>) -> Seq<Seq<char>> {
    bare.map_values(|e: Seq<char>| bare_tag(e))
}

/// The indentation the merged bare tags take: the first bare entry's.
pub open spec fn bare_indent(bare: Seq<Seq<char>>) -> Seq<char> {
    if bare.len() > 0 {
        leading_ws(bare[0])
    } else {
        seq![]
    }
}

/// Bare entries merged onto one line: the first entry's indentation, then
/// the tags deduplicated, sorted and space-separated.
pub open spec fn merged_line(bare: Seq<Seq<char>>) -> Seq<char> {
    bare_indent(bare) + merged_tags(tags_of(bare))
}

/// Entries added to the bare or the annotated list, by whether they carry
/// text.
pub open spec fn sort_entries(
    entries: Seq<Seq<char>>,
    bare: Seq<Seq<char>>,
    annotated: Seq<Seq<char>>,
) -> (Seq<Seq<char>>, Seq<Seq<char>>)
    decreases entries.len(),
{
    if entries.len() == 0 {
        (bare, annotated)
    } else {
        let (b, a) = sort_entries(entries.drop_last(), bare, annotated);
        if tokens(entries.last()).len() > 1 {
            (b, a.push(entries.last()))
        } else {
            (b.push(entries.last()), a)
        }
    }
}

/// The first `n` lines classified: kept lines, the index (among kept lines)
/// of the first heading outside code, bare tag entries, annotated entries.
pub open spec fn scan_tags(s: Seq<char>, ignore: Seq<(int, int)>, n: int) -> (
    Seq<Seq<char>>,
    Option<int>,
    Seq<Seq<char>>,
    Seq<Seq<char>>,
)
    decreases n,
{
    if n <= 0 {
        (seq![], None, seq![], seq![])
    } else {
        let (kept, anchor, bare, annotated) = scan_tags(s, ignore, n - 1);
        let b = line_bounds(s)[n - 1];
        let content = line_text(s, b);
        if in_ranges(ignore, byte_offset(s, b.0) as int) {
            (kept.push(content), anchor, bare, annotated)
        } else if spec_starts_with_tag(content) {
            let (bare, annotated) = sort_entries(
                split_entries(content, byte_offset(s, b.0) as int, ignore),
                bare,
                annotated,
            );
            (kept, anchor, bare, annotated)
        } else {
            let anchor = if anchor is None && spec_heading_level(content) is Some {
                Some(kept.len() as int)
            } else {
                anchor
            };
            (kept.push(content), anchor, bare, annotated)
        }
    }
}

/// The note with its tag-led lines gathered under the first heading (or at the
/// top): the merged bare tags first, then each annotated entry.
pub open spec fn spec_tags(s: Seq<char>, ignore: Seq<(int, int)>) -> Seq<char> {
    let (kept, anchor, bare, annotated) = scan_tags(s, ignore, line_bounds(s).len() as int);
    let top = if bare.len() > 0 {
        seq![merged_line(bare)] + annotated
    } else {
        annotated
    };
    let at = match anchor {
        Some(a) => a + 1,
        None => 0,
    };
    join(kept.take(at) + top + kept.skip(at), seq!['\n']) + final_break(s)
}

impl Rule for Tags {
    open spec fn spec_name(&self) -> Seq<char> {
        "tags"@
    }

    open spec fn spec_apply(&self, text: Seq<char>, ignore: Seq<(int, int)>) -> Seq<char> {
        spec_tags(text, ignore)
    }

    fn name(&self) -> (name: &'static str) {
        "tags"
    }

    fn apply(&self, text: &str, ignore: &IgnoreRanges) -> (out: String) {
        let doc = Doc::new(text);
        let bounds = line_bounds_exec(&doc.chars);
        let ghost s = doc.chars@;
        let ghost ig = ignore@;
        let mut kept: Vec<Vec<char>> = Vec::new();
        let mut anchor: Option<usize> = None;
        let mut bare: Vec<Vec<char>> = Vec::new();
        let mut annotated: Vec<Vec<char>> = Vec::new();
        let mut k: usize = 0;
        while k < bounds.len()
            invariant
                doc.wf(),
                s == doc.chars@,
                ig == ignore@,
                crate::text::bounds_view(bounds@) == line_bounds(s),
                k <= bounds@.len(),
                (
                    views(kept@),
                    match anchor {
                        Some(a) => Some(a as int),
                        None => None,
                    },
                    views(bare@),
                    views(annotated@),
                ) == scan_tags(s, ig, k as int),
                anchor matches Some(a) ==> a < kept@.len(),
            decreases bounds.len() - k,
        {
            let (content, offset) = line_at(&doc, &bounds, k);
            if ignore.contains_wide(offset) {
                proof {
                    lemma_views_push(kept@, content);
                }
                kept.push(content);
            } else if starts_with_tag_of(&content) {
                proof {
                    crate::text::lemma_line_bounds_shape(s);
                    crate::text::lemma_utf8_len_bound(s.take(line_bounds(s)[k as int].0));
                }
                let entries = split_entries_exec(&content, offset, ignore);
                let mut e: usize = 0;
                let ghost b0 = views(bare@);
                let ghost a0 = views(annotated@);
                while e < entries.len()
                    invariant
                        e <= entries@.len(),
                        (views(bare@), views(annotated@)) == sort_entries(
                            views(entries@).take(e as int),
                            b0,
                            a0,
                        ),
                    decreases entries.len() - e,
                {
                    proof {
                        assert(views(entries@).take(e + 1).drop_last() =~= views(entries@).take(
                            e as int,
                        ));
                    }
                    let entry = subvec(&entries[e], 0, entries[e].len());
                    assert(entry@ =~= entries@[e as int]@);
                    let toks = tokens_exec(&entry);
                    if toks.len() > 1 {
                        proof {
                            lemma_views_push(annotated@, entry);
                        }
                        annotated.push(entry);
                    } else {
                        proof {
                            lemma_views_push(bare@, entry);
                        }
                        bare.push(entry);
                    }
                    e = e + 1;
                }
                assert(views(entries@).take(entries@.len() as int) =~= views(entries@));
            } else {
                if anchor.is_none() && heading_level_of(&content).is_some() {
                    anchor = Some(kept.len());
                }
                proof {
                    lemma_views_push(kept@, content);
                }
                kept.push(content);
            }
            k = k + 1;
        }
        let mut lines: Vec<Vec<char>> = Vec::new();
        let at = match anchor {
            Some(a) => {
                assert(a < kept.len());
                a + 1
            },
            None => 0,
        };
        let mut i: usize = 0;
        while i < at
            invariant
                i <= at <= kept@.len(),
                views(lines@) == views(kept@).take(i as int),
            decreases at - i,
        {
            let line = subvec(&kept[i], 0, kept[i].len());
            assert(line@ =~= kept@[i as int]@);
            proof {
                lemma_views_push(lines@, line);
                assert(views(kept@).take(i + 1) =~= views(kept@).take(i as int).push(line@));
            }
            lines.push(line);
            i = i + 1;
        }
        let ghost top_start = views(lines@);
        if bare.len() > 0 {
            let merged = merged_line_exec(&bare);
            proof {
                lemma_views_push(lines@, merged);
            }
            lines.push(merged);
        }
        let ghost with_merged = views(lines@);
        let mut j: usize = 0;
        while j < annotated.len()
            invariant
                j <= annotated@.len(),
                views(lines@) == with_merged + views(annotated@).take(j as int),
            decreases annotated.len() - j,
        {
            let line = subvec(&annotated[j], 0, annotated[j].len());
            assert(line@ =~= annotated@[j as int]@);
            proof {
                lemma_views_push(lines@, line);
                assert(views(annotated@).take(j + 1) =~= views(annotated@).take(j as int).push(
                    line@,
                ));
            }
            lines.push(line);
            j = j + 1;
        }
        let ghost with_top = views(lines@);
        let mut r: usize = at;
        while r < kept.len()
            invariant
                at <= r <= kept@.len(),
                views(lines@) == with_top + views(kept@).subrange(at as int, r as int),
            decreases kept.len() - r,
        {
            let line = subvec(&kept[r], 0, kept[r].len());
            assert(line@ =~= kept@[r as int]@);
            proof {
                lemma_views_push(lines@, line);
                assert(views(kept@).subrange(at as int, r + 1) =~= views(kept@).subrange(
                    at as int,
                    r as int,
                ).push(line@));
            }
            lines.push(line);
            r = r + 1;
        }
        proof {
            assert(views(annotated@).take(annotated@.len() as int) =~= views(annotated@));
            let top = if views(bare@).len() > 0 {
                seq![merged_line(views(bare@))] + views(annotated@)
            } else {
                views(annotated@)
            };
            assert(views(lines@) =~= views(kept@).take(at as int) + top + views(kept@).skip(
                at as int,
            ));
        }
        let newline = vec!['\n'];
        assert(newline@ =~= seq!['\n']);
        let mut out = join_exec(&lines, &newline);
        let tail = final_break_exec(&doc.chars);
        push_all(&mut out, &tail);
        string_of(&out)
    }
}

/// The line split at each tag, see [`split_entries`].
fn split_entries_exec(line: &Vec<char>, off: u128, ignore: &IgnoreRanges) -> (entries: Vec<
    Vec<char>,
>)
    requires
        off <= 8 * (usize::MAX as int),
    ensures
        views(entries@) == split_entries(line@, off as int, ignore@),
{
    let indent = subvec(line, 0, skip_ws_exec(line, 0));
    let words = code_tokens_exec(line, off, ignore);
    let mut toks: Vec<Vec<char>> = Vec::new();
    let mut w: usize = 0;
    while w < words.len()
        invariant
            w <= words@.len(),
            views(toks@) == flagged_views(words@).take(w as int).map_values(
                |x: (Seq<char>, bool)| x.0,
            ),
        decreases words.len() - w,
    {
        let word = subvec(&words[w].0, 0, words[w].0.len());
        proof {
            assert(word@ =~= words@[w as int].0@);
            lemma_views_push(toks@, word);
            assert(flagged_views(words@).take(w + 1).map_values(|x: (Seq<char>, bool)| x.0) =~= flagged_views(
                words@,
            ).take(w as int).map_values(|x: (Seq<char>, bool)| x.0).push(word@));
        }
        toks.push(word);
        w = w + 1;
    }
    assert(flagged_views(words@).take(words@.len() as int) =~= flagged_views(words@));
    let ghost ts = views(toks@);
    assert(ts =~= entry_words(line@, off as int, ignore@));
    let mut entries: Vec<Vec<char>> = Vec::new();
    let mut current: Vec<char> = Vec::new();
    let mut i: usize = 0;
    while i < toks.len()
        invariant
            indent@ == leading_ws(line@),
            ts == views(toks@),
            i <= toks@.len(),
            (views(entries@), current@) == scan_mixed(ts.take(i as int), indent@),
        decreases toks.len() - i,
    {
        proof {
            assert(ts.take(i + 1).drop_last() =~= ts.take(i as int));
            assert(ts.take(i + 1).last() == toks@[i as int]@);
        }
        let normalized = tag_core_of(&toks[i]);
        if normalized.is_some() && current.len() > 0 {
            proof {
                lemma_views_push(entries@, current);
            }
            entries.push(current);
            current = Vec::new();
        }
        if current.len() == 0 {
            current = subvec(&indent, 0, indent.len());
            assert(current@ =~= indent@);
        } else {
            current.push(' ');
        }
        match normalized {
            Some(core) => {
                current.push('#');
                push_all(&mut current, &core);
            },
            None => {
                push_all(&mut current, &toks[i]);
            },
        }
        i = i + 1;
    }
    assert(ts.take(ts.len() as int) =~= ts);
    if current.len() > 0 {
        proof {
            lemma_views_push(entries@, current);
        }
        entries.push(current);
    }
    entries
}

/// Bare entries merged onto one line, see [`merged_line`].
fn merged_line_exec(bare: &Vec<Vec<char>>) -> (merged: Vec<char>)
    requires
        bare@.len() > 0,
    ensures
        merged@ == merged_line(views(bare@)),
{
    let ghost bs = views(bare@);
    let mut tags: Vec<Vec<char>> = Vec::new();
    let mut q: usize = 0;
    while q < bare.len()
        invariant
            bs == views(bare@),
            q <= bare@.len(),
            views(tags@) == tags_of(bs).take(q as int),
        decreases bare.len() - q,
    {
        let j = skip_ws_exec(&bare[q], 0);
        let tag = subvec(&bare[q], j, bare[q].len());
        proof {
            assert(tag@ =~= bare_tag(bs[q as int]));
            lemma_views_push(tags@, tag);
            assert(tags_of(bs).take(q + 1) =~= tags_of(bs).take(q as int).push(tag@));
        }
        tags.push(tag);
        q = q + 1;
    }
    assert(tags_of(bs).take(bs.len() as int) =~= tags_of(bs));
    let line = merge_and_sort(&tags);
    let mut merged = subvec(&bare[0], 0, skip_ws_exec(&bare[0], 0));
    assert(merged@ =~= bare_indent(bs));
    push_all(&mut merged, &line);
    merged
}

/// Bare tags merged onto one line: deduplicated by lowercase form, sorted by
/// it, joined with spaces.
fn merge_and_sort(tags: &Vec<Vec<char>>) -> (merged: Vec<char>)
    ensures
        merged@ == merged_tags(views(tags@)),
{
    let ghost ts = views(tags@);
    // Deduplicate, keeping the first tag of each key.
    let mut unique: Vec<Vec<char>> = Vec::new();
    let mut keys: Vec<Vec<char>> = Vec::new();
    let mut i: usize = 0;
    while i < tags.len()
        invariant
            ts == views(tags@),
            i <= tags@.len(),
            views(unique@) == dedupe_tags(ts.take(i as int)),
            keys@.len() == unique@.len(),
            forall|k: int| 0 <= k < keys@.len() ==> #[trigger] keys@[k]@ == tag_key(unique@[k]@),
        decreases tags.len() - i,
    {
        proof {
            assert(ts.take(i + 1).drop_last() =~= ts.take(i as int));
        }
        let key = lowercase(&tags[i]);
        let mut seen = false;
        let mut k: usize = 0;
        while k < keys.len()
            invariant
                k <= keys@.len(),
                keys@.len() == unique@.len(),
                forall|m: int| 0 <= m < keys@.len() ==> #[trigger] keys@[m]@ == tag_key(unique@[m]@),
                seen <==> exists|m: int| 0 <= m < k && tag_key(#[trigger] unique@[m]@) == key@,
            decreases keys.len() - k,
        {
            if chars_eq(&keys[k], &key) {
                seen = true;
            }
            k = k + 1;
        }
        proof {
            let d = dedupe_tags(ts.take(i as int));
            if seen {
                let m = choose|m: int| 0 <= m < keys@.len() && tag_key(#[trigger] unique@[m]@) == key@;
                assert(d[m] == unique@[m]@);
            } else {
                assert forall|m: int| 0 <= m < d.len() implies tag_key(#[trigger] d[m]) != key@ by {
                    assert(d[m] == unique@[m]@);
                }
            }
        }
        if !seen {
            let tag = subvec(&tags[i], 0, tags[i].len());
            assert(tag@ =~= tags@[i as int]@);
            proof {
                lemma_views_push(unique@, tag);
            }
            unique.push(tag);
            keys.push(key);
        }
        i = i + 1;
    }
    assert(ts.take(ts.len() as int) =~= ts);
    // Insertion sort by key; inserting after every element whose key is not
    // greater keeps the sort stable.
    let ghost us = views(unique@);
    let mut sorted: Vec<Vec<char>> = Vec::new();
    let mut sorted_keys: Vec<Vec<char>> = Vec::new();
    let mut j: usize = 0;
    while j < unique.len()
        invariant
            us == views(unique@),
            keys@.len() == unique@.len(),
            forall|k: int| 0 <= k < keys@.len() ==> #[trigger] keys@[k]@ == tag_key(unique@[k]@),
            j <= unique@.len(),
            views(sorted@) == sort_tags(us.take(j as int)),
            sorted_keys@.len() == sorted@.len(),
            forall|k: int|
                0 <= k < sorted_keys@.len() ==> #[trigger] sorted_keys@[k]@ == tag_key(
                    sorted@[k]@,
                ),
        decreases unique.len() - j,
    {
        proof {
            assert(us.take(j + 1).drop_last() =~= us.take(j as int));
        }
        let ghost before = views(sorted@);
        let tag = subvec(&unique[j], 0, unique[j].len());
        let key = subvec(&keys[j], 0, keys[j].len());
        assert(tag@ =~= us[j as int]);
        assert(key@ =~= keys@[j as int]@);
        let mut p: usize = sorted.len();
        assert(before.take(p as int) =~= before);
        assert(before.skip(p as int) =~= Seq::<Seq<char>>::empty());
        while p > 0 && lex_lt_exec(&key, &sorted_keys[p - 1])
            invariant
                p <= sorted@.len(),
                sorted_keys@.len() == sorted@.len(),
                before == views(sorted@),
                key@ == tag_key(tag@),
                forall|k: int|
                    0 <= k < sorted_keys@.len() ==> #[trigger] sorted_keys@[k]@ == tag_key(
                        sorted@[k]@,
                    ),
                insert_by_key(before, tag@) == insert_by_key(before.take(p as int), tag@)
                    + before.skip(p as int),
            decreases p,
        {
            proof {
                let t = before.take(p as int);
                assert(t.last() == before[p - 1]);
                assert(t.drop_last() =~= before.take(p - 1));
                assert(before.skip(p - 1) =~= seq![before[p - 1]] + before.skip(p as int));
                assert(insert_by_key(t, tag@) == insert_by_key(before.take(p - 1), tag@).push(
                    before[p - 1],
                ));
                assert(insert_by_key(before.take(p - 1), tag@).push(before[p - 1])
                    + before.skip(p as int) =~= insert_by_key(before.take(p - 1), tag@)
                    + before.skip(p - 1));
            }
            p = p - 1;
        }
        proof {
            let t = before.take(p as int);
            if p > 0 {
                assert(t.last() == before[p - 1]);
                assert(!lex_lt(tag_key(tag@), tag_key(t.last())));
            }
            assert(insert_by_key(t, tag@) =~= t.push(tag@));
            assert(before.take(p as int).push(tag@) + before.skip(p as int) =~= before.insert(
                p as int,
                tag@,
            ));
        }
        let ghost old_sorted = sorted@;
        let ghost old_keys = sorted_keys@;
        sorted.insert(p, tag);
        sorted_keys.insert(p, key);
        proof {
            assert(views(sorted@) =~= before.insert(p as int, tag@));
            assert forall|k: int| 0 <= k < sorted_keys@.len() implies #[trigger] sorted_keys@[k]@
                == tag_key(sorted@[k]@) by {
                if k < p {
                    assert(sorted_keys@[k] == old_keys[k] && sorted@[k] == old_sorted[k]);
                } else if k > p {
                    assert(sorted_keys@[k] == old_keys[k - 1] && sorted@[k] == old_sorted[k - 1]);
                }
            }
        }
        j = j + 1;
    }
    assert(us.take(us.len() as int) =~= us);
    assert(us == dedupe_tags(ts));
    assert(views(sorted@) == sort_tags(dedupe_tags(ts)));
    let space = vec![' '];
    assert(space@ =~= seq![' ']);
    join_exec(&sorted, &space)
}

/// Keys in order: no tag's key comes before an earlier one's.
pub open spec fn keys_sorted(r: Seq<Seq<char>>) -> bool {
    forall|i: int, j: int|
        0 <= i < j < r.len() ==> !lex_lt(tag_key(#[trigger] r[j]), tag_key(#[trigger] r[i]))
}

/// No two tags share a key.
pub open spec fn keys_distinct(r: Seq<Seq<char>>) -> bool {
    forall|i: int, j: int|
        0 <= i < j < r.len() ==> tag_key(#[trigger] r[i]) != tag_key(#[trigger] r[j])
}

proof fn lemma_dedupe_tags(tags: Seq<Seq<char>>)
    ensures
        keys_distinct(dedupe_tags(tags)),
        forall|k: int| 0 <= k < tags.len() ==> has_key(dedupe_tags(tags), tag_key(#[trigger] tags[k])),
        forall|k: int| 0 <= k < dedupe_tags(tags).len() ==> tags.contains(#[trigger] dedupe_tags(tags)[k]),
    decreases tags.len(),
{
    if tags.len() > 0 {
        let prev = tags.drop_last();
        lemma_dedupe_tags(prev);
        let kept = dedupe_tags(prev);
        let d = dedupe_tags(tags);
        let t = tags.last();
        assert forall|k: int| 0 <= k < d.len() implies tags.contains(#[trigger] d[k]) by {
            if k < kept.len() {
                assert(d[k] == kept[k]);
                let j = choose|j: int| 0 <= j < prev.len() && prev[j] == kept[k];
                assert(tags[j] == prev[j]);
            } else {
                assert(tags[tags.len() - 1] == t);
            }
        }
        assert forall|k: int| 0 <= k < tags.len() implies has_key(d, tag_key(#[trigger] tags[k])) by {
            if k < prev.len() {
                assert(tags[k] == prev[k]);
                assert(has_key(kept, tag_key(prev[k])));
                let j = choose|j: int| 0 <= j < kept.len() && tag_key(#[trigger] kept[j]) == tag_key(prev[k]);
                assert(d[j] == kept[j]);
            } else if !has_key(kept, tag_key(t)) {
                assert(d[kept.len() as int] == t);
            } else {
                let j = choose|j: int| 0 <= j < kept.len() && tag_key(#[trigger] kept[j]) == tag_key(t);
                assert(d[j] == kept[j]);
            }
        }
        if !has_key(kept, tag_key(t)) {
            assert forall|i: int, j: int| 0 <= i < j < d.len() implies tag_key(#[trigger] d[i])
                != tag_key(#[trigger] d[j]) by {
                assert(d[i] == kept[i]);
                if j < kept.len() {
                    assert(d[j] == kept[j]);
                }
            }
        }
    }
}

/// Inserting keeps the keys in order, adds exactly the one tag, and keeps
/// keys distinct when the new key is new.
proof fn lemma_insert_by_key(sorted: Seq<Seq<char>>, t: Seq<char>)
    requires
        keys_sorted(sorted),
    ensures
        keys_sorted(insert_by_key(sorted, t)),
        insert_by_key(sorted, t).len() == sorted.len() + 1,
        forall|x: Seq<char>| #[trigger] insert_by_key(sorted, t).contains(x) <==> sorted.contains(x) || x == t,
        keys_distinct(sorted) && !has_key(sorted, tag_key(t)) ==> keys_distinct(insert_by_key(sorted, t)),
    decreases sorted.len(),
{
    let r = insert_by_key(sorted, t);
    let kt = tag_key(t);
    if sorted.len() == 0 {
        assert(r =~= seq![t]);
        assert forall|x: Seq<char>| #[trigger] r.contains(x) <==> sorted.contains(x) || x == t by {
            if r.contains(x) {
                let j = choose|j: int| 0 <= j < r.len() && r[j] == x;
            }
            if x == t {
                assert(r[0] == t);
            }
        }
    } else {
        let last = sorted.last();
        let kl = tag_key(last);
        if !lex_lt(kt, kl) {
            assert(r == sorted.push(t));
            assert forall|i: int, j: int| 0 <= i < j < r.len() implies !lex_lt(
                tag_key(#[trigger] r[j]),
                tag_key(#[trigger] r[i]),
            ) by {
                if j == sorted.len() {
                    assert(r[i] == sorted[i]);
                    let ki = tag_key(sorted[i]);
                    if i < sorted.len() - 1 {
                        assert(!lex_lt(kl, ki)) by {
                            assert(sorted[sorted.len() - 1] == last);
                        }
                    }
                    if lex_lt(kt, ki) {
                        lemma_lex_total(ki, kl);
                        if ki != kl && lex_lt(ki, kl) {
                            lemma_lex_transitive(kt, ki, kl);
                        }
                    }
                } else {
                    assert(r[i] == sorted[i] && r[j] == sorted[j]);
                }
            }
            assert forall|x: Seq<char>| #[trigger] r.contains(x) <==> sorted.contains(x) || x == t by {
                if r.contains(x) {
                    let j = choose|j: int| 0 <= j < r.len() && r[j] == x;
                    if j < sorted.len() {
                        assert(sorted[j] == x);
                    }
                }
                if sorted.contains(x) {
                    let j = choose|j: int| 0 <= j < sorted.len() && sorted[j] == x;
                    assert(r[j] == x);
                }
                if x == t {
                    assert(r[sorted.len() as int] == t);
                }
            }
            if keys_distinct(sorted) && !has_key(sorted, kt) {
                assert forall|i: int, j: int| 0 <= i < j < r.len() implies tag_key(#[trigger] r[i])
                    != tag_key(#[trigger] r[j]) by {
                    assert(r[i] == sorted[i]);
                    if j < sorted.len() {
                        assert(r[j] == sorted[j]);
                    }
                }
            }
        } else {
            let prev = sorted.drop_last();
            assert(keys_sorted(prev)) by {
                assert forall|i: int, j: int| 0 <= i < j < prev.len() implies !lex_lt(
                    tag_key(#[trigger] prev[j]),
                    tag_key(#[trigger] prev[i]),
                ) by {
                    assert(prev[i] == sorted[i] && prev[j] == sorted[j]);
                }
            }
            lemma_insert_by_key(prev, t);
            let inner = insert_by_key(prev, t);
            assert(r == inner.push(last));
            // Everything inserted so far has a key no later than the last one.
            assert forall|i: int| 0 <= i < inner.len() implies !lex_lt(kl, tag_key(#[trigger] inner[i])) by {
                assert(inner.contains(inner[i]));
                if inner[i] == t {
                    lemma_lex_irreflexive(kt);
                    if lex_lt(kl, kt) {
                        lemma_lex_transitive(kl, kt, kl);
                        lemma_lex_irreflexive(kl);
                    }
                } else {
                    assert(prev.contains(inner[i]));
                    let j = choose|j: int| 0 <= j < prev.len() && prev[j] == inner[i];
                    assert(sorted[j] == prev[j]);
                    assert(sorted[sorted.len() - 1] == last);
                }
            }
            assert forall|i: int, j: int| 0 <= i < j < r.len() implies !lex_lt(
                tag_key(#[trigger] r[j]),
                tag_key(#[trigger] r[i]),
            ) by {
                assert(r[i] == inner[i]);
                if j < inner.len() {
                    assert(r[j] == inner[j]);
                }
            }
            assert forall|x: Seq<char>| #[trigger] r.contains(x) <==> sorted.contains(x) || x == t by {
                if r.contains(x) {
                    let j = choose|j: int| 0 <= j < r.len() && r[j] == x;
                    if j < inner.len() {
                        assert(inner[j] == x);
                        assert(inner.contains(x));
                        if prev.contains(x) {
                            let i = choose|i: int| 0 <= i < prev.len() && prev[i] == x;
                            assert(sorted[i] == x);
                        }
                    } else {
                        assert(sorted[sorted.len() - 1] == x);
                    }
                }
                if sorted.contains(x) {
                    let j = choose|j: int| 0 <= j < sorted.len() && sorted[j] == x;
                    if j < prev.len() {
                        assert(prev[j] == x);
                        assert(prev.contains(x));
                        assert(inner.contains(x));
                        let i = choose|i: int| 0 <= i < inner.len() && inner[i] == x;
                        assert(r[i] == x);
                    } else {
                        assert(r[inner.len() as int] == x);
                    }
                }
                if x == t {
                    assert(inner.contains(t));
                    let i = choose|i: int| 0 <= i < inner.len() && inner[i] == t;
                    assert(r[i] == t);
                }
            }
            if keys_distinct(sorted) && !has_key(sorted, kt) {
                assert(keys_distinct(prev)) by {
                    assert forall|i: int, j: int| 0 <= i < j < prev.len() implies tag_key(
                        #[trigger] prev[i],
                    ) != tag_key(#[trigger] prev[j]) by {
                        assert(prev[i] == sorted[i] && prev[j] == sorted[j]);
                    }
                }
                assert(!has_key(prev, kt)) by {
                    if has_key(prev, kt) {
                        let j = choose|j: int| 0 <= j < prev.len() && tag_key(#[trigger] prev[j]) == kt;
                        assert(sorted[j] == prev[j]);
                    }
                }
                assert forall|i: int, j: int| 0 <= i < j < r.len() implies tag_key(#[trigger] r[i])
                    != tag_key(#[trigger] r[j]) by {
                    assert(r[i] == inner[i]);
                    if j < inner.len() {
                        assert(r[j] == inner[j]);
                    } else {
                        assert(inner.contains(inner[i]));
                        if inner[i] == t {
                            assert(sorted[sorted.len() - 1] == last);
                        } else {
                            let m = choose|m: int| 0 <= m < prev.len() && prev[m] == inner[i];
                            assert(sorted[m] == prev[m]);
                            assert(sorted[sorted.len() - 1] == last);
                        }
                    }
                }
            }
        }
    }
}

proof fn lemma_sort_tags(xs: Seq<Seq<char>>)
    ensures
        keys_sorted(sort_tags(xs)),
        sort_tags(xs).len() == xs.len(),
        forall|x: Seq<char>| #[trigger] sort_tags(xs).contains(x) <==> xs.contains(x),
        keys_distinct(xs) ==> keys_distinct(sort_tags(xs)),
    decreases xs.len(),
{
    if xs.len() > 0 {
        let prev = xs.drop_last();
        lemma_sort_tags(prev);
        let sp = sort_tags(prev);
        let t = xs.last();
        lemma_insert_by_key(sp, t);
        assert forall|x: Seq<char>| #[trigger] sort_tags(xs).contains(x) <==> xs.contains(x) by {
            if prev.contains(x) {
                let j = choose|j: int| 0 <= j < prev.len() && prev[j] == x;
                assert(xs[j] == x);
            }
            if xs.contains(x) {
                let j = choose|j: int| 0 <= j < xs.len() && xs[j] == x;
                if j < prev.len() {
                    assert(prev[j] == x);
                    assert(prev.contains(x));
                }
            }
            if x == t {
                assert(xs[xs.len() - 1] == t);
            }
        }
        if keys_distinct(xs) {
            assert(keys_distinct(prev)) by {
                assert forall|i: int, j: int| 0 <= i < j < prev.len() implies tag_key(
                    #[trigger] prev[i],
                ) != tag_key(#[trigger] prev[j]) by {
                    assert(prev[i] == xs[i] && prev[j] == xs[j]);
                }
            }
            assert(!has_key(sp, tag_key(t))) by {
                if has_key(sp, tag_key(t)) {
                    let j = choose|j: int| 0 <= j < sp.len() && tag_key(#[trigger] sp[j]) == tag_key(t);
                    assert(sp.contains(sp[j]));
                    assert(prev.contains(sp[j]));
                    let i = choose|i: int| 0 <= i < prev.len() && prev[i] == sp[j];
                    assert(xs[i] == prev[i]);
                    assert(xs[xs.len() - 1] == t);
                }
            }
        }
    } else {
        assert forall|x: Seq<char>| #[trigger] sort_tags(xs).contains(x) <==> xs.contains(x) by {}
    }
}

/// Bare tags merged onto one line: the tags on it are ordered by key, no two
/// share a key, every bare tag's key is among them, and each of them is one
/// of the bare tags.
pub proof fn merged_tags_sorted_and_deduplicated(tags: Seq<Seq<char>>)
    ensures
        keys_sorted(sort_tags(dedupe_tags(tags))),
        keys_distinct(sort_tags(dedupe_tags(tags))),
        forall|k: int|
            0 <= k < tags.len() ==> has_key(sort_tags(dedupe_tags(tags)), tag_key(#[trigger] tags[k])),
        forall|k: int|
            0 <= k < sort_tags(dedupe_tags(tags)).len() ==> tags.contains(
                #[trigger] sort_tags(dedupe_tags(tags))[k],
            ),
        merged_tags(tags) == join(sort_tags(dedupe_tags(tags)), seq![' ']),
{
    let d = dedupe_tags(tags);
    let r = sort_tags(d);
    lemma_dedupe_tags(tags);
    lemma_sort_tags(d);
    assert forall|k: int| 0 <= k < tags.len() implies has_key(r, tag_key(#[trigger] tags[k])) by {
        assert(has_key(d, tag_key(tags[k])));
        let j = choose|j: int| 0 <= j < d.len() && tag_key(#[trigger] d[j]) == tag_key(tags[k]);
        assert(d.contains(d[j]));
        assert(r.contains(d[j]));
        let i = choose|i: int| 0 <= i < r.len() && r[i] == d[j];
    }
    assert forall|k: int| 0 <= k < r.len() implies tags.contains(#[trigger] r[k]) by {
        assert(r.contains(r[k]));
        assert(d.contains(r[k]));
        let j = choose|j: int| 0 <= j < d.len() && d[j] == r[k];
    }
}

// ----- a second pass over gathered tags -----

/// Words with no whitespace, none empty.
pub open spec fn plain_words(w: Seq<Seq<char>>) -> bool {
    &&& forall|i: int| 0 <= i < w.len() ==> #[trigger] w[i].len() > 0
    &&& forall|i: int, k: int| 0 <= i < w.len() && 0 <= k < w[i].len() ==> !is_ws(#[trigger] w[i][k])
}

/// The words of the entries a tag-led line splits into: finished groups and
/// the group being built.
pub open spec fn scan_groups(toks: Seq<Seq<char>>) -> (Seq<Seq<Seq<char>>>, Seq<Seq<char>>)
    decreases toks.len(),
{
    if toks.len() == 0 {
        (seq![], seq![])
    } else {
        let (groups, current) = scan_groups(toks.drop_last());
        let t = toks.last();
        let (groups, current) = if is_tag_token(t) && current.len() > 0 {
            (groups.push(current), seq![])
        } else {
            (groups, current)
        };
        (groups, current.push(normalized_token(t)))
    }
}

/// An entry: the line's indentation, then its words with single spaces.
pub open spec fn entry_of(indent: Seq<char>, words: Seq<Seq<char>>) -> Seq<char> {
    indent + join(words, seq![' '])
}

proof fn lemma_normalized_token(t: Seq<char>)
    requires
        t.len() > 0,
        forall|k: int| 0 <= k < t.len() ==> !is_ws(#[trigger] t[k]),
    ensures
        normalized_token(t).len() > 0,
        forall|k: int| 0 <= k < normalized_token(t).len() ==> !is_ws(#[trigger] normalized_token(t)[k]),
        is_tag_token(normalized_token(t)) == is_tag_token(t),
        normalized_token(normalized_token(t)) == normalized_token(t),
        forall|k: int| 0 <= k < t.len() ==> t[k] != '\n' ==> true,
{
    if is_tag_token(t) {
        let core = tag_core(t);
        let n = seq!['#'] + core;
        assert(normalized_token(t) == n);
        assert forall|k: int| 0 <= k < core.len() implies core[k] == t[k + 1] by {}
        assert(!has_char(core, '#'));
        assert(n.drop_first() =~= core);
        if core.len() > 0 {
            assert(core.last() != '#') by {
                assert(core[core.len() - 1] == core.last());
            }
        }
        assert(tag_core(n) =~= core);
        assert forall|k: int| 0 <= k < n.len() implies !is_ws(#[trigger] n[k]) by {
            if k > 0 {
                assert(n[k] == core[k - 1]);
                assert(core[k - 1] == t[k]);
            }
        }
    }
}

/// Joining words whose first carries the indentation.
proof fn lemma_join_indented(indent: Seq<char>, words: Seq<Seq<char>>)
    requires
        words.len() > 0,
    ensures
        join(words.update(0, indent + words[0]), seq![' ']) == entry_of(indent, words),
    decreases words.len(),
{
    if words.len() > 1 {
        let w2 = words.drop_last();
        lemma_join_indented(indent, w2);
        assert(words.update(0, indent + words[0]).drop_last() =~= w2.update(0, indent + w2[0]));
        assert(words.update(0, indent + words[0]).last() == words.last());
    }
}

/// An entry's tokens are its words and its leading whitespace is its
/// indentation.
proof fn lemma_entry_tokens(indent: Seq<char>, words: Seq<Seq<char>>)
    requires
        words.len() > 0,
        plain_words(words),
        forall|k: int| 0 <= k < indent.len() ==> is_ws(#[trigger] indent[k]),
    ensures
        tokens(entry_of(indent, words)) == words,
        leading_ws(entry_of(indent, words)) == indent,
{
    let parts = words.update(0, indent + words[0]);
    let e: Seq<char> = seq![];
    let ws = Seq::new(words.len(), |i: int| if i == 0 { indent } else { e });
    lemma_join_indented(indent, words);
    assert forall|i: int| 0 <= i < parts.len() implies #[trigger] parts[i] == ws[i] + words[i] by {
        if i > 0 {
            assert(ws[i] + words[i] =~= words[i]);
        }
    }
    lemma_tokens_of_join(parts, ws, words);
    let x = entry_of(indent, words);
    assert(join(words, seq![' ']).len() > 0 && join(words, seq![' '])[0] == words[0][0]) by {
        lemma_join_first(words);
    }
    assert(x[indent.len() as int] == words[0][0]);
    lemma_skip_ws_to(x, 0, indent.len() as int);
    assert(x.take(indent.len() as int) =~= indent);
}

proof fn lemma_join_first(words: Seq<Seq<char>>)
    requires
        words.len() > 0,
        words[0].len() > 0,
    ensures
        join(words, seq![' ']).len() >= words[0].len(),
        join(words, seq![' ']).len() > 0,
        join(words, seq![' '])[0] == words[0][0],
        forall|k: int| 0 <= k < words[0].len() ==> #[trigger] join(words, seq![' '])[k] == words[0][k],
    decreases words.len(),
{
    if words.len() > 1 {
        lemma_join_first(words.drop_last());
        assert(words.drop_last()[0] == words[0]);
        let j = join(words.drop_last(), seq![' ']);
        assert forall|k: int| 0 <= k < words[0].len() implies #[trigger] join(words, seq![' '])[k]
            == words[0][k] by {
            assert(join(words, seq![' '])[k] == j[k]);
        }
    }
}

proof fn lemma_skip_ws_to(s: Seq<char>, i: int, n: int)
    requires
        0 <= i <= n < s.len(),
        forall|k: int| i <= k < n ==> is_ws(#[trigger] s[k]),
        !is_ws(s[n]),
    ensures
        skip_ws(s, i) == n,
    decreases n - i,
{
    if i < n {
        lemma_skip_ws_to(s, i + 1, n);
    }
}

/// Splitting a tag-led line goes group by group.
proof fn lemma_scan_mixed_groups(toks: Seq<Seq<char>>, indent: Seq<char>)
    requires
        forall|i: int| 0 <= i < toks.len() ==> #[trigger] toks[i].len() > 0,
    ensures
        ({
            let (groups, current) = scan_groups(toks);
            &&& scan_mixed(toks, indent) == (
                groups.map_values(|g: Seq<Seq<char>>| entry_of(indent, g)),
                if current.len() > 0 {
                    entry_of(indent, current)
                } else {
                    Seq::<char>::empty()
                },
            )
            &&& forall|i: int| 0 <= i < groups.len() ==> #[trigger] groups[i].len() > 0
            &&& (toks.len() > 0 ==> current.len() > 0)
        }),
    decreases toks.len(),
{
    if toks.len() > 0 {
        let prev = toks.drop_last();
        assert forall|i: int| 0 <= i < prev.len() implies #[trigger] prev[i].len() > 0 by {
            assert(prev[i] == toks[i]);
        }
        lemma_scan_mixed_groups(prev, indent);
        let (groups, current) = scan_groups(prev);
        let t = toks.last();
        assert(t.len() > 0) by {
            assert(toks[toks.len() - 1] == t);
        }
        let nt = normalized_token(t);
        assert(nt.len() > 0) by {
            if is_tag_token(t) {
                assert(nt.len() == tag_core(t).len() + 1);
            }
        }
        let ce = if current.len() > 0 {
            entry_of(indent, current)
        } else {
            Seq::<char>::empty()
        };
        if current.len() > 0 {
            assert(ce.len() > 0) by {
                lemma_group_words_nonempty(prev);
                assert(current[0].len() > 0);
                lemma_join_first(current);
            }
        }
        if is_tag_token(t) && current.len() > 0 {
            let g2 = groups.push(current);
            assert(g2.map_values(|g: Seq<Seq<char>>| entry_of(indent, g)) =~= groups.map_values(
                |g: Seq<Seq<char>>| entry_of(indent, g),
            ).push(ce));
            assert(seq![nt] =~= Seq::<Seq<char>>::empty().push(nt));
            assert(join(seq![nt], seq![' ']) == nt);
            assert(entry_of(indent, seq![nt]) == indent + nt);
        } else if current.len() > 0 {
            let c2 = current.push(nt);
            assert(c2.drop_last() =~= current);
            assert(join(c2, seq![' ']) == join(current, seq![' ']) + seq![' '] + nt);
            assert(entry_of(indent, c2) =~= ce.push(' ') + nt);
        } else {
            assert(join(seq![nt], seq![' ']) == nt);
            assert(Seq::<Seq<char>>::empty().push(nt) =~= seq![nt]);
        }
    }
}

/// The words of every group are non-empty.
proof fn lemma_group_words_nonempty(toks: Seq<Seq<char>>)
    requires
        forall|i: int| 0 <= i < toks.len() ==> #[trigger] toks[i].len() > 0,
    ensures
        forall|i: int| 0 <= i < scan_groups(toks).1.len() ==> #[trigger] scan_groups(toks).1[i].len() > 0,
        forall|i: int, j: int|
            0 <= i < scan_groups(toks).0.len() && 0 <= j < scan_groups(toks).0[i].len() ==> #[trigger] scan_groups(
                toks,
            ).0[i][j].len() > 0,
    decreases toks.len(),
{
    if toks.len() > 0 {
        let prev = toks.drop_last();
        assert forall|i: int| 0 <= i < prev.len() implies #[trigger] prev[i].len() > 0 by {
            assert(prev[i] == toks[i]);
        }
        lemma_group_words_nonempty(prev);
        let t = toks.last();
        assert(t.len() > 0) by {
            assert(toks[toks.len() - 1] == t);
        }
        let nt = normalized_token(t);
        assert(nt.len() > 0) by {
            if is_tag_token(t) {
                assert(nt.len() == tag_core(t).len() + 1);
            }
        }
        let (groups, current) = scan_groups(prev);
        if is_tag_token(t) && current.len() > 0 {
            assert forall|i: int, j: int|
                0 <= i < groups.push(current).len() && 0 <= j < groups.push(current)[i].len() implies #[trigger] groups.push(
                current,
            )[i][j].len() > 0 by {
                if i < groups.len() {
                    assert(groups.push(current)[i] == groups[i]);
                }
            }
        }
    }
}

/// An entry's words as a tag-led line leaves them: a normalized tag, then
/// text that is not a tag.
pub open spec fn good_group(g: Seq<Seq<char>>) -> bool {
    &&& g.len() > 0
    &&& plain_words(g)
    &&& is_tag_token(g[0])
    &&& normalized_token(g[0]) == g[0]
    &&& forall|i: int| 1 <= i < g.len() ==> !is_tag_token(#[trigger] g[i])
}

/// The groups of a tag-led line's tokens are all good.
proof fn lemma_groups_good(toks: Seq<Seq<char>>)
    requires
        plain_words(toks),
        toks.len() > 0 ==> is_tag_token(toks[0]),
    ensures
        forall|i: int| 0 <= i < scan_groups(toks).0.len() ==> good_group(#[trigger] scan_groups(toks).0[i]),
        toks.len() > 0 ==> good_group(scan_groups(toks).1),
    decreases toks.len(),
{
    if toks.len() > 0 {
        let prev = toks.drop_last();
        assert(plain_words(prev)) by {
            assert forall|i: int| 0 <= i < prev.len() implies #[trigger] prev[i].len() > 0 by {
                assert(prev[i] == toks[i]);
            }
            assert forall|i: int, k: int| 0 <= i < prev.len() && 0 <= k < prev[i].len() implies !is_ws(
                #[trigger] prev[i][k],
            ) by {
                assert(prev[i] == toks[i]);
            }
        }
        if prev.len() > 0 {
            assert(prev[0] == toks[0]);
        }
        lemma_groups_good(prev);
        let t = toks.last();
        assert(t == toks[toks.len() - 1]);
        lemma_normalized_token(t);
        let nt = normalized_token(t);
        let (groups, current) = scan_groups(prev);
        if is_tag_token(t) && current.len() > 0 {
            assert forall|i: int| 0 <= i < groups.push(current).len() implies good_group(
                #[trigger] groups.push(current)[i],
            ) by {
                if i < groups.len() {
                    assert(groups.push(current)[i] == groups[i]);
                }
            }
            let g = seq![nt];
            assert(Seq::<Seq<char>>::empty().push(nt) =~= g);
            assert(good_group(g));
        } else if current.len() > 0 {
            let g = current.push(nt);
            assert(!is_tag_token(t));
            assert(g[0] == current[0]);
            assert forall|i: int| 1 <= i < g.len() implies !is_tag_token(#[trigger] g[i]) by {
                if i < current.len() {
                    assert(g[i] == current[i]);
                }
            }
            assert forall|i: int| 0 <= i < g.len() implies #[trigger] g[i].len() > 0 by {
                if i < current.len() {
                    assert(g[i] == current[i]);
                }
            }
            assert forall|i: int, k: int| 0 <= i < g.len() && 0 <= k < g[i].len() implies !is_ws(
                #[trigger] g[i][k],
            ) by {
                if i < current.len() {
                    assert(g[i] == current[i]);
                }
            }
        } else {
            assert(prev.len() == 0);
            assert(is_tag_token(t));
            let g = seq![nt];
            assert(Seq::<Seq<char>>::empty().push(nt) =~= g);
        }
    }
}

/// A good group's words are one group.
proof fn lemma_scan_groups_good(g: Seq<Seq<char>>, k: int)
    requires
        good_group(g),
        1 <= k <= g.len(),
    ensures
        scan_groups(g.take(k)) == (Seq::<Seq<Seq<char>>>::empty(), g.take(k)),
    decreases k,
{
    let t = g[k - 1];
    let none = Seq::<Seq<Seq<char>>>::empty();
    let e = Seq::<Seq<char>>::empty();
    assert(g.take(k).drop_last() =~= g.take(k - 1));
    assert(g.take(k).last() == t);
    assert(normalized_token(t) == t);
    if k == 1 {
        assert(g.take(0) =~= e);
        assert(scan_groups(e) == (none, e));
        assert(scan_groups(g.take(k - 1)) == (none, e));
        assert(scan_groups(g.take(k)) == (none, e.push(t)));
        assert(e.push(t) =~= g.take(1));
    } else {
        lemma_scan_groups_good(g, k - 1);
        assert(!is_tag_token(t));
        assert(scan_groups(g.take(k)) == (none, g.take(k - 1).push(t)));
        assert(g.take(k - 1).push(t) =~= g.take(k));
    }
}

/// An entry of a good group reads back, on a second pass, as itself.
proof fn lemma_entry_splits(indent: Seq<char>, g: Seq<Seq<char>>)
    requires
        good_group(g),
        forall|k: int| 0 <= k < indent.len() ==> is_ws(#[trigger] indent[k]),
    ensures
        split_mixed(entry_of(indent, g)) == seq![entry_of(indent, g)],
        tokens(entry_of(indent, g)) == g,
        spec_starts_with_tag(entry_of(indent, g)),
{
    let e = entry_of(indent, g);
    lemma_entry_tokens(indent, g);
    lemma_scan_groups_good(g, g.len() as int);
    assert(g.take(g.len() as int) =~= g);
    lemma_scan_mixed_groups(g, indent);
    assert(Seq::<Seq<Seq<char>>>::empty().map_values(|x: Seq<Seq<char>>| entry_of(indent, x))
        =~= Seq::<Seq<char>>::empty());
    assert(e.len() > 0) by {
        lemma_join_first(g);
    }
    assert(Seq::<Seq<char>>::empty().push(e) =~= seq![e]);
}

/// Bare tags joined on one indented line split back into themselves, each
/// with the line's indentation.
proof fn lemma_line_splits(indent: Seq<char>, tags: Seq<Seq<char>>)
    requires
        tags.len() > 0,
        forall|i: int| 0 <= i < tags.len() ==> good_group(seq![#[trigger] tags[i]]),
        forall|k: int| 0 <= k < indent.len() ==> is_ws(#[trigger] indent[k]),
    ensures
        ({
            let m = indent + join(tags, seq![' ']);
            &&& split_mixed(m) == tags.map_values(|t: Seq<char>| indent + t)
            &&& spec_starts_with_tag(m)
        }),
{
    let entries = tags.map_values(|t: Seq<char>| indent + t);
    let m = indent + join(tags, seq![' ']);
    assert forall|i: int| 0 <= i < tags.len() implies plain_words(seq![#[trigger] tags[i]]) && is_tag_token(tags[i]) by {
        assert(good_group(seq![tags[i]]));
        assert(seq![tags[i]][0] == tags[i]);
    }
    assert forall|i: int| 0 <= i < tags.len() implies #[trigger] tags[i].len() > 0 by {
        assert(plain_words(seq![tags[i]]));
        assert(seq![tags[i]][0] == tags[i]);
    }
    assert forall|i: int, k: int| 0 <= i < tags.len() && 0 <= k < tags[i].len() implies !is_ws(
        #[trigger] tags[i][k],
    ) by {
        assert(plain_words(seq![tags[i]]));
        assert(seq![tags[i]][0] == tags[i]);
    }
    assert(plain_words(tags));
    lemma_entry_tokens(indent, tags);
    assert(m == entry_of(indent, tags));
    // Every tag starts a new group.
    lemma_scan_groups_tags(tags, tags.len() as int);
    assert(tags.take(tags.len() as int) =~= tags);
    lemma_scan_mixed_groups(tags, indent);
    let (groups, current) = scan_groups(tags);
    assert forall|i: int| 0 <= i < tags.len() implies #[trigger] entry_of(indent, seq![tags[i]])
        == indent + tags[i] by {
        assert(join(seq![tags[i]], seq![' ']) == tags[i]);
    }
    assert(groups.map_values(|g: Seq<Seq<char>>| entry_of(indent, g)).push(entry_of(indent, current))
        =~= entries);
    assert(is_tag_token(tokens(m)[0]));
}

/// A tag behind an indentation: its leading whitespace is the indentation,
/// and without it the tag is left.
proof fn lemma_indented_tag(indent: Seq<char>, t: Seq<char>)
    requires
        forall|k: int| 0 <= k < indent.len() ==> is_ws(#[trigger] indent[k]),
        t.len() > 0,
        !is_ws(t[0]),
    ensures
        leading_ws(indent + t) == indent,
        bare_tag(indent + t) == t,
{
    let x = indent + t;
    assert(x[indent.len() as int] == t[0]);
    lemma_skip_ws_to(x, 0, indent.len() as int);
    assert(x.take(indent.len() as int) =~= indent);
    assert(x.skip(indent.len() as int) =~= t);
}

/// Tags each start their own group.
proof fn lemma_scan_groups_tags(tags: Seq<Seq<char>>, k: int)
    requires
        1 <= k <= tags.len(),
        forall|i: int| 0 <= i < tags.len() ==> good_group(seq![#[trigger] tags[i]]),
    ensures
        scan_groups(tags.take(k)) == (
            Seq::new((k - 1) as nat, |i: int| seq![tags[i]]),
            seq![tags[k - 1]],
        ),
    decreases k,
{
    let t = tags[k - 1];
    let none = Seq::<Seq<Seq<char>>>::empty();
    let e = Seq::<Seq<char>>::empty();
    assert(good_group(seq![t]));
    assert(seq![t][0] == t);
    assert(is_tag_token(t));
    assert(normalized_token(t) == t);
    assert(tags.take(k).drop_last() =~= tags.take(k - 1));
    assert(tags.take(k).last() == t);
    assert(e.push(t) =~= seq![t]);
    if k == 1 {
        assert(tags.take(0) =~= e);
        assert(scan_groups(e) == (none, e));
        assert(scan_groups(tags.take(k - 1)) == (none, e));
        assert(scan_groups(tags.take(k)) == (none, e.push(t)));
        assert(Seq::new(0, |i: int| seq![tags[i]]) =~= none);
    } else {
        lemma_scan_groups_tags(tags, k - 1);
        let prev_groups = Seq::new((k - 2) as nat, |i: int| seq![tags[i]]);
        assert(scan_groups(tags.take(k)) == (prev_groups.push(seq![tags[k - 2]]), e.push(t)));
        assert(prev_groups.push(seq![tags[k - 2]]) =~= Seq::new(
            (k - 1) as nat,
            |i: int| seq![tags[i]],
        ));
    }
}

/// The scan state over the lines of a note without code.
pub type TagState = (Seq<Seq<char>>, Option<int>, Seq<Seq<char>>, Seq<Seq<char>>);

/// One line of a note without code, classified.
pub open spec fn tag_step(st: TagState, content: Seq<char>) -> TagState {
    let (kept, anchor, bare, annotated) = st;
    if spec_starts_with_tag(content) {
        let (bare, annotated) = sort_entries(split_mixed(content), bare, annotated);
        (kept, anchor, bare, annotated)
    } else {
        let anchor = if anchor is None && spec_heading_level(content) is Some {
            Some(kept.len() as int)
        } else {
            anchor
        };
        (kept.push(content), anchor, bare, annotated)
    }
}

/// Lines of a note without code, classified in turn from a state.
pub open spec fn tag_fold(st: TagState, lines: Seq<Seq<char>>) -> TagState
    decreases lines.len(),
{
    if lines.len() == 0 {
        st
    } else {
        tag_step(tag_fold(st, lines.drop_last()), lines.last())
    }
}

pub open spec fn tag_start() -> TagState {
    (seq![], None, seq![], seq![])
}

/// Without code, the words a line is split into are its whitespace-separated
/// tokens.
proof fn lemma_plain_scan(s: Seq<char>, start: int)
    ensures
        scan_code_tokens(s, start, seq![]) == (
            scan_tokens(s).0.map_values(|w: Seq<char>| (w, false)),
            (scan_tokens(s).1, false),
        ),
    decreases s.len(),
{
    if s.len() > 0 {
        lemma_plain_scan(s.drop_last(), start);
        let (done, current) = scan_tokens(s.drop_last());
        assert(!in_ranges(seq![], start + utf8_len(s.drop_last())));
        assert(done.push(current).map_values(|w: Seq<char>| (w, false)) =~= done.map_values(
            |w: Seq<char>| (w, false),
        ).push((current, false)));
    } else {
        assert(Seq::<Seq<char>>::empty().map_values(|w: Seq<char>| (w, false)) =~= Seq::<
            (Seq<char>, bool),
        >::empty());
    }
}

proof fn lemma_plain_words(line: Seq<char>, off: int)
    ensures
        entry_words(line, off, seq![]) == tokens(line),
        split_entries(line, off, seq![]) == split_mixed(line),
{
    lemma_plain_scan(line, off);
    let (done, current) = scan_tokens(line);
    let flagged = done.map_values(|w: Seq<char>| (w, false));
    if current.len() > 0 {
        assert(flagged.push((current, false)).map_values(|w: (Seq<char>, bool)| w.0) =~= done.push(
            current,
        ));
    } else {
        assert(flagged.map_values(|w: (Seq<char>, bool)| w.0) =~= done);
    }
}

proof fn lemma_scan_tags_fold(s: Seq<char>, n: int)
    requires
        0 <= n <= line_bounds(s).len(),
    ensures
        scan_tags(s, seq![], n) == tag_fold(tag_start(), contents(s, n)),
    decreases n,
{
    if n > 0 {
        lemma_scan_tags_fold(s, n - 1);
        assert(contents(s, n).drop_last() =~= contents(s, n - 1));
        let b = line_bounds(s)[n - 1];
        assert(!in_ranges(seq![], byte_offset(s, b.0) as int));
        lemma_plain_words(line_text(s, b), byte_offset(s, b.0) as int);
    } else {
        assert(contents(s, 0) =~= Seq::<Seq<char>>::empty());
    }
}

proof fn lemma_tag_fold_concat(st: TagState, x: Seq<Seq<char>>, y: Seq<Seq<char>>)
    ensures
        tag_fold(st, x + y) == tag_fold(tag_fold(st, x), y),
    decreases y.len(),
{
    if y.len() == 0 {
        assert(x + y =~= x);
    } else {
        assert((x + y).drop_last() =~= x + y.drop_last());
        lemma_tag_fold_concat(st, x, y.drop_last());
    }
}

/// The index of the first heading among kept lines.
pub open spec fn first_heading(kept: Seq<Seq<char>>) -> Option<int>
    decreases kept.len(),
{
    if kept.len() == 0 {
        None
    } else {
        match first_heading(kept.drop_last()) {
            Some(a) => Some(a),
            None => if spec_heading_level(kept.last()) is Some {
                Some(kept.len() - 1)
            } else {
                None
            },
        }
    }
}

/// An entry as a first pass leaves it: its indentation, then a good group
/// of words.
pub open spec fn entry_ok(e: Seq<char>) -> bool {
    &&& e == entry_of(leading_ws(e), tokens(e))
    &&& good_group(tokens(e))
    &&& forall|k: int| 0 <= k < leading_ws(e).len() ==> is_ws(#[trigger] leading_ws(e)[k])
    &&& no_newline(leading_ws(e))
}

/// Words joined with spaces hold no line break.
proof fn lemma_join_plain(g: Seq<Seq<char>>)
    requires
        plain_words(g),
    ensures
        no_newline(join(g, seq![' '])),
    decreases g.len(),
{
    if g.len() > 1 {
        let p = g.drop_last();
        assert(plain_words(p)) by {
            assert forall|i: int| 0 <= i < p.len() implies #[trigger] p[i].len() > 0 by {
                assert(p[i] == g[i]);
            }
            assert forall|i: int, k: int| 0 <= i < p.len() && 0 <= k < p[i].len() implies !is_ws(
                #[trigger] p[i][k],
            ) by {
                assert(p[i] == g[i]);
            }
        }
        lemma_join_plain(p);
        let j = join(p, seq![' ']) + seq![' '] + g.last();
        assert forall|k: int| 0 <= k < j.len() implies j[k] != '\n' by {
            if k > join(p, seq![' ']).len() {
                assert(j[k] == g[g.len() - 1][k - join(p, seq![' ']).len() - 1]);
                assert(!is_ws(g[g.len() - 1][k - join(p, seq![' ']).len() - 1]));
            }
        }
    } else if g.len() == 1 {
        assert forall|k: int| 0 <= k < g[0].len() implies g[0][k] != '\n' by {
            assert(!is_ws(g[0][k]));
        }
    }
}

/// An entry as a first pass leaves it holds no line break.
proof fn lemma_entry_no_newline(e: Seq<char>)
    requires
        entry_ok(e),
    ensures
        no_newline(e),
{
    lemma_join_plain(tokens(e));
    let i = leading_ws(e);
    let j = join(tokens(e), seq![' ']);
    assert forall|k: int| 0 <= k < e.len() implies e[k] != '\n' by {
        if k < i.len() {
            assert(e[k] == i[k]);
        } else {
            assert(e[k] == j[k - i.len()]);
        }
    }
}

/// What a first pass over lines without code keeps: untagged lines, the
/// first heading among them, bare and annotated entries.
pub open spec fn state_ok(st: TagState) -> bool {
    let (kept, anchor, bare, annotated) = st;
    &&& forall|k: int| 0 <= k < kept.len() ==> !spec_starts_with_tag(#[trigger] kept[k])
    &&& anchor == first_heading(kept)
    &&& forall|k: int|
        0 <= k < bare.len() ==> entry_ok(#[trigger] bare[k]) && tokens(bare[k]).len() == 1
    &&& forall|k: int|
        0 <= k < annotated.len() ==> entry_ok(#[trigger] annotated[k]) && tokens(annotated[k]).len() > 1
}

proof fn lemma_leading_ws(line: Seq<char>)
    ensures
        forall|k: int| 0 <= k < leading_ws(line).len() ==> is_ws(#[trigger] leading_ws(line)[k]),
{
    crate::scan::lemma_skip_ws_bounds(line, 0);
    assert forall|k: int| 0 <= k < leading_ws(line).len() implies is_ws(#[trigger] leading_ws(line)[k]) by {
        assert(leading_ws(line)[k] == line[k]);
    }
}

/// Every entry of a tag-led line is as a first pass leaves it.
proof fn lemma_split_mixed_ok(line: Seq<char>)
    requires
        spec_starts_with_tag(line),
        no_newline(line),
    ensures
        forall|i: int| 0 <= i < split_mixed(line).len() ==> entry_ok(#[trigger] split_mixed(line)[i]),
{
    let toks = tokens(line);
    let indent = leading_ws(line);
    crate::scan::lemma_tokens_shape(line);
    lemma_leading_ws(line);
    assert(plain_words(toks));
    lemma_groups_good(toks);
    lemma_scan_mixed_groups(toks, indent);
    let (groups, current) = scan_groups(toks);
    let entries = split_mixed(line);
    assert forall|i: int| 0 <= i < entries.len() implies entry_ok(#[trigger] entries[i]) by {
        let g = if i < groups.len() {
            groups[i]
        } else {
            current
        };
        assert(entries[i] == entry_of(indent, g));
        assert(good_group(g));
        lemma_entry_tokens(indent, g);
        crate::scan::lemma_skip_ws_bounds(line, 0);
        assert forall|k: int| 0 <= k < indent.len() implies indent[k] != '\n' by {
            assert(indent[k] == line[k]);
        }
    }
}

/// A bare entry without its indentation is still an entry as a first pass
/// leaves it, now with no indentation.
proof fn lemma_bare_tag_ok(e: Seq<char>)
    requires
        entry_ok(e),
        tokens(e).len() == 1,
    ensures
        entry_ok(bare_tag(e)),
        tokens(bare_tag(e)) == tokens(e),
        leading_ws(bare_tag(e)) == Seq::<char>::empty(),
{
    let ind = leading_ws(e);
    let g = tokens(e);
    crate::scan::lemma_skip_ws_bounds(e, 0);
    assert(ind.len() == skip_ws(e, 0));
    assert(e == ind + join(g, seq![' ']));
    assert(bare_tag(e) =~= join(g, seq![' ']));
    assert(entry_of(Seq::<char>::empty(), g) =~= join(g, seq![' ']));
    lemma_entry_tokens(Seq::<char>::empty(), g);
    assert(no_newline(Seq::<char>::empty()));
}

/// Sorting entries into bare and annotated keeps them as a first pass
/// leaves them.
proof fn lemma_sort_entries_ok(entries: Seq<Seq<char>>, bare: Seq<Seq<char>>, annotated: Seq<Seq<char>>)
    requires
        forall|i: int| 0 <= i < entries.len() ==> entry_ok(#[trigger] entries[i]),
        forall|k: int|
            0 <= k < bare.len() ==> entry_ok(#[trigger] bare[k]) && tokens(bare[k]).len() == 1,
        forall|k: int|
            0 <= k < annotated.len() ==> entry_ok(#[trigger] annotated[k]) && tokens(annotated[k]).len() > 1,
    ensures
        ({
            let (b, a) = sort_entries(entries, bare, annotated);
            &&& forall|k: int|
                0 <= k < b.len() ==> entry_ok(#[trigger] b[k]) && tokens(b[k]).len() == 1
            &&& forall|k: int| 0 <= k < a.len() ==> entry_ok(#[trigger] a[k]) && tokens(a[k]).len() > 1
        }),
    decreases entries.len(),
{
    if entries.len() > 0 {
        let prev = entries.drop_last();
        assert forall|i: int| 0 <= i < prev.len() implies entry_ok(#[trigger] prev[i]) by {
            assert(prev[i] == entries[i]);
        }
        lemma_sort_entries_ok(prev, bare, annotated);
        let e = entries.last();
        assert(entry_ok(e)) by {
            assert(entries[entries.len() - 1] == e);
        }
        let (b, a) = sort_entries(prev, bare, annotated);
        assert(tokens(e).len() >= 1);
        if tokens(e).len() > 1 {
            assert forall|k: int| 0 <= k < a.push(e).len() implies entry_ok(#[trigger] a.push(e)[k])
                && tokens(a.push(e)[k]).len() > 1 by {
                if k < a.len() {
                    assert(a.push(e)[k] == a[k]);
                }
            }
        } else {
            assert forall|k: int| 0 <= k < b.push(e).len() implies entry_ok(#[trigger] b.push(e)[k])
                && tokens(b.push(e)[k]).len() == 1 by {
                if k < b.len() {
                    assert(b.push(e)[k] == b[k]);
                }
            }
        }
    }
}

/// A first pass keeps its state as described.
proof fn lemma_tag_fold_ok(lines: Seq<Seq<char>>)
    requires
        forall|k: int| 0 <= k < lines.len() ==> no_newline(#[trigger] lines[k]),
    ensures
        state_ok(tag_fold(tag_start(), lines)),
    decreases lines.len(),
{
    if lines.len() == 0 {
        assert(first_heading(Seq::<Seq<char>>::empty()) is None);
    } else {
        assert forall|k: int| 0 <= k < lines.drop_last().len() implies no_newline(
            #[trigger] lines.drop_last()[k],
        ) by {
            assert(lines.drop_last()[k] == lines[k]);
        }
        assert(no_newline(lines[lines.len() - 1]));
        lemma_tag_fold_ok(lines.drop_last());
        let st = tag_fold(tag_start(), lines.drop_last());
        let (kept, anchor, bare, annotated) = st;
        let c = lines.last();
        if spec_starts_with_tag(c) {
            lemma_split_mixed_ok(c);
            lemma_sort_entries_ok(split_mixed(c), bare, annotated);
        } else {
            let k2 = kept.push(c);
            assert(k2.drop_last() =~= kept);
            assert forall|k: int| 0 <= k < k2.len() implies !spec_starts_with_tag(#[trigger] k2[k]) by {
                if k < kept.len() {
                    assert(k2[k] == kept[k]);
                }
            }
        }
    }
}

/// Untagged lines are kept in order, the first heading among them found.
proof fn lemma_fold_kept(st: TagState, lines: Seq<Seq<char>>)
    requires
        forall|k: int| 0 <= k < lines.len() ==> !spec_starts_with_tag(#[trigger] lines[k]),
        st.1 == first_heading(st.0),
    ensures
        tag_fold(st, lines) == (st.0 + lines, first_heading(st.0 + lines), st.2, st.3),
    decreases lines.len(),
{
    if lines.len() == 0 {
        assert(st.0 + lines =~= st.0);
    } else {
        let prev = lines.drop_last();
        assert forall|k: int| 0 <= k < prev.len() implies !spec_starts_with_tag(#[trigger] prev[k]) by {
            assert(prev[k] == lines[k]);
        }
        lemma_fold_kept(st, prev);
        assert(!spec_starts_with_tag(lines[lines.len() - 1]));
        assert((st.0 + prev).push(lines.last()) =~= st.0 + lines);
        assert((st.0 + lines).drop_last() =~= st.0 + prev);
    }
}

/// Bare entries only: all added to the bare list in order.
proof fn lemma_sort_entries_bare(entries: Seq<Seq<char>>, bare: Seq<Seq<char>>, annotated: Seq<Seq<char>>)
    requires
        forall|i: int| 0 <= i < entries.len() ==> tokens(#[trigger] entries[i]).len() == 1,
    ensures
        sort_entries(entries, bare, annotated) == (bare + entries, annotated),
    decreases entries.len(),
{
    if entries.len() == 0 {
        assert(bare + entries =~= bare);
    } else {
        let prev = entries.drop_last();
        assert forall|i: int| 0 <= i < prev.len() implies tokens(#[trigger] prev[i]).len() == 1 by {
            assert(prev[i] == entries[i]);
        }
        lemma_sort_entries_bare(prev, bare, annotated);
        assert(tokens(entries[entries.len() - 1]).len() == 1);
        assert((bare + prev).push(entries.last()) =~= bare + entries);
    }
}

/// Annotated lines of a first pass: each read back as one annotated entry.
proof fn lemma_fold_annotated(st: TagState, lines: Seq<Seq<char>>)
    requires
        forall|k: int| 0 <= k < lines.len() ==> entry_ok(#[trigger] lines[k]) && tokens(lines[k]).len() > 1,
    ensures
        tag_fold(st, lines) == (st.0, st.1, st.2, st.3 + lines),
    decreases lines.len(),
{
    if lines.len() == 0 {
        assert(st.3 + lines =~= st.3);
    } else {
        let prev = lines.drop_last();
        assert forall|k: int| 0 <= k < prev.len() implies entry_ok(#[trigger] prev[k]) && tokens(
            prev[k],
        ).len() > 1 by {
            assert(prev[k] == lines[k]);
        }
        lemma_fold_annotated(st, prev);
        let a = lines.last();
        assert(entry_ok(a) && tokens(a).len() > 1) by {
            assert(lines[lines.len() - 1] == a);
        }
        lemma_entry_splits(leading_ws(a), tokens(a));
        let e = seq![a];
        assert(e.drop_last() =~= Seq::<Seq<char>>::empty());
        assert(sort_entries(Seq::<Seq<char>>::empty(), st.2, st.3 + prev) == (st.2, st.3 + prev));
        assert(sort_entries(e, st.2, st.3 + prev) == (st.2, (st.3 + prev).push(a)));
        assert((st.3 + prev).push(a) =~= st.3 + lines);
    }
}

/// Tags whose keys are in order and distinct are kept as they are.
proof fn lemma_dedupe_sorted_fixed(tags: Seq<Seq<char>>)
    requires
        keys_distinct(tags),
        keys_sorted(tags),
    ensures
        dedupe_tags(tags) == tags,
        sort_tags(tags) == tags,
    decreases tags.len(),
{
    if tags.len() > 0 {
        let prev = tags.drop_last();
        assert(keys_distinct(prev)) by {
            assert forall|i: int, j: int| 0 <= i < j < prev.len() implies tag_key(#[trigger] prev[i])
                != tag_key(#[trigger] prev[j]) by {
                assert(prev[i] == tags[i] && prev[j] == tags[j]);
            }
        }
        assert(keys_sorted(prev)) by {
            assert forall|i: int, j: int| 0 <= i < j < prev.len() implies !lex_lt(
                tag_key(#[trigger] prev[j]),
                tag_key(#[trigger] prev[i]),
            ) by {
                assert(prev[i] == tags[i] && prev[j] == tags[j]);
            }
        }
        lemma_dedupe_sorted_fixed(prev);
        let t = tags.last();
        assert(!has_key(prev, tag_key(t))) by {
            if has_key(prev, tag_key(t)) {
                let j = choose|j: int| 0 <= j < prev.len() && tag_key(#[trigger] prev[j]) == tag_key(t);
                assert(prev[j] == tags[j]);
                assert(tags[tags.len() - 1] == t);
            }
        }
        assert(prev.push(t) =~= tags);
        if prev.len() > 0 {
            assert(prev.last() == tags[tags.len() - 2]);
            assert(tags[tags.len() - 1] == t);
            assert(!lex_lt(tag_key(t), tag_key(prev.last())));
        }
    }
}

proof fn lemma_first_heading(kept: Seq<Seq<char>>)
    ensures
        first_heading(kept) matches Some(a) ==> 0 <= a < kept.len() && spec_heading_level(kept[a]) is Some,
    decreases kept.len(),
{
    if kept.len() > 0 {
        lemma_first_heading(kept.drop_last());
        if let Some(a) = first_heading(kept.drop_last()) {
            assert(kept.drop_last()[a] == kept[a]);
        }
    }
}

proof fn lemma_heading_nonempty(c: Seq<char>)
    requires
        spec_heading_level(c) is Some,
    ensures
        c.len() > 0,
{
    if c.len() == 0 {
        assert(crate::scan::skip_blanks(c, 0) == 0);
        assert(crate::scan::run_end(c, 0, '#') == 0);
    }
}

proof fn lemma_join_no_newline(parts: Seq<Seq<char>>)
    requires
        forall|k: int| 0 <= k < parts.len() ==> no_newline(#[trigger] parts[k]),
    ensures
        no_newline(join(parts, seq![' '])),
    decreases parts.len(),
{
    if parts.len() > 1 {
        let prev = parts.drop_last();
        assert forall|k: int| 0 <= k < prev.len() implies no_newline(#[trigger] prev[k]) by {
            assert(prev[k] == parts[k]);
        }
        lemma_join_no_newline(prev);
        assert(no_newline(parts[parts.len() - 1]));
        let j = join(prev, seq![' ']);
        let x = j + seq![' '] + parts.last();
        assert forall|k: int| 0 <= k < x.len() implies x[k] != '\n' by {
            if k > j.len() {
                assert(x[k] == parts.last()[k - j.len() - 1]);
            }
        }
    } else if parts.len() == 1 {
        assert(no_newline(parts[0]));
    }
}

/// What a first pass over a note without code gathers, as a second pass
/// needs it.
pub open spec fn gathered_ok(
    kept: Seq<Seq<char>>,
    anchor: Option<int>,
    bare: Seq<Seq<char>>,
    annotated: Seq<Seq<char>>,
) -> bool {
    let r = sort_tags(dedupe_tags(tags_of(bare)));
    let ind = bare_indent(bare);
    let m = merged_line(bare);
    &&& forall|k: int|
        0 <= k < kept.len() ==> no_newline(#[trigger] kept[k]) && !spec_starts_with_tag(kept[k])
    &&& anchor == first_heading(kept)
    &&& keys_sorted(r)
    &&& keys_distinct(r)
    &&& (bare.len() > 0 <==> r.len() > 0)
    &&& forall|k: int| 0 <= k < ind.len() ==> is_ws(#[trigger] ind[k])
    &&& forall|i: int|
        0 <= i < r.len() ==> tokens(#[trigger] r[i]).len() == 1 && r[i].len() > 0 && !is_ws(r[i][0])
            && good_group(seq![r[i]])
    &&& (r.len() > 0 ==> split_mixed(m) == r.map_values(|t: Seq<char>| ind + t)
        && spec_starts_with_tag(m) && m.len() > 0)
    &&& m == ind + join(r, seq![' '])
    &&& no_newline(m)
    &&& forall|k: int|
        0 <= k < annotated.len() ==> entry_ok(#[trigger] annotated[k]) && tokens(annotated[k]).len()
            > 1 && no_newline(annotated[k]) && annotated[k].len() > 0
}

/// A first pass over a note without code gathers as a second pass needs.
#[verifier::rlimit(30)]
proof fn lemma_first_pass(s: Seq<char>)
    ensures
        ({
            let (kept, anchor, bare, annotated) = scan_tags(s, seq![], line_bounds(s).len() as int);
            gathered_ok(kept, anchor, bare, annotated)
        }),
{
    let n = line_bounds(s).len() as int;
    lemma_scan_tags_fold(s, n);
    let cs = contents(s, n);
    lemma_line_pieces_wf(s);
    assert forall|k: int| 0 <= k < cs.len() implies no_newline(#[trigger] cs[k]) by {
        assert(cs[k] == line_pieces(s)[k].0);
    }
    lemma_tag_fold_ok(cs);
    let (kept, anchor, bare, annotated) = scan_tags(s, seq![], n);
    assert forall|k: int| 0 <= k < kept.len() implies no_newline(#[trigger] kept[k]) by {
        lemma_kept_lines(cs, k);
    }
    let tb = tags_of(bare);
    let r = sort_tags(dedupe_tags(tb));
    merged_tags_sorted_and_deduplicated(tb);
    let ind = bare_indent(bare);
    assert forall|k: int| 0 <= k < tb.len() implies entry_ok(#[trigger] tb[k]) && tokens(tb[k]).len()
        == 1 && leading_ws(tb[k]) == Seq::<char>::empty() by {
        assert(entry_ok(bare[k]) && tokens(bare[k]).len() == 1);
        lemma_bare_tag_ok(bare[k]);
    }
    assert forall|i: int| 0 <= i < r.len() implies entry_ok(#[trigger] r[i]) && tokens(r[i]).len()
        == 1 && good_group(seq![r[i]]) && no_newline(r[i]) && r[i].len() > 0 && !is_ws(r[i][0]) by {
        assert(tb.contains(r[i]));
        let j = choose|j: int| 0 <= j < tb.len() && tb[j] == r[i];
        assert(entry_ok(tb[j]) && tokens(tb[j]).len() == 1);
        let w = tokens(r[i])[0];
        assert(tokens(r[i]) =~= seq![w]);
        assert(join(seq![w], seq![' ']) == w);
        assert(entry_of(Seq::<char>::empty(), seq![w]) =~= w);
        assert(r[i] == w);
        lemma_entry_no_newline(r[i]);
        assert(good_group(seq![w]));
        assert(plain_words(seq![w]));
        assert(seq![w][0] == w);
        assert(w.len() > 0);
    }
    let m = merged_line(bare);
    assert(m == ind + join(r, seq![' ']));
    if bare.len() > 0 {
        assert(entry_ok(bare[0]));
    }
    assert(no_newline(ind));
    assert forall|k: int| 0 <= k < ind.len() implies is_ws(#[trigger] ind[k]) by {
        if bare.len() > 0 {
            assert(entry_ok(bare[0]));
        }
    }
    if r.len() > 0 {
        lemma_line_splits(ind, r);
        lemma_join_first(r);
    }
    assert forall|k: int| 0 <= k < r.len() implies no_newline(#[trigger] r[k]) by {}
    lemma_join_no_newline(r);
    crate::lines::lemma_no_newline_concat(ind, join(r, seq![' ']));
    assert(r.len() > 0 <==> bare.len() > 0) by {
        if bare.len() > 0 {
            assert(tb[0] == bare_tag(bare[0]));
            assert(has_key(r, tag_key(tb[0])));
        }
    }
    assert forall|k: int| 0 <= k < annotated.len() implies no_newline(#[trigger] annotated[k])
        && annotated[k].len() > 0 by {
        lemma_entry_no_newline(annotated[k]);
        lemma_join_first(tokens(annotated[k]));
    }
}

/// The note a first pass writes, from what it gathered.
pub open spec fn gathered_text(
    kept: Seq<Seq<char>>,
    anchor: Option<int>,
    bare: Seq<Seq<char>>,
    annotated: Seq<Seq<char>>,
    fb: Seq<char>,
) -> Seq<char> {
    let top = if bare.len() > 0 {
        seq![merged_line(bare)] + annotated
    } else {
        annotated
    };
    let at = match anchor {
        Some(a) => a + 1,
        None => 0,
    };
    join(kept.take(at) + top + kept.skip(at), seq!['\n']) + fb
}

/// A second pass over the lines a first pass wrote classifies them alike.
#[verifier::rlimit(30)]
proof fn lemma_second_pass_fold(
    kept: Seq<Seq<char>>,
    anchor: Option<int>,
    bare: Seq<Seq<char>>,
    annotated: Seq<Seq<char>>,
    keep: int,
)
    requires
        gathered_ok(kept, anchor, bare, annotated),
        anchor matches Some(a) ==> a + 1 <= keep,
        0 <= keep <= kept.len(),
    ensures
        ({
            let r = sort_tags(dedupe_tags(tags_of(bare)));
            let ind = bare_indent(bare);
            let top = if bare.len() > 0 {
                seq![merged_line(bare)] + annotated
            } else {
                annotated
            };
            let at = match anchor {
                Some(a) => a + 1,
                None => 0,
            };
            let k2 = kept.take(keep);
            tag_fold(tag_start(), k2.take(at) + top + k2.skip(at)) == (
                k2,
                first_heading(k2),
                r.map_values(|t: Seq<char>| ind + t),
                annotated,
            )
        }),
{
    let r = sort_tags(dedupe_tags(tags_of(bare)));
    let ind = bare_indent(bare);
    let rb = r.map_values(|t: Seq<char>| ind + t);
    let m = merged_line(bare);
    let top = if bare.len() > 0 {
        seq![merged_line(bare)] + annotated
    } else {
        annotated
    };
    let at = match anchor {
        Some(a) => a + 1,
        None => 0,
    };
    lemma_first_heading(kept);
    assert(at <= keep);
    let k2 = kept.take(keep);
    assert forall|k: int| 0 <= k < k2.len() implies !spec_starts_with_tag(#[trigger] k2[k]) by {
        assert(k2[k] == kept[k]);
    }
    let e = Seq::<Seq<char>>::empty();
    let start = tag_start();
    let head = k2.take(at);
    assert forall|k: int| 0 <= k < head.len() implies !spec_starts_with_tag(#[trigger] head[k]) by {
        assert(head[k] == k2[k]);
    }
    lemma_fold_kept(start, head);
    assert(e + head =~= head);
    let st1 = tag_fold(start, head);
    assert(st1 == (head, first_heading(head), e, e));
    let st2 = (head, first_heading(head), rb, annotated);
    assert(tag_fold(st1, top) == st2) by {
        if bare.len() > 0 {
            let one = seq![m];
            assert(one.drop_last() =~= e);
            assert(tag_fold(st1, one.drop_last()) == st1);
            assert(one.last() == m);
            assert(tag_fold(st1, one) == tag_step(st1, m));
            assert forall|i: int| 0 <= i < rb.len() implies tokens(#[trigger] rb[i]).len() == 1 by {
                assert(rb[i] == ind + r[i]);
                assert(join(seq![r[i]], seq![' ']) == r[i]);
                assert(entry_of(ind, seq![r[i]]) == ind + r[i]);
                assert(good_group(seq![r[i]]));
                lemma_entry_tokens(ind, seq![r[i]]);
            }
            lemma_sort_entries_bare(rb, e, e);
            assert(e + rb =~= rb);
            lemma_tag_fold_concat(st1, one, annotated);
            assert(one + annotated =~= top);
            lemma_fold_annotated(tag_fold(st1, one), annotated);
            assert(e + annotated =~= annotated);
        } else {
            lemma_fold_annotated(st1, annotated);
            assert(e + annotated =~= annotated);
            assert(rb =~= e);
        }
    }
    let tail = k2.skip(at);
    assert forall|k: int| 0 <= k < tail.len() implies !spec_starts_with_tag(#[trigger] tail[k]) by {
        assert(tail[k] == k2[at + k]);
    }
    lemma_tag_fold_concat(start, head + top, tail);
    lemma_tag_fold_concat(start, head, top);
    lemma_fold_kept(st2, tail);
    assert(head + tail =~= k2);
}

/// Gathering tags is idempotent on a text without code: a second pass
/// changes nothing.
pub proof fn tags_idempotent(s: Seq<char>)
    ensures
        spec_tags(spec_tags(s, seq![]), seq![]) == spec_tags(s, seq![]),
{
    let n = line_bounds(s).len() as int;
    lemma_first_pass(s);
    let (kept, anchor, bare, annotated) = scan_tags(s, seq![], n);
    let fb = final_break(s);
    assert(spec_tags(s, seq![]) == gathered_text(kept, anchor, bare, annotated, fb));
    lemma_second_pass(kept, anchor, bare, annotated, fb);
}

/// What a first pass writes, a second pass writes again.
#[verifier::rlimit(40)]
#[verifier::spinoff_prover]
proof fn lemma_second_pass(
    kept: Seq<Seq<char>>,
    anchor: Option<int>,
    bare: Seq<Seq<char>>,
    annotated: Seq<Seq<char>>,
    fb: Seq<char>,
)
    requires
        gathered_ok(kept, anchor, bare, annotated),
        fb == Seq::<char>::empty() || fb == seq!['\n'],
    ensures
        ({
            let out = gathered_text(kept, anchor, bare, annotated, fb);
            spec_tags(out, seq![]) == out
        }),
{
    let r = sort_tags(dedupe_tags(tags_of(bare)));
    let ind = bare_indent(bare);
    let rb = r.map_values(|t: Seq<char>| ind + t);
    let m = merged_line(bare);
    let top = if bare.len() > 0 {
        seq![merged_line(bare)] + annotated
    } else {
        annotated
    };
    let at = match anchor {
        Some(a) => a + 1,
        None => 0,
    };
    lemma_first_heading(kept);
    let lines = kept.take(at) + top + kept.skip(at);
    let out1 = gathered_text(kept, anchor, bare, annotated, fb);
    assert(out1 == join(lines, seq!['\n']) + fb);
    assert forall|k: int| 0 <= k < top.len() implies no_newline(#[trigger] top[k]) && top[k].len()
        > 0 by {
        if bare.len() > 0 {
            if k > 0 {
                assert(top[k] == annotated[k - 1]);
            }
        } else {
            assert(top[k] == annotated[k]);
        }
    }
    assert forall|k: int| 0 <= k < lines.len() implies no_newline(#[trigger] lines[k]) by {
        if k < at {
            assert(lines[k] == kept[k]);
        } else if k < at + top.len() {
            assert(lines[k] == top[k - at]);
        } else {
            assert(lines[k] == kept[k - top.len()]);
        }
    }
    lemma_dedupe_sorted_fixed(r);
    // The merged line, read back, merges into itself.
    assert(merged_line(rb) == m) by {
        assert forall|i: int| 0 <= i < r.len() implies #[trigger] bare_tag(ind + r[i]) == r[i]
            && leading_ws(ind + r[i]) == ind by {
            lemma_indented_tag(ind, r[i]);
        }
        assert(tags_of(rb) =~= r);
        if r.len() > 0 {
            assert(bare_indent(rb) == leading_ws(ind + r[0]));
        } else {
            assert(bare.len() == 0);
        }
    }
    assert(rb.len() > 0 <==> bare.len() > 0);
    if lines.len() == 0 {
        assert(lines =~= Seq::<Seq<char>>::empty());
        lemma_tags_of_blank(out1, fb);
    } else {
        let brk = fb.len() > 0;
        assert(fb == if brk {
            seq!['\n']
        } else {
            Seq::<char>::empty()
        });
        lemma_join_lines(lines, brk);
        let p = joined_pieces(lines, brk);
        lemma_line_pieces_of_render(p);
        lemma_line_pieces_last(out1);
        let n1 = line_bounds(out1).len() as int;
        lemma_scan_tags_fold(out1, n1);
        let c1 = contents(out1, n1);
        assert forall|k: int| 0 <= k < n1 implies #[trigger] c1[k] == normalize(p)[k].0 by {
            assert(line_pieces(out1)[k] == normalize(p)[k]);
        }
        if normalize(p) == p {
            assert(c1 =~= lines);
            lemma_second_pass_fold(kept, anchor, bare, annotated, kept.len() as int);
            assert(kept.take(kept.len() as int) =~= kept);
            assert(scan_tags(out1, seq![], n1) == (kept, anchor, rb, annotated));
            if !brk {
                assert(lines.last().len() > 0);
                lemma_join_last(lines);
                assert(no_newline(lines[lines.len() - 1]));
                assert(lines.last()[lines.last().len() - 1] != '\n');
            }
            assert(final_break(out1) == fb);
        } else {
            assert(!brk && lines.last().len() == 0);
            if at > 0 {
                lemma_heading_nonempty(kept[at - 1]);
            }
            lemma_tags_trailing_blank(kept, at, top, lines);
            let kept2 = kept.drop_last();
            assert(kept2 =~= kept.take(kept.len() - 1));
            assert(c1 =~= kept2.take(at) + top + kept2.skip(at));
            lemma_second_pass_fold(kept, anchor, bare, annotated, kept.len() - 1);
            assert(first_heading(kept2) == first_heading(kept)) by {
                assert(kept[kept.len() - 1] == kept.last());
                if spec_heading_level(kept.last()) is Some {
                    lemma_heading_nonempty(kept.last());
                }
            }
            assert(scan_tags(out1, seq![], n1) == (kept2, anchor, rb, annotated));
            let lines2 = kept2.take(at) + top + kept2.skip(at);
            assert(lines2 =~= lines.drop_last());
            if lines.len() >= 2 {
                assert(join(lines, seq!['\n']) == join(lines.drop_last(), seq!['\n']) + seq!['\n']
                    + lines.last());
                assert(lines.last() =~= Seq::<char>::empty());
                assert(out1 =~= join(lines.drop_last(), seq!['\n']) + seq!['\n']);
                assert(final_break(out1) == seq!['\n']);
            } else {
                assert(lines.drop_last() =~= Seq::<Seq<char>>::empty());
                assert(out1 =~= Seq::<char>::empty());
            }
        }
    }
}

proof fn lemma_kept_lines(lines: Seq<Seq<char>>, k: int)
    requires
        forall|j: int| 0 <= j < lines.len() ==> no_newline(#[trigger] lines[j]),
        0 <= k < tag_fold(tag_start(), lines).0.len(),
    ensures
        no_newline(tag_fold(tag_start(), lines).0[k]),
    decreases lines.len(),
{
    if lines.len() > 0 {
        let prev = lines.drop_last();
        assert forall|j: int| 0 <= j < prev.len() implies no_newline(#[trigger] prev[j]) by {
            assert(prev[j] == lines[j]);
        }
        let kept = tag_fold(tag_start(), prev).0;
        if k < kept.len() {
            lemma_kept_lines(prev, k);
        } else {
            assert(no_newline(lines[lines.len() - 1]));
        }
    }
}

/// With only a trailing empty line and no final break, the lines before it
/// are the kept lines less that last one.
proof fn lemma_tags_trailing_blank(
    kept: Seq<Seq<char>>,
    at: int,
    top: Seq<Seq<char>>,
    lines: Seq<Seq<char>>,
)
    requires
        0 <= at <= kept.len(),
        lines == kept.take(at) + top + kept.skip(at),
        lines.len() > 0,
        lines.last().len() == 0,
        forall|k: int| 0 <= k < top.len() ==> #[trigger] top[k].len() > 0,
        at > 0 ==> kept[at - 1].len() > 0,
    ensures
        at < kept.len(),
        kept.last().len() == 0,
        lines.drop_last() == kept.drop_last().take(at) + top + kept.drop_last().skip(at),
{
    if at == kept.len() {
        if top.len() > 0 {
            assert(lines.last() == top[top.len() - 1]);
        } else {
            assert(lines.last() == kept[at - 1]);
        }
    }
    assert(lines.last() == kept.last());
    assert(lines.drop_last() =~= kept.drop_last().take(at) + top + kept.drop_last().skip(at));
}

/// An empty note, or a lone line break, is left as it is.
proof fn lemma_tags_of_blank(out: Seq<char>, fb: Seq<char>)
    requires
        out == join(Seq::<Seq<char>>::empty(), seq!['\n']) + fb,
        fb == Seq::<char>::empty() || fb == seq!['\n'],
    ensures
        spec_tags(out, seq![]) == out,
{
    let e = Seq::<Seq<char>>::empty();
    let none = Seq::<char>::empty();
    if fb.len() == 0 {
        assert(out =~= none);
        assert(line_bounds(out) =~= Seq::<(int, int)>::empty());
        assert(scan_tags(out, seq![], 0) == tag_start());
        assert(join(e.take(0) + e + e.skip(0), seq!['\n']) == none);
    } else {
        assert(out =~= seq!['\n']);
        assert(out.drop_last() =~= none);
        assert(crate::text::scan_lines(out) == (seq![(0int, 0int)], 1int));
        assert(line_bounds(out) =~= seq![(0int, 0int)]);
        assert(line_text(out, (0, 0)) =~= none);
        lemma_scan_tags_fold(out, 1);
        let c = contents(out, 1);
        assert(c =~= seq![none]);
        assert(c.drop_last() =~= e);
        assert(tokens(none) =~= e);
        assert(!spec_starts_with_tag(none));
        assert(crate::scan::skip_blanks(none, 0) == 0);
        assert(crate::scan::run_end(none, 0, '#') == 0);
        assert(spec_heading_level(none) is None);
        assert(tag_fold(tag_start(), c.drop_last()) == tag_start());
        assert(c.last() == none);
        assert(e.push(none) =~= seq![none]);
        assert(tag_step(tag_start(), none) == (seq![none], None::<int>, e, e));
        assert(scan_tags(out, seq![], 1) == (seq![none], None::<int>, e, e));
        let kept = seq![none];
        assert(kept.take(0) + e + kept.skip(0) =~= kept);
        assert(join(kept, seq!['\n']) == none);
        assert(final_break(out) == seq!['\n']);
    }
}

// ----- code lines -----

/// Where line `k` of `s` comes out of the tags rule: at its place among the
/// kept lines, moved down past the gathered tags where it stands below the
/// place they go.
pub open spec fn tags_place(s: Seq<char>, ignore: Seq<(int, int)>, k: int) -> int {
    let (kept, anchor, bare, annotated) = scan_tags(s, ignore, line_bounds(s).len() as int);
    let c = scan_tags(s, ignore, k).0.len() as int;
    let at = match anchor {
        Some(a) => a + 1,
        None => 0,
    };
    let gathered = if bare.len() > 0 {
        annotated.len() + 1int
    } else {
        annotated.len() as int
    };
    if c < at {
        c
    } else {
        c + gathered
    }
}

/// The merged bare entries are one line.
proof fn lemma_merged_line_one_line(bare: Seq<Seq<char>>)
    requires
        forall|k: int| 0 <= k < bare.len() ==> no_newline(#[trigger] bare[k]),
    ensures
        no_newline(merged_line(bare)),
{
    let tb = tags_of(bare);
    merged_tags_sorted_and_deduplicated(tb);
    let r = sort_tags(dedupe_tags(tb));
    assert forall|i: int| 0 <= i < r.len() implies no_newline(#[trigger] r[i]) by {
        assert(tb.contains(r[i]));
        let j = choose|j: int| 0 <= j < tb.len() && tb[j] == r[i];
        assert(no_newline(bare[j]));
        crate::scan::lemma_skip_ws_bounds(bare[j], 0);
        assert forall|q: int| 0 <= q < r[i].len() implies r[i][q] != '\n' by {
            assert(r[i][q] == bare[j][q + skip_ws(bare[j], 0)]);
        }
    }
    lemma_join_no_newline(r);
    if bare.len() > 0 {
        assert(no_newline(bare[0]));
        crate::scan::lemma_skip_ws_bounds(bare[0], 0);
        assert forall|k: int| 0 <= k < bare_indent(bare).len() implies bare_indent(bare)[k] != '\n' by {
            assert(bare_indent(bare)[k] == bare[0][k]);
        }
    }
    crate::lines::lemma_no_newline_concat(bare_indent(bare), join(r, seq![' ']));
}

/// The words a line without line breaks is split into hold none either.
proof fn lemma_code_words_one_line(s: Seq<char>, start: int, ignore: Seq<(int, int)>)
    requires
        no_newline(s),
    ensures
        ({
            let (done, current) = scan_code_tokens(s, start, ignore);
            &&& forall|i: int| 0 <= i < done.len() ==> no_newline(#[trigger] done[i].0)
            &&& no_newline(current.0)
        }),
    decreases s.len(),
{
    if s.len() > 0 {
        assert(no_newline(s.drop_last())) by {
            assert forall|k: int| 0 <= k < s.drop_last().len() implies s.drop_last()[k] != '\n' by {
                assert(s.drop_last()[k] == s[k]);
            }
        }
        lemma_code_words_one_line(s.drop_last(), start, ignore);
        let (done, current) = scan_code_tokens(s.drop_last(), start, ignore);
        assert(s.last() != '\n') by {
            assert(s[s.len() - 1] == s.last());
        }
        assert forall|i: int| 0 <= i < done.push(current).len() implies no_newline(
            #[trigger] done.push(current)[i].0,
        ) by {
            if i < done.len() {
                assert(done.push(current)[i] == done[i]);
            }
        }
        assert forall|k: int| 0 <= k < current.0.push(s.last()).len() implies current.0.push(
            s.last(),
        )[k] != '\n' by {
            if k < current.0.len() {
                assert(current.0.push(s.last())[k] == current.0[k]);
            }
        }
    }
}

/// A token written as an entry word holds no line break if it held none.
proof fn lemma_normalized_one_line(w: Seq<char>)
    requires
        no_newline(w),
    ensures
        no_newline(normalized_token(w)),
{
    if is_tag_token(w) {
        let core = tag_core(w);
        assert forall|k: int| 0 <= k < core.len() implies core[k] != '\n' by {
            assert(core[k] == w[k + 1]);
        }
        let n = seq!['#'] + core;
        assert forall|k: int| 0 <= k < n.len() implies n[k] != '\n' by {
            if k > 0 {
                assert(n[k] == core[k - 1]);
            }
        }
    }
}

/// Entries built from words without line breaks hold none.
proof fn lemma_scan_mixed_one_line(toks: Seq<Seq<char>>, indent: Seq<char>)
    requires
        forall|i: int| 0 <= i < toks.len() ==> no_newline(#[trigger] toks[i]),
        no_newline(indent),
    ensures
        forall|i: int| 0 <= i < scan_mixed(toks, indent).0.len() ==> no_newline(
            #[trigger] scan_mixed(toks, indent).0[i],
        ),
        no_newline(scan_mixed(toks, indent).1),
    decreases toks.len(),
{
    if toks.len() > 0 {
        let prev = toks.drop_last();
        assert forall|i: int| 0 <= i < prev.len() implies no_newline(#[trigger] prev[i]) by {
            assert(prev[i] == toks[i]);
        }
        lemma_scan_mixed_one_line(prev, indent);
        let (entries, current) = scan_mixed(prev, indent);
        let w = toks.last();
        assert(no_newline(w)) by {
            assert(toks[toks.len() - 1] == w);
        }
        lemma_normalized_one_line(w);
        let (entries2, current2) = if is_tag_token(w) && current.len() > 0 {
            (entries.push(current), Seq::<char>::empty())
        } else {
            (entries, current)
        };
        assert forall|i: int| 0 <= i < entries2.len() implies no_newline(#[trigger] entries2[i]) by {
            if i < entries.len() {
                assert(entries2[i] == entries[i]);
            }
        }
        assert(no_newline(current2));
        let base = if current2.len() == 0 {
            indent
        } else {
            current2.push(' ')
        };
        assert(no_newline(base)) by {
            if current2.len() > 0 {
                assert forall|k: int| 0 <= k < base.len() implies base[k] != '\n' by {
                    if k < current2.len() {
                        assert(base[k] == current2[k]);
                    }
                }
            }
        }
        crate::lines::lemma_no_newline_concat(base, normalized_token(w));
    }
}

/// Every entry of a tag-led line without line breaks holds none.
proof fn lemma_split_entries_one_line(line: Seq<char>, off: int, ignore: Seq<(int, int)>)
    requires
        no_newline(line),
    ensures
        forall|i: int| 0 <= i < split_entries(line, off, ignore).len() ==> no_newline(
            #[trigger] split_entries(line, off, ignore)[i],
        ),
{
    lemma_code_words_one_line(line, off, ignore);
    let (done, current) = scan_code_tokens(line, off, ignore);
    let words = entry_words(line, off, ignore);
    assert forall|i: int| 0 <= i < words.len() implies no_newline(#[trigger] words[i]) by {
        if i < done.len() {
            assert(words[i] == done[i].0);
        } else {
            assert(words[i] == current.0);
        }
    }
    crate::scan::lemma_skip_ws_bounds(line, 0);
    assert forall|k: int| 0 <= k < leading_ws(line).len() implies leading_ws(line)[k] != '\n' by {
        assert(leading_ws(line)[k] == line[k]);
    }
    lemma_scan_mixed_one_line(words, leading_ws(line));
    let (entries, cur) = scan_mixed(words, leading_ws(line));
    assert forall|i: int| 0 <= i < split_entries(line, off, ignore).len() implies no_newline(
        #[trigger] split_entries(line, off, ignore)[i],
    ) by {
        if i < entries.len() {
            assert(split_entries(line, off, ignore)[i] == entries[i]);
        }
    }
}

/// Sorting entries without line breaks into bare and annotated ones keeps
/// both lists without line breaks.
proof fn lemma_sort_entries_one_line(entries: Seq<Seq<char>>, bare: Seq<Seq<char>>, annotated: Seq<Seq<char>>)
    requires
        forall|i: int| 0 <= i < entries.len() ==> no_newline(#[trigger] entries[i]),
        forall|k: int| 0 <= k < bare.len() ==> no_newline(#[trigger] bare[k]),
        forall|k: int| 0 <= k < annotated.len() ==> no_newline(#[trigger] annotated[k]),
    ensures
        ({
            let (b, a) = sort_entries(entries, bare, annotated);
            &&& forall|k: int| 0 <= k < b.len() ==> no_newline(#[trigger] b[k])
            &&& forall|k: int| 0 <= k < a.len() ==> no_newline(#[trigger] a[k])
        }),
    decreases entries.len(),
{
    if entries.len() > 0 {
        let prev = entries.drop_last();
        assert forall|i: int| 0 <= i < prev.len() implies no_newline(#[trigger] prev[i]) by {
            assert(prev[i] == entries[i]);
        }
        lemma_sort_entries_one_line(prev, bare, annotated);
        let e = entries.last();
        assert(no_newline(e)) by {
            assert(entries[entries.len() - 1] == e);
        }
        let (b, a) = sort_entries(prev, bare, annotated);
        assert forall|k: int| 0 <= k < b.push(e).len() implies no_newline(#[trigger] b.push(e)[k]) by {
            if k < b.len() {
                assert(b.push(e)[k] == b[k]);
            }
        }
        assert forall|k: int| 0 <= k < a.push(e).len() implies no_newline(#[trigger] a.push(e)[k]) by {
            if k < a.len() {
                assert(a.push(e)[k] == a[k]);
            }
        }
    }
}

/// What a scan gathers: kept lines and entries without line breaks, and the
/// first heading among the kept lines.
proof fn lemma_scan_tags_shape(s: Seq<char>, ignore: Seq<(int, int)>, n: int)
    requires
        0 <= n <= line_bounds(s).len(),
    ensures
        ({
            let (kept, anchor, bare, annotated) = scan_tags(s, ignore, n);
            &&& forall|k: int| 0 <= k < kept.len() ==> no_newline(#[trigger] kept[k])
            &&& anchor is Some ==> 0 <= anchor->0 < kept.len()
            &&& forall|k: int| 0 <= k < bare.len() ==> no_newline(#[trigger] bare[k])
            &&& forall|k: int| 0 <= k < annotated.len() ==> no_newline(#[trigger] annotated[k])
        }),
    decreases n,
{
    if n > 0 {
        lemma_scan_tags_shape(s, ignore, n - 1);
        let (kept, anchor, bare, annotated) = scan_tags(s, ignore, n - 1);
        let b = line_bounds(s)[n - 1];
        let content = line_text(s, b);
        lemma_line_pieces_wf(s);
        lemma_line_pieces_last(s);
        assert(line_pieces(s)[n - 1].0 == content);
        assert(no_newline(content));
        if !in_ranges(ignore, byte_offset(s, b.0) as int) && spec_starts_with_tag(content) {
            let off = byte_offset(s, b.0) as int;
            lemma_split_entries_one_line(content, off, ignore);
            lemma_sort_entries_one_line(split_entries(content, off, ignore), bare, annotated);
        } else {
            let k2 = kept.push(content);
            assert forall|k: int| 0 <= k < k2.len() implies no_newline(#[trigger] k2[k]) by {
                if k < kept.len() {
                    assert(k2[k] == kept[k]);
                }
            }
        }
    }
}

/// A scan over more lines keeps what a scan over fewer kept, in order.
proof fn lemma_scan_tags_grows(s: Seq<char>, ignore: Seq<(int, int)>, k: int, m: int)
    requires
        0 <= k <= m <= line_bounds(s).len(),
    ensures
        scan_tags(s, ignore, k).0.len() <= scan_tags(s, ignore, m).0.len(),
        scan_tags(s, ignore, m).0.take(scan_tags(s, ignore, k).0.len() as int) == scan_tags(
            s,
            ignore,
            k,
        ).0,
    decreases m - k,
{
    if k < m {
        lemma_scan_tags_grows(s, ignore, k, m - 1);
        let a = scan_tags(s, ignore, k).0;
        let b = scan_tags(s, ignore, m - 1).0;
        let c = scan_tags(s, ignore, m).0;
        assert(c.len() >= b.len());
        assert(c.take(b.len() as int) =~= b);
        assert(c.take(a.len() as int) =~= b.take(a.len() as int));
    } else {
        assert(scan_tags(s, ignore, m).0.take(scan_tags(s, ignore, m).0.len() as int) =~= scan_tags(
            s,
            ignore,
            m,
        ).0);
    }
}

/// Code is left untouched: every line of code that is not empty comes out
/// as the same line, at its place among the lines the rule keeps.
#[verifier::rlimit(30)]
pub proof fn tags_keep_code(s: Seq<char>, ignore: Seq<(int, int)>)
    ensures
        forall|k: int|
            0 <= k < line_bounds(s).len() && #[trigger] code_line(s, ignore, k) && line_text(
                s,
                line_bounds(s)[k],
            ).len() > 0 ==> keeps_line_at(s, spec_tags(s, ignore), k, tags_place(s, ignore, k)),
{
    let n = line_bounds(s).len() as int;
    lemma_scan_tags_shape(s, ignore, n);
    let (kept, anchor, bare, annotated) = scan_tags(s, ignore, n);
    let top = if bare.len() > 0 {
        seq![merged_line(bare)] + annotated
    } else {
        annotated
    };
    let at = match anchor {
        Some(a) => a + 1,
        None => 0,
    };
    let list = kept.take(at) + top + kept.skip(at);
    let fb = final_break(s);
    let text = spec_tags(s, ignore);
    assert(text == join(list, seq!['\n']) + fb);
    // The gathered lines hold no line break.
    lemma_merged_line_one_line(bare);
    assert forall|j: int| 0 <= j < list.len() implies no_newline(#[trigger] list[j]) by {
        if j < at {
            assert(list[j] == kept[j]);
        } else if j < at + top.len() {
            assert(list[j] == top[j - at]);
            if bare.len() > 0 && j > at {
                assert(top[j - at] == annotated[j - at - 1]);
            }
        } else {
            assert(list[j] == kept[j - top.len()]);
        }
    }
    assert forall|k: int|
        0 <= k < n && #[trigger] code_line(s, ignore, k) && line_text(s, line_bounds(s)[k]).len() > 0
            implies keeps_line_at(s, text, k, tags_place(s, ignore, k)) by {
        let content = line_text(s, line_bounds(s)[k]);
        let c = scan_tags(s, ignore, k).0.len() as int;
        assert(scan_tags(s, ignore, k + 1).0 == scan_tags(s, ignore, k).0.push(content));
        lemma_scan_tags_grows(s, ignore, k + 1, n);
        assert(kept.take(c + 1)[c] == content);
        assert(kept[c] == content);
        let j = tags_place(s, ignore, k);
        assert(list[j] == content);
        let brk = fb.len() > 0;
        assert(fb == if brk {
            seq!['\n']
        } else {
            Seq::<char>::empty()
        });
        lemma_join_lines(list, brk);
        let p = joined_pieces(list, brk);
        lemma_line_pieces_of_render(p);
        lemma_line_pieces_last(text);
        assert(p[j] == (list[j], j < list.len() - 1 || brk));
        assert(normalize(p)[j] == p[j]);
        assert(line_pieces(text)[j] == normalize(p)[j]);
    }
}

} // verus!
