//! Protected byte ranges that rules must not modify.

use std::ops::Range;

use pulldown_cmark::{Event, Options, Parser, Tag, TagEnd};
use vstd::prelude::*;

verus! {

/// The Markdown parser's events, reduced to what decides protection: where a
/// code block opens and closes, where an inline code span lies, and everything
/// else. Each carries the byte range the parser reports for it.
pub enum MarkdownEvent {
    CodeBlockStart { start: usize, end: usize },
    CodeBlockEnd { start: usize, end: usize },
    InlineCode { start: usize, end: usize },
    Other,
}

/// The events that `pulldown_cmark` produces for `text` (no extensions),
/// reduced to [`MarkdownEvent`]s, in order.
pub uninterp spec fn markdown_events(text: Seq<char>) -> Seq<MarkdownEvent>;

/// Runs the Markdown parser over `text`.
///
/// Trusted: `pulldown_cmark::Parser::new_ext(text, Options::empty())` driven
/// through `into_offset_iter`, each `(event, range)` pair mapped one for one.
/// The contract only names the result; it states nothing of what the parser
/// recognises as code.
#[verifier::external_body]
fn parse_markdown_events(text: &str) -> (events: Vec<MarkdownEvent>)
    ensures
        events@ == markdown_events(text@),
{
    let mut events = Vec::new();
    for (event, range) in Parser::new_ext(text, Options::empty()).into_offset_iter() {
        let (start, end) = (range.start, range.end);
        events.push(match event {
            Event::Start(Tag::CodeBlock(_)) => MarkdownEvent::CodeBlockStart { start, end },
            Event::End(TagEnd::CodeBlock) => MarkdownEvent::CodeBlockEnd { start, end },
            Event::Code(_) => MarkdownEvent::InlineCode { start, end },
            _ => MarkdownEvent::Other,
        });
    }
    events
}

/// Folds the events: the ranges found so far and the start of an open code
/// block, if any.
pub open spec fn scan_events(events: Seq<MarkdownEvent>) -> (Seq<(int, int)>, Option<int>)
    decreases events.len(),
{
    if events.len() == 0 {
        (seq![], None)
    } else {
        let (ranges, open) = scan_events(events.drop_last());
        match events.last() {
            MarkdownEvent::CodeBlockStart { start, end } => (ranges, Some(start as int)),
            MarkdownEvent::CodeBlockEnd { start, end } => match open {
                Some(block_start) => (ranges.push((block_start, end as int)), None),
                None => (ranges, None),
            },
            MarkdownEvent::InlineCode { start, end } => (
                ranges.push((start as int, end as int)),
                open,
            ),
            MarkdownEvent::Other => (ranges, open),
        }
    }
}

/// The protected ranges the events describe: each code block from the start
/// of its opening event to the end of its closing one, and each inline code
/// span.
pub open spec fn protected_ranges(events: Seq<MarkdownEvent>) -> Seq<(int, int)> {
    scan_events(events).0
}

/// Whether byte `offset` falls in one of `ranges` (half-open).
pub open spec fn in_ranges(ranges: Seq<(int, int)>, offset: int) -> bool {
    exists|k: int| 0 <= k < ranges.len() && #[trigger] ranges[k].0 <= offset < ranges[k].1
}

/// Byte ranges within a document that rules must leave untouched — fenced and
/// indented code blocks and inline code spans.
pub struct IgnoreRanges {
    ranges: Vec<Range<usize>>,
}

impl View for IgnoreRanges {
    type V = Seq<(int, int)>;

    closed spec fn view(&self) -> Seq<(int, int)> {
        self.ranges@.map_values(|r: Range<usize>| (r.start as int, r.end as int))
    }
}

impl IgnoreRanges {
    /// Compute the protected ranges for `text`.
    pub fn compute(text: &str) -> (ignore: Self)
        ensures
            ignore@ == protected_ranges(markdown_events(text@)),
    {
        let events = parse_markdown_events(text);
        Self::from_events(&events)
    }

    /// The protected ranges described by a sequence of parser events.
    pub fn from_events(events: &Vec<MarkdownEvent>) -> (ignore: Self)
        ensures
            ignore@ == protected_ranges(events@),
    {
        let mut ranges: Vec<Range<usize>> = Vec::new();
        let mut block_start: Option<usize> = None;
        let mut i: usize = 0;
        while i < events.len()
            invariant
                i <= events@.len(),
                (
                    ranges@.map_values(|r: Range<usize>| (r.start as int, r.end as int)),
                    match block_start {
                        Some(s) => Some(s as int),
                        None => None,
                    },
                ) == scan_events(events@.take(i as int)),
            decreases events.len() - i,
        {
            proof {
                assert(events@.take(i + 1).drop_last() =~= events@.take(i as int));
            }
            let ghost before = ranges@;
            match &events[i] {
                MarkdownEvent::CodeBlockStart { start, end } => {
                    block_start = Some(*start);
                },
                MarkdownEvent::CodeBlockEnd { start, end } => {
                    if let Some(s) = block_start {
                        ranges.push(Range { start: s, end: *end });
                        proof {
                            assert(ranges@.drop_last() =~= before);
                        }
                    }
                    block_start = None;
                },
                MarkdownEvent::InlineCode { start, end } => {
                    ranges.push(Range { start: *start, end: *end });
                    proof {
                        assert(ranges@.drop_last() =~= before);
                    }
                },
                MarkdownEvent::Other => {},
            }
            proof {
                let m = |r: Range<usize>| (r.start as int, r.end as int);
                if ranges@.len() == before.len() + 1 {
                    assert(ranges@.map_values(m) =~= before.map_values(m).push(
                        m(ranges@.last()),
                    ));
                }
            }
            i = i + 1;
        }
        assert(events@.take(events@.len() as int) =~= events@);
        IgnoreRanges { ranges }
    }

    /// Whether `offset` falls inside a protected range.
    pub fn contains(&self, offset: usize) -> (inside: bool)
        ensures
            inside == in_ranges(self@, offset as int),
    {
        self.contains_wide(offset as u128)
    }

    /// [`Self::contains`] for an offset that may exceed `usize`.
    pub fn contains_wide(&self, offset: u128) -> (inside: bool)
        ensures
            inside == in_ranges(self@, offset as int),
    {
        let ghost view = self@;
        let mut i: usize = 0;
        while i < self.ranges.len()
            invariant
                i <= self.ranges@.len(),
                view == self@,
                view.len() == self.ranges@.len(),
                forall|k: int| 0 <= k < i ==> !(#[trigger] view[k].0 <= offset < view[k].1),
            decreases self.ranges.len() - i,
        {
            proof {
                assert(view[i as int] == (
                    self.ranges@[i as int].start as int,
                    self.ranges@[i as int].end as int,
                ));
            }
            if (self.ranges[i].start as u128) <= offset && offset < (self.ranges[i].end as u128) {
                assert(view[i as int].0 <= offset < view[i as int].1);
                return true;
            }
            i = i + 1;
        }
        false
    }

    /// Whether any part of `span` overlaps a protected range: an empty span
    /// overlaps nothing.
    pub fn overlaps(&self, span: &Range<usize>) -> (hit: bool)
        ensures
            hit == (span.start < span.end && exists|k: int|
                0 <= k < self@.len() && span.start < #[trigger] self@[k].1 && self@[k].0
                    < span.end),
    {
        if span.start >= span.end {
            return false;
        }
        let ghost view = self@;
        let mut i: usize = 0;
        while i < self.ranges.len()
            invariant
                i <= self.ranges@.len(),
                view == self@,
                view.len() == self.ranges@.len(),
                span.start < span.end,
                forall|k: int| 0 <= k < i ==> !(span.start < #[trigger] view[k].1 && view[k].0 < span.end),
            decreases self.ranges.len() - i,
        {
            proof {
                assert(view[i as int] == (
                    self.ranges@[i as int].start as int,
                    self.ranges@[i as int].end as int,
                ));
            }
            if span.start < self.ranges[i].end && self.ranges[i].start < span.end {
                assert(span.start < view[i as int].1 && view[i as int].0 < span.end);
                return true;
            }
            i = i + 1;
        }
        false
    }
}

/// A span overlaps the protected ranges exactly when some offset in it is
/// protected, when no protected range is empty.
pub proof fn overlaps_is_a_protected_offset(ranges: Seq<(int, int)>, start: int, end: int)
    requires
        forall|k: int| 0 <= k < ranges.len() ==> #[trigger] ranges[k].0 < ranges[k].1,
    ensures
        (start < end && exists|k: int|
            0 <= k < ranges.len() && start < #[trigger] ranges[k].1 && ranges[k].0 < end) == exists|
            o: int,
        | start <= o < end && #[trigger] in_ranges(ranges, o),
{
    if start < end && exists|k: int|
        0 <= k < ranges.len() && start < #[trigger] ranges[k].1 && ranges[k].0 < end {
        let k = choose|k: int| 0 <= k < ranges.len() && start < #[trigger] ranges[k].1 && ranges[k].0 < end;
        let o = if ranges[k].0 < start {
            start
        } else {
            ranges[k].0
        };
        assert(ranges[k].0 <= o < ranges[k].1);
        assert(in_ranges(ranges, o));
    }
    if exists|o: int| start <= o < end && #[trigger] in_ranges(ranges, o) {
        let o = choose|o: int| start <= o < end && #[trigger] in_ranges(ranges, o);
        let k = choose|k: int| 0 <= k < ranges.len() && #[trigger] ranges[k].0 <= o < ranges[k].1;
        assert(start < ranges[k].1 && ranges[k].0 < end);
    }
}

} // verus!
