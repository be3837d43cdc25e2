//! The formatting engine.
//!
//! A [`Formatter`] runs an ordered set of [`Rule`]s over a note's Markdown.
//! Every rule is a total transformation: given the current text and the
//! [`ignore::IgnoreRanges`] it must leave untouched, it returns the text
//! rewritten into canonical form.

pub mod ignore;

use crate::engine::ignore::{markdown_events, protected_ranges, IgnoreRanges};
use vstd::prelude::*;

verus! {

/// A single formatting rule: a total transformation over a note's Markdown.
pub trait Rule {
    /// The rule's identifier.
    spec fn spec_name(&self) -> Seq<char>;

    /// What the rule turns `text` into, given the protected byte ranges.
    spec fn spec_apply(&self, text: Seq<char>, ignore: Seq<(int, int)>) -> Seq<char>;

    /// A short, kebab-case identifier, used in configuration and diagnostics.
    fn name(&self) -> (name: &'static str)
        ensures
            name@ == self.spec_name(),
    ;

    /// Return `text` rewritten into canonical form.
    fn apply(&self, text: &str, ignore: &IgnoreRanges) -> (out: String)
        ensures
            out@ == self.spec_apply(text@, ignore@),
    ;
}

/// The text after running `rules` in order over `text`, each rule seeing the
/// protected ranges of the text it is given.
pub open spec fn run_rules(rules: Seq<Box<dyn Rule>>, text: Seq<char>) -> Seq<char>
    decreases rules.len(),
{
    if rules.len() == 0 {
        text
    } else {
        let before = run_rules(rules.drop_last(), text);
        rules.last().spec_apply(before, protected_ranges(markdown_events(before)))
    }
}

/// Runs an ordered catalog of rules over Markdown.
pub struct Formatter {
    rules: Vec<Box<dyn Rule>>,
}

impl View for Formatter {
    type V = Seq<Box<dyn Rule>>;

    closed spec fn view(&self) -> Seq<Box<dyn Rule>> {
        self.rules@
    }
}

impl Formatter {
    /// Build a formatter from `rules`, applied in order.
    pub fn new(rules: Vec<Box<dyn Rule>>) -> (formatter: Self)
        ensures
            formatter@ == rules@,
    {
        Self { rules }
    }

    /// Format `text` by applying every rule in turn, recomputing the protected
    /// ranges before each one.
    pub fn format(&self, text: &str) -> (out: String)
        ensures
            out@ == run_rules(self@, text@),
    {
        let mut current = text.to_owned();
        let mut i: usize = 0;
        while i < self.rules.len()
            invariant
                i <= self.rules@.len(),
                current@ == run_rules(self.rules@.take(i as int), text@),
            decreases self.rules.len() - i,
        {
            proof {
                assert(self.rules@.take(i + 1).drop_last() =~= self.rules@.take(i as int));
            }
            let ignore = IgnoreRanges::compute(current.as_str());
            current = self.rules[i].apply(current.as_str(), &ignore);
            i = i + 1;
        }
        assert(self.rules@.take(self.rules@.len() as int) =~= self.rules@);
        current
    }
}

} // verus!
