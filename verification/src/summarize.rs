//! Assembly of the summarization request text, the fallback when the
//! service returns no answer text, and the interactive refinement loop
//! as an explicit state machine.

use vstd::prelude::*;
use vstd::string::StringExecFns;
use crate::text::{spec_trim, trim_line};

verus! {

/// The single message text sent for summarization: prompt, colon,
/// caption text.
pub open spec fn spec_combined(prompt: Seq<char>, text: Seq<char>) -> Seq<char> {
    prompt + seq![':'] + text
}

/// The message text combining the prompt and the caption text.
pub fn combine_prompt(prompt: &str, text: &str) -> (r: String)
    ensures
        r@ == spec_combined(prompt@, text@),
{
    let mut r = String::new();
    r.append(prompt);
    r.push(':');
    r.append(text);
    proof {
        assert(r@ =~= prompt@ + seq![':'] + text@);
    }
    r
}

/// The summary taken from the service's answer, or the placeholder when
/// the answer carries no text.
pub fn extract_summary(content: Option<String>) -> (r: String)
    ensures
        match content {
            Some(c) => r == c,
            None => r@ == "Failed to create transcript"@,
        },
{
    match content {
        Some(c) => c,
        None => String::from_str("Failed to create transcript"),
    }
}

/// An affirmative refinement decision: the input line, trimmed, is
/// exactly `y`.
pub open spec fn spec_is_yes(line: Seq<char>) -> bool {
    spec_trim(line) == "y"@
}

/// The follow-up prompt: the new prompt, trimmed, a space, and the
/// current summary as context.
pub open spec fn spec_refine_prompt(new_prompt: Seq<char>, current: Seq<char>) -> Seq<char> {
    spec_trim(new_prompt) + seq![' '] + current
}

/// The refinement loop: it awaits a decision, refines on `y` and stops
/// on anything else, counting the refinement calls made.
pub struct Refiner {
    pub summary: String,
    pub awaiting: bool,
    pub refinements: u64,
}

impl Refiner {
    /// A fresh loop around the given summary: awaiting its first
    /// decision, no refinement made yet.
    pub fn new(initial: String) -> (r: Refiner)
        ensures
            r.summary == initial,
            r.awaiting,
            r.refinements == 0,
    {
        Refiner { summary: initial, awaiting: true, refinements: 0 }
    }

    /// Reads one decision line: on a trimmed `y` the loop stays open and
    /// a refinement is owed; on anything else it is done. The summary
    /// and the count are untouched either way.
    pub fn on_decision(&mut self, line: &str) -> (r: bool)
        requires
            old(self).awaiting,
        ensures
            r == spec_is_yes(line@),
            final(self).awaiting == spec_is_yes(line@),
            final(self).summary == old(self).summary,
            final(self).refinements == old(self).refinements,
    {
        let t = trim_line(line);
        let y = String::from_str("y");
        let yes = t == y;
        self.awaiting = yes;
        yes
    }

    /// The follow-up prompt built from the user's new prompt and the
    /// current summary.
    pub fn refine_prompt(&self, new_prompt: &str) -> (r: String)
        ensures
            r@ == spec_refine_prompt(new_prompt@, self.summary@),
    {
        let mut r = trim_line(new_prompt);
        r.push(' ');
        r.append(self.summary.as_str());
        proof {
            assert(r@ =~= spec_trim(new_prompt@) + seq![' '] + self.summary@);
        }
        r
    }

    /// Replaces the summary with the refinement's result: exactly one
    /// more refinement call has then occurred, and the loop awaits the
    /// next decision.
    pub fn on_refined(&mut self, new_summary: String)
        requires
            old(self).awaiting,
            old(self).refinements < u64::MAX,
        ensures
            final(self).summary == new_summary,
            final(self).awaiting,
            final(self).refinements == old(self).refinements + 1,
    {
        self.summary = new_summary;
        self.refinements = self.refinements + 1;
    }
}

} // verus!
