//! Acts: the two independent directions a gap can move.
//!
//! An act carries two booleans rather than an enum, so that "report" and
//! "question" stay independent: an act may be both, or neither.

use vstd::prelude::*;

verus! {

/// What an act did to the gaps on either side.
#[derive(Debug, Clone, Copy, PartialEq, Eq, Structural)]
pub struct Act {
    /// The gap fell on the acting side.
    pub report: bool,
    /// The gap rose on the receiving side.
    pub question: bool,
}

impl Default for Act {
    /// Measured and unmoved: neither a report nor a question.
    fn default() -> (a: Self)
        ensures
            !a.report,
            !a.question,
    {
        Act { report: false, question: false }
    }
}

impl Act {
    /// Whether the act moved neither gap. A permitted outcome, not a failure.
    pub fn is_inert(self) -> (b: bool)
        ensures
            b == (!self.report && !self.question),
    {
        !self.report && !self.question
    }

    /// Whether the act was both a report and a question.
    pub fn is_both(self) -> (b: bool)
        ensures
            b == (self.report && self.question),
    {
        self.report && self.question
    }
}

} // verus!
