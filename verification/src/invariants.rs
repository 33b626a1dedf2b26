//! The six implementation invariants, and the three refusals.

use vstd::prelude::*;

verus! {

/// A violation of an implementation invariant.
#[derive(Debug, Clone, Copy, PartialEq, Eq, Structural)]
pub enum InvariantViolation {
    /// Invariant 1: the character invariant changed under a relabelling.
    InvariantNotConserved,
    /// Invariant 2: something tried to lower the record.
    RecordDecrement,
    /// Invariant 3: an answer was returned from a cache.
    StaleLookup,
    /// Invariant 4: a determination returned without depositing.
    MissingDeposit,
    /// Invariant 5: an act was emitted during a construction phase.
    PhaseExclusion,
    /// Invariant 6: a verdict or attribution was requested.
    VerdictRequested,
}

/// The message for a violation.
pub open spec fn violation_text(v: InvariantViolation) -> Seq<char> {
    match v {
        InvariantViolation::InvariantNotConserved => "Invariant 1: character invariant is not relabelling-conserved"@,
        InvariantViolation::RecordDecrement => "Invariant 2: the committed record may not be decremented"@,
        InvariantViolation::StaleLookup => "Invariant 3: determinations are computed, never looked up"@,
        InvariantViolation::MissingDeposit => "Invariant 4: determination returned without advancing the record"@,
        InvariantViolation::PhaseExclusion => "Invariant 5: no act may be emitted during a construction phase"@,
        InvariantViolation::VerdictRequested => "Invariant 6: the system reports determinations and declines, never verdicts"@,
    }
}

impl InvariantViolation {
    /// The message for this violation.
    pub fn message(&self) -> (m: String)
        ensures
            m@ == violation_text(*self),
    {
        match self {
            InvariantViolation::InvariantNotConserved => String::from_str("Invariant 1: character invariant is not relabelling-conserved"),
            InvariantViolation::RecordDecrement => String::from_str("Invariant 2: the committed record may not be decremented"),
            InvariantViolation::StaleLookup => String::from_str("Invariant 3: determinations are computed, never looked up"),
            InvariantViolation::MissingDeposit => String::from_str("Invariant 4: determination returned without advancing the record"),
            InvariantViolation::PhaseExclusion => String::from_str("Invariant 5: no act may be emitted during a construction phase"),
            InvariantViolation::VerdictRequested => String::from_str("Invariant 6: the system reports determinations and declines, never verdicts"),
        }
    }
}

/// A single invariant, for documentation and for the `doctor` report.
#[derive(Debug, Clone, Copy)]
pub struct Invariant {
    /// 1-based index.
    pub index: u8,
    /// Short name.
    pub name: &'static str,
    /// The predicate a runtime must satisfy at all times.
    pub predicate: &'static str,
    /// The result that makes the predicate the right one.
    pub certified_by: &'static str,
}

/// The six invariants, in order.
pub fn invariants() -> (r: [Invariant; 6])
    ensures
        forall|i: int| 0 <= i < 6 ==> #[trigger] r@[i].index == i + 1,
        r@[0].name@ == "conserved invariant"@,
        r@[0].predicate@ == "under any relabelling of positions, chi is unchanged"@,
        r@[0].certified_by@ == "Theorem 9.3"@,
        r@[1].name@ == "never-resetting record"@,
        r@[1].predicate@ == "no code path decreases the counter; undo is a compensating commit"@,
        r@[1].certified_by@ == "Theorem 5.9"@,
        r@[2].name@ == "determination by search, not lookup"@,
        r@[2].predicate@ == "no answer is returned from a cache of prior determinations"@,
        r@[2].certified_by@ == "Proposition 9.9, Corollary 9.10"@,
        r@[3].name@ == "deposit on every propagation"@,
        r@[3].predicate@ == "the record after a determination strictly exceeds the record before"@,
        r@[3].certified_by@ == "Theorem 9.7"@,
        r@[4].name@ == "exclusive phases"@,
        r@[4].predicate@ == "structural update and act emission occupy disjoint instants"@,
        r@[4].certified_by@ == "Theorem 5.6"@,
        r@[5].name@ == "no system verdict"@,
        r@[5].predicate@ == "no comparison of an achieved determination to an expected one, and no attribution of an outcome to a consideration"@,
        r@[5].certified_by@ == "Theorem 11.5, Corollary 12.11"@,
{
    [
        Invariant {
            index: 1,
            name: "conserved invariant",
            predicate: "under any relabelling of positions, chi is unchanged",
            certified_by: "Theorem 9.3",
        },
        Invariant {
            index: 2,
            name: "never-resetting record",
            predicate: "no code path decreases the counter; undo is a compensating commit",
            certified_by: "Theorem 5.9",
        },
        Invariant {
            index: 3,
            name: "determination by search, not lookup",
            predicate: "no answer is returned from a cache of prior determinations",
            certified_by: "Proposition 9.9, Corollary 9.10",
        },
        Invariant {
            index: 4,
            name: "deposit on every propagation",
            predicate: "the record after a determination strictly exceeds the record before",
            certified_by: "Theorem 9.7",
        },
        Invariant {
            index: 5,
            name: "exclusive phases",
            predicate: "structural update and act emission occupy disjoint instants",
            certified_by: "Theorem 5.6",
        },
        Invariant {
            index: 6,
            name: "no system verdict",
            predicate: "no comparison of an achieved determination to an expected one, and no attribution of an outcome to a consideration",
            certified_by: "Theorem 11.5, Corollary 12.11",
        },
    ]
}

/// A capability the instrument declines to offer, and why.
#[derive(Debug, Clone, Copy)]
pub struct Refusal {
    /// What is declined.
    pub capability: &'static str,
    /// Why no version of the instrument could offer it.
    pub reason: &'static str,
    /// The result that makes the refusal necessary.
    pub certified_by: &'static str,
}

/// The three refusals, in order.
pub fn refusals() -> (r: [Refusal; 3])
    ensures
        r@[0].capability@ == "success or failure verdict"@,
        r@[0].reason@ == "no quantity computable from the runtime state compares an achieved state to an expectation"@,
        r@[0].certified_by@ == "Theorem 11.5"@,
        r@[1].capability@ == "attribution of an outcome to a consideration"@,
        r@[1].reason@ == "admissibility is a global minimum expressed in local terms, and the terminus does not determine the trajectory"@,
        r@[1].certified_by@ == "Theorem 12.9, Theorem 11.15"@,
        r@[2].capability@ == "instance-fitted effect sizes"@,
        r@[2].reason@ == "prediction and measurement are the same algebraic expression, so the statistic is degenerate on every data set"@,
        r@[2].certified_by@ == "Theorem 12.2"@,
{
    [
        Refusal {
            capability: "success or failure verdict",
            reason: "no quantity computable from the runtime state compares an achieved state to an expectation",
            certified_by: "Theorem 11.5",
        },
        Refusal {
            capability: "attribution of an outcome to a consideration",
            reason: "admissibility is a global minimum expressed in local terms, and the terminus does not determine the trajectory",
            certified_by: "Theorem 12.9, Theorem 11.15",
        },
        Refusal {
            capability: "instance-fitted effect sizes",
            reason: "prediction and measurement are the same algebraic expression, so the statistic is degenerate on every data set",
            certified_by: "Theorem 12.2",
        },
    ]
}

} // verus!
