//! Identity: the conserved invariant and the monotone record.
//!
//! An individual is the pair of a conserved, relabelling-invariant cut
//! structure and an unrepealable monotone record. Neither half alone
//! suffices: a fresh copy of an agent has the same invariant and a record at
//! zero, so only the record tells them apart.

use vstd::prelude::*;
use crate::graph::ContactGraph;
use crate::invariants::InvariantViolation;

verus! {

/// A counter that is incremented on every committed act and decremented by
/// nothing. There is no `decrement`, no `reset`, and no `set`.
#[derive(Debug, Clone, Copy, Default, PartialEq, Eq, Structural, PartialOrd, Ord, Hash)]
pub struct Record(u64);

impl Record {
    /// The count, as a mathematical value.
    pub closed spec fn count(self) -> nat {
        self.0 as nat
    }

    /// A fresh record, at zero.
    pub fn new() -> (r: Self)
        ensures
            r.count() == 0,
    {
        Record(0)
    }

    /// The current count.
    pub fn get(self) -> (n: u64)
        ensures
            n == self.count(),
    {
        self.0
    }

    /// Deposit a committed act: one more, saturating at the largest count.
    pub fn commit(&mut self)
        ensures
            final(self).count() == if old(self).count() < u64::MAX {
                old(self).count() + 1
            } else {
                old(self).count()
            },
    {
        self.0 = self.0.saturating_add(1);
    }

    /// Undo is itself a committed act, so the record rises rather than falls.
    pub fn undo(&mut self)
        ensures
            final(self).count() == if old(self).count() < u64::MAX {
                old(self).count() + 1
            } else {
                old(self).count()
            },
    {
        self.commit();
    }
}

/// A record is its count: two records of equal count are the same record.
pub proof fn records_of_equal_count_are_equal(a: Record, b: Record)
    requires
        a.count() == b.count(),
    ensures
        a == b,
{
}

/// Which phase an agent occupies. Construction and commitment cannot share
/// an instant.
#[derive(Debug, Clone, Copy, PartialEq, Eq, Structural)]
pub enum Phase {
    /// Reshaping distinctions; emits no act.
    Construction,
    /// Emitting acts; performs no structural update.
    Commitment,
}

impl Default for Phase {
    fn default() -> (p: Self)
        ensures
            p == Phase::Commitment,
    {
        Phase::Commitment
    }
}

/// An agent: a contact graph, its record, its phase, and the character
/// invariant computed from the graph when the agent was made.
///
/// The renderer is not stored here: it is supplied by the caller of
/// [`Agent::determine`], which is the only place it runs.
#[derive(Debug)]
pub struct Agent<W> {
    /// Stable handle.
    pub id: String,
    /// The graph where propagations deposit; this is the agent's identity.
    pub graph: ContactGraph<W>,
    record: Record,
    phase: Phase,
    chi: Option<W>,
}

impl<W> Agent<W> {
    /// The handle, as a value.
    pub closed spec fn id_of(&self) -> String {
        self.id
    }

    /// The graph, as a value.
    pub closed spec fn graph_of(&self) -> ContactGraph<W> {
        self.graph
    }

    /// The record, as a value.
    pub closed spec fn record_of(&self) -> Record {
        self.record
    }

    /// The phase, as a value.
    pub closed spec fn phase_of(&self) -> Phase {
        self.phase
    }

    /// The character invariant, as a value.
    pub closed spec fn chi_of(&self) -> Option<W> {
        self.chi
    }

    /// An agent over `graph` whose character invariant is `chi`, with a
    /// record at zero, in the commitment phase.
    pub fn new(id: String, graph: ContactGraph<W>, chi: Option<W>) -> (a: Self)
        ensures
            a.id_of() == id,
            a.graph_of() == graph,
            a.chi_of() == chi,
            a.record_of().count() == 0,
            a.phase_of() == Phase::Commitment,
    {
        Agent { id, graph, record: Record::new(), phase: Phase::Commitment, chi }
    }

    /// The current record.
    pub fn record(&self) -> (r: Record)
        ensures
            r == self.record_of(),
    {
        self.record
    }

    /// The current phase.
    pub fn phase(&self) -> (p: Phase)
        ensures
            p == self.phase_of(),
    {
        self.phase
    }

    /// Enter a phase. Nothing else changes.
    pub fn set_phase(&mut self, phase: Phase)
        ensures
            final(self).phase_of() == phase,
            final(self).record_of() == old(self).record_of(),
            final(self).chi_of() == old(self).chi_of(),
            final(self).id_of() == old(self).id_of(),
            final(self).graph_of() == old(self).graph_of(),
    {
        self.phase = phase;
    }

    /// Perform a determination, depositing before it returns.
    ///
    /// `f` computes a fresh answer against the current graph; there is no
    /// cache to consult. Outside the commitment phase nothing runs and the
    /// agent is unchanged. In the commitment phase `f` runs and the record
    /// is committed; if the record could not advance (it is already at its
    /// largest count) the answer is refused.
    pub fn determine<T, F: FnOnce(&ContactGraph<W>) -> T>(&mut self, f: F) -> (r: Result<T, InvariantViolation>)
        requires
            old(self).phase_of() == Phase::Commitment ==> f.requires((&old(self).graph_of(),)),
        ensures
            final(self).id_of() == old(self).id_of(),
            final(self).graph_of() == old(self).graph_of(),
            final(self).chi_of() == old(self).chi_of(),
            final(self).phase_of() == old(self).phase_of(),
            old(self).phase_of() != Phase::Commitment ==> {
                &&& r == Err::<T, InvariantViolation>(InvariantViolation::PhaseExclusion)
                &&& final(self).record_of() == old(self).record_of()
            },
            old(self).phase_of() == Phase::Commitment && old(self).record_of().count() < u64::MAX ==> {
                &&& r is Ok
                &&& f.ensures((&old(self).graph_of(),), r->Ok_0)
                &&& final(self).record_of().count() == old(self).record_of().count() + 1
            },
            old(self).phase_of() == Phase::Commitment && old(self).record_of().count() == u64::MAX ==> {
                &&& r == Err::<T, InvariantViolation>(InvariantViolation::MissingDeposit)
                &&& final(self).record_of() == old(self).record_of()
            },
    {
        if self.phase != Phase::Commitment {
            return Err(InvariantViolation::PhaseExclusion);
        }
        let before = self.record.get();
        let value = f(&self.graph);
        self.record.commit();
        if self.record.get() <= before {
            return Err(InvariantViolation::MissingDeposit);
        }
        Ok(value)
    }
}

impl<W: Copy> Agent<W> {
    /// The conserved character invariant, fixed when the agent was made.
    pub fn chi(&self) -> (c: Option<W>)
        ensures
            c == self.chi_of(),
    {
        self.chi
    }
}

} // verus!
