//! The psychon: a walk together with where it ended.
//!
//! Only the terminus and the record cross the agent boundary. The walk is
//! private and has no accessor; [`Emitted`] is what may be compared.

use vstd::prelude::*;
use crate::graph::Position;
use crate::identity::Record;

verus! {

/// What crosses the boundary: the terminus and the record.
#[derive(Debug, Clone, Copy, PartialEq, Eq, Structural, PartialOrd, Ord)]
pub struct Emitted {
    /// The terminus the walk rests at.
    pub terminus: Position,
    /// The monotone record accumulated along the walk.
    pub record: Record,
}

/// A psychon: a walk through positions, and its record.
///
/// Deliberately holds no accessor for its walk and no equality.
#[derive(Debug)]
pub struct Psychon {
    walk: Vec<Position>,
    record: Record,
}

impl Clone for Psychon {
    fn clone(&self) -> (p: Self)
        ensures
            p.rests_at() == self.rests_at(),
            p.step_count() == self.step_count(),
            p.record_of() == self.record_of(),
    {
        proof { use_type_invariant(self); }
        Psychon { walk: self.walk.clone(), record: self.record }
    }
}

impl Psychon {
    #[verifier::type_invariant]
    closed spec fn has_origin(&self) -> bool {
        self.walk@.len() >= 1
    }

    /// Where the walk currently rests.
    pub closed spec fn rests_at(&self) -> Position {
        self.walk@.last()
    }

    /// How many steps the walk has taken.
    pub closed spec fn step_count(&self) -> nat {
        (self.walk@.len() - 1) as nat
    }

    /// The record accumulated so far.
    pub closed spec fn record_of(&self) -> Record {
        self.record
    }

    /// Begin a psychon resting at `origin`, with a fresh record.
    pub fn new(origin: Position) -> (p: Self)
        ensures
            p.rests_at() == origin,
            p.step_count() == 0,
            p.record_of().count() == 0,
    {
        let mut walk: Vec<Position> = Vec::new();
        walk.push(origin);
        Psychon { walk, record: Record::new() }
    }

    /// Begin from an existing record, for a psychon resumed mid-history.
    pub fn resumed(origin: Position, record: Record) -> (p: Self)
        ensures
            p.rests_at() == origin,
            p.step_count() == 0,
            p.record_of() == record,
    {
        let mut walk: Vec<Position> = Vec::new();
        walk.push(origin);
        Psychon { walk, record }
    }

    /// Step to `next`, depositing on the record.
    pub fn step(&mut self, next: Position)
        ensures
            final(self).rests_at() == next,
            final(self).step_count() == old(self).step_count() + 1,
            final(self).record_of().count() == if old(self).record_of().count() < u64::MAX {
                old(self).record_of().count() + 1
            } else {
                old(self).record_of().count()
            },
    {
        proof { use_type_invariant(&*self); }
        let mut walk: Vec<Position> = Vec::new();
        walk.push(next);
        std::mem::swap(&mut walk, &mut self.walk);
        walk.push(next);
        let mut record = self.record;
        record.commit();
        self.walk = walk;
        self.record = record;
    }

    /// The terminus: where the walk currently rests.
    pub fn terminus(&self) -> (t: Position)
        ensures
            t == self.rests_at(),
    {
        proof { use_type_invariant(self); }
        self.walk[self.walk.len() - 1]
    }

    /// The record.
    pub fn record(&self) -> (r: Record)
        ensures
            r == self.record_of(),
    {
        self.record
    }

    /// Number of steps taken: a count, not a route.
    pub fn steps(&self) -> (n: usize)
        ensures
            n == self.step_count(),
    {
        proof { use_type_invariant(self); }
        self.walk.len() - 1
    }

    /// What the psychon emits: its terminus and its record.
    pub open spec fn emitted_of(&self) -> Emitted {
        Emitted { terminus: self.rests_at(), record: self.record_of() }
    }

    /// Everything a receiver may have: the terminus and the record.
    pub fn emit(&self) -> (e: Emitted)
        ensures
            e == self.emitted_of(),
    {
        Emitted { terminus: self.terminus(), record: self.record }
    }
}

/// Two psychons resting at the same terminus with records of the same count emit the
/// same state, whatever walks brought them there: nothing emitted selects a
/// route.
pub proof fn distinct_walks_emit_identically(a: Psychon, b: Psychon)
    requires
        a.rests_at() == b.rests_at(),
        a.record_of().count() == b.record_of().count(),
    ensures
        a.emitted_of() == b.emitted_of(),
{
    crate::identity::records_of_equal_count_are_equal(a.record_of(), b.record_of());
}

} // verus!
