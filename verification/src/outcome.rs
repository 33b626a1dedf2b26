//! Outcomes and the three routes to non-commitment.
//!
//! An outcome has exactly two shapes, and a declination is a value, not an
//! error.

use vstd::prelude::*;
use crate::closure::{Consideration, Reach, Region, closed_at, reach_of};
use crate::graph::Position;

verus! {

/// The result of a completed search.
#[derive(Debug)]
pub enum Outcome {
    /// The search closed on a single region.
    Resolved { cell: Region },
    /// The search closed on a plurality of mutually incompatible regions.
    /// This is a successful termination.
    Declined { cells: Reach },
}

impl Outcome {
    /// Build an outcome from a reach set: nothing from an empty reach, a
    /// resolution from a single region, a declination from two or more.
    pub fn from_reach(reach: Reach) -> (r: Option<Self>)
        ensures
            match r {
                None => reach@.len() == 0,
                Some(Outcome::Resolved { cell }) => reach@.len() == 1 && reach@ == set![cell@],
                Some(Outcome::Declined { cells }) => reach@.len() >= 2 && cells@ == reach@,
            },
    {
        let n = reach.len();
        if n == 0 {
            None
        } else if n == 1 {
            let rs = reach.regions();
            proof {
                let vs = rs@.map_values(|r: Region| r@);
                vs.unique_seq_to_set();
                assert(vs.len() == 1);
                assert(vs.to_set() =~= set![vs[0]]);
            }
            let cell = rs[0].clone();
            Some(Outcome::Resolved { cell })
        } else {
            Some(Outcome::Declined { cells: reach })
        }
    }

    /// Whether this outcome declined. Provided for display only.
    pub fn is_declined(&self) -> (b: bool)
        ensures
            b == (self is Declined),
    {
        match self {
            Outcome::Declined { .. } => true,
            Outcome::Resolved { .. } => false,
        }
    }
}

/// Why a commitment did or did not occur.
#[derive(Debug, Clone, Copy, PartialEq, Eq, Structural)]
pub enum Route {
    /// The agent committed.
    Committed,
    /// (i) No invoked consideration reaches the target.
    Ignorance,
    /// (ii) Some available consideration reaches elsewhere, so closure fails.
    Inertia,
    /// (iii) The target is not a sufficient region, so it is not a candidate.
    Confusion,
}

/// The route an attempt takes: confusion before ignorance before inertia.
pub open spec fn route_of(
    seed: Position,
    target: Set<Position>,
    invoked: Seq<Consideration>,
    available: Seq<Consideration>,
    sufficient: Set<Set<Position>>,
) -> Route {
    if !sufficient.contains(target) {
        Route::Confusion
    } else if !reach_of(seed, invoked).contains(target) {
        Route::Ignorance
    } else if !closed_at(seed, invoked, available) {
        Route::Inertia
    } else {
        Route::Committed
    }
}

/// Classify an attempt into exactly one route.
pub fn classify(
    seed: Position,
    target: &Region,
    invoked: &[Consideration],
    available: &[Consideration],
    sufficient: &Reach,
) -> (r: Route)
    ensures
        r == route_of(seed, target@, invoked@, available@, sufficient@),
{
    if !sufficient.contains(target) {
        return Route::Confusion;
    }
    if !crate::closure::reach(seed, invoked).contains(target) {
        return Route::Ignorance;
    }
    if !crate::closure::is_closed(seed, invoked, available) {
        return Route::Inertia;
    }
    Route::Committed
}

/// An attempt is classified as committed exactly when the target is a
/// sufficient region and the agent commits to it.
pub proof fn committed_iff_commits(
    seed: Position,
    target: Set<Position>,
    invoked: Seq<Consideration>,
    available: Seq<Consideration>,
    sufficient: Set<Set<Position>>,
)
    ensures
        (route_of(seed, target, invoked, available, sufficient) == Route::Committed) <==> (
        sufficient.contains(target) && closed_at(seed, invoked, available) && reach_of(
            seed,
            invoked,
        ).contains(target)),
{
}

} // verus!
