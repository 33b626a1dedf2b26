//! Contact graphs, closure, and the six implementation invariants, together
//! with the runtime structures built on them: psychons, the forum, the
//! square of voices, and the generated layout of a society.
//!
//! Arithmetic on edge weights is floating-point and is not part of this
//! library; everything here is structural and is verified.

use vstd::prelude::*;

pub mod act;
pub mod cli;
pub mod closure;
pub mod forum;
pub mod graph;
pub mod identity;
pub mod invariants;
pub mod moderator;
pub mod node;
pub mod outcome;
pub mod population;
pub mod psychon;
pub mod runtime;
pub mod rng;
pub mod session;
pub mod society;
pub mod text;
pub mod token;
pub mod voice;
pub mod weather;

verus! {

/// Errors this crate can return.
///
/// There is no variant reporting an outcome as unsuccessful: declination is
/// a value ([`outcome::Outcome::Declined`]), not an error.
#[derive(Debug, Clone, PartialEq, Eq)]
pub enum Error {
    /// An implementation invariant would have been broken.
    Invariant(invariants::InvariantViolation),
    /// A graph was given that does not satisfy the axioms.
    Graph(String),
    /// A session token was not well formed.
    Token(String),
}

/// The message for an error.
pub open spec fn error_text(e: Error) -> Seq<char> {
    match e {
        Error::Invariant(v) => "invariant violated: "@ + invariants::violation_text(v),
        Error::Graph(m) => "malformed contact graph: "@ + m@,
        Error::Token(m) => "malformed token: "@ + m@,
    }
}

impl Error {
    /// The message for this error.
    pub fn message(&self) -> (m: String)
        ensures
            m@ == error_text(*self),
    {
        match self {
            Error::Invariant(v) => String::from_str("invariant violated: ").concat(v.message().as_str()),
            Error::Graph(s) => String::from_str("malformed contact graph: ").concat(s.as_str()),
            Error::Token(s) => String::from_str("malformed token: ").concat(s.as_str()),
        }
    }
}

} // verus!
