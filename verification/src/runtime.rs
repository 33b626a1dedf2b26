//! Errors of the node runtime.

use vstd::prelude::*;
use crate::invariants::InvariantViolation;

verus! {

/// Errors the runtime can return.
#[derive(Debug, Clone, PartialEq, Eq)]
pub enum Error {
    /// An invariant of the kernel would have been broken.
    Kernel(crate::Error),
    /// An invariant violation surfaced directly.
    Invariant(InvariantViolation),
    /// A scene was declared with a non-positive richness.
    Scene(String),
}

} // verus!
