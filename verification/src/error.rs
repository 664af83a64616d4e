//! Failure reporting for the placement pipeline.
//!
//! Every failure is a single typed value carrying a broad category and a
//! human-readable cause string; the caller decides how to present it.

use vstd::prelude::*;

verus! {

/// Broad category of a placement failure.
#[derive(Clone, Copy, Debug, PartialEq, Eq, Structural)]
pub enum ErrorKind {
    /// A structural violation in the problem description, detected while the
    /// connectivity graph is constructed.
    MalformedProblem,
    /// A zero diagonal entry encountered by the relaxation solver (an
    /// isolated floating cell with no incident edges).
    SingularSystem,
    /// The relaxation did not settle below the tolerance within the sweep
    /// budget.
    NonConvergence,
}

/// The single failure type of the placement pipeline.
#[derive(Clone, Copy, Debug)]
pub struct PlacerError {
    pub kind: ErrorKind,
    pub why: &'static str,
}

} // verus!
