//! What can go wrong when solving an assignment problem.
use vstd::prelude::*;

verus! {

/// A malformed problem, rejected before the solver runs.
#[derive(Clone, Copy, Debug, PartialEq, Eq, Structural)]
pub enum InputError {
    /// The cost matrix has no rows.
    EmptyMatrix,
    /// Two rows of the cost matrix have different lengths.
    RaggedRows,
    /// The rows all have one length, which is not the number of rows.
    NotSquare,
    /// A seeded dual vector does not have one entry per row.
    DualLengthMismatch,
    /// The seeded duals break `u[i] + v[j] <= c[i][j]` somewhere.
    InfeasibleDuals,
    /// More rows than the solver accepts.
    TooLarge,
}

/// Why a solve failed.
#[derive(Clone, Copy, Debug, PartialEq, Eq, Structural)]
pub enum AssignmentError {
    /// The input was malformed.
    Input(InputError),
    /// The equality subgraph could not be 2-colored.
    NotBipartite,
    /// No uncovered pair was left to compute the dual step from.
    InfeasibleState,
}

} // verus!
