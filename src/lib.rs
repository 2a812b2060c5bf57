//! Minimum-cost perfect assignment by the primal-dual Hungarian method.
//!
//! The solver keeps dual potentials `u` (per agent) and `v` (per task) that
//! never exceed the cost of any pairing, looks for a perfect matching among the
//! pairings whose reduced cost is zero, and otherwise raises the duals along a
//! minimum vertex cover until such a matching exists.

pub mod sums;
pub mod matrix;
pub mod equality;
pub mod hungarian;
pub mod error;
pub mod duals;
pub mod solver;
pub mod inputs;
pub mod bipartite;
