//! Branch-and-bound core for constraint solving over real interval boxes.
//!
//! A box is one closed interval of IEEE-754 doubles per variable. This crate
//! provides the box-splitting and convergence logic that drives refinement of
//! such a box (binade-aligned bisection of the widest dimension), and the
//! three-valued constraint-oracle protocol (`may` / `may_not` / `must`) that
//! composes satisfiability answers of an external decision procedure into a
//! sound existential or universal judgment.
//!
//! Interval bounds are carried as the 64-bit patterns of the doubles; all
//! reasoning about them is done exactly, over the integer value that a bit
//! pattern denotes in units of the smallest positive subnormal.

pub mod bits;
pub mod dyadic;
pub mod interval;
pub mod boxops;
pub mod solver;

pub use boxops::{
    widest_index, width_box, eps_tol, midpoint_box, split_box, is_empty, straddles_zero,
    is_canonical, func,
};
pub use interval::GI;
pub use solver::{Solver, Query, SolverError};
