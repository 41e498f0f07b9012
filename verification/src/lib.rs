//! Exact tableau simplex (primal and dual) with a branch-and-bound search
//! for integer solutions of bounded linear programs.
//!
//! Every coefficient is a rational number, kept as an integer numerator over
//! one positive denominator shared by the whole tableau, so that pivoting is
//! exact and every rule of the solver can be stated over the integers.

pub mod arith;
pub mod branch;
pub mod feasible;
pub mod grid;
pub mod pivot;
pub mod registry;
pub mod search;
pub mod select;
pub mod simplex;
pub mod tableau;
pub mod trace;
