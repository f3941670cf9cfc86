//! First-order syntactic unification.
//!
//! The crate models symbolic expressions as [`term::Term`] trees and computes
//! the most general unifier of a queue of equality constraints with
//! [`engine::calculate_mgu`], Robinson's worklist algorithm with an
//! occurs-check.  Every function is verified against a mathematical model of
//! terms ([`term::SpecTerm`]) in which variable and symbol names are compared
//! by value.

pub mod engine;
pub mod term;
