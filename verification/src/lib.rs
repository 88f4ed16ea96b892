//! Precedence climbing for infix-operator token sequences.
//!
//! Callers declare operators in ordered precedence groups, derive a
//! [`climber::PrecClimber`] from them once, and then reduce alternating
//! `primary, operator, primary, ...` token sequences to a single value with
//! caller-supplied primary and infix callbacks.

pub mod climber;
pub mod operators;
