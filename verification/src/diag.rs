//! Structured diagnostics reported by the engine.
//!
//! Binding-time errors (arity and kind checks) are reported immediately;
//! constraint-time over-constraint carries the minimal witness subset of
//! the recorded constraints; solver-time outcomes surface through
//! [`SolveResult`].

use crate::constraint::Constraint;
use crate::valueset::Value;
use crate::valueset::ValueSet;
use vstd::prelude::*;

verus! {

/// An error reported by the engine.
#[derive(Debug)]
pub enum Diagnostic {
    /// A value set became empty.  Carries a subset of the recorded
    /// constraints, in insertion order, whose conjunction is already
    /// unsatisfiable.
    OverConstrained(Vec<Constraint>),
    /// A parameter pack has the wrong length for its class, or named and
    /// unnamed parameters were mixed up.  Carries the length that was
    /// given.
    ArityMismatch(usize),
    /// A metavariable was used where an incompatible metatype is
    /// required.  Carries the human-readable reason of the offending
    /// constraint.
    TypeKindMismatch(String),
    /// A concrete type would be ill-formed under its class's rules.
    IllFormedConcreteType,
}

/// The outcome of solving a scope.
#[derive(Debug)]
pub enum SolveResult {
    /// Every metavariable resolved to a unique value.  Carries the
    /// mapping from display names to values, one entry per alias.
    Resolved(Vec<(String, Value)>),
    /// A value set became empty; the system is contradictory.
    Contradiction(Diagnostic),
    /// The system quiesced with at least one non-singleton value set.
    /// Carries each unresolved alias's display name and remaining set.
    Underdetermined(Vec<(String, ValueSet)>),
    /// A superset query needed to close the system came back unknown.
    TooComplex,
}

} // verus!
