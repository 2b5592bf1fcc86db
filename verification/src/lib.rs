//! A constraint-propagation type-inference engine for a parameterized
//! data-type system.
//!
//! Query-plan functions describe their parameter and return types with
//! *patterns* ([`pattern`]) that contain *metavariables*
//! ([`reference`], [`metavars`]).  Bound into a solver scope
//! ([`context`]), each metavariable carries a symbolic set
//! ([`valueset`], [`sets`]) of the values it may still take.  Asserting
//! constraints ([`constraint`]) intersects those sets; the solver loop
//! propagates until the system resolves, contradicts itself, or stays
//! under-determined ([`diag`]).  The meaning of every operation is
//! fixed by the spec functions in [`semantics`], and the engine's
//! algebraic laws are proved in [`laws`].

pub mod constraint;
pub mod context;
pub mod data_type;
pub mod diag;
pub mod display;
pub mod extension;
pub mod laws;
pub mod metavars;
pub mod pattern;
pub mod reference;
pub mod semantics;
pub mod sets;
pub mod valueset;
