//! A demand-driven inference engine.
//!
//! A knowledge base holds a tree of named classes, each owning named
//! parameters; relations, which are named fixed-arity pure functions given as
//! source text for an external expression evaluator; and rules, which bind a
//! relation to ordered argument parameters and one target parameter.  A solve
//! query seeds a graph of nodes with known values and resolves the requested
//! targets by trying each rule alternative in registration order, recursing
//! into missing arguments, detecting cycles, and falling back to declared
//! defaults.

use vstd::prelude::*;

pub mod builder;
pub mod model;
pub mod parse;
pub mod solver;
pub mod values;

pub use builder::KnowledgeBaseBuilder;
pub use model::KBClass;
pub use model::KnowledgeBase;
pub use model::Parameter;
pub use model::Relation;
pub use model::Rule;
pub use parse::process_function_string;
pub use solver::Evaluator;

verus! {

/// The ways a knowledge-base construction or solve call can fail.
#[derive(Debug)]
pub enum KnowledgeBaseError {
    /// A class, parameter, or relation name collides within its namespace.
    NameAlreadyExists,
    /// A relation source fails to compile, its signature cannot be parsed,
    /// or it declares zero arguments; carries the diagnostic.
    BadCode(String),
    /// A graph node could not be resolved: no alternative succeeded and no
    /// default was declared.
    SolveError,
    /// A rule's argument list length does not match its relation's arity.
    ArgCountError,
}

} // verus!
