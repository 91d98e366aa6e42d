//! The value domain of the engine: JSON-compatible values, carried opaquely.
//!
//! Known values, declared defaults, and resolved results are all
//! `serde_json::Value`s.  The engine never looks inside a value: it seeds
//! them into graph nodes, hands them to the evaluator, and returns them.

use vstd::prelude::*;

verus! {

#[verifier::external_type_specification]
#[verifier::external_body]
pub struct ExValue(serde_json::Value);

/// Relies on serde_json's `Clone` for `Value`: the copy equals the original.
#[verifier::external_body]
pub(crate) fn clone_value(v: &serde_json::Value) -> (r: serde_json::Value)
    ensures
        r == *v,
{
    v.clone()
}

} // verus!
