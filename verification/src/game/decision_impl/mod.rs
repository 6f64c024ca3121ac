//! Implementations of decisions: a context with one element per option,
//! decisions with a list of options, and decisions that compute their
//! outcomes from their context.

pub mod vec_context;
pub mod plain_decision;
pub mod vec_decision;
pub mod lazy_decision;
pub mod mapped_decision;
