//! A compiler pass for single-inheritance object models: it resolves a batch
//! of meaning declarations into a symbol table, builds the override tables
//! that stand in for virtual dispatch, and produces the pieces of the
//! generated model as fragments. A model of the generated instances shows
//! how conversions and calls behave on them.

use vstd::prelude::*;

pub mod arena;
pub mod tree;
pub mod symbol;
pub mod host;
pub mod arguments;
pub mod processing_step_2;
pub mod processing_step_3_2;
pub mod processing_step_3_6;
pub mod processing_step_3_7;
pub mod processing_step_3_8;
pub mod processing_step_3_9;
pub mod dispatch;
pub mod runtime;
pub mod pipeline;
pub mod generation;

verus! {

/// Failure of a checked conversion between meanings.
#[derive(Debug, Clone, Copy, PartialEq, Eq, Structural)]
pub enum SModelError {
    Contravariant,
}

} // verus!
