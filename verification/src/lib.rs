//! A document "baking" engine.
//!
//! The library loads an immutable markup document tree, evaluates
//! path selectors over it, accumulates per-node override instructions
//! submitted by an external worker, merges those overrides into a flat
//! serialization plan, and renders the plan as markup text.

pub mod document;
pub mod error;
pub mod parse;
pub mod queue;
pub mod schema;
pub mod select;
pub mod serialize;
pub mod state;
pub mod tree;
