//! Immutable syntax-tree editing and patch generation.
//!
//! The crate offers a read-only element tree (nodes and tokens), pure
//! structural edit primitives that produce new trees while sharing untouched
//! subtrees, construct-aware insertion policies that keep generated code
//! formatted, and a diff engine that turns the difference between a baseline
//! tree and an edited tree into an ordered, disjoint list of text
//! replacements.

pub mod algo;
pub mod ast_editor;
mod buf;
pub mod diff;
pub mod per_ns;
pub mod text;
pub mod tree;
