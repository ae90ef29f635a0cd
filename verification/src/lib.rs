//! A tree-driven code-formatting core.
//!
//! Given a concrete syntax tree and a set of formatting directives anchored to
//! tree nodes, this crate produces laid-out output text while keeping the
//! original token content verbatim.  The pipeline runs in fixed stages: leaf
//! collection over the tree, directive resolution into per-leaf prepend and
//! append tables, flattening, a fixed sequence of whitespace rewrites, and a
//! final indentation-aware rendering pass.

pub mod atom_collection;
pub mod atoms;
pub mod error;
pub mod pretty;
pub mod tree;

pub use atom_collection::AtomCollection;
pub use atoms::Atom;
pub use error::{FormatterError, FormatterResult};
pub use pretty::render;
pub use tree::{Cst, CstNode};
