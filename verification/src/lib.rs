//! Content-addressable declarations.
//!
//! The top-level declarations of a compilation unit are given digests that
//! go by their shape: a digest does not change when a declaration is
//! renamed or moved, and changes when a field, a parameter, a variant or a
//! type does. References between declarations are rewritten to carry the
//! digest of what they name, and a store maps names to digests and digests
//! to the rewritten declarations.
//!
//! The way through the library: [`extract`] keeps the declarations among
//! the parsed nodes of a unit; [`canon`] brings each into canonical form;
//! [`dag`] builds the graph of who mentions whom; [`link`] gives every
//! declaration its final digest and its rewritten body, cycles as one;
//! [`store`] builds the store and runs the whole. What the digests of a unit
//! are is said in [`unit`]; what holds of them, in [`laws`], [`rename`],
//! [`permute`] and [`normal`].

pub mod canon;
pub mod dag;
pub mod digest;
pub mod dot;
pub mod encode;
pub mod extract;
pub mod graph;
pub mod laws;
pub mod link;
pub mod model;
pub mod normal;
pub mod order;
pub mod permute;
pub mod refs;
pub mod rename;
pub mod rewrite;
pub mod schedule;
pub mod store;
pub mod targets;
pub mod unique;
pub mod unit;

pub use crate::dag::TypeDAG;
pub use crate::extract::ExtractError;
pub use crate::link::Linked;
pub use crate::model::{
    Body, Bound, DeclKind, Declaration, Field, Fields, Node, Span, Target, TypeExpr, Variant,
};
pub use crate::rewrite::Linker;
pub use crate::store::Compiler;
