//! First-order terms and patterns with shared sub-trees and a structural
//! hash kept in each node, counter-based variables with generation chains, dense
//! reindexing of pattern variables, and matching up to a renaming.
//!
//! Symbols and variables are compared through the `Atom` capability: each
//! value has a 64-bit code that identifies and orders it. Every term and
//! pattern is described by its `Shape`, the tree of those codes, and the
//! contracts of this crate are stated over shapes.

pub mod atom;
pub mod shape;
pub mod term;
pub mod pattern;
pub mod variable;
pub mod index;
pub mod laws;

pub use atom::{Atom, Ranked};
pub use shape::Shape;
pub use term::Term;
pub use index::Index;
pub use variable::{Family, Incr, Parented, ParentedInner, Spawnable, Var};
pub use pattern::{Pattern, PatternKind, PatternLike, PatternLikeKind, UniqueVariables};
