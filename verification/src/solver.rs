//! The semantic graph and the check of selectional restrictions.

pub mod graph;
pub mod validate;

pub use graph::SemanticGraph;
pub use validate::{validate_semantics, SemanticError};
pub use crate::protocol::model::Relation;
