//! Kinds and references that explain default Expressions.
use vstd::prelude::*;

verus! {

/// A static rejection is distinct from missing or insufficient provider knowledge.
#[derive(Debug, Clone, Copy, PartialEq, Eq, Structural, PartialOrd, Ord)]
pub enum DefaultExpressionFailureKind {
    Rejected,
    Unresolved,
}

/// A small, snapshot-bound reference used to explain a default Expression.
#[derive(Debug, Clone, PartialEq, Eq, Hash)]
pub struct DefaultExpressionCatalogReference {
    pub role: String,
    pub definition_id: Option<String>,
    pub registration_id: Option<String>,
    pub source_digest: Option<String>,
    pub snapshot_id: Option<String>,
    pub document: Option<String>,
    pub index: Option<u64>,
}

} // verus!
