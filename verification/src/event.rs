//! Event parsing settings.
use crate::expression::ExpressionParserConfig;
use vstd::prelude::*;

verus! {

/// Resource budgets shared by Event matching and capture parsing.
#[derive(Debug, Clone, PartialEq, Eq, Structural)]
pub struct EventParserConfig {
    /// Shared recursion, candidate, and matcher limits.
    pub expression: ExpressionParserConfig,
}

impl Default for EventParserConfig {
    fn default() -> (r: Self)
        ensures
            r.expression.max_depth == 64,
            r.expression.max_candidates == 10_000,
    {
        EventParserConfig { expression: ExpressionParserConfig::default() }
    }
}

} // verus!
