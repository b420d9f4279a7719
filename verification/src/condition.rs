//! Condition parsing settings and node kinds.
use crate::expression::ExpressionParserConfig;
use vstd::prelude::*;

verus! {

/// Resource budgets shared by Condition matching and nested Expressions.
#[derive(Debug, Clone, PartialEq, Eq, Structural)]
pub struct ConditionParserConfig {
    pub expression: ExpressionParserConfig,
}

impl Default for ConditionParserConfig {
    fn default() -> (r: Self)
        ensures
            r.expression.max_depth == 64,
            r.expression.max_candidates == 10_000,
    {
        ConditionParserConfig { expression: ExpressionParserConfig::default() }
    }
}

/// Source of a Condition node.
#[derive(Debug, Clone, PartialEq, Eq)]
pub enum ConditionNodeKind {
    /// A complete child Condition wrapped in one pair of parentheses.
    Grouped,
    /// One registered Condition pattern.
    Registered {
        definition_id: String,
        registration_id: String,
        pattern_index: usize,
        pattern: String,
        priority: i32,
        registration_order: usize,
    },
}

} // verus!
