//! Effect parsing settings.
use crate::expression::ExpressionParserConfig;
use vstd::prelude::*;

verus! {

/// Resource budgets shared by Effect matching and nested Expression parsing.
#[derive(Debug, Clone, PartialEq, Eq, Structural)]
pub struct EffectParserConfig {
    pub expression: ExpressionParserConfig,
}

impl Default for EffectParserConfig {
    fn default() -> (r: Self)
        ensures
            r.expression.max_depth == 64,
            r.expression.max_candidates == 10_000,
    {
        EffectParserConfig { expression: ExpressionParserConfig::default() }
    }
}

} // verus!
