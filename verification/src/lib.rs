//! Lossless Skript source handling and the syntax analyses around matching:
//! UTF-8 ranges, macro expansion provenance, source maps, raw indentation
//! trees and validated tree edits; the static analyses of parsed registration
//! patterns and the literal prefilter built from them; the backtracking
//! pattern matcher, with its regex elements, typed elements and budgets, and
//! the ranking of competing syntax candidates; Function call syntax,
//! argument mapping and the transactional registry of document-declared
//! Functions; operator scanning for arithmetic; and the ranking of competing
//! parse failures.
use vstd::prelude::*;

pub mod text;
pub mod expansion;
pub mod source_map;
pub mod source_properties;
pub mod pattern_match;
pub mod matcher;
pub mod match_engine;
pub mod candidates;
pub mod expression_list;
pub mod raw_tree;
pub mod tree_edit;
pub mod expression;
pub mod failure;
pub mod function_registry;
pub mod section;
pub mod structure;
pub mod function;
pub mod string_map;
pub mod pattern_syntax;
pub mod arithmetic;
pub mod failure_tracker;
pub mod condition;
pub mod effect;
pub mod event;
pub mod default_expression;

verus! {

} // verus!
