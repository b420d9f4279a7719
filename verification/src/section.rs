//! Section headers: the types that describe Section parsing and the range of
//! a Section's header text.
use crate::expression::ExpressionParserConfig;
use crate::pattern_match::{java_trim, java_trim_range, MatchSpan};
use crate::raw_tree::{RawNode, RawNodeId, RawNodeKind};
use crate::source_map::MappedSource;
use crate::text::{bytes_of, lemma_after_ascii, str_slice, TextRange};
use vstd::prelude::*;
use vstd::string::StringSliceAdditionalSpecFns;
use vstd::utf8::*;

verus! {

broadcast use vstd::utf8::group_utf8_lib;

/// Whether a parsed root Section completes its lifecycle or keeps its body open.
#[derive(Debug, Clone, Copy, PartialEq, Eq, Structural)]
pub enum SectionRootLifecycle {
    /// Parse the body and run both enter and exit hooks.
    Complete,
    /// Keep the requested root Section's enter state active after parsing.
    RetainBody,
}

impl Default for SectionRootLifecycle {
    fn default() -> (r: Self)
        ensures
            r == SectionRootLifecycle::Complete,
    {
        SectionRootLifecycle::Complete
    }
}

/// Budgets and root lifecycle of a Section parse.
#[derive(Debug, Clone, PartialEq, Eq, Structural)]
pub struct SectionParserConfig {
    pub expression: ExpressionParserConfig,
    pub root_lifecycle: SectionRootLifecycle,
}

impl Default for SectionParserConfig {
    fn default() -> (r: Self)
        ensures
            r.root_lifecycle == SectionRootLifecycle::Complete,
            r.expression.max_depth == 64,
    {
        SectionParserConfig { expression: ExpressionParserConfig::default(), root_lifecycle: SectionRootLifecycle::default() }
    }
}

/// Primary role of an active Section scope.
#[derive(Debug, Clone, Copy, PartialEq, Eq, Structural, Hash)]
pub enum SectionScopeKind {
    Section,
    Loop,
    EffectSection,
    SectionExpression,
}

/// Why a Section body node produced a diagnostic.
#[derive(Debug, Clone, Copy, PartialEq, Eq, Structural)]
pub enum SectionDiagnosticKind {
    Unclaimed,
    MultipleClaims,
}

/// A Section body node that no candidate, or more than one, claimed.
#[derive(Debug, Clone, PartialEq, Eq)]
pub struct SectionDiagnostic {
    pub raw_node_id: RawNodeId,
    pub kind: SectionDiagnosticKind,
    pub span: MatchSpan,
}

/// Problems of a Section node that keep it from being parsed.
#[derive(Debug, Clone, PartialEq, Eq)]
pub enum SectionParseError {
    UnsupportedNodeKind { actual: RawNodeKind },
    MissingCodeSpan { node_id: RawNodeId },
    MissingHeaderColon,
    SyntaxContextMismatch { node_context: u64, parser_context: u64 },
    InvalidRange { range: TextRange },
    Environment { message: String },
}

/// The header of a line whose code is `vb[range]`: the code before its final
/// colon (if `colon` asks for one), trimmed as Java trims.
pub open spec fn trimmed_header(vb: Seq<u8>, range: TextRange, colon: bool) -> TextRange {
    let end = if colon {
        range.end - 1
    } else {
        range.end as int
    };
    let t = java_trim(vb.subrange(range.start as int, end));
    TextRange { start: (range.start + t.start) as usize, end: (range.start + t.end) as usize }
}

/// The code of `vb[range]` ends with a colon.
pub open spec fn ends_with_colon(vb: Seq<u8>, range: TextRange) -> bool {
    range.start < range.end && vb[range.end - 1] == 0x3a
}

/// What the header range of a Section node is in virtual text `vb`.
pub open spec fn section_header(vb: Seq<u8>, node: RawNode) -> Result<TextRange, SectionParseError> {
    match node.code_span {
        None => Err(SectionParseError::MissingCodeSpan { node_id: node.id }),
        Some(cs) => {
            let range = cs.virtual_range;
            if !range.valid_for(vb) {
                Err(SectionParseError::InvalidRange { range })
            } else if !ends_with_colon(vb, range) {
                Err(SectionParseError::MissingHeaderColon)
            } else {
                Ok(trimmed_header(vb, range, true))
            }
        },
    }
}

/// The trimmed header of `range`, which must be valid for the source text.
pub(crate) fn header_in(text: &str, range: TextRange, colon: bool) -> (r: TextRange)
    requires
        colon ==> bytes_of(text).len() > 0 && bytes_of(text)[bytes_of(text).len() - 1] == 0x3a,
        range.end - range.start == bytes_of(text).len(),
    ensures
        r.start == range.start + java_trim(
            bytes_of(text).subrange(0, if colon { bytes_of(text).len() - 1 } else { bytes_of(text).len() as int }),
        ).start,
        r.end == range.start + java_trim(
            bytes_of(text).subrange(0, if colon { bytes_of(text).len() - 1 } else { bytes_of(text).len() as int }),
        ).end,
{
    let t = text.as_bytes();
    let cut = if colon {
        proof {
            lemma_after_ascii(t@, t@.len() - 1);
        }
        t.len() - 1
    } else {
        t.len()
    };
    let header = str_slice(text, 0, cut);
    let trimmed = java_trim_range(header);
    proof {
        crate::pattern_match::lemma_java_trim_bounds(bytes_of(header));
    }
    TextRange::new(range.start + trimmed.start, range.start + trimmed.end)
}

/// The range of a Section node's header: its code span without the final
/// colon, trimmed.
pub fn section_header_range(source: &MappedSource, node: &RawNode) -> (r: Result<TextRange, SectionParseError>)
    ensures
        r == section_header(encode_utf8(source@.virtual_source), *node),
{
    let range = match &node.code_span {
        Some(span) => span.virtual_range,
        None => {
            return Err(SectionParseError::MissingCodeSpan { node_id: node.id });
        },
    };
    let vs = source.virtual_source();
    let text = match range.slice(vs) {
        Some(text) => text,
        None => {
            return Err(SectionParseError::InvalidRange { range });
        },
    };
    let t = text.as_bytes();
    if t.len() == 0 || t[t.len() - 1] != 0x3a {
        proof {
            if range.start < range.end {
                assert(t@[t@.len() - 1] == bytes_of(vs)[range.end - 1]);
            }
        }
        return Err(SectionParseError::MissingHeaderColon);
    }
    proof {
        assert(t@[t@.len() - 1] == bytes_of(vs)[range.end - 1]);
        assert(bytes_of(text).subrange(0, bytes_of(text).len() as int) =~= bytes_of(text));
        assert(bytes_of(text).subrange(0, bytes_of(text).len() - 1) =~= bytes_of(vs).subrange(
            range.start as int,
            range.end - 1,
        ));
    }
    Ok(header_in(text, range, true))
}

} // verus!
