//! Structure headers: the types that describe top-level Structure parsing, the
//! range of a Structure's header text and case-insensitive prefixes.
use crate::expression::{ascii_fold, ExpressionParserConfig};
use crate::pattern_match::MatchSpan;
use crate::raw_tree::{RawNode, RawNodeId, RawNodeKind};
use crate::section::{ends_with_colon, header_in, trimmed_header, SectionDiagnostic, SectionDiagnosticKind};
use crate::source_map::MappedSource;
use crate::text::{boundary, bytes_of, lemma_boundary, str_slice, TextRange};
use vstd::prelude::*;
use vstd::string::{StringExecFns, StringSliceAdditionalSpecFns};
use vstd::utf8::*;

verus! {

broadcast use vstd::utf8::group_utf8_lib;

/// Budgets of a Structure parse.
#[derive(Debug, Clone, PartialEq, Eq, Structural)]
pub struct StructureParserConfig {
    /// Shared recursive Expression parser configuration.
    pub expression: ExpressionParserConfig,
}

impl Default for StructureParserConfig {
    fn default() -> (r: Self)
        ensures
            r.expression.max_depth == 64,
    {
        StructureParserConfig { expression: ExpressionParserConfig::default() }
    }
}

/// Native body parser selected after a Structure header is accepted.
#[derive(Debug, Clone, Copy, PartialEq, Eq, Structural)]
pub enum StructureBodyMode {
    /// The Structure is a Simple node and has no body.
    Absent,
    /// Preserve the body as lossless RawTree node IDs.
    Raw,
    /// Apply the registration's declarative entry validator.
    Entries,
    /// Recursively parse the body as Section and Effect statements.
    Trigger,
}

/// Lifecycle point at which a Structure hook is invoked.
#[derive(Debug, Clone, Copy, PartialEq, Eq, Structural)]
pub enum StructureHookTiming {
    /// After the header matched and before its body is parsed.
    EnterBody,
    /// After the chosen native body parser completed.
    ExitBody,
}

/// Category of a Structure diagnostic.
#[derive(Debug, Clone, Copy, PartialEq, Eq, Structural)]
pub enum StructureDiagnosticKind {
    /// No registered Structure or entry accepted the node.
    Unclaimed,
    /// More than one registration accepted the same header.
    MultipleClaims,
    /// A non-optional entry value was absent.
    MissingRequiredEntry,
    /// A non-multiple entry value appeared again.
    DuplicateEntry,
    /// A known entry parser could not parse its value.
    InvalidEntryValue,
    /// An addon-specific entry that needs addon semantics.
    UnknownEntryData,
}

/// Source-mapped diagnostic that does not discard the partial Structure tree.
#[derive(Debug, Clone, PartialEq, Eq)]
pub struct StructureDiagnostic {
    /// Related RawTree node when one exists.
    pub raw_node_id: Option<RawNodeId>,
    /// Stable diagnostic category.
    pub kind: StructureDiagnosticKind,
    /// Primary mapped diagnostic location.
    pub span: MatchSpan,
    /// Human-readable explanation.
    pub message: String,
}

/// Problems of a Structure node that keep it from being parsed.
#[derive(Debug, Clone, PartialEq, Eq)]
pub enum StructureParseError {
    /// A requested range is outside the source or splits UTF-8.
    InvalidRange { range: TextRange },
    /// A non-trivia node lacks the code span needed for matching.
    MissingCodeSpan { node_id: RawNodeId },
    /// A RawTree Section did not retain its expected trailing colon.
    MissingHeaderColon,
    /// A nested body parser failed.
    Body { message: String },
    /// Parser extension processing failed.
    Environment { message: String },
}

/// What the header range of a Structure node is in virtual text `vb`: a
/// Section's header stops before its colon, any other node's at its end.
pub open spec fn structure_header(vb: Seq<u8>, node: RawNode) -> Result<TextRange, StructureParseError> {
    match node.code_span {
        None => Err(StructureParseError::MissingCodeSpan { node_id: node.id }),
        Some(cs) => {
            let range = cs.virtual_range;
            if !range.valid_for(vb) {
                Err(StructureParseError::InvalidRange { range })
            } else if node.kind == RawNodeKind::Section && !ends_with_colon(vb, range) {
                Err(StructureParseError::MissingHeaderColon)
            } else {
                Ok(trimmed_header(vb, range, node.kind == RawNodeKind::Section))
            }
        },
    }
}

/// The range of a Structure node's header, trimmed.
pub fn structure_header_range(source: &MappedSource, node: &RawNode) -> (r: Result<TextRange, StructureParseError>)
    ensures
        r == structure_header(encode_utf8(source@.virtual_source), *node),
{
    let range = match &node.code_span {
        Some(span) => span.virtual_range,
        None => {
            return Err(StructureParseError::MissingCodeSpan { node_id: node.id });
        },
    };
    let vs = source.virtual_source();
    let text = match range.slice(vs) {
        Some(text) => text,
        None => {
            return Err(StructureParseError::InvalidRange { range });
        },
    };
    let section = node.kind == RawNodeKind::Section;
    let t = text.as_bytes();
    if section {
        if t.len() == 0 || t[t.len() - 1] != 0x3a {
            proof {
                if range.start < range.end {
                    assert(t@[t@.len() - 1] == bytes_of(vs)[range.end - 1]);
                }
            }
            return Err(StructureParseError::MissingHeaderColon);
        }
        proof {
            assert(t@[t@.len() - 1] == bytes_of(vs)[range.end - 1]);
            assert(bytes_of(text).subrange(0, bytes_of(text).len() - 1) =~= bytes_of(vs).subrange(
                range.start as int,
                range.end - 1,
            ));
        }
    } else {
        proof {
            assert(bytes_of(text).subrange(0, bytes_of(text).len() as int) =~= bytes_of(vs).subrange(
                range.start as int,
                range.end as int,
            ));
        }
    }
    Ok(header_in(text, range, section))
}

/// `value` begins with `prefix`, ignoring ASCII case, and the prefix ends on a
/// character boundary of `value`.
pub open spec fn has_prefix_ignoring_case(value: Seq<u8>, prefix: Seq<u8>) -> bool {
    &&& prefix.len() <= value.len()
    &&& boundary(value, prefix.len() as int)
    &&& forall|k: int| 0 <= k < prefix.len() ==> ascii_fold(#[trigger] value[k]) == ascii_fold(prefix[k])
}

/// The rest of `value` after `prefix`, when `value` begins with it ignoring ASCII case.
pub fn strip_prefix_ignore_ascii_case<'a>(value: &'a str, prefix: &str) -> (r: Option<&'a str>)
    ensures
        r is Some <==> has_prefix_ignoring_case(bytes_of(value), bytes_of(prefix)),
        r matches Some(rest) ==> bytes_of(rest) == bytes_of(value).subrange(
            bytes_of(prefix).len() as int,
            bytes_of(value).len() as int,
        ),
{
    let v = value.as_bytes();
    let p = prefix.as_bytes();
    if p.len() > v.len() {
        return None;
    }
    proof {
        lemma_boundary(v@, p@.len() as int);
    }
    if !value.is_char_boundary(p.len()) {
        return None;
    }
    let mut k: usize = 0;
    while k < p.len()
        invariant
            v@ == bytes_of(value),
            p@ == bytes_of(prefix),
            p@.len() <= v@.len(),
            k <= p@.len(),
            forall|q: int| 0 <= q < k ==> ascii_fold(#[trigger] v@[q]) == ascii_fold(p@[q]),
        decreases p@.len() - k,
    {
        let a = if 0x41 <= v[k] && v[k] <= 0x5a {
            v[k] + 0x20
        } else {
            v[k]
        };
        let b = if 0x41 <= p[k] && p[k] <= 0x5a {
            p[k] + 0x20
        } else {
            p[k]
        };
        if a != b {
            proof {
                assert(ascii_fold(v@[k as int]) != ascii_fold(p@[k as int]));
            }
            return None;
        }
        k = k + 1;
    }
    Some(str_slice(value, p.len(), v.len()))
}

/// The message of a Structure diagnostic raised for a trigger child.
pub open spec fn trigger_child_message() -> Seq<char> {
    "Structure trigger child could not be parsed uniquely"@
}

/// Reports a Section body diagnostic of a trigger as a Structure diagnostic.
pub fn section_diagnostic_to_structure(value: SectionDiagnostic) -> (r: StructureDiagnostic)
    ensures
        r.raw_node_id == Some(value.raw_node_id),
        r.kind == (match value.kind {
            SectionDiagnosticKind::Unclaimed => StructureDiagnosticKind::Unclaimed,
            SectionDiagnosticKind::MultipleClaims => StructureDiagnosticKind::MultipleClaims,
        }),
        r.span == value.span,
        r.message@ == trigger_child_message(),
{
    StructureDiagnostic {
        raw_node_id: Some(value.raw_node_id),
        kind: match value.kind {
            SectionDiagnosticKind::Unclaimed => StructureDiagnosticKind::Unclaimed,
            SectionDiagnosticKind::MultipleClaims => StructureDiagnosticKind::MultipleClaims,
        },
        span: value.span,
        message: String::from_str("Structure trigger child could not be parsed uniquely"),
    }
}

} // verus!
