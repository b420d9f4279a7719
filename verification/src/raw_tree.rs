//! Lossless indentation tree and recoverable lexical diagnostics.
//!
//! Every physical line of the virtual source becomes exactly one node, so the
//! raw text and line ending of the nodes, in order, spell the source again.
//! Sections nest by indentation; lines with bad indentation become `Invalid`
//! nodes with a diagnostic instead of aborting the parse.
use crate::expansion::SyntaxContextId;
use crate::source_map::{MappedSource, MappedSpan, SpanView};
use crate::text::{
    boundary, bytes_of, lemma_boundary, lemma_after_ascii, lemma_encode_nonempty, lemma_encode_ascii_char, lemma_encode_concat, lemma_next_boundary,
    lemma_ws_end_boundary, lemma_ws_start_boundary, lemma_slice_boundary, lemma_boundary_in_slice, lemma_str_valid, str_len,
    str_slice, skip_unicode_whitespace, trailing_whitespace_start, utf8_width, ws_end, ws_len,
    ws_len_before, ws_start_before, TextRange,
};
use vstd::prelude::*;
use vstd::string::{StringExecFns, StringSliceAdditionalSpecFns};
use vstd::utf8::*;

verus! {


/// Arena index of a node in a [`RawTree`].
#[derive(Debug, Clone, Copy, PartialEq, Eq, Structural, PartialOrd, Ord, Hash)]
pub struct RawNodeId(pub u64);

impl RawNodeId {
    pub fn new(value: u64) -> (r: Self)
        ensures
            r.0 == value,
    {
        RawNodeId(value)
    }

    pub fn get(self) -> (r: u64)
        ensures
            r == self.0,
    {
        self.0
    }

    /// The arena index the ID names.
    pub fn index(self) -> (r: usize)
        requires
            self.0 <= usize::MAX,
        ensures
            r == self.0,
    {
        self.0 as usize
    }
}

/// Terminator of a physical line.
#[derive(Debug, Clone, Copy, PartialEq, Eq, Structural, Hash)]
pub enum LineEnding {
    Absent,
    Lf,
    CrLf,
    Cr,
}

/// The bytes a line ending stands for.
pub open spec fn ending_bytes(e: LineEnding) -> Seq<u8> {
    match e {
        LineEnding::Absent => Seq::empty(),
        LineEnding::Lf => seq![0x0au8],
        LineEnding::CrLf => seq![0x0du8, 0x0au8],
        LineEnding::Cr => seq![0x0du8],
    }
}

impl LineEnding {
    /// The text of the line ending.
    pub fn as_str(self) -> (r: &'static str)
        ensures
            bytes_of(r) == ending_bytes(self),
    {
        match self {
            LineEnding::Absent => {
                let s = "";
                proof {
                    reveal_strlit("");
                    assert(s@ =~= Seq::<char>::empty());
                    assert(encode_utf8(s@) =~= Seq::<u8>::empty());
                    assert(bytes_of(s) =~= ending_bytes(LineEnding::Absent));
                }
                s
            },
            LineEnding::Lf => {
                let s = "\n";
                proof {
                    reveal_strlit("\n");
                    assert(s@ =~= seq!['\n']);
                    lemma_encode_ascii_char('\n');
                    assert(bytes_of(s) =~= ending_bytes(LineEnding::Lf));
                }
                s
            },
            LineEnding::CrLf => {
                let s = "\r\n";
                proof {
                    reveal_strlit("\r\n");
                    assert(s@ =~= seq!['\r'] + seq!['\n']);
                    lemma_encode_concat(seq!['\r'], seq!['\n']);
                    lemma_encode_ascii_char('\r');
                    lemma_encode_ascii_char('\n');
                    assert(bytes_of(s) =~= seq![0x0du8, 0x0au8]);
                    assert(bytes_of(s) =~= ending_bytes(LineEnding::CrLf));
                }
                s
            },
            LineEnding::Cr => {
                let s = "\r";
                proof {
                    reveal_strlit("\r");
                    assert(s@ =~= seq!['\r']);
                    lemma_encode_ascii_char('\r');
                    assert(bytes_of(s) =~= ending_bytes(LineEnding::Cr));
                }
                s
            },
        }
    }
}

/// Character used for indentation.
#[derive(Debug, Clone, Copy, PartialEq, Eq, Structural, Hash)]
pub enum IndentKind {
    Space,
    Tab,
}

/// The indentation unit fixed by the first indented line of a document.
#[derive(Debug, PartialEq, Eq, Hash)]
pub struct Indentation {
    pub kind: IndentKind,
    pub unit: String,
}

impl Clone for Indentation {
    fn clone(&self) -> (r: Self)
        ensures
            r.kind == self.kind,
            r.unit@ == self.unit@,
    {
        Indentation { kind: self.kind, unit: self.unit.clone() }
    }
}

/// Kind of non-code text on a line.
#[derive(Debug, Clone, Copy, PartialEq, Eq, Structural, Hash)]
pub enum RawTriviaKind {
    Whitespace,
    LineComment,
    BlockComment,
    LineEnding,
}

/// Whitespace, comment or line ending text with its mapped span.
#[derive(Debug, PartialEq, Eq)]
pub struct RawTrivia {
    pub kind: RawTriviaKind,
    pub text: String,
    pub span: MappedSpan,
}

impl Clone for RawTrivia {
    fn clone(&self) -> (r: Self)
        ensures
            r.kind == self.kind,
            r.text@ == self.text@,
            r.span@ == self.span@,
    {
        RawTrivia { kind: self.kind, text: self.text.clone(), span: self.span.clone() }
    }
}

/// One physical line of the source.
#[derive(Debug, PartialEq, Eq)]
pub struct RawLine {
    /// Zero-based physical line number.
    pub number: usize,
    /// Source text excluding the line ending.
    pub raw_text: String,
    pub line_ending: LineEnding,
    /// Full physical line, including its line ending when present.
    pub span: MappedSpan,
    pub content_span: MappedSpan,
    pub line_ending_span: MappedSpan,
    /// Leading whitespace. It is preserved even when indentation is invalid.
    pub indentation: RawTrivia,
    /// Whitespace after code, comments, and the line ending in source order.
    pub trailing_trivia: Vec<RawTrivia>,
}

/// Views of a sequence of trivia.
pub open spec fn trivia_views(v: Seq<RawTrivia>) -> Seq<(RawTriviaKind, Seq<char>, SpanView)> {
    v.map_values(|t: RawTrivia| (t.kind, t.text@, t.span@))
}

impl Clone for RawLine {
    fn clone(&self) -> (r: Self)
        ensures
            r.number == self.number,
            r.raw_text@ == self.raw_text@,
            r.line_ending == self.line_ending,
            r.span@ == self.span@,
            r.content_span@ == self.content_span@,
            r.line_ending_span@ == self.line_ending_span@,
            r.indentation.kind == self.indentation.kind,
            r.indentation.text@ == self.indentation.text@,
            r.indentation.span@ == self.indentation.span@,
            trivia_views(r.trailing_trivia@) == trivia_views(self.trailing_trivia@),
    {
        let mut trailing_trivia: Vec<RawTrivia> = Vec::new();
        let mut k: usize = 0;
        while k < self.trailing_trivia.len()
            invariant
                k <= self.trailing_trivia@.len(),
                trivia_views(trailing_trivia@) == trivia_views(self.trailing_trivia@.take(k as int)),
            decreases self.trailing_trivia@.len() - k,
        {
            let t = self.trailing_trivia[k].clone();
            let ghost before = trailing_trivia@;
            trailing_trivia.push(t);
            proof {
                assert(self.trailing_trivia@.take(k + 1) =~= self.trailing_trivia@.take(k as int).push(
                    self.trailing_trivia@[k as int],
                ));
                assert(trivia_views(trailing_trivia@) =~= trivia_views(before).push(
                    (t.kind, t.text@, t.span@),
                ));
                assert(trivia_views(self.trailing_trivia@.take(k + 1)) =~= trivia_views(
                    self.trailing_trivia@.take(k as int),
                ).push((t.kind, t.text@, t.span@)));
            }
            k = k + 1;
        }
        proof {
            assert(self.trailing_trivia@.take(self.trailing_trivia@.len() as int) =~= self.trailing_trivia@);
        }
        RawLine {
            number: self.number,
            raw_text: self.raw_text.clone(),
            line_ending: self.line_ending,
            span: self.span.clone(),
            content_span: self.content_span.clone(),
            line_ending_span: self.line_ending_span.clone(),
            indentation: self.indentation.clone(),
            trailing_trivia,
        }
    }
}

/// Structural kind of a raw node.
#[derive(Debug, Clone, Copy, PartialEq, Eq, Structural, Hash)]
pub enum RawNodeKind {
    Blank,
    Comment,
    Simple,
    Section,
    Invalid,
}

/// Why a line was kept as an `Invalid` node.
#[derive(Debug, Clone, Copy, PartialEq, Eq, Structural, Hash)]
pub enum RawInvalidReason {
    MixedIndentation,
    InvalidIndentation,
    UnexpectedIndentation { expected_level: u32, actual_level: u32 },
}

/// One node of a raw tree; every physical line gives one node.
#[derive(Debug, PartialEq, Eq)]
pub struct RawNode {
    pub id: RawNodeId,
    pub kind: RawNodeKind,
    /// Decoded code for Simple/Section/Invalid nodes, or raw comment text.
    pub text: String,
    /// Complete node extent. A Section span includes its descendants.
    pub span: MappedSpan,
    pub line: RawLine,
    /// Code after indentation and before trailing trivia.
    pub code_span: Option<MappedSpan>,
    /// Section header including the trailing colon.
    pub header_span: Option<MappedSpan>,
    /// Section body. Empty sections use a zero-width span after the header line.
    pub body_span: Option<MappedSpan>,
    pub indent_level: Option<u32>,
    pub invalid_reason: Option<RawInvalidReason>,
    /// Hygiene context: the root context for parsed text, the expansion's context
    /// for generated nodes.
    pub syntax_context: SyntaxContextId,
    pub parent: Option<RawNodeId>,
    pub children: Vec<RawNodeId>,
}

/// The view of an optional span.
pub open spec fn opt_span(s: Option<MappedSpan>) -> Option<SpanView> {
    match s {
        Some(s) => Some(s@),
        None => None,
    }
}

/// Clones an optional span.
fn clone_opt_span(s: &Option<MappedSpan>) -> (r: Option<MappedSpan>)
    ensures
        opt_span(r) == opt_span(*s),
{
    match s {
        Some(s) => Some(s.clone()),
        None => None,
    }
}

impl Clone for RawNode {
    fn clone(&self) -> (r: Self)
        ensures
            r.id == self.id,
            r.kind == self.kind,
            r.text@ == self.text@,
            r.span@ == self.span@,
            r.line.number == self.line.number,
            r.line.raw_text@ == self.line.raw_text@,
            r.line.line_ending == self.line.line_ending,
            opt_span(r.code_span) == opt_span(self.code_span),
            opt_span(r.header_span) == opt_span(self.header_span),
            opt_span(r.body_span) == opt_span(self.body_span),
            r.indent_level == self.indent_level,
            r.invalid_reason == self.invalid_reason,
            r.syntax_context == self.syntax_context,
            r.parent == self.parent,
            r.children@ == self.children@,
    {
        RawNode {
            id: self.id,
            kind: self.kind,
            text: self.text.clone(),
            span: self.span.clone(),
            line: self.line.clone(),
            code_span: clone_opt_span(&self.code_span),
            header_span: clone_opt_span(&self.header_span),
            body_span: clone_opt_span(&self.body_span),
            indent_level: self.indent_level,
            invalid_reason: self.invalid_reason,
            syntax_context: self.syntax_context,
            parent: self.parent,
            children: self.children.clone(),
        }
    }
}

/// Kind of a raw-tree diagnostic, in reporting order for equal positions.
#[derive(Debug, Clone, Copy, PartialEq, Eq, Structural, PartialOrd, Ord, Hash)]
pub enum RawDiagnosticCode {
    MixedIndentation,
    InvalidIndentation,
    UnexpectedIndentation,
    EmptySection,
    UnclosedBlockComment,
}

/// Position of a code in the reporting order.
pub open spec fn code_rank(c: RawDiagnosticCode) -> int {
    match c {
        RawDiagnosticCode::MixedIndentation => 0,
        RawDiagnosticCode::InvalidIndentation => 1,
        RawDiagnosticCode::UnexpectedIndentation => 2,
        RawDiagnosticCode::EmptySection => 3,
        RawDiagnosticCode::UnclosedBlockComment => 4,
    }
}

fn code_rank_exec(c: RawDiagnosticCode) -> (r: u8)
    ensures
        r == code_rank(c),
{
    match c {
        RawDiagnosticCode::MixedIndentation => 0,
        RawDiagnosticCode::InvalidIndentation => 1,
        RawDiagnosticCode::UnexpectedIndentation => 2,
        RawDiagnosticCode::EmptySection => 3,
        RawDiagnosticCode::UnclosedBlockComment => 4,
    }
}

impl RawDiagnosticCode {
    /// Stable machine-readable name of the code.
    pub fn as_str(self) -> (r: &'static str)
        ensures
            r@ == (match self {
                RawDiagnosticCode::MixedIndentation => "mixed-indentation"@,
                RawDiagnosticCode::InvalidIndentation => "invalid-indentation"@,
                RawDiagnosticCode::UnexpectedIndentation => "unexpected-indentation"@,
                RawDiagnosticCode::EmptySection => "empty-section"@,
                RawDiagnosticCode::UnclosedBlockComment => "unclosed-block-comment"@,
            }),
    {
        match self {
            RawDiagnosticCode::MixedIndentation => "mixed-indentation",
            RawDiagnosticCode::InvalidIndentation => "invalid-indentation",
            RawDiagnosticCode::UnexpectedIndentation => "unexpected-indentation",
            RawDiagnosticCode::EmptySection => "empty-section",
            RawDiagnosticCode::UnclosedBlockComment => "unclosed-block-comment",
        }
    }
}

/// Severity of a raw-tree diagnostic.
#[derive(Debug, Clone, Copy, PartialEq, Eq, Structural, Hash)]
pub enum RawDiagnosticSeverity {
    Error,
    Warning,
}

/// A secondary location of a diagnostic.
#[derive(Debug, PartialEq, Eq)]
pub struct RawRelatedSpan {
    pub message: String,
    pub span: MappedSpan,
}

/// A lexical problem found while building the tree.
#[derive(Debug, PartialEq, Eq)]
pub struct RawDiagnostic {
    pub code: RawDiagnosticCode,
    pub severity: RawDiagnosticSeverity,
    pub message: String,
    pub span: MappedSpan,
    pub related: Vec<RawRelatedSpan>,
}

impl Clone for RawRelatedSpan {
    fn clone(&self) -> (r: Self)
        ensures
            r.message@ == self.message@,
            r.span@ == self.span@,
    {
        RawRelatedSpan { message: self.message.clone(), span: self.span.clone() }
    }
}

/// Views of a sequence of related spans.
pub open spec fn related_views(v: Seq<RawRelatedSpan>) -> Seq<(Seq<char>, SpanView)> {
    v.map_values(|x: RawRelatedSpan| (x.message@, x.span@))
}

/// Two diagnostics say the same thing about the same places.
pub open spec fn same_diagnostic(a: RawDiagnostic, b: RawDiagnostic) -> bool {
    &&& a.code == b.code
    &&& a.severity == b.severity
    &&& a.message@ == b.message@
    &&& a.span@ == b.span@
    &&& related_views(a.related@) == related_views(b.related@)
}

impl Clone for RawDiagnostic {
    fn clone(&self) -> (r: Self)
        ensures
            same_diagnostic(r, *self),
    {
        let mut related: Vec<RawRelatedSpan> = Vec::new();
        let mut k: usize = 0;
        while k < self.related.len()
            invariant
                k <= self.related@.len(),
                related_views(related@) == related_views(self.related@.take(k as int)),
            decreases self.related@.len() - k,
        {
            let x = self.related[k].clone();
            let ghost before = related@;
            related.push(x);
            proof {
                assert(self.related@.take(k + 1) =~= self.related@.take(k as int).push(self.related@[k as int]));
                assert(related_views(related@) =~= related_views(before).push((x.message@, x.span@)));
                assert(related_views(self.related@.take(k + 1)) =~= related_views(self.related@.take(k as int)).push(
                    (x.message@, x.span@),
                ));
            }
            k = k + 1;
        }
        proof {
            assert(self.related@.take(self.related@.len() as int) =~= self.related@);
        }
        RawDiagnostic {
            code: self.code,
            severity: self.severity,
            message: self.message.clone(),
            span: self.span.clone(),
            related,
        }
    }
}

/// Whether `###` lines open and close block comments.
#[derive(Debug, Clone, Copy, PartialEq, Eq, Structural, Hash)]
pub enum MultilineCommentSupport {
    Unsupported,
    TripleHash,
}

/// Language features the raw tree honours.
#[derive(Debug, Clone, Copy, PartialEq, Eq, Structural, Hash)]
pub struct RawTreeOptions {
    pub multiline_comments: MultilineCommentSupport,
}

impl RawTreeOptions {
    pub fn new(multiline_comments: MultilineCommentSupport) -> (r: Self)
        ensures
            r.multiline_comments == multiline_comments,
    {
        RawTreeOptions { multiline_comments }
    }

    /// Selects language features for a Skript release.
    ///
    /// Triple-hash multiline comments were introduced in Skript 2.9.
    pub fn for_skript_version(major: u32, minor: u32) -> (r: Self)
        ensures
            r.multiline_comments == (if major > 2 || (major == 2 && minor >= 9) {
                MultilineCommentSupport::TripleHash
            } else {
                MultilineCommentSupport::Unsupported
            }),
    {
        let multiline_comments = if major > 2 || (major == 2 && minor >= 9) {
            MultilineCommentSupport::TripleHash
        } else {
            MultilineCommentSupport::Unsupported
        };
        Self::new(multiline_comments)
    }
}

/// Arena of raw nodes with roots, diagnostics and the detected indentation unit.
#[derive(Debug, PartialEq, Eq)]
pub struct RawTree {
    pub roots: Vec<RawNodeId>,
    pub nodes: Vec<RawNode>,
    pub diagnostics: Vec<RawDiagnostic>,
    pub indentation: Option<Indentation>,
}

impl RawTree {
    /// The node with ID `id`, if the arena holds it at that index.
    pub fn get(&self, id: RawNodeId) -> (r: Option<&RawNode>)
        ensures
            r is Some <==> (id.0 < self.nodes@.len() && self.nodes@[id.0 as int].id == id),
            r matches Some(n) ==> *n == self.nodes@[id.0 as int],
    {
        let index = id.get();
        if index >= self.nodes.len() as u64 {
            return None;
        }
        let node = &self.nodes[index as usize];
        if node.id == id {
            Some(node)
        } else {
            None
        }
    }

    /// All nodes in arena order.
    pub fn iter(&self) -> (r: &[RawNode])
        ensures
            r@ == self.nodes@,
    {
        self.nodes.as_slice()
    }
}

/// Byte length of the line terminator starting at `i`, or 0.
pub open spec fn break_width(b: Seq<u8>, i: int) -> int {
    if b[i] == 0x0a {
        1
    } else if b[i] == 0x0d {
        if i + 1 < b.len() && b[i + 1] == 0x0a {
            2
        } else {
            1
        }
    } else {
        0
    }
}

/// The line ending kind of the terminator starting at `i`.
pub open spec fn break_kind(b: Seq<u8>, i: int) -> LineEnding {
    if b[i] == 0x0a {
        LineEnding::Lf
    } else if break_width(b, i) == 2 {
        LineEnding::CrLf
    } else {
        LineEnding::Cr
    }
}

/// Geometry of one physical line.
#[derive(Debug, Clone, Copy)]
pub struct PhysicalLine {
    pub number: usize,
    pub content_range: TextRange,
    pub line_ending_range: TextRange,
    pub full_range: TextRange,
    pub line_ending: LineEnding,
}

/// Physical lines of `b` from `start` (the current line began at `start`, the
/// scan is at `cursor`), numbered from `number`.
#[verifier::opaque]
pub open spec fn lines_from(b: Seq<u8>, start: int, cursor: int, number: int) -> Seq<PhysicalLine>
    decreases b.len() - cursor,
{
    if cursor >= b.len() {
        if start < b.len() {
            seq![
                PhysicalLine {
                    number: number as usize,
                    content_range: TextRange { start: start as usize, end: b.len() as usize },
                    line_ending_range: TextRange { start: b.len() as usize, end: b.len() as usize },
                    full_range: TextRange { start: start as usize, end: b.len() as usize },
                    line_ending: LineEnding::Absent,
                },
            ]
        } else {
            Seq::empty()
        }
    } else if cursor < 0 {
        Seq::empty()
    } else if break_width(b, cursor) == 0 {
        lines_from(b, start, cursor + 1, number)
    } else {
        let end = cursor + break_width(b, cursor);
        seq![
            PhysicalLine {
                number: number as usize,
                content_range: TextRange { start: start as usize, end: cursor as usize },
                line_ending_range: TextRange { start: cursor as usize, end: end as usize },
                full_range: TextRange { start: start as usize, end: end as usize },
                line_ending: break_kind(b, cursor),
            },
        ] + lines_from(b, end, end, number + 1)
    }
}

/// The physical lines of `b`: split after every `\n`, `\r\n` and lone `\r`.
pub open spec fn physical_lines_of(b: Seq<u8>) -> Seq<PhysicalLine> {
    lines_from(b, 0, 0, 0)
}

/// Splits `source` into physical lines, as [`physical_lines_of`] describes.
pub fn physical_lines(source: &str) -> (r: Vec<PhysicalLine>)
    ensures
        r@ == physical_lines_of(bytes_of(source)),
{
    reveal(lines_from);
    let bytes = source.as_bytes();
    let ghost b = bytes@;
    let mut lines: Vec<PhysicalLine> = Vec::new();
    let mut start: usize = 0;
    let mut number: usize = 0;
    let mut cursor: usize = 0;
    while cursor < bytes.len()
        invariant
            b == bytes@,
            b == bytes_of(source),
            start <= cursor <= b.len(),
            number <= cursor,
            lines@ + lines_from(b, start as int, cursor as int, number as int) == physical_lines_of(b),
        decreases b.len() - cursor,
    {
        proof {
            reveal(lines_from);
        }
        let c = bytes[cursor];
        let (ending, ending_len) = if c == 0x0a {
            (LineEnding::Lf, 1usize)
        } else if c == 0x0d {
            if cursor + 1 < bytes.len() && bytes[cursor + 1] == 0x0a {
                (LineEnding::CrLf, 2usize)
            } else {
                (LineEnding::Cr, 1usize)
            }
        } else {
            cursor = cursor + 1;
            continue;
        };
        let end = cursor + ending_len;
        let line = PhysicalLine {
            number,
            content_range: TextRange::new(start, cursor),
            line_ending_range: TextRange::new(cursor, end),
            full_range: TextRange::new(start, end),
            line_ending: ending,
        };
        let ghost before = lines@;
        lines.push(line);
        proof {
            assert(lines_from(b, start as int, cursor as int, number as int) == seq![line] + lines_from(
                b,
                end as int,
                end as int,
                number + 1,
            ));
            assert(lines@ + lines_from(b, end as int, end as int, number + 1) =~= before + (seq![line]
                + lines_from(b, end as int, end as int, number + 1)));
        }
        number = number + 1;
        start = end;
        cursor = end;
    }
    if start < bytes.len() {
        let line = PhysicalLine {
            number,
            content_range: TextRange::new(start, bytes.len()),
            line_ending_range: TextRange::empty(bytes.len()),
            full_range: TextRange::new(start, bytes.len()),
            line_ending: LineEnding::Absent,
        };
        let ghost before = lines@;
        lines.push(line);
        proof {
            assert(lines@ =~= before + lines_from(b, start as int, cursor as int, number as int));
        }
    } else {
        proof {
            assert(lines@ =~= lines@ + lines_from(b, start as int, cursor as int, number as int));
        }
    }
    lines
}

/// Offset where the leading whitespace of `text` ends.
pub fn leading_whitespace_end(text: &str) -> (r: usize)
    ensures
        r == ws_end(bytes_of(text), 0),
        boundary(bytes_of(text), r as int),
        r <= bytes_of(text).len(),
{
    proof {
        lemma_str_valid(text);
        lemma_ws_end_boundary(bytes_of(text), 0);
    }
    skip_unicode_whitespace(text.as_bytes(), 0)
}

/// Offset where the trailing whitespace of `text` begins.
pub fn trim_end_whitespace(text: &str) -> (r: usize)
    ensures
        r == ws_start_before(bytes_of(text), bytes_of(text).len() as int),
        boundary(bytes_of(text), r as int),
        r <= bytes_of(text).len(),
{
    proof {
        lemma_ws_start_boundary(bytes_of(text), bytes_of(text).len() as int);
    }
    let b = text.as_bytes();
    trailing_whitespace_start(b, b.len())
}

/// Shifts a line-local range to source offsets.
pub fn offset_range(base: usize, range: TextRange) -> (r: TextRange)
    requires
        base + range.start <= usize::MAX,
        base + range.end <= usize::MAX,
    ensures
        r.start == base + range.start,
        r.end == base + range.end,
{
    TextRange::new(base + range.start, base + range.end)
}

/// Kind of comment a line carries.
#[derive(Debug, Clone, Copy, PartialEq, Eq, Structural)]
pub enum CommentKind {
    Line,
    Block,
}

/// Where a comment begins on a line, and its kind.
#[derive(Debug, Clone, Copy, PartialEq, Eq, Structural)]
pub struct CommentSplit {
    pub start: usize,
    pub kind: CommentKind,
}

/// Opening or closing of a `###` block comment.
#[derive(Debug, Clone, Copy, PartialEq, Eq, Structural)]
pub enum BlockAction {
    Open(TextRange),
    Close,
}

/// Code of a line with escapes resolved, and the comment that follows it.
#[derive(Debug)]
pub struct LineSplit {
    pub value: String,
    pub comment: Option<CommentSplit>,
    pub block_action: Option<BlockAction>,
}

/// Lexical context while looking for an inline comment.
#[derive(Debug, Clone, Copy, PartialEq, Eq, Structural)]
pub enum SplitState {
    Code,
    String,
    Variable,
}

/// Context after the character `c`, as `(state, state before the current expression)`.
pub open spec fn split_step(state: SplitState, previous: SplitState, c: u8) -> (SplitState, SplitState) {
    if c == 0x25 {
        let next = if state == SplitState::Code {
            previous
        } else {
            SplitState::Code
        };
        (next, if next == SplitState::Code {
            state
        } else {
            previous
        })
    } else if c == 0x22 {
        (
            match state {
                SplitState::Code => SplitState::String,
                SplitState::String => SplitState::Code,
                SplitState::Variable => SplitState::Variable,
            },
            previous,
        )
    } else if c == 0x7b && state != SplitState::String {
        (SplitState::Variable, previous)
    } else if c == 0x7d && state != SplitState::String {
        (SplitState::Code, previous)
    } else {
        (state, previous)
    }
}

/// Code bytes with `##` escapes resolved, and where the inline comment starts.
///
/// `%%`, `""` and (outside strings) `##` are escapes; a lone `#` outside a
/// string starts a comment. Only ASCII bytes are inspected, so scanning bytes
/// agrees with scanning characters.
pub open spec fn inline_split(
    b: Seq<u8>,
    i: int,
    state: SplitState,
    previous: SplitState,
    value: Seq<u8>,
) -> (Seq<u8>, Option<int>)
    decreases b.len() - i,
{
    if i < 0 || i >= b.len() {
        (value, None)
    } else {
        let c = b[i];
        if (c == 0x25 || c == 0x22 || c == 0x23) && i + 1 < b.len() && b[i + 1] == c && (c != 0x23
            || state != SplitState::String) {
            inline_split(
                b,
                i + 2,
                state,
                previous,
                if c == 0x23 {
                    value.push(c)
                } else {
                    value.push(c).push(c)
                },
            )
        } else if c == 0x23 && state != SplitState::String {
            (value, Some(i))
        } else {
            let (next, prev) = split_step(state, previous, c);
            inline_split(b, i + 1, next, prev, value.push(c))
        }
    }
}

/// Splits a code line at its inline comment, resolving escapes.
pub fn split_inline_comment(line: &str) -> (r: LineSplit)
    ensures
        (encode_utf8(r.value@), match r.comment {
            Some(c) => Some(c.start as int),
            None => None,
        }) == inline_split(bytes_of(line), 0, SplitState::Code, SplitState::Code, Seq::empty()),
        r.comment matches Some(c) ==> c.kind == CommentKind::Line,
        r.block_action is None,
{
    let bytes = line.as_bytes();
    let ghost b = bytes@;
    let ghost goal = inline_split(b, 0, SplitState::Code, SplitState::Code, Seq::empty());
    proof {
        lemma_str_valid(line);
    }
    let mut value = String::new();
    let mut copy_start: usize = 0;
    let mut state = SplitState::Code;
    let mut previous_state = SplitState::Code;
    let mut i: usize = 0;
    let ghost mut acc: Seq<u8> = Seq::empty();
    proof {
        assert(encode_utf8(value@) =~= Seq::<u8>::empty());
        assert(b.subrange(0, 0) =~= Seq::<u8>::empty());
    }
    while i < bytes.len()
        invariant
            b == bytes@,
            b == bytes_of(line),
            valid_utf8(b),
            goal == inline_split(b, 0, SplitState::Code, SplitState::Code, Seq::empty()),
            goal == inline_split(b, i as int, state, previous_state, acc),
            copy_start <= i <= b.len(),
            boundary(b, copy_start as int),
            encode_utf8(value@) + b.subrange(copy_start as int, i as int) == acc,
        decreases b.len() - i,
    {
        let c = bytes[i];
        if (c == 0x25 || c == 0x22 || c == 0x23) && i + 1 < bytes.len() && bytes[i + 1] == c && (c
            != 0x23 || state != SplitState::String) {
            if c == 0x23 {
                proof {
                    lemma_after_ascii(b, i as int);
                    lemma_after_ascii(b, i + 1);
                }
                let piece = str_slice(line, copy_start, i + 1);
                let ghost before = value@;
                value.append(piece);
                proof {
                    lemma_encode_concat(before, piece@);
                    assert(b.subrange(copy_start as int, i + 1) =~= b.subrange(copy_start as int, i as int).push(c));
                    acc = acc.push(c);
                    assert(b.subrange(i + 2, i + 2) =~= Seq::<u8>::empty());
                    assert(encode_utf8(value@) + b.subrange(i + 2, i + 2) =~= acc);
                }
                copy_start = i + 2;
            } else {
                proof {
                    assert(b.subrange(copy_start as int, i + 2) =~= b.subrange(copy_start as int, i as int).push(c).push(c));
                    acc = acc.push(c).push(c);
                    assert(encode_utf8(value@) + b.subrange(copy_start as int, i + 2) =~= acc);
                }
            }
            i = i + 2;
            continue;
        }
        if c == 0x23 && state != SplitState::String {
            proof {
                lemma_after_ascii(b, i as int);
            }
            let piece = str_slice(line, copy_start, i);
            let ghost before = value@;
            value.append(piece);
            proof {
                lemma_encode_concat(before, piece@);
            }
            return LineSplit {
                value,
                comment: Some(CommentSplit { start: i, kind: CommentKind::Line }),
                block_action: None,
            };
        }
        if c == 0x25 {
            let old_state = state;
            state = if state == SplitState::Code {
                previous_state
            } else {
                SplitState::Code
            };
            if state == SplitState::Code {
                previous_state = old_state;
            }
        } else if c == 0x22 {
            state = match state {
                SplitState::Code => SplitState::String,
                SplitState::String => SplitState::Code,
                SplitState::Variable => SplitState::Variable,
            };
        } else if c == 0x7b && state != SplitState::String {
            state = SplitState::Variable;
        } else if c == 0x7d && state != SplitState::String {
            state = SplitState::Code;
        }
        proof {
            assert(b.subrange(copy_start as int, i + 1) =~= b.subrange(copy_start as int, i as int).push(c));
            acc = acc.push(c);
        }
        i = i + 1;
    }
    let piece = str_slice(line, copy_start, bytes.len());
    let ghost before = value@;
    value.append(piece);
    proof {
        lemma_encode_concat(before, piece@);
    }
    LineSplit { value, comment: None, block_action: None }
}

/// The trimmed line is exactly `###`.
pub open spec fn is_triple_hash(b: Seq<u8>, start: int, end: int) -> bool {
    end - start == 3 && b[start] == 0x23 && b[start + 1] == 0x23 && b[start + 2] == 0x23
}

/// What [`split_line`] gives: value bytes, comment and block action.
pub open spec fn split_line_spec(
    b: Seq<u8>,
    in_block_comment: bool,
    indentation_end: int,
    multiline: MultilineCommentSupport,
) -> (Seq<u8>, Option<CommentSplit>, Option<BlockAction>) {
    let trim_start = ws_end(b, 0);
    let trim_end = ws_start_before(b, b.len() as int);
    if multiline == MultilineCommentSupport::TripleHash && trim_start < trim_end && is_triple_hash(
        b,
        trim_start,
        trim_end,
    ) {
        (
            Seq::empty(),
            Some(CommentSplit { start: indentation_end as usize, kind: CommentKind::Block }),
            Some(
                if in_block_comment {
                    BlockAction::Close
                } else {
                    BlockAction::Open(
                        TextRange { start: trim_start as usize, end: (trim_start + 3) as usize },
                    )
                },
            ),
        )
    } else if in_block_comment {
        (
            Seq::empty(),
            Some(CommentSplit { start: indentation_end as usize, kind: CommentKind::Block }),
            None,
        )
    } else if trim_start < trim_end && b[trim_start] == 0x23 {
        (Seq::empty(), Some(CommentSplit { start: trim_start as usize, kind: CommentKind::Line }), None)
    } else {
        let (v, c) = inline_split(b, 0, SplitState::Code, SplitState::Code, Seq::empty());
        (
            v,
            match c {
                Some(s) => Some(CommentSplit { start: s as usize, kind: CommentKind::Line }),
                None => None,
            },
            None,
        )
    }
}

/// Splits one line into code and comment, tracking `###` block comments.
pub fn split_line(
    line: &str,
    in_block_comment: bool,
    indentation_end: usize,
    multiline_comments: MultilineCommentSupport,
) -> (r: LineSplit)
    ensures
        (encode_utf8(r.value@), r.comment, r.block_action) == split_line_spec(
            bytes_of(line),
            in_block_comment,
            indentation_end as int,
            multiline_comments,
        ),
{
    let ghost b = bytes_of(line);
    let bytes = line.as_bytes();
    let trim_start = leading_whitespace_end(line);
    let trim_end = trim_end_whitespace(line);
    let triple = trim_start < trim_end && trim_end - trim_start == 3 && bytes[trim_start] == 0x23
        && bytes[trim_start + 1] == 0x23 && bytes[trim_start + 2] == 0x23;
    if multiline_comments == MultilineCommentSupport::TripleHash && triple {
        let value = String::new();
        proof {
            assert(value@ =~= Seq::<char>::empty());
            assert(encode_utf8(value@) =~= Seq::<u8>::empty());
        }
        return LineSplit {
            value,
            comment: Some(CommentSplit { start: indentation_end, kind: CommentKind::Block }),
            block_action: Some(
                if in_block_comment {
                    BlockAction::Close
                } else {
                    BlockAction::Open(TextRange::new(trim_start, trim_start + 3))
                },
            ),
        };
    }
    if in_block_comment {
        let value = String::new();
        proof {
            assert(value@ =~= Seq::<char>::empty());
            assert(encode_utf8(value@) =~= Seq::<u8>::empty());
        }
        return LineSplit {
            value,
            comment: Some(CommentSplit { start: indentation_end, kind: CommentKind::Block }),
            block_action: None,
        };
    }
    if trim_start < trim_end && bytes[trim_start] == 0x23 {
        let value = String::new();
        proof {
            assert(value@ =~= Seq::<char>::empty());
            assert(encode_utf8(value@) =~= Seq::<u8>::empty());
        }
        return LineSplit {
            value,
            comment: Some(CommentSplit { start: trim_start, kind: CommentKind::Line }),
            block_action: None,
        };
    }
    split_inline_comment(line)
}

/// Indentation made of one kind of character, or why it is invalid.
pub open spec fn indentation_kind_of(b: Seq<u8>) -> Result<IndentKind, RawInvalidReason> {
    if forall|i: int| 0 <= i < b.len() ==> b[i] == 0x20 {
        Ok(IndentKind::Space)
    } else if forall|i: int| 0 <= i < b.len() ==> b[i] == 0x09 {
        Ok(IndentKind::Tab)
    } else if (exists|i: int| 0 <= i < b.len() && b[i] == 0x20) && (exists|i: int|
        0 <= i < b.len() && b[i] == 0x09) {
        Err(RawInvalidReason::MixedIndentation)
    } else {
        Err(RawInvalidReason::InvalidIndentation)
    }
}

/// Classifies indentation as spaces or tabs, or rejects it.
pub fn indentation_kind(indentation: &str) -> (r: Result<IndentKind, RawInvalidReason>)
    ensures
        r == indentation_kind_of(bytes_of(indentation)),
{
    let bytes = indentation.as_bytes();
    let ghost b = bytes@;
    let mut only_spaces = true;
    let mut only_tabs = true;
    let mut has_space = false;
    let mut has_tab = false;
    let mut i: usize = 0;
    while i < bytes.len()
        invariant
            b == bytes@,
            i <= b.len(),
            only_spaces == forall|k: int| 0 <= k < i ==> b[k] == 0x20,
            only_tabs == forall|k: int| 0 <= k < i ==> b[k] == 0x09,
            has_space == exists|k: int| 0 <= k < i && b[k] == 0x20,
            has_tab == exists|k: int| 0 <= k < i && b[k] == 0x09,
        decreases b.len() - i,
    {
        let c = bytes[i];
        proof {
            assert(b[i as int] == c);
        }
        if c != 0x20 {
            only_spaces = false;
        }
        if c != 0x09 {
            only_tabs = false;
        }
        if c == 0x20 {
            has_space = true;
        }
        if c == 0x09 {
            has_tab = true;
        }
        proof {
            assert(only_spaces == forall|k: int| 0 <= k < i + 1 ==> b[k] == 0x20) by {
                if !only_spaces {
                    if c != 0x20 {
                        assert(!(b[i as int] == 0x20));
                    }
                }
            }
            assert(only_tabs == forall|k: int| 0 <= k < i + 1 ==> b[k] == 0x09) by {
                if !only_tabs {
                    if c != 0x09 {
                        assert(!(b[i as int] == 0x09));
                    }
                }
            }
            assert(has_space == exists|k: int| 0 <= k < i + 1 && b[k] == 0x20) by {
                if c == 0x20 {
                    assert(b[i as int] == 0x20);
                }
            }
            assert(has_tab == exists|k: int| 0 <= k < i + 1 && b[k] == 0x09) by {
                if c == 0x09 {
                    assert(b[i as int] == 0x09);
                }
            }
        }
        i = i + 1;
    }
    if only_spaces {
        Ok(IndentKind::Space)
    } else if only_tabs {
        Ok(IndentKind::Tab)
    } else if has_space && has_tab {
        Err(RawInvalidReason::MixedIndentation)
    } else {
        Err(RawInvalidReason::InvalidIndentation)
    }
}

/// A physical line: content, then terminator, both on character boundaries,
/// and the terminator bytes are those of its kind.
pub open spec fn line_geometry(b: Seq<u8>, l: PhysicalLine) -> bool {
    &&& l.full_range.start == l.content_range.start
    &&& l.content_range.end == l.line_ending_range.start
    &&& l.line_ending_range.end == l.full_range.end
    &&& l.content_range.valid_for(b)
    &&& l.line_ending_range.valid_for(b)
    &&& l.full_range.valid_for(b)
    &&& b.subrange(l.line_ending_range.start as int, l.line_ending_range.end as int) == ending_bytes(
        l.line_ending,
    )
    &&& (l.line_ending == LineEnding::Absent ==> l.full_range.end == b.len())
}

/// The lines tile the text: consecutive, numbered in order, from its start to its end.
pub open spec fn lines_tile(b: Seq<u8>, ls: Seq<PhysicalLine>) -> bool {
    &&& forall|i: int| 0 <= i < ls.len() ==> #[trigger] line_geometry(b, ls[i])
    &&& forall|i: int| 0 <= i < ls.len() ==> (#[trigger] ls[i].number) == i
    &&& forall|i: int| 0 <= i < ls.len() - 1 ==> (#[trigger] ls[i].full_range.end) == ls[i + 1].full_range.start
    &&& ls.len() > 0 ==> ls[0].full_range.start == 0 && ls.last().full_range.end == b.len()
    &&& ls.len() == 0 ==> b.len() == 0
}

/// The text of a physical line, terminator included.
pub open spec fn line_text(b: Seq<u8>, l: PhysicalLine) -> Seq<u8> {
    b.subrange(l.content_range.start as int, l.content_range.end as int) + ending_bytes(l.line_ending)
}

/// The texts of the lines, one after another.
pub open spec fn concat_lines(b: Seq<u8>, ls: Seq<PhysicalLine>) -> Seq<u8>
    decreases ls.len(),
{
    if ls.len() == 0 {
        Seq::empty()
    } else {
        line_text(b, ls[0]) + concat_lines(b, ls.drop_first())
    }
}

proof fn lemma_lines_concat(b: Seq<u8>, start: int, cursor: int, n: int)
    requires
        0 <= start <= cursor <= b.len(),
        b.len() <= usize::MAX,
    ensures
        concat_lines(b, lines_from(b, start, cursor, n)) == b.subrange(start, b.len() as int),
    decreases b.len() - cursor,
{
    reveal(lines_from);
    let ls = lines_from(b, start, cursor, n);
    if cursor >= b.len() {
        if start < b.len() {
            let l = ls[0];
            assert(ls.drop_first() =~= Seq::<PhysicalLine>::empty());
            assert(concat_lines(b, Seq::<PhysicalLine>::empty()) =~= Seq::<u8>::empty());
            assert(line_text(b, l) =~= b.subrange(start, b.len() as int));
            assert(concat_lines(b, ls) =~= line_text(b, l) + Seq::<u8>::empty());
        } else {
            assert(b.subrange(start, b.len() as int) =~= Seq::<u8>::empty());
        }
    } else if break_width(b, cursor) == 0 {
        lemma_lines_concat(b, start, cursor + 1, n);
    } else {
        let w = break_width(b, cursor);
        let end = cursor + w;
        lemma_lines_concat(b, end, end, n + 1);
        let rest = lines_from(b, end, end, n + 1);
        let l = ls[0];
        assert(ls.drop_first() =~= rest);
        assert(b.subrange(cursor, end) =~= ending_bytes(l.line_ending));
        assert(line_text(b, l) =~= b.subrange(start, end));
        assert(b.subrange(start, end) + b.subrange(end, b.len() as int) =~= b.subrange(start, b.len() as int));
    }
}

/// One line produced from `cursor` has proper geometry and number.
proof fn lemma_line_at(b: Seq<u8>, start: int, cursor: int, n: int, i: int)
    requires
        valid_utf8(b),
        0 <= start <= cursor <= b.len(),
        b.len() <= usize::MAX,
        boundary(b, start),
        0 <= n <= cursor,
        0 <= i < lines_from(b, start, cursor, n).len(),
    ensures
        line_geometry(b, lines_from(b, start, cursor, n)[i]),
        lines_from(b, start, cursor, n)[i].number == n + i,
        i == 0 ==> lines_from(b, start, cursor, n)[i].full_range.start == start,
    decreases b.len() - cursor,
{
    reveal(lines_from);
    if cursor >= b.len() {
        assert(b.subrange(b.len() as int, b.len() as int) =~= ending_bytes(LineEnding::Absent));
    } else if break_width(b, cursor) == 0 {
        lemma_line_at(b, start, cursor + 1, n, i);
    } else {
        let w = break_width(b, cursor);
        let end = cursor + w;
        lemma_after_ascii(b, cursor);
        if w == 2 {
            lemma_after_ascii(b, cursor + 1);
        }
        let ls = lines_from(b, start, cursor, n);
        let rest = lines_from(b, end, end, n + 1);
        if i == 0 {
            assert(b.subrange(cursor, end) =~= ending_bytes(ls[0].line_ending));
        } else {
            assert(ls[i] == rest[i - 1]);
            lemma_line_at(b, end, end, n + 1, i - 1);
        }
    }
}

/// Consecutive lines produced from `cursor` touch, and the last one ends the text.
proof fn lemma_lines_touch(b: Seq<u8>, start: int, cursor: int, n: int, i: int)
    requires
        0 <= start <= cursor <= b.len(),
        b.len() <= usize::MAX,
        0 <= n <= cursor,
        0 <= i < lines_from(b, start, cursor, n).len(),
    ensures
        i < lines_from(b, start, cursor, n).len() - 1 ==> lines_from(b, start, cursor, n)[i].full_range.end
            == lines_from(b, start, cursor, n)[i + 1].full_range.start,
        i == lines_from(b, start, cursor, n).len() - 1 ==> lines_from(b, start, cursor, n)[i].full_range.end
            == b.len(),
    decreases b.len() - cursor,
{
    reveal(lines_from);
    if cursor >= b.len() {
    } else if break_width(b, cursor) == 0 {
        lemma_lines_touch(b, start, cursor + 1, n, i);
    } else {
        let w = break_width(b, cursor);
        let end = cursor + w;
        let ls = lines_from(b, start, cursor, n);
        let rest = lines_from(b, end, end, n + 1);
        if i == 0 {
            if rest.len() > 0 {
                lemma_line_at_start(b, end, end, n + 1);
                assert(ls[1] == rest[0]);
            } else {
                lemma_lines_empty(b, end, end, n + 1);
            }
        } else {
            assert(ls[i] == rest[i - 1]);
            if i < ls.len() - 1 {
                assert(ls[i + 1] == rest[i]);
            }
            lemma_lines_touch(b, end, end, n + 1, i - 1);
        }
    }
}

proof fn lemma_line_at_start(b: Seq<u8>, start: int, cursor: int, n: int)
    requires
        0 <= start <= cursor <= b.len(),
        lines_from(b, start, cursor, n).len() > 0,
    ensures
        lines_from(b, start, cursor, n)[0].full_range.start == start as usize,
    decreases b.len() - cursor,
{
    reveal(lines_from);
    if cursor < b.len() && break_width(b, cursor) == 0 {
        lemma_line_at_start(b, start, cursor + 1, n);
    }
}

proof fn lemma_lines_empty(b: Seq<u8>, start: int, cursor: int, n: int)
    requires
        0 <= start <= cursor <= b.len(),
        lines_from(b, start, cursor, n).len() == 0,
    ensures
        start == b.len(),
    decreases b.len() - cursor,
{
    reveal(lines_from);
    if cursor < b.len() {
        if break_width(b, cursor) == 0 {
            lemma_lines_empty(b, start, cursor + 1, n);
        }
    }
}

proof fn lemma_physical_geometry(b: Seq<u8>)
    requires
        valid_utf8(b),
        b.len() <= usize::MAX,
    ensures
        forall|i: int|
            0 <= i < physical_lines_of(b).len() ==> #[trigger] line_geometry(b, physical_lines_of(b)[i]),
        forall|i: int|
            0 <= i < physical_lines_of(b).len() ==> (#[trigger] physical_lines_of(b)[i].number) == i,
{
    let ls = physical_lines_of(b);
    assert forall|i: int| 0 <= i < ls.len() implies #[trigger] line_geometry(b, ls[i]) by {
        lemma_line_at(b, 0, 0, 0, i);
    }
    assert forall|i: int| 0 <= i < ls.len() implies (#[trigger] ls[i].number) == i by {
        lemma_line_at(b, 0, 0, 0, i);
    }
}

proof fn lemma_physical_touch(b: Seq<u8>)
    requires
        b.len() <= usize::MAX,
    ensures
        forall|i: int|
            0 <= i < physical_lines_of(b).len() - 1 ==> (#[trigger] physical_lines_of(b)[i].full_range.end)
                == physical_lines_of(b)[i + 1].full_range.start,
{
    let ls = physical_lines_of(b);
    assert forall|i: int| 0 <= i < ls.len() - 1 implies (#[trigger] ls[i].full_range.end) == ls[i + 1].full_range.start by {
        lemma_lines_touch(b, 0, 0, 0, i);
    }
}

proof fn lemma_physical_ends(b: Seq<u8>)
    requires
        b.len() <= usize::MAX,
    ensures
        physical_lines_of(b).len() > 0 ==> physical_lines_of(b)[0].full_range.start == 0
            && physical_lines_of(b).last().full_range.end == b.len(),
        physical_lines_of(b).len() == 0 ==> b.len() == 0,
{
    let ls = physical_lines_of(b);
    if ls.len() > 0 {
        lemma_line_at_start(b, 0, 0, 0);
        lemma_lines_touch(b, 0, 0, 0, ls.len() - 1);
    } else {
        lemma_lines_empty(b, 0, 0, 0);
    }
}

/// Physical lines tile the text.
pub proof fn lemma_physical_lines(b: Seq<u8>)
    requires
        valid_utf8(b),
        b.len() <= usize::MAX,
    ensures
        lines_tile(b, physical_lines_of(b)),
{
    lemma_physical_geometry(b);
    lemma_physical_touch(b);
    lemma_physical_ends(b);
}

/// The texts of the physical lines, one after another, spell the text.
pub proof fn lemma_physical_lines_lossless(b: Seq<u8>)
    requires
        b.len() <= usize::MAX,
    ensures
        concat_lines(b, physical_lines_of(b)) == b,
{
    lemma_lines_concat(b, 0, 0, 0);
    assert(b.subrange(0, b.len() as int) =~= b);
}

/// The decimal digits of `n`.
pub open spec fn decimal(n: nat) -> Seq<char>
    decreases n,
{
    if n < 10 {
        seq![digit_char(n)]
    } else {
        decimal(n / 10).push(digit_char(n % 10))
    }
}

/// The character of a decimal digit.
pub open spec fn digit_char(d: nat) -> char {
    if d == 0 {
        '0'
    } else if d == 1 {
        '1'
    } else if d == 2 {
        '2'
    } else if d == 3 {
        '3'
    } else if d == 4 {
        '4'
    } else if d == 5 {
        '5'
    } else if d == 6 {
        '6'
    } else if d == 7 {
        '7'
    } else if d == 8 {
        '8'
    } else {
        '9'
    }
}

fn digit_str(d: u32) -> (r: &'static str)
    requires
        d < 10,
    ensures
        r@ == seq![digit_char(d as nat)],
{
    let r = if d == 0 {
        "0"
    } else if d == 1 {
        "1"
    } else if d == 2 {
        "2"
    } else if d == 3 {
        "3"
    } else if d == 4 {
        "4"
    } else if d == 5 {
        "5"
    } else if d == 6 {
        "6"
    } else if d == 7 {
        "7"
    } else if d == 8 {
        "8"
    } else {
        "9"
    };
    proof {
        reveal_strlit("0");
        reveal_strlit("1");
        reveal_strlit("2");
        reveal_strlit("3");
        reveal_strlit("4");
        reveal_strlit("5");
        reveal_strlit("6");
        reveal_strlit("7");
        reveal_strlit("8");
        reveal_strlit("9");
    }
    r
}

/// Appends the decimal digits of `n` to `out`.
pub(crate) fn push_decimal(out: &mut String, n: u32)
    ensures
        final(out)@ == old(out)@ + decimal(n as nat),
    decreases n,
{
    if n >= 10 {
        push_decimal(out, n / 10);
    }
    let ghost before = out@;
    out.append(digit_str(n % 10));
    proof {
        if n >= 10 {
            assert(before + seq![digit_char((n % 10) as nat)] =~= old(out)@ + decimal(n as nat));
        } else {
            assert(before + seq![digit_char((n % 10) as nat)] =~= old(out)@ + decimal(n as nat));
        }
    }
}

/// Appends the decimal digits of a 64-bit number.
pub(crate) fn push_u64(out: &mut String, n: u64)
    ensures
        final(out)@ == old(out)@ + decimal(n as nat),
    decreases n,
{
    if n >= 10 {
        push_u64(out, n / 10);
    }
    let ghost before = out@;
    out.append(digit_str((n % 10) as u32));
    proof {
        assert(before + seq![digit_char((n % 10) as nat)] =~= old(out)@ + decimal(n as nat));
    }
}

/// Appends the decimal digits of an offset.
pub(crate) fn push_offset(out: &mut String, n: usize)
    ensures
        final(out)@ == old(out)@ + decimal(n as nat),
    decreases n,
{
    if n >= 10 {
        push_offset(out, n / 10);
    }
    let ghost before = out@;
    out.append(digit_str((n % 10) as u32));
    proof {
        assert(before + seq![digit_char((n % 10) as nat)] =~= old(out)@ + decimal(n as nat));
    }
}

/// The text `format!("{:?}", s)` gives for a string: quoted, with escapes.
pub uninterp spec fn debug_text(s: Seq<char>) -> Seq<char>;

/// Formats a string with its `Debug` representation.
#[verifier::external_body]
fn debug_quoted(s: &str) -> (r: String)
    ensures
        r@ == debug_text(s@),
{
    format!("{:?}", s)
}

/// The text of a string slice between its leading and trailing whitespace.
pub(crate) fn trim_str(s: &str) -> (r: &str)
    ensures
        bytes_of(r) == (if ws_end(bytes_of(s), 0) < ws_start_before(bytes_of(s), bytes_of(s).len() as int) {
            bytes_of(s).subrange(ws_end(bytes_of(s), 0), ws_start_before(bytes_of(s), bytes_of(s).len() as int))
        } else {
            Seq::empty()
        }),
{
    let start = leading_whitespace_end(s);
    let end = trim_end_whitespace(s);
    if start < end {
        str_slice(s, start, end)
    } else {
        let r = str_slice(s, 0, 0);
        proof {
            assert(bytes_of(s).subrange(0, 0) =~= Seq::<u8>::empty());
        }
        r
    }
}

/// A section whose body is still being read.
#[derive(Debug, Clone, Copy)]
struct OpenSection {
    id: RawNodeId,
    level: u32,
}

/// State of a raw-tree parse: the tree so far and the open sections.
struct ParserState {
    tree: RawTree,
    sections: Vec<OpenSection>,
    in_block_comment: bool,
    block_comment_start: Option<MappedSpan>,
}

/// Every span of a line covers a valid range of the virtual text.
pub open spec fn line_spans_ok(vb: Seq<u8>, line: RawLine) -> bool {
    &&& line.span@.virtual_range.valid_for(vb)
    &&& line.content_span@.virtual_range.valid_for(vb)
    &&& line.line_ending_span@.virtual_range.valid_for(vb)
    &&& line.indentation.span@.virtual_range.valid_for(vb)
    &&& forall|k: int|
        0 <= k < line.trailing_trivia@.len() ==> (#[trigger] line.trailing_trivia@[k]).span@.virtual_range.valid_for(
            vb,
        )
}

/// `line` is the raw line built for physical line `l`, the `i`th of `vb`.
pub open spec fn line_ok(vb: Seq<u8>, l: PhysicalLine, line: RawLine, i: int) -> bool {
    &&& line.number == i
    &&& encode_utf8(line.raw_text@) == vb.subrange(l.content_range.start as int, l.content_range.end as int)
    &&& line.line_ending == l.line_ending
    &&& line.span@.virtual_range == l.full_range
    &&& line.content_span@.virtual_range == l.content_range
    &&& line.line_ending_span@.virtual_range == l.line_ending_range
    &&& line_spans_ok(vb, line)
}

/// `node` is the node built for physical line `l`, the `i`th of `vb`.
pub open spec fn node_line_ok(vb: Seq<u8>, l: PhysicalLine, node: RawNode, i: int) -> bool {
    &&& node.id == RawNodeId(i as u64)
    &&& line_ok(vb, l, node.line, i)
    &&& node.span@.virtual_range.start == l.full_range.start
    &&& l.full_range.end <= node.span@.virtual_range.end
    &&& node.span@.virtual_range.valid_for(vb)
    &&& node.syntax_context == SyntaxContextId(0)
}

/// IDs strictly increase along the sequence.
pub open spec fn ids_increasing(s: Seq<RawNodeId>) -> bool {
    forall|a: int, b: int| 0 <= a < b < s.len() ==> s[a].0 < s[b].0
}

/// Node `i` has an earlier Section parent that lists it as a child, or no parent.
pub open spec fn parent_ok(nodes: Seq<RawNode>, i: int) -> bool {
    match nodes[i].parent {
        Some(p) => p.0 < i && nodes[p.0 as int].kind == RawNodeKind::Section && nodes[p.0 as int].children@.contains(
            RawNodeId(i as u64),
        ),
        None => true,
    }
}

/// The children of node `i` are later nodes, in order, whose parent is `i`.
pub open spec fn children_ok(nodes: Seq<RawNode>, i: int) -> bool {
    &&& ids_increasing(nodes[i].children@)
    &&& forall|k: int|
        0 <= k < nodes[i].children@.len() ==> i < (#[trigger] nodes[i].children@[k]).0 < nodes.len()
            && nodes[nodes[i].children@[k].0 as int].parent == Some(RawNodeId(i as u64))
}

/// Parent, child and root links of an arena agree with each other.
pub open spec fn links_ok(nodes: Seq<RawNode>, roots: Seq<RawNodeId>) -> bool {
    &&& forall|i: int| 0 <= i < nodes.len() ==> #[trigger] parent_ok(nodes, i)
    &&& forall|i: int| 0 <= i < nodes.len() ==> #[trigger] children_ok(nodes, i)
    &&& ids_increasing(roots)
    &&& forall|k: int|
        0 <= k < roots.len() ==> (#[trigger] roots[k]).0 < nodes.len() && nodes[roots[k].0 as int].parent is None
    &&& forall|i: int| 0 <= i < nodes.len() && (#[trigger] nodes[i].parent) is None ==> roots.contains(RawNodeId(i as u64))
}

/// The nodes are those of the first physical lines of `vb`, one per line.
pub open spec fn nodes_ok(vb: Seq<u8>, ls: Seq<PhysicalLine>, nodes: Seq<RawNode>) -> bool {
    &&& nodes.len() <= ls.len()
    &&& forall|i: int| 0 <= i < nodes.len() ==> #[trigger] node_line_ok(vb, ls[i], nodes[i], i)
}

/// The parse state is consistent with the physical lines of `vb`.
spec fn state_ok(vb: Seq<u8>, ls: Seq<PhysicalLine>, st: ParserState) -> bool {
    &&& nodes_ok(vb, ls, st.tree.nodes@)
    &&& links_ok(st.tree.nodes@, st.tree.roots@)
    &&& forall|k: int|
        0 <= k < st.sections@.len() ==> (#[trigger] st.sections@[k]).id.0 < st.tree.nodes@.len()
            && st.tree.nodes@[st.sections@[k].id.0 as int].kind == RawNodeKind::Section
            && st.sections@[k].level <= vb.len()
    &&& st.tree.indentation matches Some(ind) ==> encode_utf8(ind.unit@).len() > 0
}

/// The bytes of `b` without leading and trailing whitespace.
pub open spec fn trimmed_bytes(b: Seq<u8>) -> Seq<u8> {
    if ws_end(b, 0) < ws_start_before(b, b.len() as int) {
        b.subrange(ws_end(b, 0), ws_start_before(b, b.len() as int))
    } else {
        Seq::empty()
    }
}

/// The content bytes of physical line `l` of `vb`.
pub open spec fn content_bytes(vb: Seq<u8>, l: PhysicalLine) -> Seq<u8> {
    vb.subrange(l.content_range.start as int, l.content_range.end as int)
}

/// How line `l` splits into code, comment and block-comment action, given
/// whether a block comment is open before it.
pub open spec fn split_of(
    vb: Seq<u8>,
    l: PhysicalLine,
    in_block: bool,
    m: MultilineCommentSupport,
) -> (Seq<u8>, Option<CommentSplit>, Option<BlockAction>) {
    let b = content_bytes(vb, l);
    split_line_spec(b, in_block, ws_end(b, 0), m)
}

/// Whether a block comment is open after line `l`.
pub open spec fn block_after(vb: Seq<u8>, l: PhysicalLine, in_block: bool, m: MultilineCommentSupport) -> bool {
    match split_of(vb, l, in_block, m).2 {
        Some(BlockAction::Open(_)) => true,
        Some(BlockAction::Close) => false,
        None => in_block,
    }
}

/// Whether a block comment is open before line `i` of `ls`.
pub open spec fn block_open_before(vb: Seq<u8>, ls: Seq<PhysicalLine>, m: MultilineCommentSupport, i: int) -> bool
    decreases i,
{
    if i <= 0 {
        false
    } else {
        block_after(vb, ls[i - 1], block_open_before(vb, ls, m, i - 1), m)
    }
}

/// A node for code `t`: a Section holds it without its closing colon, a
/// Simple node holds all of it, and an Invalid one holds it with its reason.
pub open spec fn code_node_ok(node: RawNode, t: Seq<u8>) -> bool {
    match node.kind {
        RawNodeKind::Section => t == encode_utf8(node.text@) + seq![0x3au8],
        RawNodeKind::Simple => t == encode_utf8(node.text@) && t.last() != 0x3au8,
        RawNodeKind::Invalid => t == encode_utf8(node.text@) && node.invalid_reason is Some,
        _ => false,
    }
}

/// The kind and text of a node follow from its line: with no code left, a line
/// with a comment is a Comment and any other is Blank; otherwise the node
/// holds the trimmed code.
pub open spec fn node_classified(
    vb: Seq<u8>,
    l: PhysicalLine,
    node: RawNode,
    in_block: bool,
    m: MultilineCommentSupport,
) -> bool {
    let sp = split_of(vb, l, in_block, m);
    let t = trimmed_bytes(sp.0);
    if t.len() == 0 {
        if sp.1 is Some {
            node.kind == RawNodeKind::Comment
        } else {
            node.kind == RawNodeKind::Blank && node.text@.len() == 0
        }
    } else {
        code_node_ok(node, t)
    }
}

/// `after` keeps the kind, text and reason of `before`.
pub open spec fn same_labels(before: RawNode, after: RawNode) -> bool {
    &&& after.kind == before.kind
    &&& after.text@ == before.text@
    &&& after.invalid_reason == before.invalid_reason
}

/// Node `node` closes a section of level `level`: it is indented at or below it.
pub open spec fn closes(node: RawNode, level: u32) -> bool {
    node.indent_level matches Some(l) && l <= level
}

/// Section `p` is still open through the nodes before `t`: no node after it
/// and before `t` is indented at or below its level.
#[verifier::opaque]
pub open spec fn open_through(nodes: Seq<RawNode>, p: int, t: int) -> bool {
    &&& 0 <= p < nodes.len()
    &&& nodes[p].kind == RawNodeKind::Section
    &&& nodes[p].indent_level is Some
    &&& forall|k: int| p < k < t ==> !#[trigger] closes(nodes[k], nodes[p].indent_level.unwrap())
}

/// The latest section among nodes `0..=p` still open at node `i`, counting
/// node `i` itself.
#[verifier::opaque]
pub open spec fn enclosing_from(nodes: Seq<RawNode>, i: int, p: int) -> Option<RawNodeId>
    decreases p + 1,
{
    if p < 0 {
        None
    } else if open_through(nodes, p, i + 1) {
        Some(RawNodeId(p as u64))
    } else {
        enclosing_from(nodes, i, p - 1)
    }
}

/// The innermost section enclosing node `i`: the latest earlier section that
/// no node up to and including `i` has closed.
pub open spec fn enclosing_section(nodes: Seq<RawNode>, i: int) -> Option<RawNodeId> {
    enclosing_from(nodes, i, i - 1)
}

/// Every node hangs below the innermost section that encloses it, or is a root.
#[verifier::opaque]
pub open spec fn nested_by_indentation(nodes: Seq<RawNode>) -> bool {
    forall|i: int| 0 <= i < nodes.len() ==> (#[trigger] nodes[i]).parent == enclosing_section(nodes, i)
}

/// A Section or Simple node is at level 0 as a root, or one level below its parent.
#[verifier::opaque]
pub open spec fn levels_step(nodes: Seq<RawNode>) -> bool {
    forall|i: int|
        0 <= i < nodes.len() && (#[trigger] nodes[i].kind == RawNodeKind::Section || nodes[i].kind
            == RawNodeKind::Simple) ==> match nodes[i].parent {
            None => nodes[i].indent_level == Some(0u32),
            Some(p) => 0 <= p.0 < i && nodes[p.0 as int].indent_level is Some && nodes[i].indent_level
                == Some((nodes[p.0 as int].indent_level.unwrap() + 1) as u32),
        }
}

/// The nodes before `t` of `a` and `b` agree in kind, level and parent.
pub open spec fn same_shape_upto(a: Seq<RawNode>, b: Seq<RawNode>, t: int) -> bool {
    &&& t <= a.len()
    &&& t <= b.len()
    &&& forall|k: int|
        0 <= k < t ==> (#[trigger] a[k]).kind == b[k].kind && a[k].indent_level == b[k].indent_level
            && a[k].parent == b[k].parent
}

/// Enclosing sections depend only on the shape of the nodes up to the one asked about.
proof fn lemma_enclosing_same_shape(a: Seq<RawNode>, b: Seq<RawNode>, i: int, p: int)
    requires
        same_shape_upto(a, b, i + 1),
        p < i,
    ensures
        enclosing_from(a, i, p) == enclosing_from(b, i, p),
    decreases p + 1,
{
    reveal(open_through);
    reveal(enclosing_from);
    if p >= 0 {
        assert(open_through(a, p, i + 1) == open_through(b, p, i + 1)) by {
            assert(a[p] == a[p] && b[p] == b[p]);
            if open_through(a, p, i + 1) {
                assert forall|k: int| p < k < i + 1 implies !closes(#[trigger] b[k], b[p].indent_level.unwrap()) by {
                    assert(!closes(a[k], a[p].indent_level.unwrap()));
                }
            }
            if open_through(b, p, i + 1) {
                assert forall|k: int| p < k < i + 1 implies !closes(#[trigger] a[k], a[p].indent_level.unwrap()) by {
                    assert(!closes(b[k], b[p].indent_level.unwrap()));
                }
            }
        }
        lemma_enclosing_same_shape(a, b, i, p - 1);
    }
}

/// Nesting and level steps carry over between node sequences of the same shape.
proof fn lemma_nesting_same_shape(a: Seq<RawNode>, b: Seq<RawNode>, t: int)
    requires
        same_shape_upto(a, b, t),
        t == b.len(),
        nested_by_indentation(a),
        levels_step(a),
        t <= a.len(),
    ensures
        nested_by_indentation(b),
        levels_step(b),
{
    reveal(nested_by_indentation); reveal(levels_step);
    assert forall|i: int| 0 <= i < b.len() implies (#[trigger] b[i]).parent == enclosing_section(b, i) by {
        assert(a[i].parent == enclosing_section(a, i));
        assert(same_shape_upto(a, b, i + 1));
        lemma_enclosing_same_shape(a, b, i, i - 1);
    }
    assert forall|i: int|
        0 <= i < b.len() && (#[trigger] b[i].kind == RawNodeKind::Section || b[i].kind
            == RawNodeKind::Simple) implies match b[i].parent {
            None => b[i].indent_level == Some(0u32),
            Some(p) => 0 <= p.0 < i && b[p.0 as int].indent_level is Some && b[i].indent_level
                == Some((b[p.0 as int].indent_level.unwrap() + 1) as u32),
        } by {
        assert(a[i].kind == b[i].kind);
        if let Some(p) = b[i].parent {
            assert(a[p.0 as int].indent_level == b[p.0 as int].indent_level);
        }
    }
}

/// The scan for the enclosing section stops at the latest open candidate.
proof fn lemma_enclosing_is(nodes: Seq<RawNode>, i: int, p: int, t: int)
    requires
        -1 <= t <= p,
        forall|q: int| t < q <= p ==> !#[trigger] open_through(nodes, q, i + 1),
        t >= 0 ==> open_through(nodes, t, i + 1),
    ensures
        enclosing_from(nodes, i, p) == (if t >= 0 {
            Some(RawNodeId(t as u64))
        } else {
            None::<RawNodeId>
        }),
    decreases p - t,
{
    reveal(enclosing_from);
    if p > t {
        assert(!open_through(nodes, p, i + 1));
        lemma_enclosing_is(nodes, i, p - 1, t);
    }
}

/// Some entry of the open-section stack is node `p`.
spec fn in_stack(sections: Seq<OpenSection>, p: int) -> bool {
    exists|q: int| 0 <= q < sections.len() && sections[q].id.0 == p
}

/// Every stacked section is open, with its own level, and the stack rises in
/// position and level.
#[verifier::opaque]
spec fn stack_sound(nodes: Seq<RawNode>, sections: Seq<OpenSection>) -> bool {
    &&& forall|q: int|
        0 <= q < sections.len() ==> open_through(
            nodes,
            (#[trigger] sections[q]).id.0 as int,
            nodes.len() as int,
        ) && nodes[sections[q].id.0 as int].indent_level == Some(sections[q].level)
    &&& forall|a: int, b: int|
        0 <= a < b < sections.len() ==> (#[trigger] sections[a]).id.0 < (#[trigger] sections[b]).id.0
            && sections[a].level < sections[b].level
}

/// Every open section below `bound`, other than node `skip`, is stacked.
#[verifier::opaque]
spec fn stack_complete(nodes: Seq<RawNode>, sections: Seq<OpenSection>, bound: Option<u32>, skip: int) -> bool {
    forall|p: int|
        0 <= p < nodes.len() && p != skip && #[trigger] open_through(nodes, p, nodes.len() as int) && (
        bound matches Some(b) ==> nodes[p].indent_level.unwrap() < b) ==> in_stack(sections, p)
}

/// The stack holds exactly the open sections, and the nodes so far nest by indentation.
#[verifier::opaque]
spec fn stack_ok(nodes: Seq<RawNode>, sections: Seq<OpenSection>) -> bool {
    &&& stack_sound(nodes, sections)
    &&& stack_complete(nodes, sections, None, -1)
    &&& nested_by_indentation(nodes)
    &&& levels_step(nodes)
}

/// The level a code line needs under the innermost open section.
spec fn expected_level_of(sections: Seq<OpenSection>) -> int {
    if sections.len() == 0 {
        0
    } else {
        sections.last().level + 1
    }
}

/// The innermost open section, if any.
spec fn current_parent_of(sections: Seq<OpenSection>) -> Option<RawNodeId> {
    if sections.len() == 0 {
        None
    } else {
        Some(sections.last().id)
    }
}

fn current_parent(st: &ParserState) -> (r: Option<RawNodeId>)
    ensures
        r == current_parent_of(st.sections@),
{
    let n = st.sections.len();
    if n == 0 {
        None
    } else {
        Some(st.sections[n - 1].id)
    }
}

/// Maps a valid range of the virtual text.
fn mapped(source: &MappedSource, range: TextRange) -> (r: MappedSpan)
    requires
        range.valid_for(source@.vb()),
    ensures
        source@.map_range(range) == Ok::<SpanView, crate::source_map::SourceMapError>(r@),
        r@.virtual_range == range,
{
    proof {
        use_type_invariant(source);
        crate::source_map::lemma_valid_range_maps(source@, range);
    }
    match source.map_range(range) {
        Ok(span) => span,
        Err(_) => {
            proof {
                assert(false);
            }
            MappedSpan { virtual_range: range, origins: Vec::new() }
        },
    }
}

/// Where the code of a line ends, looking from trailing trivia `k` on: at the
/// first trailing trivia that is not the line ending, else at the end of the content.
pub open spec fn code_end_from(trivia: Seq<RawTrivia>, k: int, content_end: usize) -> usize
    decreases trivia.len() - k,
{
    if k < 0 || k >= trivia.len() {
        content_end
    } else if trivia[k].kind != RawTriviaKind::LineEnding {
        trivia[k].span.virtual_range.start
    } else {
        code_end_from(trivia, k + 1, content_end)
    }
}

/// Where the code of a line ends.
pub open spec fn line_code_end(line: RawLine) -> usize {
    code_end_from(line.trailing_trivia@, 0, line.content_span.virtual_range.end)
}

impl RawLine {
    /// The span of the code: after the indentation, before the first trailing
    /// trivia that is not the line ending.
    fn code_span(&self, source: &MappedSource) -> (r: Option<MappedSpan>)
        requires
            line_spans_ok(source@.vb(), *self),
        ensures
            r matches Some(span) ==> span@.virtual_range.valid_for(source@.vb()),
            match r {
                Some(span) => {
                    &&& self.indentation.span.virtual_range.end < line_code_end(*self)
                    &&& span@.virtual_range.start == self.indentation.span.virtual_range.end
                    &&& span@.virtual_range.end == line_code_end(*self)
                    &&& source@.map_range(span@.virtual_range) == Ok::<
                        SpanView,
                        crate::source_map::SourceMapError,
                    >(span@)
                },
                None => self.indentation.span.virtual_range.end >= line_code_end(*self),
            },
    {
        let ghost vb = source@.vb();
        let indentation_end = self.indentation.span.virtual_range.end;
        let mut trailing_start = self.content_span.virtual_range.end;
        let mut k: usize = 0;
        while k < self.trailing_trivia.len()
            invariant
                vb == source@.vb(),
                line_spans_ok(vb, *self),
                indentation_end == self.indentation.span@.virtual_range.end,
                k <= self.trailing_trivia@.len(),
                trailing_start == self.content_span.virtual_range.end,
                code_end_from(self.trailing_trivia@, k as int, trailing_start) == line_code_end(
                    *self,
                ),
            decreases self.trailing_trivia@.len() - k,
        {
            if self.trailing_trivia[k].kind != RawTriviaKind::LineEnding {
                proof {
                    assert(self.trailing_trivia@[k as int].span@.virtual_range.valid_for(vb));
                }
                let start = self.trailing_trivia[k].span.virtual_range.start;
                if indentation_end < start {
                    return Some(mapped(source, TextRange::new(indentation_end, start)));
                }
                return None;
            }
            k = k + 1;
        }
        if indentation_end < trailing_start {
            Some(mapped(source, TextRange::new(indentation_end, trailing_start)))
        } else {
            None
        }
    }
}

/// Ordered lines: a line ends no later than any later line starts.
proof fn lemma_lines_ordered(vb: Seq<u8>, ls: Seq<PhysicalLine>, a: int, b: int)
    requires
        lines_tile(vb, ls),
        0 <= a < b < ls.len(),
    ensures
        ls[a].full_range.end <= ls[b].full_range.start,
    decreases b - a,
{
    assert(ls[a].full_range.end == ls[a + 1].full_range.start);
    if a + 1 < b {
        assert(line_geometry(vb, ls[a + 1]));
        lemma_lines_ordered(vb, ls, a + 1, b);
    }
}

fn push_node(
    source: &MappedSource,
    st: &mut ParserState,
    kind: RawNodeKind,
    text: String,
    line: RawLine,
    invalid_reason: Option<RawInvalidReason>,
    indent_level: Option<u32>,
    parent: Option<RawNodeId>,
    Ghost(vb): Ghost<Seq<u8>>,
    Ghost(ls): Ghost<Seq<PhysicalLine>>,
) -> (r: RawNodeId)
    requires
        vb == source@.vb(),
        state_ok(vb, ls, *old(st)),
        old(st).tree.nodes@.len() < ls.len(),
        line_ok(vb, ls[old(st).tree.nodes@.len() as int], line, old(st).tree.nodes@.len() as int),
        parent == current_parent_of(old(st).sections@),
        stack_sound(old(st).tree.nodes@, old(st).sections@),
        stack_complete(old(st).tree.nodes@, old(st).sections@, indent_level, -1),
        indent_level matches Some(l) ==> forall|q: int|
            0 <= q < old(st).sections@.len() ==> (#[trigger] old(st).sections@[q]).level < l,
        nested_by_indentation(old(st).tree.nodes@),
        levels_step(old(st).tree.nodes@),
        kind == RawNodeKind::Section || kind == RawNodeKind::Simple ==> indent_level == Some(
            expected_level_of(old(st).sections@) as u32,
        ),
        kind == RawNodeKind::Section ==> indent_level is Some,
    ensures
        state_ok(vb, ls, *final(st)),
        final(st).tree.nodes@.len() == old(st).tree.nodes@.len() + 1,
        r == RawNodeId(old(st).tree.nodes@.len() as u64),
        final(st).tree.nodes@[old(st).tree.nodes@.len() as int].kind == kind,
        final(st).tree.nodes@[old(st).tree.nodes@.len() as int].indent_level == indent_level,
        final(st).tree.nodes@[old(st).tree.nodes@.len() as int].text@ == text@,
        final(st).tree.nodes@[old(st).tree.nodes@.len() as int].invalid_reason == invalid_reason,
        forall|i: int|
            0 <= i < old(st).tree.nodes@.len() ==> same_labels(old(st).tree.nodes@[i], #[trigger] final(st).tree.nodes@[i]),
        nested_by_indentation(final(st).tree.nodes@),
        levels_step(final(st).tree.nodes@),
        stack_sound(final(st).tree.nodes@, final(st).sections@),
        stack_complete(
            final(st).tree.nodes@,
            final(st).sections@,
            None,
            if kind == RawNodeKind::Section {
                old(st).tree.nodes@.len() as int
            } else {
                -1
            },
        ),
        final(st).sections@ == old(st).sections@,
        final(st).in_block_comment == old(st).in_block_comment,
        final(st).block_comment_start == old(st).block_comment_start,
        final(st).tree.indentation == old(st).tree.indentation,
        final(st).tree.diagnostics@ == old(st).tree.diagnostics@,
{
    let n = st.tree.nodes.len();
    let id = RawNodeId::new(n as u64);
    let code_span = line.code_span(source);
    let header_span = if kind == RawNodeKind::Section {
        clone_opt_span(&code_span)
    } else {
        None
    };
    let span = line.span.clone();
    let node = RawNode {
        id,
        kind,
        text,
        span,
        line,
        code_span,
        header_span,
        body_span: None,
        indent_level,
        invalid_reason,
        syntax_context: SyntaxContextId::root(),
        parent,
        children: Vec::new(),
    };
    let ghost old_nodes = st.tree.nodes@;
    let ghost old_roots = st.tree.roots@;
    match parent {
        Some(p) => {
            proof {
                let k = st.sections@.len() - 1;
                assert(st.sections@[k].id == p);
            }
            let index = p.0 as usize;
            st.tree.nodes[index].children.push(id);
        },
        None => {
            st.tree.roots.push(id);
        },
    }
    st.tree.nodes.push(node);
    proof {
        let nodes = st.tree.nodes@;
        assert(nodes.len() == n + 1);
        assert forall|i: int| 0 <= i < nodes.len() implies #[trigger] node_line_ok(vb, ls[i], nodes[i], i) by {
            if i < n {
                assert(node_line_ok(vb, ls[i], old_nodes[i], i));
            }
        }
        assert forall|i: int| 0 <= i < nodes.len() implies #[trigger] parent_ok(nodes, i) by {
            if i < n {
                assert(parent_ok(old_nodes, i));
                if let Some(q) = nodes[i].parent {
                    assert(old_nodes[q.0 as int].children@.contains(RawNodeId(i as u64)));
                    if parent == Some(q) {
                        let j = choose|j: int| 0 <= j < old_nodes[q.0 as int].children@.len() && old_nodes[q.0 as int].children@[j] == RawNodeId(i as u64);
                        assert(nodes[q.0 as int].children@[j] == RawNodeId(i as u64));
                    }
                }
            } else {
                if let Some(q) = parent {
                    assert(nodes[q.0 as int].children@.last() == id);
                }
            }
        }
        assert forall|i: int| 0 <= i < nodes.len() implies #[trigger] children_ok(nodes, i) by {
            if i < n {
                assert(children_ok(old_nodes, i));
                if parent == Some(RawNodeId(i as u64)) {
                    let ch = nodes[i].children@;
                    assert(ch == old_nodes[i].children@.push(id));
                    assert forall|a: int, b: int| 0 <= a < b < ch.len() implies ch[a].0 < ch[b].0 by {
                        if b == ch.len() - 1 {
                            assert(old_nodes[i].children@[a].0 < n);
                        }
                    }
                    assert forall|k: int| 0 <= k < ch.len() implies i < (#[trigger] ch[k]).0 < nodes.len()
                        && nodes[ch[k].0 as int].parent == Some(RawNodeId(i as u64)) by {
                        if k < ch.len() - 1 {
                            assert(ch[k] == old_nodes[i].children@[k]);
                        }
                    }
                } else {
                    assert(nodes[i].children@ == old_nodes[i].children@);
                }
            }
        }
        if parent is None {
            let rs = st.tree.roots@;
            assert(rs == old_roots.push(id));
            assert forall|a: int, b: int| 0 <= a < b < rs.len() implies rs[a].0 < rs[b].0 by {
                if b == rs.len() - 1 {
                    assert(old_roots[a].0 < n);
                }
            }
            assert forall|i: int| 0 <= i < nodes.len() && (#[trigger] nodes[i].parent) is None implies rs.contains(RawNodeId(i as u64)) by {
                if i < n {
                    assert(old_roots.contains(RawNodeId(i as u64)));
                    let j = choose|j: int| 0 <= j < old_roots.len() && old_roots[j] == RawNodeId(i as u64);
                    assert(rs[j] == RawNodeId(i as u64));
                } else {
                    assert(rs[rs.len() - 1] == id);
                }
            }
        } else {
            assert forall|i: int| 0 <= i < nodes.len() && (#[trigger] nodes[i].parent) is None implies st.tree.roots@.contains(RawNodeId(i as u64)) by {
                if i < n {
                    assert(old_roots.contains(RawNodeId(i as u64)));
                }
            }
        }
        assert(links_ok(nodes, st.tree.roots@));
        assert forall|k: int| 0 <= k < n implies (#[trigger] old_nodes[k]).kind == nodes[k].kind
            && old_nodes[k].indent_level == nodes[k].indent_level && old_nodes[k].parent == nodes[k].parent by {}
        assert(same_shape_upto(old_nodes, nodes, n as int));
        lemma_push_nesting(old_nodes, nodes, st.sections@, n as int);
    }
    id
}

/// A later node leaves a section open unless it closes it.
proof fn lemma_open_extend(old_nodes: Seq<RawNode>, nodes: Seq<RawNode>, q: int, n: int)
    requires
        same_shape_upto(old_nodes, nodes, n),
        n == old_nodes.len(),
        nodes.len() == n + 1,
        0 <= q < n,
    ensures
        open_through(nodes, q, n + 1) <==> (open_through(old_nodes, q, n) && !closes(
            nodes[n],
            old_nodes[q].indent_level.unwrap(),
        )),
{
    reveal(open_through);
    assert(old_nodes[q].kind == nodes[q].kind && old_nodes[q].indent_level == nodes[q].indent_level);
    if open_through(nodes, q, n + 1) {
        assert forall|k: int| q < k < n implies !closes(#[trigger] old_nodes[k], old_nodes[q].indent_level.unwrap()) by {
            assert(!closes(nodes[k], nodes[q].indent_level.unwrap()));
            assert(old_nodes[k].indent_level == nodes[k].indent_level);
        }
    }
    if open_through(old_nodes, q, n) && !closes(nodes[n], old_nodes[q].indent_level.unwrap()) {
        assert forall|k: int| q < k < n + 1 implies !closes(#[trigger] nodes[k], nodes[q].indent_level.unwrap()) by {
            if k < n {
                assert(!closes(old_nodes[k], old_nodes[q].indent_level.unwrap()));
                assert(old_nodes[k].indent_level == nodes[k].indent_level);
            }
        }
    }
}

/// Appending node `n` deeper than every stacked section keeps the stack sound
/// and complete, but for node `n` itself when it is a Section.
proof fn lemma_push_stack(old_nodes: Seq<RawNode>, nodes: Seq<RawNode>, sections: Seq<OpenSection>, n: int)
    requires
        n == old_nodes.len(),
        nodes.len() == n + 1,
        same_shape_upto(old_nodes, nodes, n),
        stack_sound(old_nodes, sections),
        stack_complete(old_nodes, sections, nodes[n].indent_level, -1),
        nodes[n].indent_level matches Some(l) ==> forall|q: int|
            0 <= q < sections.len() ==> (#[trigger] sections[q]).level < l,
    ensures
        stack_sound(nodes, sections),
        stack_complete(
            nodes,
            sections,
            None,
            if nodes[n].kind == RawNodeKind::Section {
                n
            } else {
                -1
            },
        ),
{
    reveal(stack_sound);
    reveal(stack_complete);
    reveal(open_through);
    let len = sections.len() as int;
    assert forall|q: int| 0 <= q < len implies open_through(
        nodes,
        (#[trigger] sections[q]).id.0 as int,
        nodes.len() as int,
    ) && nodes[sections[q].id.0 as int].indent_level == Some(sections[q].level) by {
        let id = sections[q].id.0 as int;
        assert(open_through(old_nodes, id, n));
        assert(old_nodes[id].indent_level == Some(sections[q].level));
        lemma_open_extend(old_nodes, nodes, id, n);
    }
    assert forall|p: int|
        0 <= p < nodes.len() && p != (if nodes[n].kind == RawNodeKind::Section {
            n
        } else {
            -1
        }) && #[trigger] open_through(nodes, p, nodes.len() as int) implies in_stack(sections, p) by {
        if p == n {
            reveal(open_through);
        } else {
            lemma_open_extend(old_nodes, nodes, p, n);
            assert(open_through(old_nodes, p, n));
        }
    }
}

/// Appending node `n` under the innermost stacked section gives it its enclosing section.
proof fn lemma_push_parent(old_nodes: Seq<RawNode>, nodes: Seq<RawNode>, sections: Seq<OpenSection>, n: int)
    requires
        n == old_nodes.len(),
        nodes.len() == n + 1,
        same_shape_upto(old_nodes, nodes, n),
        nodes[n].parent == current_parent_of(sections),
        stack_sound(old_nodes, sections),
        stack_complete(old_nodes, sections, nodes[n].indent_level, -1),
        nodes[n].indent_level matches Some(l) ==> forall|q: int|
            0 <= q < sections.len() ==> (#[trigger] sections[q]).level < l,
    ensures
        nodes[n].parent == enclosing_section(nodes, n),
{
    reveal(stack_sound);
    reveal(stack_complete);
    reveal(open_through);
    let len = sections.len() as int;
    let t: int = if len == 0 {
        -1
    } else {
        sections[len - 1].id.0 as int
    };
    assert forall|q: int| t < q <= n - 1 implies !#[trigger] open_through(nodes, q, n + 1) by {
        if open_through(nodes, q, n + 1) {
            lemma_open_extend(old_nodes, nodes, q, n);
            assert(open_through(old_nodes, q, n));
            assert(in_stack(sections, q));
            let j = choose|j: int| 0 <= j < len && sections[j].id.0 == q;
            if j < len - 1 {
                assert(sections[j].id.0 < sections[len - 1].id.0);
            }
        }
    }
    if len > 0 {
        assert(open_through(old_nodes, t, n));
        assert(old_nodes[t].indent_level == Some(sections[len - 1].level));
        lemma_open_extend(old_nodes, nodes, t, n);
        assert(open_through(nodes, t, n + 1));
    }
    lemma_enclosing_is(nodes, n, n - 1, t);
}

/// Appending node `n` under the innermost open section keeps the nodes nested
/// by indentation and the stack matching the open sections.
proof fn lemma_push_nesting(old_nodes: Seq<RawNode>, nodes: Seq<RawNode>, sections: Seq<OpenSection>, n: int)
    requires
        n == old_nodes.len(),
        nodes.len() == n + 1,
        same_shape_upto(old_nodes, nodes, n),
        nodes[n].parent == current_parent_of(sections),
        stack_sound(old_nodes, sections),
        stack_complete(old_nodes, sections, nodes[n].indent_level, -1),
        nodes[n].indent_level matches Some(l) ==> forall|q: int|
            0 <= q < sections.len() ==> (#[trigger] sections[q]).level < l,
        nested_by_indentation(old_nodes),
        levels_step(old_nodes),
        nodes[n].kind == RawNodeKind::Section || nodes[n].kind == RawNodeKind::Simple ==> nodes[n].indent_level
            == Some(expected_level_of(sections) as u32),
        nodes[n].kind == RawNodeKind::Section ==> nodes[n].indent_level is Some,
    ensures
        nested_by_indentation(nodes),
        levels_step(nodes),
        stack_sound(nodes, sections),
        stack_complete(
            nodes,
            sections,
            None,
            if nodes[n].kind == RawNodeKind::Section {
                n
            } else {
                -1
            },
        ),
{
    lemma_push_stack(old_nodes, nodes, sections, n);
    lemma_push_parent(old_nodes, nodes, sections, n);
    lemma_push_nested(old_nodes, nodes, n);
    lemma_push_levels(old_nodes, nodes, sections, n);
}

/// Earlier nodes keep their enclosing sections when a node is appended.
proof fn lemma_push_nested(old_nodes: Seq<RawNode>, nodes: Seq<RawNode>, n: int)
    requires
        n == old_nodes.len(),
        nodes.len() == n + 1,
        same_shape_upto(old_nodes, nodes, n),
        nested_by_indentation(old_nodes),
        nodes[n].parent == enclosing_section(nodes, n),
    ensures
        nested_by_indentation(nodes),
{
    reveal(nested_by_indentation);
    assert forall|i: int| 0 <= i < nodes.len() implies (#[trigger] nodes[i]).parent == enclosing_section(nodes, i) by {
        if i < n {
            assert(old_nodes[i].parent == enclosing_section(old_nodes, i));
            assert(same_shape_upto(old_nodes, nodes, i + 1));
            lemma_enclosing_same_shape(old_nodes, nodes, i, i - 1);
        }
    }
}

/// A code line placed at the expected level under the innermost stacked
/// section keeps the level steps.
#[verifier::rlimit(60)]
#[verifier::spinoff_prover]
proof fn lemma_push_levels(old_nodes: Seq<RawNode>, nodes: Seq<RawNode>, sections: Seq<OpenSection>, n: int)
    requires
        n == old_nodes.len(),
        nodes.len() == n + 1,
        same_shape_upto(old_nodes, nodes, n),
        nodes[n].parent == current_parent_of(sections),
        stack_sound(old_nodes, sections),
        levels_step(old_nodes),
        nodes[n].kind == RawNodeKind::Section || nodes[n].kind == RawNodeKind::Simple ==> nodes[n].indent_level
            == Some(expected_level_of(sections) as u32),
    ensures
        levels_step(nodes),
{
    let len = sections.len() as int;
    if len > 0 {
        let t = sections[len - 1].id.0 as int;
        assert(0 <= t < n && old_nodes[t].indent_level == Some(sections[len - 1].level)) by {
            reveal(stack_sound);
            reveal(open_through);
            assert(open_through(old_nodes, t, n));
        }
        assert(nodes[t].indent_level == old_nodes[t].indent_level);
    }
    reveal(levels_step);
    assert forall|i: int|
        0 <= i < nodes.len() && (#[trigger] nodes[i].kind == RawNodeKind::Section || nodes[i].kind
            == RawNodeKind::Simple) implies match nodes[i].parent {
            None => nodes[i].indent_level == Some(0u32),
            Some(p) => 0 <= p.0 < i && nodes[p.0 as int].indent_level is Some && nodes[i].indent_level
                == Some((nodes[p.0 as int].indent_level.unwrap() + 1) as u32),
        } by {
        if i < n {
            assert(old_nodes[i].kind == nodes[i].kind);
            if let Some(p) = nodes[i].parent {
                assert(old_nodes[p.0 as int].indent_level == nodes[p.0 as int].indent_level);
            }
        }
    }
}

/// An inline comment starts at a `#` of the line.
proof fn lemma_inline_comment(b: Seq<u8>, i: int, state: SplitState, previous: SplitState, value: Seq<u8>)
    requires
        inline_split(b, i, state, previous, value).1 is Some,
    ensures
        0 <= inline_split(b, i, state, previous, value).1.unwrap() < b.len(),
        b[inline_split(b, i, state, previous, value).1.unwrap()] == 0x23,
    decreases b.len() - i,
{
    if 0 <= i < b.len() {
        let c = b[i];
        if (c == 0x25 || c == 0x22 || c == 0x23) && i + 1 < b.len() && b[i + 1] == c && (c != 0x23
            || state != SplitState::String) {
            lemma_inline_comment(
                b,
                i + 2,
                state,
                previous,
                if c == 0x23 {
                    value.push(c)
                } else {
                    value.push(c).push(c)
                },
            );
        } else if c == 0x23 && state != SplitState::String {
        } else {
            let (next, prev) = split_step(state, previous, c);
            lemma_inline_comment(b, i + 1, next, prev, value.push(c));
        }
    }
}

/// Comments and block markers found by [`split_line`] start on character boundaries.
proof fn lemma_split_positions(b: Seq<u8>, in_block: bool, indentation_end: int, ml: MultilineCommentSupport)
    requires
        valid_utf8(b),
        b.len() <= usize::MAX,
        indentation_end == ws_end(b, 0),
    ensures
        split_line_spec(b, in_block, indentation_end, ml).1 matches Some(c) ==> c.start <= b.len()
            && boundary(b, c.start as int),
        split_line_spec(b, in_block, indentation_end, ml).2 matches Some(BlockAction::Open(r)) ==> r.start
            < r.end <= b.len() && boundary(b, r.start as int) && boundary(b, r.end as int),
{
    lemma_ws_end_boundary(b, 0);
    lemma_ws_start_boundary(b, b.len() as int);
    let (v, c) = inline_split(b, 0, SplitState::Code, SplitState::Code, Seq::empty());
    if c is Some {
        lemma_inline_comment(b, 0, SplitState::Code, SplitState::Code, Seq::empty());
        lemma_after_ascii(b, c.unwrap());
    }
}

fn build_line(
    source: &MappedSource,
    physical: &PhysicalLine,
    content: &str,
    indentation_end: usize,
    split: &LineSplit,
    Ghost(vb): Ghost<Seq<u8>>,
    Ghost(i): Ghost<int>,
) -> (r: RawLine)
    requires
        vb == source@.vb(),
        line_geometry(vb, *physical),
        physical.number == i,
        bytes_of(content) == vb.subrange(
            physical.content_range.start as int,
            physical.content_range.end as int,
        ),
        indentation_end <= bytes_of(content).len(),
        boundary(bytes_of(content), indentation_end as int),
        split.comment matches Some(c) ==> c.start <= bytes_of(content).len() && boundary(
            bytes_of(content),
            c.start as int,
        ),
    ensures
        line_ok(vb, *physical, r, i),
{
    let ghost cb = bytes_of(content);
    let cs = physical.content_range.start;
    let ce = physical.content_range.end;
    proof {
        lemma_str_valid(content);
    }
    let comment_start = match split.comment {
        Some(c) => c.start,
        None => str_len(content),
    };
    let value = str_slice(content, 0, comment_start);
    let code_end = trim_end_whitespace(value);
    proof {
        assert(bytes_of(value) == cb.subrange(0, comment_start as int));
        lemma_slice_boundary(cb, 0, comment_start as int, code_end as int);
        lemma_slice_boundary(vb, cs as int, ce as int, code_end as int);
        lemma_slice_boundary(vb, cs as int, ce as int, comment_start as int);
        lemma_slice_boundary(vb, cs as int, ce as int, indentation_end as int);
    }
    let has_code = !trim_str(split.value.as_str()).is_empty();
    let mut trailing_trivia: Vec<RawTrivia> = Vec::new();
    if has_code && code_end < comment_start {
        let range = TextRange::new(cs + code_end, cs + comment_start);
        let text = str_slice(source.virtual_source(), range.start, range.end).to_owned();
        trailing_trivia.push(RawTrivia { kind: RawTriviaKind::Whitespace, text, span: mapped(source, range) });
    }
    if let Some(comment) = split.comment {
        proof {
            lemma_slice_boundary(vb, cs as int, ce as int, comment.start as int);
        }
        let range = TextRange::new(cs + comment.start, ce);
        let text = str_slice(source.virtual_source(), range.start, range.end).to_owned();
        let kind = match comment.kind {
            CommentKind::Line => RawTriviaKind::LineComment,
            CommentKind::Block => RawTriviaKind::BlockComment,
        };
        trailing_trivia.push(RawTrivia { kind, text, span: mapped(source, range) });
    }
    if physical.line_ending != LineEnding::Absent {
        trailing_trivia.push(
            RawTrivia {
                kind: RawTriviaKind::LineEnding,
                text: physical.line_ending.as_str().to_owned(),
                span: mapped(source, physical.line_ending_range),
            },
        );
    }
    let indentation_range = TextRange::new(cs, cs + indentation_end);
    let line = RawLine {
        number: physical.number,
        raw_text: content.to_owned(),
        line_ending: physical.line_ending,
        span: mapped(source, physical.full_range),
        content_span: mapped(source, physical.content_range),
        line_ending_span: mapped(source, physical.line_ending_range),
        indentation: RawTrivia {
            kind: RawTriviaKind::Whitespace,
            text: str_slice(content, 0, indentation_end).to_owned(),
            span: mapped(source, indentation_range),
        },
        trailing_trivia,
    };
    line
}

/// The indentation level of a line, fixing the document's unit on first use.
/// The level of the indentation `b` under the style fixed so far, if any; with
/// no style yet, the first indentation inside an open section is level 1.
pub open spec fn resolved_indentation(
    style: Option<Indentation>,
    has_open_section: bool,
    b: Seq<u8>,
) -> Result<u32, RawInvalidReason> {
    if b.len() == 0 {
        Ok(0)
    } else {
        match indentation_kind_of(b) {
            Err(reason) => Err(reason),
            Ok(kind) => match style {
                Some(s) => {
                    let unit = encode_utf8(s.unit@).len();
                    if s.kind != kind || b.len() % unit != 0 || b.len() / unit > 0xffff_ffff {
                        Err(RawInvalidReason::InvalidIndentation)
                    } else {
                        Ok((b.len() / unit) as u32)
                    }
                },
                None => if has_open_section {
                    Ok(1)
                } else {
                    Err(RawInvalidReason::UnexpectedIndentation { expected_level: 0, actual_level: 1 })
                },
            },
        }
    }
}

/// The style is fixed by the first indentation that resolves without one.
pub open spec fn fixes_style(style: Option<Indentation>, b: Seq<u8>, r: Result<u32, RawInvalidReason>) -> bool {
    style is None && b.len() > 0 && r is Ok
}

fn resolve_indentation(st: &mut ParserState, indentation: &str, Ghost(vb): Ghost<Seq<u8>>, Ghost(ls): Ghost<Seq<PhysicalLine>>) -> (r: Result<u32, RawInvalidReason>)
    requires
        state_ok(vb, ls, *old(st)),
        bytes_of(indentation).len() <= vb.len(),
    ensures
        state_ok(vb, ls, *final(st)),
        r matches Ok(level) ==> level <= bytes_of(indentation).len(),
        r == resolved_indentation(
            old(st).tree.indentation,
            old(st).sections@.len() > 0,
            bytes_of(indentation),
        ),
        fixes_style(old(st).tree.indentation, bytes_of(indentation), r) ==> (
        final(st).tree.indentation matches Some(ind) && ind.unit@ == indentation@
            && indentation_kind_of(bytes_of(indentation)) == Ok::<IndentKind, RawInvalidReason>(
            ind.kind,
        )),
        !fixes_style(old(st).tree.indentation, bytes_of(indentation), r)
            ==> final(st).tree.indentation == old(st).tree.indentation,
        final(st).tree.nodes@ == old(st).tree.nodes@,
        final(st).tree.roots@ == old(st).tree.roots@,
        final(st).tree.diagnostics@ == old(st).tree.diagnostics@,
        final(st).sections@ == old(st).sections@,
        final(st).in_block_comment == old(st).in_block_comment,
        final(st).block_comment_start == old(st).block_comment_start,
{
    let len = str_len(indentation);
    if len == 0 {
        return Ok(0);
    }
    let kind = match indentation_kind(indentation) {
        Ok(kind) => kind,
        Err(reason) => return Err(reason),
    };
    match &st.tree.indentation {
        Some(style) => {
            let unit_len = str_len(style.unit.as_str());
            if style.kind != kind || len % unit_len != 0 {
                return Err(RawInvalidReason::InvalidIndentation);
            }
            let level = len / unit_len;
            if level > 0xffff_ffffusize {
                return Err(RawInvalidReason::InvalidIndentation);
            }
            return Ok(level as u32);
        },
        None => {},
    }
    if st.sections.len() == 0 {
        return Err(RawInvalidReason::UnexpectedIndentation { expected_level: 0, actual_level: 1 });
    }
    st.tree.indentation = Some(Indentation { kind, unit: indentation.to_owned() });
    Ok(1)
}

/// Records the diagnostic for an indentation problem.
fn push_indentation_diagnostic(st: &mut ParserState, reason: &RawInvalidReason, span: MappedSpan)
    ensures
        final(st).tree.nodes@ == old(st).tree.nodes@,
        final(st).tree.roots@ == old(st).tree.roots@,
        final(st).tree.indentation == old(st).tree.indentation,
        final(st).sections@ == old(st).sections@,
        final(st).in_block_comment == old(st).in_block_comment,
        final(st).block_comment_start == old(st).block_comment_start,
        final(st).tree.diagnostics@.len() == old(st).tree.diagnostics@.len() + 1,
{
    let (code, message) = match reason {
        RawInvalidReason::MixedIndentation => (
            RawDiagnosticCode::MixedIndentation,
            "indentation must not mix spaces and tabs".to_owned(),
        ),
        RawInvalidReason::InvalidIndentation => {
            let mut message = "indentation must use ".to_owned();
            match &st.tree.indentation {
                Some(indentation) => {
                    message.append("repetitions of ");
                    let quoted = debug_quoted(indentation.unit.as_str());
                    message.append(quoted.as_str());
                },
                None => {
                    message.append("only spaces or only tabs");
                },
            }
            (RawDiagnosticCode::InvalidIndentation, message)
        },
        RawInvalidReason::UnexpectedIndentation { expected_level, actual_level } => {
            let mut message = "expected indentation level ".to_owned();
            push_decimal(&mut message, *expected_level);
            message.append(", found level ");
            push_decimal(&mut message, *actual_level);
            (RawDiagnosticCode::UnexpectedIndentation, message)
        },
    };
    st.tree.diagnostics.push(
        RawDiagnostic { code, severity: RawDiagnosticSeverity::Error, message, span, related: Vec::new() },
    );
}

/// Attaches a code line at `level`, closing deeper sections first.
fn parse_code_line(
    source: &MappedSource,
    st: &mut ParserState,
    line: RawLine,
    text: String,
    level: u32,
    Ghost(vb): Ghost<Seq<u8>>,
    Ghost(ls): Ghost<Seq<PhysicalLine>>,
)
    requires
        vb == source@.vb(),
        vb.len() < u32::MAX,
        state_ok(vb, ls, *old(st)),
        old(st).tree.nodes@.len() < ls.len(),
        line_ok(vb, ls[old(st).tree.nodes@.len() as int], line, old(st).tree.nodes@.len() as int),
        level <= vb.len(),
        stack_ok(old(st).tree.nodes@, old(st).sections@),
        encode_utf8(text@).len() > 0,
    ensures
        state_ok(vb, ls, *final(st)),
        final(st).tree.nodes@.len() == old(st).tree.nodes@.len() + 1,
        final(st).in_block_comment == old(st).in_block_comment,
        final(st).block_comment_start == old(st).block_comment_start,
        stack_ok(final(st).tree.nodes@, final(st).sections@),
        code_node_ok(final(st).tree.nodes@[old(st).tree.nodes@.len() as int], encode_utf8(text@)),
        forall|i: int|
            0 <= i < old(st).tree.nodes@.len() ==> same_labels(old(st).tree.nodes@[i], #[trigger] final(st).tree.nodes@[i]),
{
    reveal(stack_ok); reveal(stack_sound); reveal(stack_complete); reveal(open_through);
    let ghost n = st.tree.nodes@.len();
    let ghost nodes0 = st.tree.nodes@;
    while st.sections.len() > 0 && st.sections[st.sections.len() - 1].level >= level
        invariant
            state_ok(vb, ls, *st),
            st.tree.nodes@.len() == n,
            st.tree.nodes@ == nodes0,
            st.in_block_comment == old(st).in_block_comment,
            st.block_comment_start == old(st).block_comment_start,
            stack_sound(nodes0, st.sections@),
            stack_complete(nodes0, st.sections@, Some(level), -1),
            nested_by_indentation(nodes0),
            levels_step(nodes0),
        decreases st.sections@.len(),
    {
        let ghost before = st.sections@;
        st.sections.pop();
        proof {
            reveal(stack_sound);
            reveal(stack_complete);
            let now = st.sections@;
            let last = before.len() - 1;
            assert(now == before.drop_last());
            assert forall|q: int| 0 <= q < now.len() implies open_through(
                nodes0,
                (#[trigger] now[q]).id.0 as int,
                nodes0.len() as int,
            ) && nodes0[now[q].id.0 as int].indent_level == Some(now[q].level) by {
                assert(now[q] == before[q]);
            }
            assert forall|a: int, b: int| 0 <= a < b < now.len() implies (#[trigger] now[a]).id.0 < (
            #[trigger] now[b]).id.0 && now[a].level < now[b].level by {
                assert(now[a] == before[a] && now[b] == before[b]);
            }
            assert forall|p: int|
                0 <= p < nodes0.len() && p != -1 && #[trigger] open_through(nodes0, p, nodes0.len() as int) && (Some(
                    level,
                ) matches Some(b) ==> nodes0[p].indent_level.unwrap() < b) implies in_stack(now, p) by {
                assert(in_stack(before, p));
                let j = choose|j: int| 0 <= j < before.len() && before[j].id.0 == p;
                if j == last {
                    assert(nodes0[before[last].id.0 as int].indent_level == Some(before[last].level));
                }
                assert(now[j] == before[j]);
            }
        }
    }
    proof {
        let sec = st.sections@;
        if sec.len() > 0 {
            assert forall|q: int| 0 <= q < sec.len() implies (#[trigger] sec[q]).level < level by {
                if q < sec.len() - 1 {
                    assert(sec[q].level < sec[sec.len() - 1].level);
                }
            }
        }
    }
    let expected_level = if st.sections.len() == 0 {
        0
    } else {
        st.sections[st.sections.len() - 1].level + 1
    };
    if level != expected_level {
        let reason = RawInvalidReason::UnexpectedIndentation { expected_level, actual_level: level };
        let diagnostic_span = if line.indentation.span.virtual_range.is_empty() {
            match line.code_span(source) {
                Some(span) => span,
                None => line.content_span.clone(),
            }
        } else {
            line.indentation.span.clone()
        };
        push_indentation_diagnostic(st, &reason, diagnostic_span);
        let parent = current_parent(st);
        push_node(source, st, RawNodeKind::Invalid, text, line, Some(reason), Some(level), parent, Ghost(vb), Ghost(ls));
        return;
    }
    let parent = current_parent(st);
    let text_str = text.as_str();
    let bytes = text_str.as_bytes();
    let tlen = bytes.len();
    if tlen > 0 && bytes[tlen - 1] == 0x3a {
        proof {
            lemma_str_valid(text_str);
            lemma_after_ascii(bytes@, tlen - 1);
        }
        let header_str = str_slice(text_str, 0, tlen - 1);
        let header = header_str.to_owned();
        proof {
            assert(encode_utf8(header@) + seq![0x3au8] =~= encode_utf8(text@));
        }
        let id = push_node(source, st, RawNodeKind::Section, header, line, None, Some(level), parent, Ghost(vb), Ghost(ls));
        let ghost pre = st.sections@;
        st.sections.push(OpenSection { id, level });
        proof {
            let nodes = st.tree.nodes@;
            let sec = st.sections@;
            let k = sec.len() - 1;
            assert(open_through(nodes, n as int, nodes.len() as int));
            assert forall|q: int| 0 <= q < sec.len() implies open_through(
                nodes,
                (#[trigger] sec[q]).id.0 as int,
                nodes.len() as int,
            ) && nodes[sec[q].id.0 as int].indent_level == Some(sec[q].level) by {
                if q < k {
                    assert(sec[q] == pre[q]);
                }
            }
            assert forall|a: int, b: int| 0 <= a < b < sec.len() implies (#[trigger] sec[a]).id.0 < (
            #[trigger] sec[b]).id.0 && sec[a].level < sec[b].level by {
                assert(sec[a] == pre[a]);
                if b < k {
                    assert(sec[b] == pre[b]);
                } else {
                    assert(open_through(nodes, pre[a].id.0 as int, nodes.len() as int));
                }
            }
            assert forall|p: int|
                0 <= p < nodes.len() && p != -1 && #[trigger] open_through(nodes, p, nodes.len() as int) && (None::<
                    u32,
                > matches Some(b) ==> nodes[p].indent_level.unwrap() < b) implies in_stack(sec, p) by {
                if p == n {
                    assert(sec[k].id.0 == p);
                } else {
                    assert(in_stack(pre, p));
                    let j = choose|j: int| 0 <= j < pre.len() && pre[j].id.0 == p;
                    assert(sec[j] == pre[j]);
                }
            }
            assert forall|q: int| 0 <= q < st.sections@.len() implies (#[trigger] st.sections@[q]).id.0 < st.tree.nodes@.len()
                && st.tree.nodes@[st.sections@[q].id.0 as int].kind == RawNodeKind::Section
                && st.sections@[q].level <= vb.len() by {
                if q < k {
                    assert(st.sections@[q] == pre[q]);
                }
            }
        }
    } else {
        push_node(source, st, RawNodeKind::Simple, text, line, None, Some(level), parent, Ghost(vb), Ghost(ls));
    }
}

/// Adds the node of one physical line.
fn parse_line(
    source: &MappedSource,
    st: &mut ParserState,
    physical: &PhysicalLine,
    options: RawTreeOptions,
    Ghost(vb): Ghost<Seq<u8>>,
    Ghost(ls): Ghost<Seq<PhysicalLine>>,
)
    requires
        vb == source@.vb(),
        vb.len() < u32::MAX,
        lines_tile(vb, ls),
        state_ok(vb, ls, *old(st)),
        old(st).tree.nodes@.len() < ls.len(),
        *physical == ls[old(st).tree.nodes@.len() as int],
        stack_ok(old(st).tree.nodes@, old(st).sections@),
    ensures
        state_ok(vb, ls, *final(st)),
        final(st).tree.nodes@.len() == old(st).tree.nodes@.len() + 1,
        stack_ok(final(st).tree.nodes@, final(st).sections@),
        node_classified(
            vb,
            *physical,
            final(st).tree.nodes@[old(st).tree.nodes@.len() as int],
            old(st).in_block_comment,
            options.multiline_comments,
        ),
        final(st).in_block_comment == block_after(vb, *physical, old(st).in_block_comment, options.multiline_comments),
        forall|i: int|
            0 <= i < old(st).tree.nodes@.len() ==> same_labels(old(st).tree.nodes@[i], #[trigger] final(st).tree.nodes@[i]),
{
    proof {
        reveal(stack_ok);
    }
    let ghost n = st.tree.nodes@.len() as int;
    let vs = source.virtual_source();
    proof {
        assert(line_geometry(vb, ls[n]));
        assert(ls[n].number == n);
    }
    let content = str_slice(vs, physical.content_range.start, physical.content_range.end);
    let ghost cb = bytes_of(content);
    let cs = physical.content_range.start;
    let indentation_end = leading_whitespace_end(content);
    let split = split_line(content, st.in_block_comment, indentation_end, options.multiline_comments);
    proof {
        lemma_str_valid(content);
        lemma_split_positions(cb, old(st).in_block_comment, indentation_end as int, options.multiline_comments);
    }
    match split.block_action {
        Some(BlockAction::Open(delimiter)) => {
            proof {
                lemma_slice_boundary(vb, cs as int, physical.content_range.end as int, delimiter.start as int);
                lemma_slice_boundary(vb, cs as int, physical.content_range.end as int, delimiter.end as int);
            }
            st.in_block_comment = true;
            st.block_comment_start = Some(mapped(source, offset_range(cs, delimiter)));
        },
        Some(BlockAction::Close) => {
            st.in_block_comment = false;
            st.block_comment_start = None;
        },
        None => {},
    }
    let line = build_line(source, physical, content, indentation_end, &split, Ghost(vb), Ghost(n));
    let trimmed = trim_str(split.value.as_str());
    proof {
        assert(cb == content_bytes(vb, *physical));
        assert(bytes_of(trimmed) == trimmed_bytes(
            split_of(vb, *physical, old(st).in_block_comment, options.multiline_comments).0,
        ));
        assert(trimmed.is_empty() <==> bytes_of(trimmed).len() == 0) by {
            if trimmed@.len() > 0 {
                lemma_encode_nonempty(trimmed@);
            }
        }
    }
    if let Some(comment) = split.comment {
        if trimmed.is_empty() {
            let text = str_slice(content, comment.start, str_len(content)).to_owned();
            let parent = current_parent(st);
            push_node(source, st, RawNodeKind::Comment, text, line, None, None, parent, Ghost(vb), Ghost(ls));
            return;
        }
    }
    if trimmed.is_empty() {
        let parent = current_parent(st);
        push_node(source, st, RawNodeKind::Blank, String::new(), line, None, None, parent, Ghost(vb), Ghost(ls));
        return;
    }
    let indentation = str_slice(content, 0, indentation_end);
    let indentation_span = line.indentation.span.clone();
    match resolve_indentation(st, indentation, Ghost(vb), Ghost(ls)) {
        Ok(level) => {
            parse_code_line(source, st, line, trimmed.to_owned(), level, Ghost(vb), Ghost(ls));
        },
        Err(reason) => {
            push_indentation_diagnostic(st, &reason, indentation_span);
            let parent = current_parent(st);
            push_node(
                source,
                st,
                RawNodeKind::Invalid,
                trimmed.to_owned(),
                line,
                Some(reason),
                None,
                parent,
                Ghost(vb),
                Ghost(ls),
            );
        },
    }
}

/// A node kind that carries no code: a blank line or a comment.
pub open spec fn is_trivia_kind(kind: RawNodeKind) -> bool {
    kind == RawNodeKind::Blank || kind == RawNodeKind::Comment
}

/// Node `i` is a section whose children are all blank lines or comments.
pub open spec fn is_empty_section(nodes: Seq<RawNode>, i: int) -> bool {
    &&& nodes[i].kind == RawNodeKind::Section
    &&& forall|k: int|
        0 <= k < nodes[i].children@.len() ==> is_trivia_kind(
            nodes[(#[trigger] nodes[i].children@[k]).0 as int].kind,
        )
}

/// The empty sections among nodes `lo..hi`, from the last to the first.
pub open spec fn empty_sections_from(nodes: Seq<RawNode>, lo: int, hi: int) -> Seq<int>
    decreases hi - lo,
{
    if lo >= hi {
        Seq::empty()
    } else {
        empty_sections_from(nodes, lo + 1, hi) + if is_empty_section(nodes, lo) {
            seq![lo]
        } else {
            Seq::empty()
        }
    }
}

/// Where the warning about an empty section points: its header, else its content.
pub open spec fn section_header_view(node: RawNode) -> SpanView {
    match node.header_span {
        Some(h) => h@,
        None => node.line.content_span@,
    }
}

/// The warning about the empty section `node`.
pub open spec fn is_empty_section_warning(d: RawDiagnostic, node: RawNode) -> bool {
    &&& d.code == RawDiagnosticCode::EmptySection
    &&& d.severity == RawDiagnosticSeverity::Warning
    &&& d.message@ == "section has no non-trivia body nodes"@
    &&& d.span@ == section_header_view(node)
    &&& d.related@.len() == 0
}

/// The body of section `i`: from the start of its first child's line to the end
/// of its last child's span, or empty right after its own line.
pub open spec fn section_body_range(nodes: Seq<RawNode>, i: int) -> TextRange {
    let c = nodes[i].children@;
    if c.len() == 0 {
        TextRange { start: nodes[i].line.span.virtual_range.end, end: nodes[i].line.span.virtual_range.end }
    } else {
        TextRange {
            start: nodes[c[0].0 as int].line.span.virtual_range.start,
            end: nodes[c[c.len() - 1].0 as int].span.virtual_range.end,
        }
    }
}

/// `after` is `before` with at most its span and body span changed.
pub open spec fn same_but_spans(before: RawNode, after: RawNode) -> bool {
    &&& after.id == before.id
    &&& after.kind == before.kind
    &&& after.text == before.text
    &&& after.line == before.line
    &&& after.code_span == before.code_span
    &&& after.header_span == before.header_span
    &&& after.indent_level == before.indent_level
    &&& after.invalid_reason == before.invalid_reason
    &&& after.syntax_context == before.syntax_context
    &&& after.parent == before.parent
    &&& after.children == before.children
}

/// Node `i` of `nodes` is `before` finalized: a section spans its line and its
/// body and knows its body span; any other node is unchanged.
pub open spec fn finalized_node(
    src: crate::source_map::MappedSourceView,
    before: RawNode,
    nodes: Seq<RawNode>,
    i: int,
) -> bool {
    let after = nodes[i];
    if before.kind == RawNodeKind::Section {
        let body = section_body_range(nodes, i);
        &&& same_but_spans(before, after)
        &&& after.span@.virtual_range == (TextRange {
            start: before.line.span.virtual_range.start,
            end: body.end,
        })
        &&& src.map_range(after.span@.virtual_range) == Ok::<
            SpanView,
            crate::source_map::SourceMapError,
        >(after.span@)
        &&& after.body_span matches Some(b) && b@.virtual_range == body && src.map_range(body)
            == Ok::<SpanView, crate::source_map::SourceMapError>(b@)
    } else {
        after == before
    }
}

/// Extends every section's span over its body and warns about empty sections.
fn finalize_sections(
    source: &MappedSource,
    st: &mut ParserState,
    Ghost(vb): Ghost<Seq<u8>>,
    Ghost(ls): Ghost<Seq<PhysicalLine>>,
)
    requires
        vb == source@.vb(),
        lines_tile(vb, ls),
        state_ok(vb, ls, *old(st)),
        old(st).tree.nodes@.len() == ls.len(),
    ensures
        state_ok(vb, ls, *final(st)),
        final(st).tree.nodes@.len() == ls.len(),
        forall|i: int|
            0 <= i < ls.len() ==> #[trigger] finalized_node(
                source@,
                old(st).tree.nodes@[i],
                final(st).tree.nodes@,
                i,
            ),
        final(st).tree.roots@ == old(st).tree.roots@,
        final(st).tree.indentation == old(st).tree.indentation,
        final(st).sections@ == old(st).sections@,
        ({
            let e = empty_sections_from(old(st).tree.nodes@, 0, ls.len() as int);
            let before = old(st).tree.diagnostics@;
            let after = final(st).tree.diagnostics@;
            &&& after.len() == before.len() + e.len()
            &&& after.subrange(0, before.len() as int) == before
            &&& forall|k: int|
                0 <= k < e.len() ==> #[trigger] is_empty_section_warning(
                    after[before.len() + k],
                    old(st).tree.nodes@[e[k]],
                )
        }),
{
    let ghost old_nodes = st.tree.nodes@;
    let ghost old_diags = st.tree.diagnostics@;
    let ghost roots = st.tree.roots@;
    let ghost sections = st.sections@;
    let ghost indentation = st.tree.indentation;
    let n = st.tree.nodes.len();
    let mut index = n;
    while index > 0
        invariant
            vb == source@.vb(),
            lines_tile(vb, ls),
            state_ok(vb, ls, *st),
            st.tree.nodes@.len() == n,
            n == ls.len(),
            index <= n,
            old_nodes.len() == n,
            st.tree.roots@ == roots,
            st.sections@ == sections,
            st.tree.indentation == indentation,
            forall|i: int| 0 <= i < index ==> st.tree.nodes@[i] == old_nodes[i],
            forall|i: int|
                index <= i < n ==> #[trigger] finalized_node(source@, old_nodes[i], st.tree.nodes@, i),
            forall|i: int| 0 <= i < n ==> #[trigger] same_but_spans(old_nodes[i], st.tree.nodes@[i]),
            ({
                let e = empty_sections_from(old_nodes, index as int, n as int);
                let after = st.tree.diagnostics@;
                &&& after.len() == old_diags.len() + e.len()
                &&& after.subrange(0, old_diags.len() as int) == old_diags
                &&& forall|k: int|
                    0 <= k < e.len() ==> #[trigger] is_empty_section_warning(
                        after[old_diags.len() + k],
                        old_nodes[e[k]],
                    )
            }),
        decreases index,
    {
        index = index - 1;
        let ghost diags_before = st.tree.diagnostics@;
        let ghost e_prev = empty_sections_from(old_nodes, index + 1, n as int);
        let ghost e_new = empty_sections_from(old_nodes, index as int, n as int);
        proof {
            assert(st.tree.nodes@[index as int] == old_nodes[index as int]);
            assert(e_new == e_prev + if is_empty_section(old_nodes, index as int) {
                seq![index as int]
            } else {
                Seq::<int>::empty()
            });
        }
        if st.tree.nodes[index].kind == RawNodeKind::Section {
            let ghost nodes = st.tree.nodes@;
            proof {
                assert(node_line_ok(vb, ls[index as int], nodes[index as int], index as int));
                assert(children_ok(nodes, index as int));
                assert(line_geometry(vb, ls[index as int]));
            }
            let line_start = st.tree.nodes[index].line.span.virtual_range.start;
            let line_end = st.tree.nodes[index].line.span.virtual_range.end;
            let nc = st.tree.nodes[index].children.len();
            let body_range = if nc == 0 {
                TextRange::empty(line_end)
            } else {
                let first = st.tree.nodes[index].children[0];
                let last = st.tree.nodes[index].children[nc - 1];
                proof {
                    let f = first.0 as int;
                    let l = last.0 as int;
                    assert(nodes[index as int].children@[0] == first);
                    assert(nodes[index as int].children@[nc - 1] == last);
                    assert(node_line_ok(vb, ls[f], nodes[f], f));
                    assert(node_line_ok(vb, ls[l], nodes[l], l));
                    assert(line_geometry(vb, ls[f]));
                    assert(line_geometry(vb, ls[l]));
                    lemma_lines_ordered(vb, ls, index as int, f);
                    if f < l {
                        lemma_lines_ordered(vb, ls, f, l);
                    }
                }
                let start = st.tree.nodes[first.0 as usize].line.span.virtual_range.start;
                let end = st.tree.nodes[last.0 as usize].span.virtual_range.end;
                TextRange::new(start, end)
            };
            let span = mapped(source, TextRange::new(line_start, body_range.end));
            let body_span = mapped(source, body_range);
            let mut empty = true;
            let mut k: usize = 0;
            while k < nc
                invariant
                    st.tree.nodes@ == nodes,
                    nc == nodes[index as int].children@.len(),
                    children_ok(nodes, index as int),
                    index < nodes.len(),
                    k <= nc,
                    nodes.len() == n,
                    old_nodes.len() == n,
                    nodes[index as int] == old_nodes[index as int],
                    forall|i: int| 0 <= i < n ==> #[trigger] same_but_spans(old_nodes[i], nodes[i]),
                    empty == forall|m: int|
                        0 <= m < k ==> is_trivia_kind(
                            old_nodes[(#[trigger] nodes[index as int].children@[m]).0 as int].kind,
                        ),
                decreases nc - k,
            {
                let child = st.tree.nodes[index].children[k];
                proof {
                    assert(nodes[index as int].children@[k as int] == child);
                    assert(same_but_spans(old_nodes[child.0 as int], nodes[child.0 as int]));
                }
                let kind = st.tree.nodes[child.0 as usize].kind;
                if kind != RawNodeKind::Blank && kind != RawNodeKind::Comment {
                    empty = false;
                }
                k = k + 1;
            }
            st.tree.nodes[index].span = span;
            st.tree.nodes[index].body_span = Some(body_span);
            proof {
                let now = st.tree.nodes@;
                assert forall|i: int| 0 <= i < now.len() implies #[trigger] node_line_ok(vb, ls[i], now[i], i) by {
                    assert(node_line_ok(vb, ls[i], nodes[i], i));
                }
                assert forall|i: int| 0 <= i < now.len() implies #[trigger] parent_ok(now, i) by {
                    assert(parent_ok(nodes, i));
                }
                assert forall|i: int| 0 <= i < now.len() implies #[trigger] children_ok(now, i) by {
                    assert(children_ok(nodes, i));
                }
                assert forall|i: int| 0 <= i < now.len() && (#[trigger] now[i].parent) is None implies st.tree.roots@.contains(RawNodeId(i as u64)) by {
                    assert(nodes[i].parent is None);
                }
                assert(empty == is_empty_section(old_nodes, index as int));
                assert(same_but_spans(old_nodes[index as int], now[index as int]));
                if nc > 0 {
                    let c = nodes[index as int].children@;
                    assert(index < c[0].0);
                    assert(index < c[c.len() - 1].0);
                }
                assert(section_body_range(now, index as int) == body_range);
                assert(finalized_node(source@, old_nodes[index as int], now, index as int));
                assert forall|i: int| index < i < n implies #[trigger] finalized_node(
                    source@,
                    old_nodes[i],
                    now,
                    i,
                ) by {
                    assert(finalized_node(source@, old_nodes[i], nodes, i));
                    assert(children_ok(nodes, i));
                    let c = nodes[i].children@;
                    if c.len() > 0 {
                        assert(i < c[0].0);
                        assert(i < c[c.len() - 1].0);
                    }
                    assert(section_body_range(now, i) == section_body_range(nodes, i));
                }
                assert forall|i: int| 0 <= i < n implies #[trigger] same_but_spans(old_nodes[i], now[i]) by {
                    assert(same_but_spans(old_nodes[i], nodes[i]));
                }
            }
            if empty {
                let header = match clone_opt_span(&st.tree.nodes[index].header_span) {
                    Some(h) => h,
                    None => st.tree.nodes[index].line.content_span.clone(),
                };
                st.tree.diagnostics.push(
                    RawDiagnostic {
                        code: RawDiagnosticCode::EmptySection,
                        severity: RawDiagnosticSeverity::Warning,
                        message: "section has no non-trivia body nodes".to_owned(),
                        span: header,
                        related: Vec::new(),
                    },
                );
                proof {
                    let after = st.tree.diagnostics@;
                    assert(e_new == e_prev.push(index as int));
                    assert(is_empty_section_warning(after[diags_before.len() as int], old_nodes[index as int]));
                    assert(after.subrange(0, old_diags.len() as int) =~= diags_before.subrange(
                        0,
                        old_diags.len() as int,
                    ));
                    assert forall|k: int| 0 <= k < e_new.len() implies #[trigger] is_empty_section_warning(
                        after[old_diags.len() + k],
                        old_nodes[e_new[k]],
                    ) by {
                        if k < e_prev.len() {
                            assert(after[old_diags.len() + k] == diags_before[old_diags.len() + k]);
                        }
                    }
                }
            } else {
                proof {
                    assert(e_new =~= e_prev);
                }
            }
        } else {
            proof {
                assert(e_new =~= e_prev);
            }
        }
    }
}

/// Diagnostic `a` is reported after `b`: it starts later, or at the same offset
/// with a later code.
pub open spec fn is_reported_after(a: RawDiagnostic, b: RawDiagnostic) -> bool {
    a.span.virtual_range.start > b.span.virtual_range.start || (a.span.virtual_range.start
        == b.span.virtual_range.start && code_rank(a.code) > code_rank(b.code))
}

/// The diagnostics are in report order: by start offset, then by code.
pub open spec fn in_report_order(s: Seq<RawDiagnostic>) -> bool {
    forall|i: int, j: int| 0 <= i < j < s.len() ==> !is_reported_after(#[trigger] s[i], #[trigger] s[j])
}

/// Whether diagnostic `a` is reported after `b`: later start, or same start and later code.
fn reported_after(a: &RawDiagnostic, b: &RawDiagnostic) -> (r: bool)
    ensures
        r == is_reported_after(*a, *b),
{
    let a_start = a.span.virtual_range.start;
    let b_start = b.span.virtual_range.start;
    a_start > b_start || (a_start == b_start && code_rank_exec(a.code) > code_rank_exec(b.code))
}

/// Stably sorts diagnostics by start offset, then by code.
fn sort_diagnostics(diagnostics: Vec<RawDiagnostic>) -> (r: Vec<RawDiagnostic>)
    ensures
        r@.len() == diagnostics@.len(),
        in_report_order(r@),
        r@.to_multiset() == diagnostics@.to_multiset(),
{
    broadcast use vstd::seq_lib::group_to_multiset_ensures, vstd::multiset::group_multiset_axioms;

    let ghost all = diagnostics@;
    let mut input = diagnostics;
    let total = input.len();
    let mut out: Vec<RawDiagnostic> = Vec::new();
    while input.len() > 0
        invariant
            out@.len() + input@.len() == total,
            in_report_order(out@),
            out@.to_multiset().add(input@.to_multiset()) == all.to_multiset(),
        decreases input@.len(),
    {
        let ghost before_in = input@;
        let ghost before_out = out@;
        let d = input.remove(0);
        proof {
            vstd::seq_lib::to_multiset_remove(before_in, 0);
            assert(input@ == before_in.remove(0));
            assert(before_in[0] == d);
            vstd::seq_lib::to_multiset_contains(before_in, d);
            assert(before_in.contains(d));
            assert(before_in.to_multiset().count(d) > 0);
            assert(before_in.to_multiset() =~= input@.to_multiset().insert(d));
        }
        let mut p = out.len();
        while p > 0 && reported_after(&out[p - 1], &d)
            invariant
                p <= out@.len(),
                out@ == before_out,
                forall|q: int| p <= q < out@.len() ==> is_reported_after(#[trigger] out@[q], d),
            decreases p,
        {
            p = p - 1;
        }
        proof {
            vstd::seq_lib::to_multiset_insert(before_out, p as int, d);
        }
        out.insert(p, d);
        proof {
            let now = out@;
            assert(now =~= before_out.insert(p as int, d));
            assert forall|i: int, j: int| 0 <= i < j < now.len() implies !is_reported_after(
                #[trigger] now[i],
                #[trigger] now[j],
            ) by {
                if j < p {
                    assert(now[i] == before_out[i] && now[j] == before_out[j]);
                } else if j == p {
                    assert(now[i] == before_out[i]);
                    assert(!is_reported_after(before_out[p - 1], d));
                    if i < p - 1 {
                        assert(!is_reported_after(before_out[i], before_out[p - 1]));
                    }
                } else if i < p {
                    assert(now[i] == before_out[i] && now[j] == before_out[j - 1]);
                } else if i == p {
                    assert(now[j] == before_out[j - 1]);
                    assert(is_reported_after(before_out[j - 1], d));
                } else {
                    assert(now[i] == before_out[i - 1] && now[j] == before_out[j - 1]);
                }
            }
            assert(out@.to_multiset().add(input@.to_multiset()) =~= all.to_multiset());
        }
    }
    proof {
        assert(input@.to_multiset() =~= vstd::multiset::Multiset::<RawDiagnostic>::empty());
        assert(out@.to_multiset() =~= all.to_multiset());
    }
    out
}

/// Builds the lossless indentation tree of the virtual text of `source`.
///
/// Every physical line gives one node, in order: node `i` holds line `i`, its
/// raw text and line ending, and spans that map its ranges. Parent, child and
/// root links agree; sections contain the lines indented below them.
pub fn parse_raw_tree(source: &MappedSource, options: RawTreeOptions) -> (r: RawTree)
    requires
        source@.vb().len() < u32::MAX,
    ensures
        r.nodes@.len() == physical_lines_of(source@.vb()).len(),
        forall|i: int|
            0 <= i < r.nodes@.len() ==> #[trigger] node_line_ok(
                source@.vb(),
                physical_lines_of(source@.vb())[i],
                r.nodes@[i],
                i,
            ),
        links_ok(r.nodes@, r.roots@),
        nested_by_indentation(r.nodes@),
        levels_step(r.nodes@),
        forall|i: int|
            0 <= i < r.nodes@.len() && #[trigger] r.nodes@[i].kind == RawNodeKind::Section ==> section_finalized(
                r.nodes@,
                i,
            ),
        empty_sections_warned(r.nodes@, r.diagnostics@),
        in_report_order(r.diagnostics@),
        forall|i: int|
            0 <= i < r.nodes@.len() ==> #[trigger] node_classified(
                source@.vb(),
                physical_lines_of(source@.vb())[i],
                r.nodes@[i],
                block_open_before(source@.vb(), physical_lines_of(source@.vb()), options.multiline_comments, i),
                options.multiline_comments,
            ),
{
    proof {
        reveal(stack_ok); reveal(stack_sound); reveal(stack_complete); reveal(nested_by_indentation); reveal(levels_step);
    }
    let ghost vb = source@.vb();
    let vs = source.virtual_source();
    let total_len = str_len(vs);
    proof {
        lemma_str_valid(vs);
        lemma_physical_lines(vb);
    }
    let lines = physical_lines(vs);
    let ghost ls = lines@;
    let mut st = ParserState {
        tree: RawTree { roots: Vec::new(), nodes: Vec::new(), diagnostics: Vec::new(), indentation: None },
        sections: Vec::new(),
        in_block_comment: false,
        block_comment_start: None,
    };
    let mut k: usize = 0;
    while k < lines.len()
        invariant
            vb == source@.vb(),
            vb.len() < u32::MAX,
            ls == lines@,
            ls == physical_lines_of(vb),
            lines_tile(vb, ls),
            state_ok(vb, ls, st),
            st.tree.nodes@.len() == k,
            k <= ls.len(),
            stack_ok(st.tree.nodes@, st.sections@),
            st.in_block_comment == block_open_before(vb, ls, options.multiline_comments, k as int),
            forall|i: int|
                0 <= i < k ==> #[trigger] node_classified(
                    vb,
                    ls[i],
                    st.tree.nodes@[i],
                    block_open_before(vb, ls, options.multiline_comments, i),
                    options.multiline_comments,
                ),
        decreases ls.len() - k,
    {
        let ghost before = st.tree.nodes@;
        parse_line(source, &mut st, &lines[k], options, Ghost(vb), Ghost(ls));
        proof {
            assert forall|i: int| 0 <= i < k + 1 implies #[trigger] node_classified(
                vb,
                ls[i],
                st.tree.nodes@[i],
                block_open_before(vb, ls, options.multiline_comments, i),
                options.multiline_comments,
            ) by {
                if i < k {
                    assert(node_classified(
                        vb,
                        ls[i],
                        before[i],
                        block_open_before(vb, ls, options.multiline_comments, i),
                        options.multiline_comments,
                    ));
                    assert(same_labels(before[i], st.tree.nodes@[i]));
                }
            }
        }
        k = k + 1;
    }
    let opening = clone_opt_span(&st.block_comment_start);
    st.block_comment_start = None;
    if let Some(opening) = opening {
        let eof = mapped(source, TextRange::empty(total_len));
        let mut related: Vec<RawRelatedSpan> = Vec::new();
        related.push(RawRelatedSpan { message: "the document ends here".to_owned(), span: eof });
        st.tree.diagnostics.push(
            RawDiagnostic {
                code: RawDiagnosticCode::UnclosedBlockComment,
                severity: RawDiagnosticSeverity::Error,
                message: "block comment opened with ### is not closed".to_owned(),
                span: opening,
                related,
            },
        );
    }
    let ghost parsed = st.tree.nodes@;
    let ghost parsed_roots = st.tree.roots@;
    let ghost diags0 = st.tree.diagnostics@;
    finalize_sections(source, &mut st, Ghost(vb), Ghost(ls));
    let ghost unsorted = st.tree.diagnostics@;
    proof {
        lemma_finalized_tree(source@, parsed, parsed_roots, st.tree.nodes@, diags0, unsorted);
        let fin = st.tree.nodes@;
        assert forall|i: int| 0 <= i < fin.len() implies #[trigger] node_classified(
            vb,
            ls[i],
            fin[i],
            block_open_before(vb, ls, options.multiline_comments, i),
            options.multiline_comments,
        ) by {
            assert(finalized_node(source@, parsed[i], fin, i));
            assert(node_classified(
                vb,
                ls[i],
                parsed[i],
                block_open_before(vb, ls, options.multiline_comments, i),
                options.multiline_comments,
            ));
        }
    }
    let mut diagnostics: Vec<RawDiagnostic> = Vec::new();
    std::mem::swap(&mut diagnostics, &mut st.tree.diagnostics);
    st.tree.diagnostics = sort_diagnostics(diagnostics);
    proof {
        lemma_warnings_kept(st.tree.nodes@, unsorted, st.tree.diagnostics@);
    }
    st.tree
}

/// Every empty section has its warning among the diagnostics.
pub open spec fn empty_sections_warned(nodes: Seq<RawNode>, diags: Seq<RawDiagnostic>) -> bool {
    forall|i: int|
        0 <= i < nodes.len() && #[trigger] is_empty_section(nodes, i) ==> exists|k: int|
            0 <= k < diags.len() && #[trigger] is_empty_section_warning(diags[k], nodes[i])
}

/// What finalizing the parsed nodes gives: nesting, level steps and section
/// spans carry over, and every empty section is warned about.
proof fn lemma_finalized_tree(
    src: crate::source_map::MappedSourceView,
    parsed: Seq<RawNode>,
    parsed_roots: Seq<RawNodeId>,
    fin: Seq<RawNode>,
    before: Seq<RawDiagnostic>,
    after: Seq<RawDiagnostic>,
)
    requires
        fin.len() == parsed.len(),
        links_ok(parsed, parsed_roots),
        nested_by_indentation(parsed),
        levels_step(parsed),
        forall|i: int| 0 <= i < parsed.len() ==> #[trigger] finalized_node(src, parsed[i], fin, i),
        ({
            let e = empty_sections_from(parsed, 0, parsed.len() as int);
            &&& after.len() == before.len() + e.len()
            &&& forall|k: int|
                0 <= k < e.len() ==> #[trigger] is_empty_section_warning(after[before.len() + k], parsed[e[k]])
        }),
    ensures
        nested_by_indentation(fin),
        levels_step(fin),
        forall|i: int| 0 <= i < fin.len() && #[trigger] fin[i].kind == RawNodeKind::Section ==> section_finalized(fin, i),
        empty_sections_warned(fin, after),
{
    assert forall|k: int| 0 <= k < fin.len() implies (#[trigger] parsed[k]).kind == fin[k].kind
        && parsed[k].indent_level == fin[k].indent_level && parsed[k].parent == fin[k].parent by {
        assert(finalized_node(src, parsed[k], fin, k));
    }
    lemma_nesting_same_shape(parsed, fin, fin.len() as int);
    assert forall|i: int| 0 <= i < fin.len() && #[trigger] fin[i].kind == RawNodeKind::Section implies section_finalized(
        fin,
        i,
    ) by {
        assert(finalized_node(src, parsed[i], fin, i));
    }
    let e = empty_sections_from(parsed, 0, parsed.len() as int);
    assert forall|i: int| 0 <= i < fin.len() && #[trigger] is_empty_section(fin, i) implies exists|k: int|
        0 <= k < after.len() && #[trigger] is_empty_section_warning(after[k], fin[i]) by {
        assert(finalized_node(src, parsed[i], fin, i));
        assert forall|k: int| 0 <= k < parsed[i].children@.len() implies is_trivia_kind(
            parsed[(#[trigger] parsed[i].children@[k]).0 as int].kind,
        ) by {
            let c = parsed[i].children@[k].0 as int;
            assert(children_ok(parsed, i));
            assert(fin[i].children@[k] == parsed[i].children@[k]);
            assert(is_trivia_kind(fin[c].kind));
            assert(parsed[c].kind == fin[c].kind);
        }
        assert(is_empty_section(parsed, i));
        lemma_empty_listed(parsed, 0, parsed.len() as int, i);
        let k = choose|k: int| 0 <= k < e.len() && e[k] == i;
        assert(is_empty_section_warning(after[before.len() + k], parsed[e[k]]));
        assert(section_header_view(parsed[i]) == section_header_view(fin[i]));
        assert(is_empty_section_warning(after[before.len() + k], fin[i]));
    }
}

/// Reordering the diagnostics keeps every warning.
proof fn lemma_warnings_kept(nodes: Seq<RawNode>, a: Seq<RawDiagnostic>, b: Seq<RawDiagnostic>)
    requires
        empty_sections_warned(nodes, a),
        b.to_multiset() == a.to_multiset(),
    ensures
        empty_sections_warned(nodes, b),
{
    broadcast use vstd::seq_lib::group_to_multiset_ensures;

    assert forall|i: int| 0 <= i < nodes.len() && #[trigger] is_empty_section(nodes, i) implies exists|k: int|
        0 <= k < b.len() && #[trigger] is_empty_section_warning(b[k], nodes[i]) by {
        let k = choose|k: int| 0 <= k < a.len() && is_empty_section_warning(a[k], nodes[i]);
        let d = a[k];
        assert(a.contains(d));
        assert(a.to_multiset().count(d) > 0);
        assert(b.to_multiset().count(d) > 0);
        assert(b.contains(d));
        let j = choose|j: int| 0 <= j < b.len() && b[j] == d;
        assert(is_empty_section_warning(b[j], nodes[i]));
    }
}

/// Section `i` spans its line and its body, and knows its body span.
pub open spec fn section_finalized(nodes: Seq<RawNode>, i: int) -> bool {
    let body = section_body_range(nodes, i);
    &&& nodes[i].span@.virtual_range == (TextRange { start: nodes[i].line.span.virtual_range.start, end: body.end })
    &&& nodes[i].body_span matches Some(b) && b@.virtual_range == body
}

/// Every empty section of `nodes` is listed by `empty_sections_from` over a range holding it.
proof fn lemma_empty_listed(nodes: Seq<RawNode>, lo: int, hi: int, i: int)
    requires
        lo <= i < hi,
        is_empty_section(nodes, i),
    ensures
        exists|k: int| 0 <= k < empty_sections_from(nodes, lo, hi).len() && empty_sections_from(nodes, lo, hi)[k] == i,
    decreases hi - lo,
{
    let e = empty_sections_from(nodes, lo, hi);
    let rest = empty_sections_from(nodes, lo + 1, hi);
    if lo < i {
        lemma_empty_listed(nodes, lo + 1, hi, i);
        let k = choose|k: int| 0 <= k < rest.len() && rest[k] == i;
        assert(e[k] == rest[k]);
    } else {
        assert(e[e.len() - 1] == i);
    }
}

/// The text a node's line stands for: its raw text and its terminator.
pub open spec fn node_text(node: RawNode) -> Seq<u8> {
    encode_utf8(node.line.raw_text@) + ending_bytes(node.line.line_ending)
}

/// The texts of the nodes' lines, one after another.
pub open spec fn concat_nodes(nodes: Seq<RawNode>) -> Seq<u8>
    decreases nodes.len(),
{
    if nodes.len() == 0 {
        Seq::empty()
    } else {
        node_text(nodes[0]) + concat_nodes(nodes.drop_first())
    }
}

proof fn lemma_nodes_match_lines(vb: Seq<u8>, ls: Seq<PhysicalLine>, nodes: Seq<RawNode>, k: int)
    requires
        nodes.len() == ls.len(),
        0 <= k <= nodes.len(),
        forall|i: int| 0 <= i < nodes.len() ==> #[trigger] node_line_ok(vb, ls[i], nodes[i], i),
    ensures
        concat_nodes(nodes.skip(k)) == concat_lines(vb, ls.skip(k)),
    decreases nodes.len() - k,
{
    if k == nodes.len() {
        assert(nodes.skip(k) =~= Seq::<RawNode>::empty());
        assert(ls.skip(k) =~= Seq::<PhysicalLine>::empty());
    } else {
        lemma_nodes_match_lines(vb, ls, nodes, k + 1);
        assert(node_line_ok(vb, ls[k], nodes[k], k));
        assert(nodes.skip(k).drop_first() =~= nodes.skip(k + 1));
        assert(ls.skip(k).drop_first() =~= ls.skip(k + 1));
        assert(nodes.skip(k)[0] == nodes[k]);
        assert(ls.skip(k)[0] == ls[k]);
        assert(node_text(nodes[k]) == line_text(vb, ls[k]));
    }
}

/// The raw texts and line endings of a parsed tree's nodes, in order, spell the
/// virtual text again: the tree is lossless.
pub proof fn lemma_raw_tree_lossless(vb: Seq<u8>, nodes: Seq<RawNode>)
    requires
        vb.len() <= usize::MAX,
        nodes.len() == physical_lines_of(vb).len(),
        forall|i: int| 0 <= i < nodes.len() ==> #[trigger] node_line_ok(vb, physical_lines_of(vb)[i], nodes[i], i),
    ensures
        concat_nodes(nodes) == vb,
{
    let ls = physical_lines_of(vb);
    lemma_nodes_match_lines(vb, ls, nodes, 0);
    assert(nodes.skip(0) =~= nodes);
    assert(ls.skip(0) =~= ls);
    lemma_physical_lines_lossless(vb);
}

} // verus!
