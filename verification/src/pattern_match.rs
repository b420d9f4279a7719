//! Lexical scanning shared by pattern matching and expression-list splitting.
//!
//! Skript text nests string literals (`"..."`, with `""` as an escaped quote and
//! `%...%` embedded expressions), variables (`{...}`) and parentheses. The
//! scanners below find the closing delimiter of each construct over UTF-8 byte
//! offsets; every delimiter is ASCII, so the byte view agrees with the character
//! view of the text.
use crate::source_map::{MappedSource, MappedSourceView, MappedSpan, SourceMapError, SpanView};
use crate::text::{boundary, bytes_of, char_width, lemma_next_boundary, utf8_width, TextRange};
use crate::pattern_syntax::{PatternElement, SpannedPatternElement};
use vstd::prelude::*;
use vstd::string::{StringExecFns, StringSliceAdditionalSpecFns};
use vstd::utf8::*;

verus! {

broadcast use vstd::utf8::group_utf8_lib;

/// Matched local range paired with mapped original-source provenance.
#[derive(Debug, PartialEq, Eq)]
pub struct MatchSpan {
    pub local_range: TextRange,
    pub mapped: MappedSpan,
}

impl Clone for MatchSpan {
    fn clone(&self) -> (r: Self)
        ensures
            r.local_range == self.local_range,
            r.mapped@ == self.mapped@,
    {
        MatchSpan { local_range: self.local_range, mapped: self.mapped.clone() }
    }
}

/// Syntax category order used by candidate ranking and hooks.
#[derive(Debug, Clone, Copy, PartialEq, Eq, Structural, PartialOrd, Ord, Hash)]
pub enum MatchSyntaxKind {
    Event,
    Condition,
    Effect,
    Expression,
    Type,
    Function,
    Section,
    Structure,
}

/// One way a typed pattern element can be resolved over an input range.
#[derive(Debug, Clone, PartialEq, Eq)]
pub struct TypeExpressionResolution {
    pub range: TextRange,
    pub alternative_index: Option<usize>,
    pub resolution_id: Option<String>,
}

/// Type resolver that resolves no typed element.
#[derive(Debug, Default)]
pub struct RejectTypeExpressions;

/// Level of the pattern structure a hook observes.
#[derive(Debug, Clone, Copy, PartialEq, Eq, Structural)]
pub enum PatternHookScope {
    Definition,
    Registration,
    Pattern,
    Element,
}

/// Whether a hook runs before or after the observed match step.
#[derive(Debug, Clone, Copy, PartialEq, Eq, Structural)]
pub enum PatternHookTiming {
    Before,
    After,
}

/// What a match step produced when a hook observes it.
#[derive(Debug, Clone, PartialEq, Eq)]
pub enum PatternHookOutcome {
    Pending,
    Matched { range: TextRange },
    Failed { reason: String },
}

/// One step of a path into a parsed pattern: an element or a choice branch.
#[derive(Debug, Clone, Copy, PartialEq, Eq, Structural, PartialOrd, Ord, Hash)]
pub enum PatternPathSegment {
    Element(u32),
    Branch(u32),
}

/// A hook's decision for the observed match step.
#[derive(Debug, Clone, PartialEq, Eq)]
pub enum PatternHookControl {
    Continue,
    Match(TextRange),
    Fail(String),
}

/// Hooks that let every match step continue.
#[derive(Debug, Default)]
pub struct NoopPatternMatchHooks;

/// The resource whose budget a match exceeded.
#[derive(Debug, Clone, Copy, PartialEq, Eq, Structural)]
pub enum PatternMatchLimit {
    States,
    Backtracks,
    RegexExecutions,
    RegexEvaluatedBytes,
    RegexBacktracks,
}

/// Hard limits applied to one matcher invocation.
#[derive(Debug, Clone, PartialEq, Eq, Structural)]
pub struct PatternMatcherConfig {
    pub max_states: usize,
    pub max_backtracks: usize,
    pub max_regex_executions: usize,
    pub max_regex_evaluated_bytes: usize,
    pub max_regex_backtracks: usize,
    pub max_candidate_failures: usize,
    /// Continues past failed typed captures to collect independent diagnostics.
    /// Recovered matches are never returned as successful syntax candidates.
    pub recover_type_expression_failures: bool,
}

impl Default for PatternMatcherConfig {
    fn default() -> (r: Self)
        ensures
            r.max_states == 100_000,
            r.max_backtracks == 50_000,
            r.max_regex_executions == 10_000,
            r.max_regex_evaluated_bytes == 8 * 1024 * 1024,
            r.max_regex_backtracks == 1_000_000,
            r.max_candidate_failures == 256,
            !r.recover_type_expression_failures,
    {
        PatternMatcherConfig {
            max_states: 100_000,
            max_backtracks: 50_000,
            max_regex_executions: 10_000,
            max_regex_evaluated_bytes: 8 * 1024 * 1024,
            max_regex_backtracks: 1_000_000,
            max_candidate_failures: 256,
            recover_type_expression_failures: false,
        }
    }
}

/// Every limit of the configuration is positive.
pub open spec fn limits_positive(c: PatternMatcherConfig) -> bool {
    &&& c.max_states > 0
    &&& c.max_backtracks > 0
    &&& c.max_regex_executions > 0
    &&& c.max_regex_evaluated_bytes > 0
    &&& c.max_regex_backtracks > 0
    &&& c.max_candidate_failures > 0
}

impl PatternMatcherConfig {
    /// Rejects a configuration with a zero limit.
    pub fn validate(&self) -> (r: Result<(), PatternMatchError>)
        ensures
            r is Ok <==> limits_positive(*self),
            r matches Err(e) ==> e == PatternMatchError::InvalidConfiguration,
    {
        if self.max_states == 0 || self.max_backtracks == 0 || self.max_regex_executions == 0
            || self.max_regex_evaluated_bytes == 0 || self.max_regex_backtracks == 0
            || self.max_candidate_failures == 0 {
            Err(PatternMatchError::InvalidConfiguration)
        } else {
            Ok(())
        }
    }
}

/// Configuration, extension, regex, mapping, or resource failure of the matcher.
#[derive(Debug, Clone, PartialEq, Eq)]
pub enum PatternMatchError {
    InvalidConfiguration,
    InvalidInputRange { range: TextRange },
    SourceMap { message: String },
    InvalidRegex { pattern_span: TextRange, message: String },
    TypeResolver { pattern_span: TextRange, message: String },
    Hook { message: String },
    LimitExceeded { kind: PatternMatchLimit, limit: usize },
    InvalidTypeResolution { range: TextRange },
}

/// Expected construct recorded at the selected failed input range.
#[derive(Debug, PartialEq, Eq, PartialOrd, Ord)]
pub enum PatternFailureReason {
    Literal { expected: String },
    Regex { pattern: String },
    Expression,
    TypeExpression { expected: Vec<String> },
    EventRestricted { supported: Vec<String>, current: Vec<String> },
    TrailingInput,
    HookRejected { reason: String },
}

/// Selected diagnostic for one unsuccessful candidate.
#[derive(Debug, PartialEq, Eq)]
pub struct PatternFailure {
    pub span: MatchSpan,
    pub reasons: Vec<PatternFailureReason>,
}

/// A failure reason as texts.
pub enum ReasonView {
    Literal(Seq<char>),
    Regex(Seq<char>),
    Expression,
    TypeExpression(Seq<Seq<char>>),
    EventRestricted(Seq<Seq<char>>, Seq<Seq<char>>),
    TrailingInput,
    HookRejected(Seq<char>),
}

/// The texts of a list of strings.
pub open spec fn texts(v: Seq<String>) -> Seq<Seq<char>> {
    v.map_values(|s: String| s@)
}

/// The texts a reason holds.
pub open spec fn reason_view(r: PatternFailureReason) -> ReasonView {
    match r {
        PatternFailureReason::Literal { expected } => ReasonView::Literal(expected@),
        PatternFailureReason::Regex { pattern } => ReasonView::Regex(pattern@),
        PatternFailureReason::Expression => ReasonView::Expression,
        PatternFailureReason::TypeExpression { expected } => ReasonView::TypeExpression(texts(expected@)),
        PatternFailureReason::EventRestricted { supported, current } => ReasonView::EventRestricted(
            texts(supported@),
            texts(current@),
        ),
        PatternFailureReason::TrailingInput => ReasonView::TrailingInput,
        PatternFailureReason::HookRejected { reason } => ReasonView::HookRejected(reason@),
    }
}

/// The two reasons are the same variant with the same texts.
pub open spec fn same_reason(a: PatternFailureReason, b: PatternFailureReason) -> bool {
    reason_view(a) == reason_view(b)
}

/// Copies a list of texts.
fn clone_texts(v: &Vec<String>) -> (r: Vec<String>)
    ensures
        r@ == v@,
{
    let mut r: Vec<String> = Vec::new();
    let mut k: usize = 0;
    while k < v.len()
        invariant
            k <= v@.len(),
            r@ == v@.take(k as int),
        decreases v@.len() - k,
    {
        r.push(v[k].clone());
        proof {
            assert(v@.take(k + 1) =~= v@.take(k as int).push(v@[k as int]));
        }
        k = k + 1;
    }
    proof {
        assert(v@.take(v@.len() as int) =~= v@);
    }
    r
}

impl Clone for PatternFailureReason {
    fn clone(&self) -> (r: Self)
        ensures
            same_reason(r, *self),
    {
        match self {
            PatternFailureReason::Literal { expected } => PatternFailureReason::Literal { expected: expected.clone() },
            PatternFailureReason::Regex { pattern } => PatternFailureReason::Regex { pattern: pattern.clone() },
            PatternFailureReason::Expression => PatternFailureReason::Expression,
            PatternFailureReason::TypeExpression { expected } => PatternFailureReason::TypeExpression {
                expected: clone_texts(expected),
            },
            PatternFailureReason::EventRestricted { supported, current } => PatternFailureReason::EventRestricted {
                supported: clone_texts(supported),
                current: clone_texts(current),
            },
            PatternFailureReason::TrailingInput => PatternFailureReason::TrailingInput,
            PatternFailureReason::HookRejected { reason } => PatternFailureReason::HookRejected { reason: reason.clone() },
        }
    }
}

/// The two failures have the same span and the same reasons.
pub open spec fn same_failure(a: PatternFailure, b: PatternFailure) -> bool {
    &&& a.span.local_range == b.span.local_range
    &&& a.span.mapped@ == b.span.mapped@
    &&& a.reasons@.len() == b.reasons@.len()
    &&& forall|i: int| 0 <= i < a.reasons@.len() ==> same_reason(#[trigger] a.reasons@[i], b.reasons@[i])
}

impl Clone for PatternFailure {
    fn clone(&self) -> (r: Self)
        ensures
            same_failure(r, *self),
    {
        let mut reasons: Vec<PatternFailureReason> = Vec::new();
        let mut k: usize = 0;
        while k < self.reasons.len()
            invariant
                k <= self.reasons@.len(),
                reasons@.len() == k,
                forall|i: int| 0 <= i < k ==> same_reason(#[trigger] reasons@[i], self.reasons@[i]),
            decreases self.reasons@.len() - k,
        {
            reasons.push(self.reasons[k].clone());
            k = k + 1;
        }
        PatternFailure { span: self.span.clone(), reasons }
    }
}

/// One numbered regex group and its optional matched span.
#[derive(Debug, Clone, PartialEq, Eq)]
pub struct RegexGroupCapture {
    pub index: usize,
    pub value: Option<String>,
    pub span: Option<MatchSpan>,
}

/// Where matcher input ranges map to: a range of a mapped source, or one fixed
/// generated call site.
#[derive(Debug, Clone)]
pub enum MatchInputMapping<'a> {
    Source { source: &'a MappedSource, source_range: TextRange },
    Fixed(MappedSpan),
}

/// Pattern input with both node-local byte offsets and editor-facing provenance.
#[derive(Debug)]
pub struct MatchInput<'a> {
    text: &'a str,
    mapping: MatchInputMapping<'a>,
}

impl<'a> Clone for MatchInput<'a> {
    fn clone(&self) -> (r: Self)
        ensures
            r.local_text() == self.local_text(),
            r.borrowed() == self.borrowed(),
            r.call_site() == self.call_site(),
    {
        proof {
            use_type_invariant(self);
        }
        let mapping = match &self.mapping {
            MatchInputMapping::Source { source, source_range } => MatchInputMapping::Source {
                source: *source,
                source_range: *source_range,
            },
            MatchInputMapping::Fixed(call_site) => MatchInputMapping::Fixed(call_site.clone()),
        };
        MatchInput { text: self.text, mapping }
    }
}

impl<'a> MatchInput<'a> {
    /// Borrowed input is the text of a valid range of its source.
    #[verifier::type_invariant]
    spec fn borrows_its_range(&self) -> bool {
        match self.mapping {
            MatchInputMapping::Source { source, source_range } => {
                &&& source_range.valid_for(encode_utf8(source@.virtual_source))
                &&& encode_utf8(self.text@) == encode_utf8(source@.virtual_source).subrange(
                    source_range.start as int,
                    source_range.end as int,
                )
            },
            MatchInputMapping::Fixed(_) => true,
        }
    }

    /// The node-local text presented to the matcher.
    pub closed spec fn local_text(&self) -> Seq<char> {
        self.text@
    }

    /// The source and range the input borrows, when it borrows one.
    pub closed spec fn borrowed(&self) -> Option<(MappedSourceView, TextRange)> {
        match self.mapping {
            MatchInputMapping::Source { source, source_range } => Some((source@, source_range)),
            MatchInputMapping::Fixed(_) => None,
        }
    }

    /// The fixed call site generated input maps to, when it has one.
    pub closed spec fn call_site(&self) -> Option<SpanView> {
        match self.mapping {
            MatchInputMapping::Source { .. } => None,
            MatchInputMapping::Fixed(span) => Some(span@),
        }
    }

    /// Borrows a valid virtual-source range and preserves its composed mapping.
    pub fn from_source(source: &'a MappedSource, range: TextRange) -> (r: Result<Self, PatternMatchError>)
        ensures
            match r {
                Ok(input) => range.valid_for(encode_utf8(source@.virtual_source)) && input.borrowed() == Some(
                    (source@, range),
                ) && encode_utf8(input.local_text()) == encode_utf8(source@.virtual_source).subrange(
                    range.start as int,
                    range.end as int,
                ),
                Err(e) => !range.valid_for(encode_utf8(source@.virtual_source)) && e
                    == PatternMatchError::InvalidInputRange { range },
            },
    {
        match range.slice(source.virtual_source()) {
            Some(text) => Ok(MatchInput { text, mapping: MatchInputMapping::Source { source, source_range: range } }),
            None => Err(PatternMatchError::InvalidInputRange { range }),
        }
    }

    /// Creates matcher input whose ranges map to a fixed generated call site.
    pub fn generated(text: &'a str, call_site: MappedSpan) -> (r: Self)
        ensures
            r.local_text() == text@,
            r.borrowed() is None,
            r.call_site() == Some(call_site@),
    {
        MatchInput { text, mapping: MatchInputMapping::Fixed(call_site) }
    }

    /// Returns the node-local text presented to the matcher.
    pub fn text(&self) -> (r: &'a str)
        ensures
            r@ == self.local_text(),
    {
        self.text
    }

    /// Converts a node-local range into editor-facing provenance: a borrowed
    /// input maps the range shifted into its source, generated input maps every
    /// range to its call site.
    pub fn map_range(&self, local_range: TextRange) -> (r: Result<MatchSpan, PatternMatchError>)
        ensures
            !local_range.valid_for(encode_utf8(self.local_text())) ==> r == Err::<MatchSpan, PatternMatchError>(
                PatternMatchError::InvalidInputRange { range: local_range },
            ),
            local_range.valid_for(encode_utf8(self.local_text())) ==> match self.borrowed() {
                Some((s, sr)) => match s.map_range(
                    TextRange {
                        start: (sr.start + local_range.start) as usize,
                        end: (sr.start + local_range.end) as usize,
                    },
                ) {
                    Ok(v) => r matches Ok(m) && m.local_range == local_range && m.mapped@ == v,
                    Err(e) => r matches Err(PatternMatchError::SourceMap { message }) && message@
                        == crate::source_map::source_map_error_text(e),
                },
                None => r matches Ok(m) && m.local_range == local_range && Some(m.mapped@) == self.call_site(),
            },
            local_range.valid_for(encode_utf8(self.local_text())) ==> r is Ok,
    {
        proof {
            use_type_invariant(self);
        }
        if !local_range.is_valid_for(self.text) {
            return Err(PatternMatchError::InvalidInputRange { range: local_range });
        }
        let mapped = match &self.mapping {
            MatchInputMapping::Source { source, source_range } => {
                let shifted = TextRange::new(
                    source_range.start + local_range.start,
                    source_range.start + local_range.end,
                );
                proof {
                    use_type_invariant(*source);
                    let vb = encode_utf8(source@.virtual_source);
                    let sub = encode_utf8(self.text@);
                    lemma_sub_boundary(vb, source_range.start as int, source_range.end as int, local_range.start as int);
                    lemma_sub_boundary(vb, source_range.start as int, source_range.end as int, local_range.end as int);
                    crate::source_map::lemma_valid_range_maps(source@, shifted);
                }
                match source.map_range(shifted) {
                    Ok(span) => span,
                    Err(e) => {
                        return Err(PatternMatchError::SourceMap { message: e.message() });
                    },
                }
            },
            MatchInputMapping::Fixed(call_site) => call_site.clone(),
        };
        Ok(MatchSpan { local_range, mapped })
    }
}

/// A character boundary of a slice between two boundaries of `b` is a boundary of `b`.
proof fn lemma_sub_boundary(b: Seq<u8>, start: int, end: int, k: int)
    requires
        0 <= start <= end <= b.len(),
        boundary(b, start),
        boundary(b, end),
        0 <= k <= end - start,
        boundary(b.subrange(start, end), k),
    ensures
        boundary(b, start + k),
{
    if 0 < k < end - start {
        assert(b.subrange(start, end)[k] == b[start + k]);
    }
}

/// Width of the first character of `b[start..end]`, when that slice exists and is non-empty.
pub open spec fn first_char_width(b: Seq<u8>, start: int, end: int) -> Option<int> {
    if 0 <= start < end && end <= b.len() && boundary(b, start) && boundary(b, end) {
        Some(utf8_width(b[start]))
    } else {
        None
    }
}

/// An optional byte offset as a mathematical integer.
pub open spec fn opt_int(r: Option<usize>) -> Option<int> {
    match r {
        Some(v) => Some(v as int),
        None => None,
    }
}

/// The first character of a non-empty slice ends within the slice.
pub proof fn lemma_first_char(b: Seq<u8>, start: int, end: int)
    requires
        valid_utf8(b),
        first_char_width(b, start, end) is Some,
    ensures
        1 <= utf8_width(b[start]),
        start + utf8_width(b[start]) <= end,
        boundary(b, start + utf8_width(b[start])),
{
    lemma_next_boundary(b, start);
    if start + utf8_width(b[start]) > end {
        assert(start < end < start + utf8_width(b[start]));
        assert(!boundary(b, end));
    }
}

/// Width of the first character of `input[start..end]`, or `None` when that
/// slice does not exist or is empty.
pub fn first_char_len(input: &str, start: usize, end: usize) -> (r: Option<usize>)
    ensures
        opt_int(r) == first_char_width(bytes_of(input), start as int, end as int),
        r matches Some(w) ==> 1 <= w && start + w <= end && boundary(bytes_of(input), start + w),
{
    if start < end && TextRange::new(start, end).is_valid_for(input) {
        proof {
            lemma_first_char(bytes_of(input), start as int, end as int);
        }
        Some(char_width(input.as_bytes()[start]))
    } else {
        None
    }
}

/// The character whose encoding starts at byte `i` of `b`.
pub open spec fn char_at_spec(b: Seq<u8>, i: int) -> char {
    decode_first_scalar(b.subrange(i, i + utf8_width(b[i]))) as char
}

/// The first character of `input[start..end]` and its width in bytes, or `None`
/// when that slice does not exist or is empty.
pub fn char_at(input: &str, start: usize, end: usize) -> (r: Option<(char, usize)>)
    ensures
        r is Some <==> first_char_width(bytes_of(input), start as int, end as int) is Some,
        r matches Some((c, w)) ==> {
            &&& w == utf8_width(bytes_of(input)[start as int])
            &&& c == char_at_spec(bytes_of(input), start as int)
            &&& 1 <= w
            &&& start + w <= end
            &&& boundary(bytes_of(input), start + w)
        },
{
    broadcast use vstd::string::axiom_spec_iter, vstd::string::next_postcondition;

    let w = match first_char_len(input, start, end) {
        Some(w) => w,
        None => {
            return None;
        },
    };
    let ghost b = bytes_of(input);
    let t = crate::text::str_slice(input, start, start + w);
    proof {
        assert(bytes_of(t) == b.subrange(start as int, start + w));
        if t@.len() == 0 {
            assert(encode_utf8(t@) =~= Seq::<u8>::empty());
        }
    }
    let mut it = t.chars();
    let c = match it.next() {
        Some(c) => c,
        None => {
            return None;
        },
    };
    proof {
        assert(c == t@[0]);
        encode_utf8_first_scalar(t@);
        char_u32_cast(t@[0], decode_first_scalar(encode_utf8(t@)));
    }
    Some((c, w))
}

/// The closing quote of a string literal whose content starts at `cursor`.
///
/// `""` is an escaped quote, and quotes inside `%...%` expressions do not close
/// the literal.
pub open spec fn quote_end(b: Seq<u8>, cursor: int, end: int, in_expression: bool) -> Option<int>
    decreases end - cursor,
{
    match first_char_width(b, cursor, end) {
        None => None,
        Some(w) => if b[cursor] == 0x22 && !in_expression {
            if cursor + 1 < b.len() && b[cursor + 1] == 0x22 {
                if cursor + 2 <= end {
                    quote_end(b, cursor + 2, end, in_expression)
                } else {
                    None
                }
            } else {
                Some(cursor)
            }
        } else if 1 <= w && cursor + w <= end {
            quote_end(b, cursor + w, end, if b[cursor] == 0x25 { !in_expression } else { in_expression })
        } else {
            None
        },
    }
}

/// The closing brace of a variable whose name starts at `cursor`, skipping nested braces.
pub open spec fn variable_end(b: Seq<u8>, cursor: int, end: int, depth: nat) -> Option<int>
    decreases end - cursor,
{
    match first_char_width(b, cursor, end) {
        None => None,
        Some(w) => if b[cursor] == 0x7d && depth == 0 {
            Some(cursor)
        } else if 1 <= w && cursor + w <= end {
            let next_depth: nat = if b[cursor] == 0x7b {
                depth + 1
            } else if b[cursor] == 0x7d {
                (depth - 1) as nat
            } else {
                depth
            };
            variable_end(b, cursor + w, end, next_depth)
        } else {
            None
        },
    }
}

/// The closing parenthesis of a group whose content starts at `cursor`, skipping
/// nested groups, string literals and variables.
pub open spec fn parenthesis_end(b: Seq<u8>, cursor: int, end: int, depth: nat) -> Option<int>
    decreases end - cursor,
{
    match first_char_width(b, cursor, end) {
        None => None,
        Some(w) => if b[cursor] == 0x22 {
            match quote_end(b, cursor + 1, end, false) {
                Some(q) => if cursor < q + 1 <= end {
                    parenthesis_end(b, q + 1, end, depth)
                } else {
                    None
                },
                None => None,
            }
        } else if b[cursor] == 0x7b {
            match variable_end(b, cursor + 1, end, 0) {
                Some(q) => if cursor < q + 1 <= end {
                    parenthesis_end(b, q + 1, end, depth)
                } else {
                    None
                },
                None => None,
            }
        } else if b[cursor] == 0x29 && depth == 0 {
            Some(cursor)
        } else if 1 <= w && cursor + w <= end {
            let next_depth: nat = if b[cursor] == 0x28 {
                depth + 1
            } else if b[cursor] == 0x29 {
                (depth - 1) as nat
            } else {
                depth
            };
            parenthesis_end(b, cursor + w, end, next_depth)
        } else {
            None
        },
    }
}

/// A closing quote lies inside the scanned slice.
pub proof fn lemma_quote_end_bounds(b: Seq<u8>, cursor: int, end: int, in_expression: bool)
    requires
        quote_end(b, cursor, end, in_expression) is Some,
    ensures
        cursor <= quote_end(b, cursor, end, in_expression).unwrap() < end,
        b[quote_end(b, cursor, end, in_expression).unwrap()] == 0x22,
    decreases end - cursor,
{
    let w = first_char_width(b, cursor, end).unwrap();
    if b[cursor] == 0x22 && !in_expression {
        if cursor + 1 < b.len() && b[cursor + 1] == 0x22 {
            lemma_quote_end_bounds(b, cursor + 2, end, in_expression);
        }
    } else {
        lemma_quote_end_bounds(
            b,
            cursor + w,
            end,
            if b[cursor] == 0x25 {
                !in_expression
            } else {
                in_expression
            },
        );
    }
}

/// A closing brace lies inside the scanned slice.
pub proof fn lemma_variable_end_bounds(b: Seq<u8>, cursor: int, end: int, depth: nat)
    requires
        variable_end(b, cursor, end, depth) is Some,
    ensures
        cursor <= variable_end(b, cursor, end, depth).unwrap() < end,
        b[variable_end(b, cursor, end, depth).unwrap()] == 0x7d,
    decreases end - cursor,
{
    let w = first_char_width(b, cursor, end).unwrap();
    if !(b[cursor] == 0x7d && depth == 0) {
        let next_depth: nat = if b[cursor] == 0x7b {
            depth + 1
        } else if b[cursor] == 0x7d {
            (depth - 1) as nat
        } else {
            depth
        };
        lemma_variable_end_bounds(b, cursor + w, end, next_depth);
    }
}

/// A closing parenthesis lies inside the scanned slice.
pub proof fn lemma_parenthesis_end_bounds(b: Seq<u8>, cursor: int, end: int, depth: nat)
    requires
        parenthesis_end(b, cursor, end, depth) is Some,
    ensures
        cursor <= parenthesis_end(b, cursor, end, depth).unwrap() < end,
        b[parenthesis_end(b, cursor, end, depth).unwrap()] == 0x29,
    decreases end - cursor,
{
    let w = first_char_width(b, cursor, end).unwrap();
    if b[cursor] == 0x22 {
        let q = quote_end(b, cursor + 1, end, false).unwrap();
        lemma_parenthesis_end_bounds(b, q + 1, end, depth);
    } else if b[cursor] == 0x7b {
        let q = variable_end(b, cursor + 1, end, 0).unwrap();
        lemma_parenthesis_end_bounds(b, q + 1, end, depth);
    } else if !(b[cursor] == 0x29 && depth == 0) {
        let next_depth: nat = if b[cursor] == 0x28 {
            depth + 1
        } else if b[cursor] == 0x29 {
            (depth - 1) as nat
        } else {
            depth
        };
        lemma_parenthesis_end_bounds(b, cursor + w, end, next_depth);
    }
}

/// Finds the quote that closes a string literal whose content starts at `cursor`.
pub fn find_quote_end(input: &str, from: usize, end: usize) -> (r: Option<usize>)
    ensures
        opt_int(r) == quote_end(bytes_of(input), from as int, end as int, false),
{
    let ghost b = bytes_of(input);
    let bytes = input.as_bytes();
    let mut cursor = from;
    let mut in_expression = false;
    let ghost goal = quote_end(b, cursor as int, end as int, false);
    while cursor < end
        invariant
            b == bytes_of(input),
            goal == quote_end(b, from as int, end as int, false),
            bytes@ == b,
            goal == quote_end(b, cursor as int, end as int, in_expression),
        decreases end - cursor,
    {
        let w = match first_char_len(input, cursor, end) {
            Some(w) => w,
            None => return None,
        };
        let ch = bytes[cursor];
        if ch == 0x22 && !in_expression {
            let next = cursor + 1;
            if next < bytes.len() && bytes[next] == 0x22 {
                if next + 1 > end {
                    return None;
                }
                cursor = next + 1;
                continue;
            }
            return Some(cursor);
        }
        if ch == 0x25 {
            in_expression = !in_expression;
        }
        cursor = cursor + w;
    }
    None
}

/// Finds the brace that closes a variable whose name starts at `cursor`.
pub fn find_variable_end(input: &str, from: usize, end: usize) -> (r: Option<usize>)
    ensures
        opt_int(r) == variable_end(bytes_of(input), from as int, end as int, 0),
{
    let ghost b = bytes_of(input);
    let bytes = input.as_bytes();
    let ghost start = from;
    let mut cursor = from;
    let mut depth: usize = 0;
    let ghost goal = variable_end(b, cursor as int, end as int, 0);
    while cursor < end
        invariant
            b == bytes_of(input),
            goal == variable_end(b, from as int, end as int, 0),
            bytes@ == b,
            start <= cursor,
            depth <= cursor - start,
            goal == variable_end(b, cursor as int, end as int, depth as nat),
        decreases end - cursor,
    {
        let w = match first_char_len(input, cursor, end) {
            Some(w) => w,
            None => return None,
        };
        let ch = bytes[cursor];
        if ch == 0x7b {
            depth = depth.saturating_add(1);
        } else if ch == 0x7d {
            if depth == 0 {
                return Some(cursor);
            }
            depth = depth - 1;
        }
        cursor = cursor + w;
    }
    None
}

/// Finds the parenthesis that closes a group whose content starts at `cursor`.
pub fn find_parenthesis_end(input: &str, from: usize, end: usize) -> (r: Option<usize>)
    ensures
        opt_int(r) == parenthesis_end(bytes_of(input), from as int, end as int, 0),
{
    let ghost b = bytes_of(input);
    let bytes = input.as_bytes();
    let ghost start = from;
    let mut cursor = from;
    let mut depth: usize = 0;
    let ghost goal = parenthesis_end(b, cursor as int, end as int, 0);
    while cursor < end
        invariant
            b == bytes_of(input),
            goal == parenthesis_end(b, from as int, end as int, 0),
            bytes@ == b,
            start <= cursor,
            depth <= cursor - start,
            goal == parenthesis_end(b, cursor as int, end as int, depth as nat),
        decreases end - cursor,
    {
        let w = match first_char_len(input, cursor, end) {
            Some(w) => w,
            None => return None,
        };
        let ch = bytes[cursor];
        if ch == 0x22 {
            let q = match find_quote_end(input, cursor + 1, end) {
                Some(q) => q,
                None => return None,
            };
            proof {
                lemma_quote_end_bounds(b, cursor + 1, end as int, false);
            }
            cursor = q + 1;
            continue;
        }
        if ch == 0x7b {
            let q = match find_variable_end(input, cursor + 1, end) {
                Some(q) => q,
                None => return None,
            };
            proof {
                lemma_variable_end_bounds(b, cursor + 1, end as int, 0);
            }
            cursor = q + 1;
            continue;
        }
        if ch == 0x28 {
            depth = depth.saturating_add(1);
        } else if ch == 0x29 {
            if depth == 0 {
                return Some(cursor);
            }
            depth = depth - 1;
        }
        cursor = cursor + w;
    }
    None
}

/// Index of the first byte above U+0020 at or after `i`, or the length of `b`.
///
/// Bytes up to U+0020 are whole ASCII characters, so this is also the first
/// character whose code point is above U+0020.
pub open spec fn first_visible(b: Seq<u8>, i: int) -> int
    decreases b.len() - i,
{
    if i >= b.len() {
        b.len() as int
    } else if b[i] > 0x20 {
        i
    } else {
        first_visible(b, i + 1)
    }
}

/// One past the last byte above U+0020 before `j`, or 0 when there is none.
pub open spec fn last_visible_end(b: Seq<u8>, j: int) -> int
    decreases j,
{
    if j <= 0 {
        0
    } else if b[j - 1] > 0x20 {
        j
    } else {
        last_visible_end(b, j - 1)
    }
}

/// The range `String.trim()` in Java keeps: without leading and trailing
/// characters up to U+0020 (an all-blank text trims to its end).
pub open spec fn java_trim(b: Seq<u8>) -> TextRange {
    let start = first_visible(b, 0);
    TextRange {
        start: start as usize,
        end: (if start >= b.len() {
            start
        } else {
            last_visible_end(b, b.len() as int)
        }) as usize,
    }
}

proof fn lemma_first_visible(b: Seq<u8>, i: int)
    requires
        0 <= i <= b.len(),
    ensures
        i <= first_visible(b, i) <= b.len(),
        first_visible(b, i) < b.len() ==> b[first_visible(b, i)] > 0x20,
    decreases b.len() - i,
{
    if i < b.len() && b[i] <= 0x20 {
        lemma_first_visible(b, i + 1);
    }
}

proof fn lemma_last_visible(b: Seq<u8>, j: int, k: int)
    requires
        0 <= k < j <= b.len(),
        b[k] > 0x20,
    ensures
        k < last_visible_end(b, j) <= j,
    decreases j,
{
    if b[j - 1] <= 0x20 {
        lemma_last_visible(b, j - 1, k);
    }
}

/// The Java trim of a text is an ordered range within it.
pub proof fn lemma_java_trim_bounds(b: Seq<u8>)
    requires
        b.len() <= usize::MAX,
    ensures
        java_trim(b).start <= java_trim(b).end <= b.len(),
{
    lemma_first_visible(b, 0);
    let start = first_visible(b, 0);
    if start < b.len() {
        lemma_last_visible(b, b.len() as int, start);
    }
}

/// Trims characters up to U+0020 from both ends, as Java's `String.trim()` does.
pub fn java_trim_range(input: &str) -> (r: TextRange)
    ensures
        r == java_trim(bytes_of(input)),
{
    let bytes = input.as_bytes();
    let ghost b = bytes@;
    let mut start: usize = 0;
    while start < bytes.len() && bytes[start] <= 0x20
        invariant
            b == bytes@,
            start <= b.len(),
            first_visible(b, start as int) == first_visible(b, 0),
        decreases b.len() - start,
    {
        start = start + 1;
    }
    if start >= bytes.len() {
        return TextRange::new(start, start);
    }
    let mut end: usize = bytes.len();
    while end > 0 && bytes[end - 1] <= 0x20
        invariant
            b == bytes@,
            end <= b.len(),
            last_visible_end(b, end as int) == last_visible_end(b, b.len() as int),
        decreases end,
    {
        end = end - 1;
    }
    TextRange::new(start, end)
}

/// End of the Skript token starting at `start`: a whole string literal, variable
/// or parenthesised group, or else one character.
pub open spec fn skript_step(b: Seq<u8>, start: int, end: int) -> Option<int> {
    match first_char_width(b, start, end) {
        None => None,
        Some(w) => if b[start] == 0x22 {
            match quote_end(b, start + 1, end, false) {
                Some(q) => Some(q + 1),
                None => None,
            }
        } else if b[start] == 0x7b {
            match variable_end(b, start + 1, end, 0) {
                Some(q) => Some(q + 1),
                None => None,
            }
        } else if b[start] == 0x28 {
            match parenthesis_end(b, start + 1, end, 0) {
                Some(q) => Some(q + 1),
                None => None,
            }
        } else {
            Some(start + w)
        },
    }
}

/// Successive token ends from `cursor` up to `end`, stopping at the first token
/// that cannot be closed.
pub open spec fn skript_steps(b: Seq<u8>, cursor: int, end: int) -> Seq<int>
    decreases end - cursor,
{
    if cursor >= end {
        Seq::empty()
    } else {
        match skript_step(b, cursor, end) {
            Some(next) => if cursor < next <= end {
                seq![next] + skript_steps(b, next, end)
            } else {
                Seq::empty()
            },
            None => Seq::empty(),
        }
    }
}

/// Returns the end of the Skript token starting at `start`.
pub fn skript_next(input: &str, start: usize, end: usize) -> (r: Option<usize>)
    ensures
        opt_int(r) == skript_step(bytes_of(input), start as int, end as int),
{
    let ghost b = bytes_of(input);
    let w = match first_char_len(input, start, end) {
        Some(w) => w,
        None => return None,
    };
    let ch = input.as_bytes()[start];
    if ch == 0x22 {
        match find_quote_end(input, start + 1, end) {
            Some(q) => {
                proof {
                    lemma_quote_end_bounds(b, start + 1, end as int, false);
                }
                Some(q + 1)
            },
            None => None,
        }
    } else if ch == 0x7b {
        match find_variable_end(input, start + 1, end) {
            Some(q) => {
                proof {
                    lemma_variable_end_bounds(b, start + 1, end as int, 0);
                }
                Some(q + 1)
            },
            None => None,
        }
    } else if ch == 0x28 {
        match find_parenthesis_end(input, start + 1, end) {
            Some(q) => {
                proof {
                    lemma_parenthesis_end_bounds(b, start + 1, end as int, 0);
                }
                Some(q + 1)
            },
            None => None,
        }
    } else {
        Some(start + w)
    }
}

/// Returns legal expression split points in Skript traversal order.
pub fn skript_boundaries(input: &str, start: usize, end: usize) -> (r: Vec<usize>)
    ensures
        r@.map_values(|v: usize| v as int) == skript_steps(bytes_of(input), start as int, end as int),
{
    let ghost b = bytes_of(input);
    let mut boundaries: Vec<usize> = Vec::new();
    if start >= end {
        proof {
            assert(boundaries@.map_values(|v: usize| v as int) =~= Seq::<int>::empty());
        }
        return boundaries;
    }
    let mut cursor = start;
    while cursor < end
        invariant
            b == bytes_of(input),
            start <= cursor <= end,
            boundaries@.map_values(|v: usize| v as int) + skript_steps(b, cursor as int, end as int)
                == skript_steps(b, start as int, end as int),
        ensures
            skript_steps(b, cursor as int, end as int) =~= Seq::<int>::empty(),
        decreases end - cursor,
    {
        let next = match skript_next(input, cursor, end) {
            Some(next) => next,
            None => break,
        };
        if next <= cursor || next > end {
            break;
        }
        let ghost before = boundaries@;
        boundaries.push(next);
        proof {
            assert(boundaries@.map_values(|v: usize| v as int) =~= before.map_values(|v: usize| v as int).push(next as int));
            assert(before.map_values(|v: usize| v as int).push(next as int) + skript_steps(b, next as int, end as int)
                =~= before.map_values(|v: usize| v as int) + (seq![next as int] + skript_steps(b, next as int, end as int)));
        }
        cursor = next;
    }
    proof {
        assert(boundaries@.map_values(|v: usize| v as int) + Seq::<int>::empty() =~= boundaries@.map_values(|v: usize| v as int));
    }
    boundaries
}


/// Where matching the Skript literal `p` at byte `cursor` of the completed input
/// `b[complete]` ends (`Ok`), or the byte at which it fails (`Err`). A space in
/// the literal matches at either end of the input, consumes a space, or
/// follows one; any other character must match the next character, ignoring case.
pub open spec fn literal_match(b: Seq<u8>, complete: TextRange, cursor: int, p: Seq<char>) -> Result<int, int>
    decreases p.len(),
{
    if p.len() == 0 {
        Ok(cursor)
    } else if p[0] == ' ' {
        if cursor == complete.start || cursor == complete.end {
            literal_match(b, complete, cursor, p.drop_first())
        } else if 0 <= cursor < b.len() && b[cursor] == 0x20 {
            literal_match(b, complete, cursor + 1, p.drop_first())
        } else if cursor > complete.start && 0 <= cursor - 1 < b.len() && b[cursor - 1] == 0x20 {
            literal_match(b, complete, cursor, p.drop_first())
        } else {
            Err(cursor)
        }
    } else {
        match first_char_width(b, cursor, complete.end as int) {
            None => Err(cursor),
            Some(w) => if !crate::expression::chars_match(p[0], char_at_spec(b, cursor)) {
                Err(cursor)
            } else {
                literal_match(b, complete, cursor + w, p.drop_first())
            },
        }
    }
}

/// An offset result as mathematical integers.
pub open spec fn offset_result(r: Result<usize, usize>) -> Result<int, int> {
    match r {
        Ok(v) => Ok(v as int),
        Err(v) => Err(v as int),
    }
}

/// Matches the Skript literal at `cursor`, returning where it ends or where it fails.
pub fn match_literal_at(input: &str, complete: TextRange, from: usize, literal: &str) -> (r: Result<usize, usize>)
    requires
        from <= bytes_of(input).len(),
        boundary(bytes_of(input), from as int),
    ensures
        offset_result(r) == literal_match(bytes_of(input), complete, from as int, literal@),
{
    let ghost b = bytes_of(input);
    let bytes = input.as_bytes();
    let p = crate::expression::chars_of(literal);
    let ghost goal = literal_match(b, complete, from as int, p@);
    let mut cursor = from;
    let mut k: usize = 0;
    proof {
        assert(p@.skip(0) =~= p@);
    }
    while k < p.len()
        invariant
            b == bytes_of(input),
            bytes@ == b,
            p@ == literal@,
            k <= p@.len(),
            cursor <= b.len(),
            boundary(b, cursor as int),
            goal == literal_match(b, complete, cursor as int, p@.skip(k as int)),
            goal == literal_match(b, complete, from as int, literal@),
        decreases p@.len() - k,
    {
        proof {
            assert(p@.skip(k as int).drop_first() =~= p@.skip(k + 1));
            assert(p@.skip(k as int)[0] == p@[k as int]);
        }
        let expected = p[k];
        if expected == ' ' {
            if cursor == complete.start || cursor == complete.end {
                k = k + 1;
                continue;
            }
            if cursor < bytes.len() && bytes[cursor] == 0x20 {
                proof {
                    lemma_after_ascii_boundary(b, cursor as int);
                }
                cursor = cursor + 1;
                k = k + 1;
                continue;
            }
            if cursor > complete.start && cursor > 0 && cursor - 1 < bytes.len() && bytes[cursor - 1] == 0x20 {
                k = k + 1;
                continue;
            }
            proof {
                assert(literal_match(b, complete, cursor as int, p@.skip(k as int)) == Err::<int, int>(cursor as int));
            }
            return Err(cursor);
        }
        let (actual, w) = match char_at(input, cursor, complete.end) {
            Some(x) => x,
            None => {
                proof {
                    assert(literal_match(b, complete, cursor as int, p@.skip(k as int)) == Err::<int, int>(cursor as int));
                }
                return Err(cursor);
            },
        };
        if !crate::expression::chars_equal_ignore_case(expected, actual) {
            proof {
                assert(literal_match(b, complete, cursor as int, p@.skip(k as int)) == Err::<int, int>(cursor as int));
            }
            return Err(cursor);
        }
        cursor = cursor + w;
        k = k + 1;
    }
    proof {
        assert(p@.skip(k as int).len() == 0);
    }
    Ok(cursor)
}

/// A space byte is followed by a character boundary.
proof fn lemma_after_ascii_boundary(b: Seq<u8>, k: int)
    requires
        valid_utf8(b),
        0 <= k < b.len(),
        b[k] < 0x80,
    ensures
        boundary(b, k + 1),
{
    crate::text::lemma_after_ascii(b, k);
}

/// A literal a pattern tail can begin with, and whether a dynamic element
/// (a regex or typed capture) follows it.
#[derive(Debug)]
pub struct TailPrefix {
    pub text: String,
    pub dynamic: bool,
}

/// The text and dynamic flag of each tail prefix.
pub open spec fn tail_views(v: Seq<TailPrefix>) -> Seq<(Seq<char>, bool)> {
    v.map_values(|t: TailPrefix| (t.text@, t.dynamic))
}

/// `v` with `x` appended unless it already holds it.
pub open spec fn with_unique(v: Seq<(Seq<char>, bool)>, x: (Seq<char>, bool)) -> Seq<(Seq<char>, bool)> {
    if v.contains(x) {
        v
    } else {
        v.push(x)
    }
}

/// Whether two strings hold the same characters.
fn same_chars(a: &str, b: &str) -> (r: bool)
    ensures
        r == (a@ == b@),
{
    let x = crate::expression::chars_of(a);
    let y = crate::expression::chars_of(b);
    if x.len() != y.len() {
        return false;
    }
    let mut k: usize = 0;
    while k < x.len()
        invariant
            x@ == a@,
            y@ == b@,
            x@.len() == y@.len(),
            k <= x@.len(),
            forall|q: int| 0 <= q < k ==> x@[q] == y@[q],
        decreases x@.len() - k,
    {
        if x[k] != y[k] {
            proof {
                assert(x@[k as int] != y@[k as int]);
            }
            return false;
        }
        k = k + 1;
    }
    proof {
        assert(x@ =~= y@);
    }
    true
}

/// Appends a tail prefix unless an equal one is already present.
pub fn push_tail_prefix(output: &mut Vec<TailPrefix>, value: TailPrefix)
    ensures
        tail_views(final(output)@) == with_unique(tail_views(old(output)@), (value.text@, value.dynamic)),
{
    let ghost x = (value.text@, value.dynamic);
    let mut k: usize = 0;
    while k < output.len()
        invariant
            k <= output@.len(),
            x == (value.text@, value.dynamic),
            forall|q: int| 0 <= q < k ==> tail_views(output@)[q] != x,
        decreases output@.len() - k,
    {
        if output[k].dynamic == value.dynamic && same_chars(output[k].text.as_str(), value.text.as_str()) {
            proof {
                assert(tail_views(output@)[k as int] == x);
            }
            return;
        }
        k = k + 1;
    }
    let ghost before = tail_views(output@);
    output.push(value);
    proof {
        assert(!before.contains(x));
        assert(tail_views(output@) =~= before.push(x));
    }
}

/// `acc` with each child, behind `text`, added unless already present.
pub open spec fn add_prefixed(acc: Seq<(Seq<char>, bool)>, text: Seq<char>, children: Seq<(Seq<char>, bool)>) -> Seq<
    (Seq<char>, bool),
>
    decreases children.len(),
{
    if children.len() == 0 {
        acc
    } else {
        with_unique(add_prefixed(acc, text, children.drop_last()), (text + children.last().0, children.last().1))
    }
}

/// Appends each child prefix behind the parent's text, skipping duplicates.
pub fn append_tail_prefixes(parent: &TailPrefix, children: Vec<TailPrefix>, output: &mut Vec<TailPrefix>)
    ensures
        tail_views(final(output)@) == add_prefixed(tail_views(old(output)@), parent.text@, tail_views(children@)),
{
    let ghost start = tail_views(output@);
    let ghost cv = tail_views(children@);
    let mut k: usize = 0;
    proof {
        assert(cv.take(0) =~= Seq::<(Seq<char>, bool)>::empty());
    }
    while k < children.len()
        invariant
            k <= children@.len(),
            cv == tail_views(children@),
            tail_views(output@) == add_prefixed(start, parent.text@, cv.take(k as int)),
        decreases children@.len() - k,
    {
        let text = parent.text.clone().concat(children[k].text.as_str());
        push_tail_prefix(output, TailPrefix { text, dynamic: children[k].dynamic });
        proof {
            assert(cv.take(k + 1).drop_last() =~= cv.take(k as int));
            assert(cv.take(k + 1).last() == cv[k as int]);
        }
        k = k + 1;
    }
    proof {
        assert(cv.take(cv.len() as int) =~= cv);
    }
}

impl Clone for TailPrefix {
    fn clone(&self) -> (r: Self)
        ensures
            r.text@ == self.text@,
            r.dynamic == self.dynamic,
    {
        TailPrefix { text: self.text.clone(), dynamic: self.dynamic }
    }
}

/// The overflow result of the tail analysis: one dynamic prefix with no text.
pub open spec fn overflow_tails() -> Seq<(Seq<char>, bool)> {
    seq![(Seq::<char>::empty(), true)]
}

/// `v`, or [`overflow_tails`] where `v` has more than 256 prefixes.
pub open spec fn capped_tails(v: Seq<(Seq<char>, bool)>) -> Seq<(Seq<char>, bool)> {
    if v.len() > 256 {
        overflow_tails()
    } else {
        v
    }
}

/// The distinct literal prefixes a match of the sequence can begin with, each
/// with whether a dynamic element follows it.
pub open spec fn tail_leading(s: Seq<SpannedPatternElement>) -> Seq<(Seq<char>, bool)>
    decreases s, 0nat,
{
    if s.len() == 0 {
        seq![(Seq::<char>::empty(), false)]
    } else {
        capped_tails(tail_all(tail_leading(s.drop_last()), s.last().value))
    }
}

/// Every prefix extended by one more element, collected without duplicates.
pub open spec fn tail_all(states: Seq<(Seq<char>, bool)>, e: PatternElement) -> Seq<(Seq<char>, bool)>
    decreases e, states.len(),
{
    if states.len() == 0 {
        Seq::empty()
    } else {
        tail_one(tail_all(states.drop_last(), e), states.last(), e)
    }
}

/// `acc` with one prefix extended by one element added.
pub open spec fn tail_one(acc: Seq<(Seq<char>, bool)>, st: (Seq<char>, bool), e: PatternElement) -> Seq<
    (Seq<char>, bool),
>
    decreases e, 0nat,
{
    if st.1 {
        with_unique(acc, st)
    } else {
        match e {
            PatternElement::Literal(v) => with_unique(acc, (st.0 + v@, false)),
            PatternElement::Regex(_) => with_unique(acc, (st.0, true)),
            PatternElement::TypeExpr(_) => with_unique(acc, (st.0, true)),
            PatternElement::Group(c) => add_prefixed(acc, st.0, tail_leading(c@)),
            PatternElement::Optional(c) => add_prefixed(with_unique(acc, st), st.0, tail_leading(c@)),
            PatternElement::Choice(bs) => tail_choices(acc, st.0, bs@),
            _ => with_unique(acc, st),
        }
    }
}

/// `acc` with the prefixes of each branch, behind `text`, added branch after branch.
pub open spec fn tail_choices(acc: Seq<(Seq<char>, bool)>, text: Seq<char>, bs: Seq<Vec<SpannedPatternElement>>) -> Seq<
    (Seq<char>, bool),
>
    decreases bs, 0nat,
{
    if bs.len() == 0 {
        acc
    } else {
        add_prefixed(tail_choices(acc, text, bs.drop_last()), text, tail_leading(bs.last()@))
    }
}

/// Once the prefixes overflow, later elements keep them so.
proof fn lemma_tail_overflow(s: Seq<SpannedPatternElement>, k: int)
    requires
        0 <= k <= s.len(),
        tail_leading(s.take(k)) == overflow_tails(),
    ensures
        tail_leading(s) == overflow_tails(),
    decreases s.len() - k,
{
    if k < s.len() {
        let e = s[k].value;
        assert(s.take(k + 1).drop_last() =~= s.take(k));
        assert(s.take(k + 1).last() == s[k]);
        assert(overflow_tails().drop_last() =~= Seq::<(Seq<char>, bool)>::empty());
        assert(tail_all(Seq::<(Seq<char>, bool)>::empty(), e) =~= Seq::<(Seq<char>, bool)>::empty());
        assert(!Seq::<(Seq<char>, bool)>::empty().contains(overflow_tails().last()));
        assert(Seq::<(Seq<char>, bool)>::empty().push(overflow_tails().last()) =~= overflow_tails());
        assert(tail_one(Seq::<(Seq<char>, bool)>::empty(), overflow_tails().last(), e) =~= overflow_tails());
        assert(tail_all(overflow_tails(), e) =~= overflow_tails());
        lemma_tail_overflow(s, k + 1);
    } else {
        assert(s.take(k) =~= s);
    }
}

/// Adds one prefix extended by one element to `next`.
fn tail_state(state: &TailPrefix, element: &PatternElement, next: &mut Vec<TailPrefix>)
    ensures
        tail_views(final(next)@) == tail_one(tail_views(old(next)@), (state.text@, state.dynamic), *element),
    decreases *element,
{
    if state.dynamic {
        push_tail_prefix(next, state.clone());
        return;
    }
    match element {
        PatternElement::Literal(v) => {
            let text = state.text.clone().concat(v.as_str());
            push_tail_prefix(next, TailPrefix { text, dynamic: false });
        },
        PatternElement::Regex(_) | PatternElement::TypeExpr(_) => {
            push_tail_prefix(next, TailPrefix { text: state.text.clone(), dynamic: true });
        },
        PatternElement::Group(children) => {
            let c = leading_tail_prefixes(children.as_slice());
            append_tail_prefixes(state, c, next);
        },
        PatternElement::Optional(children) => {
            push_tail_prefix(next, state.clone());
            let c = leading_tail_prefixes(children.as_slice());
            append_tail_prefixes(state, c, next);
        },
        PatternElement::Choice(branches) => {
            let ghost start = tail_views(next@);
            let mut k: usize = 0;
            while k < branches.len()
                invariant
                    *element == PatternElement::Choice(*branches),
                    k <= branches@.len(),
                    tail_views(next@) == tail_choices(start, state.text@, branches@.take(k as int)),
                decreases branches@.len() - k,
            {
                proof {
                    assert(decreases_to!(*element => (*element)->Choice_0));
                    assert(decreases_to!(*branches => branches@));
                    assert(decreases_to!(branches@ => branches@[k as int]));
                    assert(decreases_to!(branches@[k as int] => branches@[k as int]@));
                    assert(branches@.take(k + 1).drop_last() =~= branches@.take(k as int));
                    assert(branches@.take(k + 1).last() == branches@[k as int]);
                }
                let c = leading_tail_prefixes(branches[k].as_slice());
                append_tail_prefixes(state, c, next);
                k = k + 1;
            }
            proof {
                assert(branches@.take(branches@.len() as int) =~= branches@);
            }
        },
        _ => {
            push_tail_prefix(next, state.clone());
        },
    }
}

/// The distinct literal prefixes a match of the pattern can begin with, each
/// with whether a dynamic element follows it.
pub fn leading_tail_prefixes(elements: &[SpannedPatternElement]) -> (r: Vec<TailPrefix>)
    ensures
        tail_views(r@) == tail_leading(elements@),
    decreases elements@,
{
    let mut states: Vec<TailPrefix> = Vec::new();
    states.push(TailPrefix { text: String::new(), dynamic: false });
    proof {
        assert(elements@.take(0) =~= Seq::<SpannedPatternElement>::empty());
        assert(tail_views(states@) =~= tail_leading(elements@.take(0)));
    }
    let mut k: usize = 0;
    while k < elements.len()
        invariant
            k <= elements@.len(),
            tail_views(states@) == tail_leading(elements@.take(k as int)),
        decreases elements@.len() - k,
    {
        let element = &elements[k].value;
        let ghost views = tail_views(states@);
        let mut next: Vec<TailPrefix> = Vec::new();
        let mut j: usize = 0;
        proof {
            assert(views.take(0) =~= Seq::<(Seq<char>, bool)>::empty());
            assert(tail_views(next@) =~= Seq::<(Seq<char>, bool)>::empty());
        }
        while j < states.len()
            invariant
                k < elements@.len(),
                *element == elements@[k as int].value,
                views == tail_views(states@),
                j <= states@.len(),
                tail_views(next@) == tail_all(views.take(j as int), *element),
            decreases states@.len() - j,
        {
            proof {
                assert(decreases_to!(elements@ => elements@[k as int]));
                assert(decreases_to!(elements@[k as int] => elements@[k as int].value));
                assert(views.take(j + 1).drop_last() =~= views.take(j as int));
                assert(views.take(j + 1).last() == views[j as int]);
            }
            tail_state(&states[j], element, &mut next);
            j = j + 1;
        }
        proof {
            assert(views.take(views.len() as int) =~= views);
            assert(elements@.take(k + 1).drop_last() =~= elements@.take(k as int));
            assert(elements@.take(k + 1).last() == elements@[k as int]);
        }
        if next.len() > 256 {
            proof {
                lemma_tail_overflow(elements@, k + 1);
            }
            let mut overflow: Vec<TailPrefix> = Vec::new();
            overflow.push(TailPrefix { text: String::new(), dynamic: true });
            proof {
                assert(tail_views(overflow@) =~= overflow_tails());
            }
            return overflow;
        }
        states = next;
        k = k + 1;
    }
    proof {
        assert(elements@.take(elements@.len() as int) =~= elements@);
    }
    states
}

/// `acc` with each prefix joined to the continuation: a dynamic prefix as it
/// is, a literal one followed by each continuation prefix.
pub open spec fn join_tails(acc: Seq<(Seq<char>, bool)>, prefixes: Seq<(Seq<char>, bool)>, cont: Seq<(Seq<char>, bool)>) -> Seq<
    (Seq<char>, bool),
>
    decreases prefixes.len(),
{
    if prefixes.len() == 0 {
        acc
    } else {
        let a = join_tails(acc, prefixes.drop_last(), cont);
        let p = prefixes.last();
        if p.1 {
            with_unique(a, p)
        } else {
            add_prefixed(a, p.0, cont)
        }
    }
}

/// The distinct literal prefixes the sequence followed by a tail with prefixes
/// `continuation` can begin with.
pub fn sequence_tail_prefixes(elements: &[SpannedPatternElement], continuation: &[TailPrefix]) -> (r: Vec<TailPrefix>)
    ensures
        tail_views(r@) == join_tails(Seq::empty(), tail_leading(elements@), tail_views(continuation@)),
{
    let prefixes = leading_tail_prefixes(elements);
    let ghost pv = tail_views(prefixes@);
    let ghost cv = tail_views(continuation@);
    let mut result: Vec<TailPrefix> = Vec::new();
    let mut k: usize = 0;
    proof {
        assert(pv.take(0) =~= Seq::<(Seq<char>, bool)>::empty());
        assert(tail_views(result@) =~= Seq::<(Seq<char>, bool)>::empty());
    }
    while k < prefixes.len()
        invariant
            pv == tail_views(prefixes@),
            cv == tail_views(continuation@),
            k <= prefixes@.len(),
            tail_views(result@) == join_tails(Seq::empty(), pv.take(k as int), cv),
        decreases prefixes@.len() - k,
    {
        let prefix = &prefixes[k];
        proof {
            assert(pv.take(k + 1).drop_last() =~= pv.take(k as int));
            assert(pv.take(k + 1).last() == pv[k as int]);
        }
        if prefix.dynamic {
            push_tail_prefix(&mut result, prefix.clone());
        } else {
            let ghost start = tail_views(result@);
            let mut j: usize = 0;
            proof {
                assert(cv.take(0) =~= Seq::<(Seq<char>, bool)>::empty());
            }
            while j < continuation.len()
                invariant
                    cv == tail_views(continuation@),
                    j <= continuation@.len(),
                    tail_views(result@) == add_prefixed(start, prefix.text@, cv.take(j as int)),
                decreases continuation@.len() - j,
            {
                let text = prefix.text.clone().concat(continuation[j].text.as_str());
                push_tail_prefix(&mut result, TailPrefix { text, dynamic: continuation[j].dynamic });
                proof {
                    assert(cv.take(j + 1).drop_last() =~= cv.take(j as int));
                    assert(cv.take(j + 1).last() == cv[j as int]);
                }
                j = j + 1;
            }
            proof {
                assert(cv.take(cv.len() as int) =~= cv);
            }
        }
        k = k + 1;
    }
    proof {
        assert(pv.take(pv.len() as int) =~= pv);
    }
    result
}

} // verus!
