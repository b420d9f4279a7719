//! Provenance details of parse failures: the roles of syntax frames, semantic
//! diagnostics, the span a semantic rejection is reported at, and the order in
//! which competing failures are ranked.
use crate::pattern_match::{same_failure, MatchSpan, MatchSyntaxKind, PatternFailure, PatternFailureReason, PatternPathSegment};
use crate::source_map::MappedSpan;
use crate::text::TextRange;
use std::cmp::Ordering;
use vstd::prelude::*;

verus! {

/// Semantic role of one syntax frame in a nested failure.
#[derive(Debug, Clone, Copy, PartialEq, Eq, Structural)]
pub enum FailureFrameRole {
    /// A structurally matched syntax candidate was rejected by semantic hooks.
    SemanticCandidate,
    /// A typed pattern capture failed during recursive Expression parsing.
    TypeExpressionCapture,
    /// A regex capture was reinterpreted as an Expression.
    ExpressionCapture { index: usize },
    /// A regex capture was reinterpreted as a Condition.
    ConditionCapture { index: usize },
    /// A regex capture was reinterpreted as an Effect.
    EffectCapture { index: usize },
}

/// Severity of a semantic diagnostic attached to one rejected candidate.
#[derive(Debug, Clone, Copy, PartialEq, Eq, Structural)]
pub enum SemanticDiagnosticSeverity {
    Error,
    Warning,
    Information,
    Hint,
}

/// Secondary source location that explains a semantic diagnostic.
#[derive(Debug, Clone, PartialEq, Eq)]
pub struct SemanticRelatedSpan {
    pub message: String,
    pub span: MappedSpan,
}

/// Addon- or CoreLibrary-provided detail owned by one candidate failure.
#[derive(Debug, Clone, PartialEq, Eq)]
pub struct SemanticDiagnostic {
    pub code: String,
    pub message: String,
    pub severity: SemanticDiagnosticSeverity,
    pub span: MappedSpan,
    pub related: Vec<SemanticRelatedSpan>,
}

/// Index of the first error among `ds[i..]`.
pub open spec fn first_error(ds: Seq<SemanticDiagnostic>, i: int) -> Option<int>
    decreases ds.len() - i,
{
    if i < 0 || i >= ds.len() {
        None
    } else if ds[i].severity == SemanticDiagnosticSeverity::Error {
        Some(i)
    } else {
        first_error(ds, i + 1)
    }
}

/// The diagnostic a semantic failure is reported at: the first error, else the
/// first diagnostic.
pub open spec fn reported_diagnostic(ds: Seq<SemanticDiagnostic>) -> Option<int> {
    match first_error(ds, 0) {
        Some(i) => Some(i),
        None => if ds.len() > 0 {
            Some(0)
        } else {
            None
        },
    }
}

/// The reported diagnostic lies within the virtual range of `fallback`.
pub open spec fn reported_inside(fallback: MatchSpan, ds: Seq<SemanticDiagnostic>) -> bool {
    match reported_diagnostic(ds) {
        Some(i) => {
            let v = ds[i].span.virtual_range;
            let f = fallback.mapped.virtual_range;
            !(v.start < f.start || v.end > f.end)
        },
        None => false,
    }
}

/// Moving the reported range into local offsets stays within `usize`.
pub open spec fn local_shift_fits(fallback: MatchSpan, ds: Seq<SemanticDiagnostic>) -> bool {
    reported_inside(fallback, ds) ==> {
        let v = ds[reported_diagnostic(ds).unwrap()].span.virtual_range;
        let f = fallback.mapped.virtual_range;
        let s = fallback.local_range.start;
        &&& s + v.start <= usize::MAX
        &&& s + v.end <= usize::MAX
        &&& s + v.end >= f.start
    }
}

/// Scanning from `k`: the first error is the error at `i` when none comes
/// between, and there is none when no diagnostic from `k` on is an error.
proof fn lemma_first_error_at(ds: Seq<SemanticDiagnostic>, k: int, i: int)
    requires
        0 <= k <= i <= ds.len(),
        forall|j: int| k <= j < i ==> (#[trigger] ds[j]).severity != SemanticDiagnosticSeverity::Error,
    ensures
        i < ds.len() && ds[i].severity == SemanticDiagnosticSeverity::Error ==> first_error(ds, k) == Some(i),
        i == ds.len() ==> first_error(ds, k) is None,
    decreases i - k,
{
    if k < i {
        lemma_first_error_at(ds, k + 1, i);
    }
}

/// A semantic rejection is reported at the first error diagnostic; when no
/// diagnostic is an error it is reported at the first diagnostic, and with
/// no diagnostics at none.
pub proof fn lemma_reported_diagnostic(ds: Seq<SemanticDiagnostic>)
    ensures
        ds.len() == 0 ==> reported_diagnostic(ds) is None,
        forall|i: int|
            0 <= i < ds.len() && (#[trigger] ds[i]).severity == SemanticDiagnosticSeverity::Error && (forall|j: int|
                0 <= j < i ==> ds[j].severity != SemanticDiagnosticSeverity::Error) ==> reported_diagnostic(ds) == Some(i),
        (forall|j: int| 0 <= j < ds.len() ==> (#[trigger] ds[j]).severity != SemanticDiagnosticSeverity::Error)
            && ds.len() > 0 ==> reported_diagnostic(ds) == Some(0int),
{
    assert forall|i: int|
        0 <= i < ds.len() && (#[trigger] ds[i]).severity == SemanticDiagnosticSeverity::Error && (forall|j: int|
            0 <= j < i ==> ds[j].severity != SemanticDiagnosticSeverity::Error) implies reported_diagnostic(ds) == Some(i) by {
        lemma_first_error_at(ds, 0, i);
    }
    if forall|j: int| 0 <= j < ds.len() ==> (#[trigger] ds[j]).severity != SemanticDiagnosticSeverity::Error {
        lemma_first_error_at(ds, 0, ds.len() as int);
    }
}

/// Index of the first error diagnostic at or after `i`.
fn find_first_error(ds: &[SemanticDiagnostic]) -> (r: Option<usize>)
    ensures
        match r {
            Some(i) => first_error(ds@, 0) == Some(i as int) && i < ds@.len(),
            None => first_error(ds@, 0) is None,
        },
{
    let mut i = ds.len();
    let mut found: Option<usize> = None;
    while i > 0
        invariant
            i <= ds@.len(),
            match found {
                Some(k) => first_error(ds@, i as int) == Some(k as int) && k < ds@.len(),
                None => first_error(ds@, i as int) is None,
            },
        decreases i,
    {
        i = i - 1;
        if ds[i].severity == SemanticDiagnosticSeverity::Error {
            found = Some(i);
        }
    }
    found
}

/// The span a semantic rejection is reported at: the reported diagnostic's
/// span when it lies within `fallback`, with its local range shifted
/// accordingly; otherwise `fallback` itself.
pub fn semantic_failure_span(fallback: &MatchSpan, diagnostics: &[SemanticDiagnostic]) -> (r: MatchSpan)
    requires
        local_shift_fits(*fallback, diagnostics@),
    ensures
        reported_inside(*fallback, diagnostics@) ==> {
            let d = diagnostics@[reported_diagnostic(diagnostics@).unwrap()];
            let v = d.span.virtual_range;
            let f = fallback.mapped.virtual_range;
            &&& r.local_range.start == fallback.local_range.start + v.start - f.start
            &&& r.local_range.end == fallback.local_range.start + v.end - f.start
            &&& r.mapped@ == d.span@
        },
        !reported_inside(*fallback, diagnostics@) ==> r.local_range == fallback.local_range && r.mapped@
            == fallback.mapped@,
        diagnostics@.len() == 0 ==> r.local_range == fallback.local_range && r.mapped@ == fallback.mapped@,
        forall|i: int|
            0 <= i < diagnostics@.len() && (#[trigger] diagnostics@[i]).severity == SemanticDiagnosticSeverity::Error
                && (forall|j: int| 0 <= j < i ==> diagnostics@[j].severity != SemanticDiagnosticSeverity::Error)
                && !(diagnostics@[i].span.virtual_range.start < fallback.mapped.virtual_range.start
                || diagnostics@[i].span.virtual_range.end > fallback.mapped.virtual_range.end) ==> r.mapped@
                == diagnostics@[i].span@ && r.local_range.start == fallback.local_range.start
                + diagnostics@[i].span.virtual_range.start - fallback.mapped.virtual_range.start
                && r.local_range.end == fallback.local_range.start + diagnostics@[i].span.virtual_range.end
                - fallback.mapped.virtual_range.start,
        forall|i: int|
            0 <= i < diagnostics@.len() && (#[trigger] diagnostics@[i]).severity == SemanticDiagnosticSeverity::Error
                && (forall|j: int| 0 <= j < i ==> diagnostics@[j].severity != SemanticDiagnosticSeverity::Error)
                && (diagnostics@[i].span.virtual_range.start < fallback.mapped.virtual_range.start
                || diagnostics@[i].span.virtual_range.end > fallback.mapped.virtual_range.end) ==> r.local_range
                == fallback.local_range && r.mapped@ == fallback.mapped@,
        (forall|j: int|
            0 <= j < diagnostics@.len() ==> (#[trigger] diagnostics@[j]).severity != SemanticDiagnosticSeverity::Error)
            && diagnostics@.len() > 0 && (diagnostics@[0].span.virtual_range.start < fallback.mapped.virtual_range.start
            || diagnostics@[0].span.virtual_range.end > fallback.mapped.virtual_range.end) ==> r.local_range
            == fallback.local_range && r.mapped@ == fallback.mapped@,
        (forall|j: int|
            0 <= j < diagnostics@.len() ==> (#[trigger] diagnostics@[j]).severity != SemanticDiagnosticSeverity::Error)
            && diagnostics@.len() > 0 && !(diagnostics@[0].span.virtual_range.start < fallback.mapped.virtual_range.start
            || diagnostics@[0].span.virtual_range.end > fallback.mapped.virtual_range.end) ==> r.mapped@
            == diagnostics@[0].span@ && r.local_range.start == fallback.local_range.start
            + diagnostics@[0].span.virtual_range.start - fallback.mapped.virtual_range.start
            && r.local_range.end == fallback.local_range.start + diagnostics@[0].span.virtual_range.end
            - fallback.mapped.virtual_range.start,
{
    proof {
        lemma_reported_diagnostic(diagnostics@);
    }
    let index = match find_first_error(diagnostics) {
        Some(i) => i,
        None => {
            if diagnostics.len() == 0 {
                return fallback.clone();
            }
            0
        },
    };
    let diagnostic = &diagnostics[index];
    let virtual_range = diagnostic.span.virtual_range;
    let fallback_virtual = fallback.mapped.virtual_range;
    if virtual_range.start < fallback_virtual.start || virtual_range.end > fallback_virtual.end {
        return fallback.clone();
    }
    MatchSpan {
        local_range: TextRange::new(
            fallback.local_range.start + virtual_range.start - fallback_virtual.start,
            fallback.local_range.start + virtual_range.end - fallback_virtual.start,
        ),
        mapped: diagnostic.span.clone(),
    }
}

/// How offset `a` compares with offset `b`.
pub open spec fn order_of(a: usize, b: usize) -> Ordering {
    if a < b {
        Ordering::Less
    } else if a == b {
        Ordering::Equal
    } else {
        Ordering::Greater
    }
}

/// How length `a` compares with length `b`.
pub open spec fn order_of_len(a: nat, b: nat) -> Ordering {
    if a < b {
        Ordering::Less
    } else if a == b {
        Ordering::Equal
    } else {
        Ordering::Greater
    }
}

/// `first`, or `next` where `first` ties.
pub open spec fn chain(first: Ordering, next: Ordering) -> Ordering {
    if first == Ordering::Equal {
        next
    } else {
        first
    }
}

/// Rank of a candidate failure against the current one (`Greater` means the
/// candidate wins): a non-empty range beats an empty one; among non-empty
/// ranges, later progress, then deeper specificity, then a later start, then a
/// narrower range; among empty ones, deeper specificity, then a later start.
pub open spec fn failure_order(
    current_range: TextRange,
    current_progress: usize,
    current_specificity: usize,
    candidate_range: TextRange,
    candidate_progress: usize,
    candidate_specificity: usize,
) -> Ordering {
    let current_len = current_range.spec_len();
    let candidate_len = candidate_range.spec_len();
    if current_len == 0 && candidate_len > 0 {
        Ordering::Greater
    } else if current_len > 0 && candidate_len == 0 {
        Ordering::Less
    } else if current_len > 0 {
        chain(
            order_of(candidate_progress, current_progress),
            chain(
                order_of(candidate_specificity, current_specificity),
                chain(order_of(candidate_range.start, current_range.start), order_of_len(current_len, candidate_len)),
            ),
        )
    } else {
        chain(order_of(candidate_specificity, current_specificity), order_of(candidate_range.start, current_range.start))
    }
}


/// How a candidate failure ranks against the current one. A failure that
/// covers input beats one that covers none. Between two empty failures the
/// deeper one wins, and at equal depth the later one. Between two non-empty
/// failures the one that progressed further wins, then the deeper one, then
/// the later one, then the narrower one. Two failures that tie on all of this
/// rank equal.
pub proof fn lemma_failure_rank_rules(
    cr: TextRange,
    cp: usize,
    cs: usize,
    kr: TextRange,
    kp: usize,
    ks: usize,
)
    ensures
        cr.spec_len() == 0 && kr.spec_len() > 0 ==> failure_order(cr, cp, cs, kr, kp, ks) == Ordering::Greater,
        cr.spec_len() > 0 && kr.spec_len() == 0 ==> failure_order(cr, cp, cs, kr, kp, ks) == Ordering::Less,
        cr.spec_len() == 0 && kr.spec_len() == 0 ==> {
            &&& ks > cs ==> failure_order(cr, cp, cs, kr, kp, ks) == Ordering::Greater
            &&& ks < cs ==> failure_order(cr, cp, cs, kr, kp, ks) == Ordering::Less
            &&& ks == cs && kr.start > cr.start ==> failure_order(cr, cp, cs, kr, kp, ks) == Ordering::Greater
            &&& ks == cs && kr.start < cr.start ==> failure_order(cr, cp, cs, kr, kp, ks) == Ordering::Less
            &&& ks == cs && kr.start == cr.start ==> failure_order(cr, cp, cs, kr, kp, ks) == Ordering::Equal
        },
        cr.spec_len() > 0 && kr.spec_len() > 0 ==> {
            &&& kp > cp ==> failure_order(cr, cp, cs, kr, kp, ks) == Ordering::Greater
            &&& kp < cp ==> failure_order(cr, cp, cs, kr, kp, ks) == Ordering::Less
            &&& kp == cp && ks > cs ==> failure_order(cr, cp, cs, kr, kp, ks) == Ordering::Greater
            &&& kp == cp && ks < cs ==> failure_order(cr, cp, cs, kr, kp, ks) == Ordering::Less
            &&& kp == cp && ks == cs && kr.start > cr.start ==> failure_order(cr, cp, cs, kr, kp, ks)
                == Ordering::Greater
            &&& kp == cp && ks == cs && kr.start < cr.start ==> failure_order(cr, cp, cs, kr, kp, ks) == Ordering::Less
            &&& kp == cp && ks == cs && kr.start == cr.start && kr.spec_len() < cr.spec_len() ==> failure_order(
                cr,
                cp,
                cs,
                kr,
                kp,
                ks,
            ) == Ordering::Greater
            &&& kp == cp && ks == cs && kr.start == cr.start && kr.spec_len() > cr.spec_len() ==> failure_order(
                cr,
                cp,
                cs,
                kr,
                kp,
                ks,
            ) == Ordering::Less
            &&& kp == cp && ks == cs && kr.start == cr.start && kr.spec_len() == cr.spec_len() ==> failure_order(
                cr,
                cp,
                cs,
                kr,
                kp,
                ks,
            ) == Ordering::Equal
        },
{
}

/// Compares two offsets.
fn order_usize(a: usize, b: usize) -> (r: Ordering)
    ensures
        r == order_of(a, b),
{
    if a < b {
        Ordering::Less
    } else if a == b {
        Ordering::Equal
    } else {
        Ordering::Greater
    }
}

/// Whether an ordering is a tie.
fn is_tie(o: Ordering) -> (r: bool)
    ensures
        r == (o == Ordering::Equal),
{
    match o {
        Ordering::Equal => true,
        _ => false,
    }
}

/// Ranks a candidate failure against the current one, each at a given
/// progress offset.
pub fn compare_failure_rank_at_progress(
    current_range: TextRange,
    current_progress: usize,
    current_specificity: usize,
    candidate_range: TextRange,
    candidate_progress: usize,
    candidate_specificity: usize,
) -> (r: Ordering)
    ensures
        r == failure_order(
            current_range,
            current_progress,
            current_specificity,
            candidate_range,
            candidate_progress,
            candidate_specificity,
        ),
        current_range.spec_len() == 0 && candidate_range.spec_len() == 0 && candidate_specificity > current_specificity
            ==> r == Ordering::Greater,
        current_range.spec_len() == 0 && candidate_range.spec_len() == 0 && candidate_specificity < current_specificity
            ==> r == Ordering::Less,
        current_range.spec_len() == 0 && candidate_range.spec_len() > 0 ==> r == Ordering::Greater,
        current_range.spec_len() > 0 && candidate_range.spec_len() == 0 ==> r == Ordering::Less,
        current_range.spec_len() > 0 && candidate_range.spec_len() > 0 && candidate_progress > current_progress
            ==> r == Ordering::Greater,
        current_range.spec_len() > 0 && candidate_range.spec_len() > 0 && candidate_progress < current_progress
            ==> r == Ordering::Less,
{
    proof {
        lemma_failure_rank_rules(
            current_range,
            current_progress,
            current_specificity,
            candidate_range,
            candidate_progress,
            candidate_specificity,
        );
    }
    let current_len = current_range.len();
    let candidate_len = candidate_range.len();
    if current_len == 0 && candidate_len > 0 {
        return Ordering::Greater;
    }
    if current_len > 0 && candidate_len == 0 {
        return Ordering::Less;
    }
    if current_len > 0 {
        let by_progress = order_usize(candidate_progress, current_progress);
        if !is_tie(by_progress) {
            return by_progress;
        }
        let by_specificity = order_usize(candidate_specificity, current_specificity);
        if !is_tie(by_specificity) {
            return by_specificity;
        }
        let by_start = order_usize(candidate_range.start, current_range.start);
        if !is_tie(by_start) {
            return by_start;
        }
        order_usize(current_len, candidate_len)
    } else {
        let by_specificity = order_usize(candidate_specificity, current_specificity);
        if !is_tie(by_specificity) {
            return by_specificity;
        }
        order_usize(candidate_range.start, current_range.start)
    }
}

/// Ranks a candidate failure against the current one, each progressing from
/// the start of its range.
pub fn compare_failure_rank(
    current_range: TextRange,
    current_specificity: usize,
    candidate_range: TextRange,
    candidate_specificity: usize,
) -> (r: Ordering)
    ensures
        r == failure_order(
            current_range,
            current_range.start,
            current_specificity,
            candidate_range,
            candidate_range.start,
            candidate_specificity,
        ),
        current_range.spec_len() == 0 && candidate_range.spec_len() == 0 && candidate_specificity > current_specificity
            ==> r == Ordering::Greater,
        current_range.spec_len() == 0 && candidate_range.spec_len() == 0 && candidate_specificity < current_specificity
            ==> r == Ordering::Less,
        current_range.spec_len() == 0 && candidate_range.spec_len() == 0 && candidate_specificity
            == current_specificity && candidate_range.start > current_range.start ==> r == Ordering::Greater,
{
    compare_failure_rank_at_progress(
        current_range,
        current_range.start,
        current_specificity,
        candidate_range,
        candidate_range.start,
        candidate_specificity,
    )
}


/// The opposite of an ordering.
pub open spec fn reversed(o: Ordering) -> Ordering {
    match o {
        Ordering::Less => Ordering::Greater,
        Ordering::Equal => Ordering::Equal,
        Ordering::Greater => Ordering::Less,
    }
}

/// Ranking two failures the other way round gives the opposite answer.
pub proof fn lemma_failure_order_antisymmetric(
    a_range: TextRange,
    a_progress: usize,
    a_specificity: usize,
    b_range: TextRange,
    b_progress: usize,
    b_specificity: usize,
)
    ensures
        failure_order(b_range, b_progress, b_specificity, a_range, a_progress, a_specificity) == reversed(
            failure_order(a_range, a_progress, a_specificity, b_range, b_progress, b_specificity),
        ),
{
}

/// The ranking is transitive: a candidate that beats a failure which beats a
/// third also beats the third.
pub proof fn lemma_failure_order_transitive(
    a_range: TextRange,
    a_progress: usize,
    a_specificity: usize,
    b_range: TextRange,
    b_progress: usize,
    b_specificity: usize,
    c_range: TextRange,
    c_progress: usize,
    c_specificity: usize,
)
    requires
        failure_order(a_range, a_progress, a_specificity, b_range, b_progress, b_specificity) == Ordering::Greater,
        failure_order(b_range, b_progress, b_specificity, c_range, c_progress, c_specificity) == Ordering::Greater,
    ensures
        failure_order(a_range, a_progress, a_specificity, c_range, c_progress, c_specificity) == Ordering::Greater,
{
}

/// A tie in rank is transitive too, so ties group failures into classes.
pub proof fn lemma_failure_order_ties_transitive(
    a_range: TextRange,
    a_progress: usize,
    a_specificity: usize,
    b_range: TextRange,
    b_progress: usize,
    b_specificity: usize,
    c_range: TextRange,
    c_progress: usize,
    c_specificity: usize,
)
    requires
        failure_order(a_range, a_progress, a_specificity, b_range, b_progress, b_specificity) == Ordering::Equal,
        failure_order(b_range, b_progress, b_specificity, c_range, c_progress, c_specificity) == Ordering::Equal,
    ensures
        failure_order(a_range, a_progress, a_specificity, c_range, c_progress, c_specificity) == Ordering::Equal,
{
}

/// Syntax and capture context surrounding one parse failure.
#[derive(Debug, Clone, PartialEq, Eq)]
pub struct FailureFrame {
    pub kind: MatchSyntaxKind,
    pub definition_id: String,
    pub registration_id: String,
    pub pattern_index: usize,
    pub pattern: String,
    pub element_path: Vec<PatternPathSegment>,
    /// Byte range of the failing element in the pattern source, if known.
    pub pattern_span: Option<TextRange>,
    pub input_span: MatchSpan,
    pub role: FailureFrameRole,
}

/// One failure with its parent syntax and optional more specific cause.
#[derive(Debug, PartialEq, Eq)]
pub struct FailureTrace {
    pub failure: PatternFailure,
    pub frame: Option<FailureFrame>,
    pub cause: Option<Box<FailureTrace>>,
    pub semantic_diagnostics: Vec<SemanticDiagnostic>,
}

impl Clone for FailureTrace {
    fn clone(&self) -> (r: Self)
        decreases self,
    {
        let cause = match &self.cause {
            Some(c) => {
                let inner: &FailureTrace = c;
                Some(Box::new(inner.clone()))
            },
            None => None,
        };
        FailureTrace {
            failure: self.failure.clone(),
            frame: self.frame.clone(),
            cause,
            semantic_diagnostics: self.semantic_diagnostics.clone(),
        }
    }
}

/// The deepest cause of a trace.
pub open spec fn root_of(t: FailureTrace) -> FailureTrace
    decreases t,
{
    match t.cause {
        Some(c) => root_of(*c),
        None => t,
    }
}

/// The semantic diagnostics of a trace, deepest cause first.
pub open spec fn diagnostics_of(t: FailureTrace) -> Seq<SemanticDiagnostic>
    decreases t,
{
    match t.cause {
        Some(c) => diagnostics_of(*c) + t.semantic_diagnostics@,
        None => t.semantic_diagnostics@,
    }
}

/// Some frame of the trace is a semantically rejected candidate.
pub open spec fn rejected_semantically(t: FailureTrace) -> bool
    decreases t,
{
    (t.frame matches Some(f) && f.role == FailureFrameRole::SemanticCandidate) || (t.cause matches Some(c)
        && rejected_semantically(*c))
}

/// The deepest cause failed on an event restriction.
pub open spec fn event_restricted(t: FailureTrace) -> bool {
    exists|i: int|
        0 <= i < root_of(t).failure.reasons@.len() && (#[trigger] root_of(t).failure.reasons@[i]) is EventRestricted
}

/// `acc` with `r` appended unless it equals the last range.
pub open spec fn push_distinct(acc: Seq<TextRange>, r: TextRange) -> Seq<TextRange> {
    if acc.len() > 0 && acc.last() == r {
        acc
    } else {
        acc.push(r)
    }
}

/// The input ranges of the frames from the trace down to its root, with
/// repeated neighbours merged, after `acc`.
pub open spec fn frame_ranges(t: FailureTrace, acc: Seq<TextRange>) -> Seq<TextRange>
    decreases t,
{
    let here = match t.frame {
        Some(f) => push_distinct(acc, f.input_span.mapped.virtual_range),
        None => acc,
    };
    match t.cause {
        Some(c) => frame_ranges(*c, here),
        None => here,
    }
}

/// How many distinct nested ranges locate the failure, the root's own
/// range included.
pub open spec fn specificity_of(t: FailureTrace) -> nat {
    push_distinct(frame_ranges(t, Seq::empty()), root_of(t).failure.span.mapped.virtual_range).len()
}

/// [`specificity_of`] as the offset-sized count the ranking compares.
pub open spec fn specificity_rank(t: FailureTrace) -> usize {
    specificity_of(t) as usize
}

/// Where the failure's progress is measured: the end of its root range
/// for an event restriction, which covers the whole attempt, else its start.
pub open spec fn progress_of(t: FailureTrace) -> usize {
    if event_restricted(t) {
        root_of(t).failure.span.mapped.virtual_range.end
    } else {
        root_of(t).failure.span.mapped.virtual_range.start
    }
}

/// How `a` compares with `b`, `false` before `true`.
pub open spec fn order_of_bool(a: bool, b: bool) -> Ordering {
    if a == b {
        Ordering::Equal
    } else if b {
        Ordering::Less
    } else {
        Ordering::Greater
    }
}

/// Rank of a candidate trace against the current one (`Greater` means the
/// candidate wins): [`failure_order`] of their root ranges, then a semantic
/// rejection before a structural failure.
pub open spec fn trace_order(current: FailureTrace, candidate: FailureTrace) -> Ordering {
    chain(
        failure_order(
            root_of(current).failure.span.mapped.virtual_range,
            progress_of(current),
            specificity_rank(current),
            root_of(candidate).failure.span.mapped.virtual_range,
            progress_of(candidate),
            specificity_rank(candidate),
        ),
        order_of_bool(rejected_semantically(candidate), rejected_semantically(current)),
    )
}

impl FailureTrace {
    /// Creates a leaf trace without surrounding syntax context.
    pub fn leaf(failure: PatternFailure) -> (r: Self)
        ensures
            r.failure == failure,
            r.frame is None,
            r.cause is None,
            r.semantic_diagnostics@.len() == 0,
    {
        FailureTrace { failure, frame: None, cause: None, semantic_diagnostics: Vec::new() }
    }

    /// Attaches semantic diagnostics to this exact failure frame.
    pub fn with_semantic_diagnostics(self, diagnostics: Vec<SemanticDiagnostic>) -> (r: Self)
        ensures
            r.failure == self.failure,
            r.frame == self.frame,
            r.cause == self.cause,
            r.semantic_diagnostics == diagnostics,
    {
        let mut r = self;
        r.semantic_diagnostics = diagnostics;
        r
    }

    /// Returns diagnostics from the deepest cause through its parent frames.
    pub fn semantic_diagnostics(&self) -> (r: Vec<&SemanticDiagnostic>)
        ensures
            r@.map_values(|d: &SemanticDiagnostic| *d) == diagnostics_of(*self),
        decreases *self,
    {
        let mut diagnostics: Vec<&SemanticDiagnostic> = match &self.cause {
            Some(cause) => cause.semantic_diagnostics(),
            None => Vec::new(),
        };
        let ghost below = diagnostics@.map_values(|d: &SemanticDiagnostic| *d);
        let mut k: usize = 0;
        while k < self.semantic_diagnostics.len()
            invariant
                k <= self.semantic_diagnostics@.len(),
                diagnostics@.map_values(|d: &SemanticDiagnostic| *d) == below + self.semantic_diagnostics@.take(k as int),
            decreases self.semantic_diagnostics@.len() - k,
        {
            let ghost before = diagnostics@;
            diagnostics.push(&self.semantic_diagnostics[k]);
            proof {
                assert(diagnostics@.map_values(|d: &SemanticDiagnostic| *d) =~= before.map_values(
                    |d: &SemanticDiagnostic| *d,
                ).push(self.semantic_diagnostics@[k as int]));
                assert(self.semantic_diagnostics@.take(k + 1) =~= self.semantic_diagnostics@.take(k as int).push(
                    self.semantic_diagnostics@[k as int],
                ));
            }
            k = k + 1;
        }
        proof {
            assert(self.semantic_diagnostics@.take(self.semantic_diagnostics@.len() as int) =~= self.semantic_diagnostics@);
            if self.cause is None {
                assert(below =~= Seq::<SemanticDiagnostic>::empty());
                assert(Seq::<SemanticDiagnostic>::empty() + self.semantic_diagnostics@ =~= self.semantic_diagnostics@);
            }
        }
        diagnostics
    }

    /// Returns the deepest available cause, which is normally the best primary label.
    pub fn root_cause(&self) -> (r: &Self)
        ensures
            *r == root_of(*self),
        decreases *self,
    {
        match &self.cause {
            Some(cause) => cause.root_cause(),
            None => self,
        }
    }

    /// Prepends a syntax frame while retaining the original failure summary.
    pub fn with_parent(self, frame: FailureFrame) -> (r: Self)
        ensures
            same_failure(r.failure, self.failure),
            r.frame == Some(frame),
            r.cause == Some(Box::new(self)),
            r.semantic_diagnostics@.len() == 0,
            root_of(r) == root_of(self),
            diagnostics_of(r) == diagnostics_of(self),
    {
        let failure = self.failure.clone();
        let r = FailureTrace { failure, frame: Some(frame), cause: Some(Box::new(self)), semantic_diagnostics: Vec::new() };
        proof {
            assert(diagnostics_of(r) =~= diagnostics_of(self));
        }
        r
    }

    /// Counts the distinct nested ranges that locate the failure.
    pub fn specificity(&self) -> (r: usize)
        ensures
            r == specificity_of(*self),
    {
        let mut ranges: Vec<TextRange> = Vec::new();
        collect_frame_ranges(self, &mut ranges);
        let root = self.root_cause().failure.span.mapped.virtual_range;
        push_distinct_range(&mut ranges, root);
        ranges.len()
    }

    /// Whether the deepest cause failed on an event restriction.
    pub fn is_event_restriction(&self) -> (r: bool)
        ensures
            r == event_restricted(*self),
    {
        let root = self.root_cause();
        let mut k: usize = 0;
        while k < root.failure.reasons.len()
            invariant
                *root == root_of(*self),
                k <= root.failure.reasons@.len(),
                forall|i: int| 0 <= i < k ==> !((#[trigger] root.failure.reasons@[i]) is EventRestricted),
            decreases root.failure.reasons@.len() - k,
        {
            match &root.failure.reasons[k] {
                PatternFailureReason::EventRestricted { .. } => {
                    return true;
                },
                _ => {},
            }
            k = k + 1;
        }
        false
    }

    /// Whether some frame is a semantically rejected candidate.
    pub fn is_semantic_rejection(&self) -> (r: bool)
        ensures
            r == rejected_semantically(*self),
        decreases *self,
    {
        let here = match &self.frame {
            Some(frame) => match frame.role {
                FailureFrameRole::SemanticCandidate => true,
                _ => false,
            },
            None => false,
        };
        if here {
            return true;
        }
        match &self.cause {
            Some(cause) => cause.is_semantic_rejection(),
            None => false,
        }
    }
}

/// Appends a range unless it equals the last one.
fn push_distinct_range(ranges: &mut Vec<TextRange>, r: TextRange)
    ensures
        final(ranges)@ == push_distinct(old(ranges)@, r),
{
    let n = ranges.len();
    if n > 0 && ranges[n - 1] == r {
        return;
    }
    ranges.push(r);
}

/// Appends the frame ranges of a trace, top down.
fn collect_frame_ranges(t: &FailureTrace, ranges: &mut Vec<TextRange>)
    ensures
        final(ranges)@ == frame_ranges(*t, old(ranges)@),
    decreases *t,
{
    match &t.frame {
        Some(frame) => push_distinct_range(ranges, frame.input_span.mapped.virtual_range),
        None => {},
    }
    match &t.cause {
        Some(cause) => collect_frame_ranges(cause, ranges),
        None => {},
    }
}

/// How two booleans compare, `false` before `true`.
fn order_bool(a: bool, b: bool) -> (r: Ordering)
    ensures
        r == order_of_bool(a, b),
{
    if a == b {
        Ordering::Equal
    } else if b {
        Ordering::Less
    } else {
        Ordering::Greater
    }
}

/// Ranks a candidate trace against the current one.
pub fn compare_failure_trace_rank(current: &FailureTrace, candidate: &FailureTrace) -> (r: Ordering)
    ensures
        r == trace_order(*current, *candidate),
{
    let current_range = current.root_cause().failure.span.mapped.virtual_range;
    let candidate_range = candidate.root_cause().failure.span.mapped.virtual_range;
    let current_progress = if current.is_event_restriction() {
        current_range.end
    } else {
        current_range.start
    };
    let candidate_progress = if candidate.is_event_restriction() {
        candidate_range.end
    } else {
        candidate_range.start
    };
    let by_rank = compare_failure_rank_at_progress(
        current_range,
        current_progress,
        current.specificity(),
        candidate_range,
        candidate_progress,
        candidate.specificity(),
    );
    if !is_tie(by_rank) {
        return by_rank;
    }
    order_bool(candidate.is_semantic_rejection(), current.is_semantic_rejection())
}

/// Keeps the most actionable of two recoverable parser failures: the
/// candidate where it ranks above the current one, else the current one.
pub fn choose_failure_trace(current: Option<FailureTrace>, candidate: Option<FailureTrace>) -> (r: Option<FailureTrace>)
    ensures
        r == match (current, candidate) {
            (None, v) => v,
            (v, None) => v,
            (Some(c), Some(k)) => if trace_order(c, k) == Ordering::Greater {
                Some(k)
            } else {
                Some(c)
            },
        },
{
    match (current, candidate) {
        (None, value) => value,
        (value, None) => value,
        (Some(current), Some(candidate)) => {
            let order = compare_failure_trace_rank(&current, &candidate);
            match order {
                Ordering::Greater => Some(candidate),
                _ => Some(current),
            }
        },
    }
}

/// Ranked candidate failures with an optional aggregate matcher fallback.
#[derive(Debug, Clone, PartialEq, Eq)]
pub struct RankedFailures<T> {
    pub fallback: Option<FailureTrace>,
    pub candidates: Vec<T>,
}

impl<T> RankedFailures<T> {
    /// Returns the highest-ranked candidate failure.
    pub fn primary(&self) -> (r: Option<&T>)
        ensures
            match r {
                Some(p) => self.candidates@.len() > 0 && *p == self.candidates@[0],
                None => self.candidates@.len() == 0,
            },
    {
        if self.candidates.len() > 0 {
            Some(&self.candidates[0])
        } else {
            None
        }
    }
}

impl<T> Default for RankedFailures<T> {
    fn default() -> (r: Self)
        ensures
            r.fallback is None,
            r.candidates@.len() == 0,
    {
        RankedFailures { fallback: None, candidates: Vec::new() }
    }
}

/// Ranking two traces the other way round gives the opposite answer.
pub proof fn lemma_trace_order_antisymmetric(a: FailureTrace, b: FailureTrace)
    ensures
        trace_order(b, a) == reversed(trace_order(a, b)),
{
    lemma_failure_order_antisymmetric(
        root_of(a).failure.span.mapped.virtual_range,
        progress_of(a),
        specificity_rank(a),
        root_of(b).failure.span.mapped.virtual_range,
        progress_of(b),
        specificity_rank(b),
    );
}

/// The trace ranking is transitive, in wins and in ties.
pub proof fn lemma_trace_order_transitive(a: FailureTrace, b: FailureTrace, c: FailureTrace)
    ensures
        trace_order(a, b) == Ordering::Greater && trace_order(b, c) == Ordering::Greater ==> trace_order(a, c)
            == Ordering::Greater,
        trace_order(a, b) == Ordering::Equal && trace_order(b, c) == Ordering::Equal ==> trace_order(a, c)
            == Ordering::Equal,
{
    let ra = root_of(a).failure.span.mapped.virtual_range;
    let rb = root_of(b).failure.span.mapped.virtual_range;
    let rc = root_of(c).failure.span.mapped.virtual_range;
    let (pa, pb, pc) = (progress_of(a), progress_of(b), progress_of(c));
    let (sa, sb, sc) = (specificity_rank(a), specificity_rank(b), specificity_rank(c));
    let ab = failure_order(ra, pa, sa, rb, pb, sb);
    let bc = failure_order(rb, pb, sb, rc, pc, sc);
    if ab == Ordering::Greater && bc == Ordering::Greater {
        lemma_failure_order_transitive(ra, pa, sa, rb, pb, sb, rc, pc, sc);
    }
    if ab == Ordering::Equal && bc == Ordering::Equal {
        lemma_failure_order_ties_transitive(ra, pa, sa, rb, pb, sb, rc, pc, sc);
    }
    if ab == Ordering::Greater && bc == Ordering::Equal {
        lemma_failure_order_antisymmetric(rb, pb, sb, rc, pc, sc);
        if failure_order(ra, pa, sa, rc, pc, sc) != Ordering::Greater {
            lemma_failure_order_antisymmetric(ra, pa, sa, rc, pc, sc);
            if failure_order(ra, pa, sa, rc, pc, sc) == Ordering::Equal {
                lemma_failure_order_ties_transitive(rc, pc, sc, ra, pa, sa, rb, pb, sb);
            } else {
                lemma_failure_order_transitive(rc, pc, sc, ra, pa, sa, rb, pb, sb);
            }
        }
    }
    if ab == Ordering::Equal && bc == Ordering::Greater {
        lemma_failure_order_antisymmetric(ra, pa, sa, rb, pb, sb);
        if failure_order(ra, pa, sa, rc, pc, sc) != Ordering::Greater {
            lemma_failure_order_antisymmetric(ra, pa, sa, rc, pc, sc);
            if failure_order(ra, pa, sa, rc, pc, sc) == Ordering::Equal {
                lemma_failure_order_ties_transitive(rb, pb, sb, ra, pa, sa, rc, pc, sc);
            } else {
                lemma_failure_order_transitive(rb, pb, sb, ra, pa, sa, rc, pc, sc);
            }
        }
    }
}

} // verus!
