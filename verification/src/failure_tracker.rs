//! The failure a pattern match reports: of the places where matching failed,
//! the best-ranked one, with every distinct reason recorded there.
use crate::failure::{
    compare_failure_rank, failure_order, root_of, specificity_rank, FailureFrame, FailureTrace,
};
use crate::pattern_match::{
    reason_view, same_reason, texts, MatchInput, PatternFailure, PatternFailureReason, PatternMatchError, ReasonView,
};
use crate::text::TextRange;
use std::cmp::Ordering;
use crate::string_map::{lemma_text_less_irreflexive, lemma_text_less_total, lemma_text_less_transitive, text_before, text_less};
use vstd::prelude::*;
use vstd::utf8::encode_utf8;

verus! {

/// Lexicographic order of text lists, as `Vec<String>` compares them.
pub open spec fn texts_less(a: Seq<Seq<char>>, b: Seq<Seq<char>>) -> bool
    decreases a.len(),
{
    if b.len() == 0 {
        false
    } else if a.len() == 0 {
        true
    } else if a[0] != b[0] {
        text_less(a[0], b[0])
    } else {
        texts_less(a.drop_first(), b.drop_first())
    }
}

proof fn lemma_texts_less_irreflexive(a: Seq<Seq<char>>)
    ensures
        !texts_less(a, a),
    decreases a.len(),
{
    if a.len() > 0 {
        lemma_texts_less_irreflexive(a.drop_first());
    }
}

proof fn lemma_texts_less_transitive(a: Seq<Seq<char>>, b: Seq<Seq<char>>, c: Seq<Seq<char>>)
    requires
        texts_less(a, b),
        texts_less(b, c),
    ensures
        texts_less(a, c),
    decreases a.len(),
{
    if a.len() > 0 && b.len() > 0 && c.len() > 0 {
        if a[0] == b[0] && b[0] == c[0] {
            lemma_texts_less_transitive(a.drop_first(), b.drop_first(), c.drop_first());
        } else if a[0] != b[0] && b[0] != c[0] {
            lemma_text_less_transitive(a[0], b[0], c[0]);
            if a[0] == c[0] {
                lemma_text_less_irreflexive(a[0]);
                lemma_text_less_transitive(c[0], b[0], c[0]);
            }
        }
    }
}

proof fn lemma_texts_less_total(a: Seq<Seq<char>>, b: Seq<Seq<char>>)
    requires
        a != b,
    ensures
        texts_less(a, b) || texts_less(b, a),
    decreases a.len(),
{
    if a.len() > 0 && b.len() > 0 {
        if a[0] == b[0] {
            if a.drop_first() == b.drop_first() {
                assert(a =~= seq![a[0]] + a.drop_first());
                assert(b =~= seq![b[0]] + b.drop_first());
            }
            lemma_texts_less_total(a.drop_first(), b.drop_first());
        } else {
            lemma_text_less_total(a[0], b[0]);
        }
    } else if a.len() == 0 && b.len() == 0 {
        assert(a =~= b);
    }
}

/// The position of a reason's variant in its declaration.
pub open spec fn reason_rank(r: ReasonView) -> nat {
    match r {
        ReasonView::Literal(_) => 0,
        ReasonView::Regex(_) => 1,
        ReasonView::Expression => 2,
        ReasonView::TypeExpression(_) => 3,
        ReasonView::EventRestricted(_, _) => 4,
        ReasonView::TrailingInput => 5,
        ReasonView::HookRejected(_) => 6,
    }
}

/// The order `PatternFailureReason` derives: by variant, then by fields.
pub open spec fn reason_less(a: ReasonView, b: ReasonView) -> bool {
    if reason_rank(a) != reason_rank(b) {
        reason_rank(a) < reason_rank(b)
    } else {
        match (a, b) {
            (ReasonView::Literal(x), ReasonView::Literal(y)) => text_less(x, y),
            (ReasonView::Regex(x), ReasonView::Regex(y)) => text_less(x, y),
            (ReasonView::HookRejected(x), ReasonView::HookRejected(y)) => text_less(x, y),
            (ReasonView::TypeExpression(x), ReasonView::TypeExpression(y)) => texts_less(x, y),
            (ReasonView::EventRestricted(s1, c1), ReasonView::EventRestricted(s2, c2)) => texts_less(s1, s2) || (s1 == s2
                && texts_less(c1, c2)),
            _ => false,
        }
    }
}

proof fn lemma_reason_less_irreflexive(a: ReasonView)
    ensures
        !reason_less(a, a),
{
    match a {
        ReasonView::Literal(x) => lemma_text_less_irreflexive(x),
        ReasonView::Regex(x) => lemma_text_less_irreflexive(x),
        ReasonView::HookRejected(x) => lemma_text_less_irreflexive(x),
        ReasonView::TypeExpression(x) => lemma_texts_less_irreflexive(x),
        ReasonView::EventRestricted(s, c) => {
            lemma_texts_less_irreflexive(s);
            lemma_texts_less_irreflexive(c);
        },
        _ => {},
    }
}

proof fn lemma_reason_less_transitive(a: ReasonView, b: ReasonView, c: ReasonView)
    requires
        reason_less(a, b),
        reason_less(b, c),
    ensures
        reason_less(a, c),
{
    if reason_rank(a) == reason_rank(b) && reason_rank(b) == reason_rank(c) {
        match (a, b, c) {
            (ReasonView::Literal(x), ReasonView::Literal(y), ReasonView::Literal(z)) => lemma_text_less_transitive(x, y, z),
            (ReasonView::Regex(x), ReasonView::Regex(y), ReasonView::Regex(z)) => lemma_text_less_transitive(x, y, z),
            (ReasonView::HookRejected(x), ReasonView::HookRejected(y), ReasonView::HookRejected(z)) => lemma_text_less_transitive(
                x,
                y,
                z,
            ),
            (ReasonView::TypeExpression(x), ReasonView::TypeExpression(y), ReasonView::TypeExpression(z)) => lemma_texts_less_transitive(
                x,
                y,
                z,
            ),
            (
                ReasonView::EventRestricted(s1, c1),
                ReasonView::EventRestricted(s2, c2),
                ReasonView::EventRestricted(s3, c3),
            ) => {
                if texts_less(s1, s2) && texts_less(s2, s3) {
                    lemma_texts_less_transitive(s1, s2, s3);
                } else if texts_less(s1, s2) {
                    assert(s2 == s3);
                } else if texts_less(s2, s3) {
                    assert(s1 == s2);
                } else {
                    lemma_texts_less_transitive(c1, c2, c3);
                }
            },
            _ => {},
        }
    }
}

proof fn lemma_reason_less_total(a: ReasonView, b: ReasonView)
    requires
        a != b,
    ensures
        reason_less(a, b) || reason_less(b, a),
{
    if reason_rank(a) == reason_rank(b) {
        match (a, b) {
            (ReasonView::Literal(x), ReasonView::Literal(y)) => lemma_text_less_total(x, y),
            (ReasonView::Regex(x), ReasonView::Regex(y)) => lemma_text_less_total(x, y),
            (ReasonView::HookRejected(x), ReasonView::HookRejected(y)) => lemma_text_less_total(x, y),
            (ReasonView::TypeExpression(x), ReasonView::TypeExpression(y)) => lemma_texts_less_total(x, y),
            (ReasonView::EventRestricted(s1, c1), ReasonView::EventRestricted(s2, c2)) => {
                if s1 != s2 {
                    lemma_texts_less_total(s1, s2);
                } else {
                    lemma_texts_less_total(c1, c2);
                }
            },
            _ => {},
        }
    }
}

/// Compares two text lists in [`texts_less`] order.
fn texts_before(a: &Vec<String>, b: &Vec<String>) -> (r: bool)
    ensures
        r == texts_less(texts(a@), texts(b@)),
{
    let ghost x = texts(a@);
    let ghost y = texts(b@);
    let mut k: usize = 0;
    proof {
        assert(x.skip(0) =~= x);
        assert(y.skip(0) =~= y);
    }
    while k < a.len() && k < b.len()
        invariant
            x == texts(a@),
            y == texts(b@),
            k <= a@.len(),
            k <= b@.len(),
            texts_less(x, y) == texts_less(x.skip(k as int), y.skip(k as int)),
        decreases a@.len() - k,
    {
        proof {
            assert(x.skip(k as int)[0] == a@[k as int]@);
            assert(y.skip(k as int)[0] == b@[k as int]@);
            assert(x.skip(k as int).drop_first() =~= x.skip(k + 1));
            assert(y.skip(k as int).drop_first() =~= y.skip(k + 1));
        }
        if a[k] != b[k] {
            return text_before(a[k].as_str(), b[k].as_str());
        }
        k = k + 1;
    }
    k == a.len() && k < b.len()
}

/// Whether two text lists hold the same texts.
fn same_texts(a: &Vec<String>, b: &Vec<String>) -> (r: bool)
    ensures
        r == (texts(a@) == texts(b@)),
{
    if a.len() != b.len() {
        proof {
            assert(texts(a@).len() != texts(b@).len());
        }
        return false;
    }
    let mut k: usize = 0;
    while k < a.len()
        invariant
            a@.len() == b@.len(),
            k <= a@.len(),
            forall|i: int| 0 <= i < k ==> #[trigger] texts(a@)[i] == texts(b@)[i],
        decreases a@.len() - k,
    {
        if a[k] != b[k] {
            proof {
                assert(texts(a@)[k as int] != texts(b@)[k as int]);
            }
            return false;
        }
        k = k + 1;
    }
    proof {
        assert(texts(a@) =~= texts(b@));
    }
    true
}

/// The position of a reason's variant.
fn rank_of(r: &PatternFailureReason) -> (n: u8)
    ensures
        n == reason_rank(reason_view(*r)),
{
    match r {
        PatternFailureReason::Literal { .. } => 0,
        PatternFailureReason::Regex { .. } => 1,
        PatternFailureReason::Expression => 2,
        PatternFailureReason::TypeExpression { .. } => 3,
        PatternFailureReason::EventRestricted { .. } => 4,
        PatternFailureReason::TrailingInput => 5,
        PatternFailureReason::HookRejected { .. } => 6,
    }
}

/// Whether `a` comes before `b` in [`reason_less`] order.
pub fn reason_before(a: &PatternFailureReason, b: &PatternFailureReason) -> (r: bool)
    ensures
        r == reason_less(reason_view(*a), reason_view(*b)),
{
    let ra = rank_of(a);
    let rb = rank_of(b);
    if ra != rb {
        return ra < rb;
    }
    match (a, b) {
        (PatternFailureReason::Literal { expected: x }, PatternFailureReason::Literal { expected: y }) => text_before(
            x.as_str(),
            y.as_str(),
        ),
        (PatternFailureReason::Regex { pattern: x }, PatternFailureReason::Regex { pattern: y }) => text_before(
            x.as_str(),
            y.as_str(),
        ),
        (PatternFailureReason::HookRejected { reason: x }, PatternFailureReason::HookRejected { reason: y }) => text_before(
            x.as_str(),
            y.as_str(),
        ),
        (
            PatternFailureReason::TypeExpression { expected: x },
            PatternFailureReason::TypeExpression { expected: y },
        ) => texts_before(x, y),
        (
            PatternFailureReason::EventRestricted { supported: s1, current: c1 },
            PatternFailureReason::EventRestricted { supported: s2, current: c2 },
        ) => texts_before(s1, s2) || (same_texts(s1, s2) && texts_before(c1, c2)),
        _ => false,
    }
}

/// Whether two reasons hold the same variant and texts.
pub fn reasons_equal(a: &PatternFailureReason, b: &PatternFailureReason) -> (r: bool)
    ensures
        r == (reason_view(*a) == reason_view(*b)),
{
    match (a, b) {
        (PatternFailureReason::Literal { expected: x }, PatternFailureReason::Literal { expected: y }) => *x == *y,
        (PatternFailureReason::Regex { pattern: x }, PatternFailureReason::Regex { pattern: y }) => *x == *y,
        (PatternFailureReason::Expression, PatternFailureReason::Expression) => true,
        (
            PatternFailureReason::TypeExpression { expected: x },
            PatternFailureReason::TypeExpression { expected: y },
        ) => same_texts(x, y),
        (
            PatternFailureReason::EventRestricted { supported: s1, current: c1 },
            PatternFailureReason::EventRestricted { supported: s2, current: c2 },
        ) => same_texts(s1, s2) && same_texts(c1, c2),
        (PatternFailureReason::TrailingInput, PatternFailureReason::TrailingInput) => true,
        (PatternFailureReason::HookRejected { reason: x }, PatternFailureReason::HookRejected { reason: y }) => *x == *y,
        _ => false,
    }
}

/// The views of a list of reasons.
pub open spec fn reason_views(v: Seq<PatternFailureReason>) -> Seq<ReasonView> {
    v.map_values(|r: PatternFailureReason| reason_view(r))
}

/// The reasons increase strictly, so each occurs once.
pub open spec fn reasons_sorted(v: Seq<ReasonView>) -> bool {
    forall|i: int, j: int| 0 <= i < j < v.len() ==> reason_less(#[trigger] v[i], #[trigger] v[j])
}

/// Adds a reason to an ordered set of reasons, unless an equal one is there.
pub fn insert_reason(reasons: &mut Vec<PatternFailureReason>, reason: PatternFailureReason)
    requires
        reasons_sorted(reason_views(old(reasons)@)),
    ensures
        reasons_sorted(reason_views(final(reasons)@)),
        reason_views(final(reasons)@).to_set() == reason_views(old(reasons)@).to_set().insert(reason_view(reason)),
{
    let ghost v = reason_views(reasons@);
    let ghost x = reason_view(reason);
    let n = reasons.len();
    let mut p: usize = 0;
    while p < n && reason_before(&reasons[p], &reason)
        invariant
            n == reasons@.len(),
            v == reason_views(reasons@),
            x == reason_view(reason),
            reasons_sorted(v),
            p <= n,
            forall|q: int| 0 <= q < p ==> reason_less(#[trigger] v[q], x),
        decreases n - p,
    {
        p = p + 1;
    }
    if p < n && reasons_equal(&reasons[p], &reason) {
        proof {
            assert(v.to_set() =~= v.to_set().insert(x)) by {
                assert(v[p as int] == x);
            }
        }
        return;
    }
    proof {
        if p < n {
            assert(!reason_less(v[p as int], x));
            lemma_reason_less_total(v[p as int], x);
        }
    }
    reasons.insert(p, reason);
    proof {
        let w = reason_views(reasons@);
        assert(w =~= v.insert(p as int, x));
        assert forall|i: int, j: int| 0 <= i < j < w.len() implies reason_less(#[trigger] w[i], #[trigger] w[j]) by {
            if j < p {
                assert(reason_less(v[i], v[j]));
            } else if j == p {
                assert(reason_less(v[i], x));
            } else if i < p {
                assert(reason_less(v[i], x));
                if j - 1 > p {
                    assert(reason_less(v[p as int], v[j - 1]));
                    lemma_reason_less_transitive(x, v[p as int], v[j - 1]);
                }
                lemma_reason_less_transitive(v[i], x, v[j - 1]);
            } else if i == p {
                if j - 1 > p {
                    assert(reason_less(v[p as int], v[j - 1]));
                    lemma_reason_less_transitive(x, v[p as int], v[j - 1]);
                }
            } else {
                assert(reason_less(v[i - 1], v[j - 1]));
            }
        }
        assert(w.to_set() =~= v.to_set().insert(x)) by {
            assert forall|y: ReasonView| w.to_set().contains(y) <==> v.to_set().insert(x).contains(y) by {
                if w.contains(y) {
                    let i = choose|i: int| 0 <= i < w.len() && w[i] == y;
                    if i < p {
                        assert(v[i] == y);
                    } else if i > p {
                        assert(v[i - 1] == y);
                    }
                }
                if v.contains(y) {
                    let i = choose|i: int| 0 <= i < v.len() && v[i] == y;
                    if i < p {
                        assert(w[i] == y);
                    } else {
                        assert(w[i + 1] == y);
                    }
                }
                if y == x {
                    assert(w[p as int] == y);
                }
            }
        }
    }
}

/// The range a failure is ranked by: its cause's root range, else its own
/// range, else the empty range at its offset.
pub open spec fn anchor(cause: Option<FailureTrace>, range: Option<TextRange>, offset: usize) -> TextRange {
    match cause {
        Some(c) => root_of(c).failure.span.mapped.virtual_range,
        None => match range {
            Some(r) => r,
            None => TextRange { start: offset, end: offset },
        },
    }
}

/// The specificity a failure is ranked by: its cause's, or 0.
pub open spec fn cause_specificity(cause: Option<FailureTrace>) -> usize {
    match cause {
        Some(c) => specificity_rank(c),
        None => 0,
    }
}

/// The trace behind an optional box.
pub open spec fn unboxed(cause: Option<Box<FailureTrace>>) -> Option<FailureTrace> {
    match cause {
        Some(b) => Some(*b),
        None => None,
    }
}

/// The best-ranked failure seen so far while matching one pattern, with
/// every distinct reason recorded at it.
#[derive(Debug)]
pub struct FailureTracker {
    offset: usize,
    range: Option<TextRange>,
    reasons: Vec<PatternFailureReason>,
    frame: Option<FailureFrame>,
    cause: Option<Box<FailureTrace>>,
    initialized: bool,
}

impl FailureTracker {
    #[verifier::type_invariant]
    spec fn reasons_ordered(self) -> bool {
        reasons_sorted(reason_views(self.reasons@))
    }

    /// The offset of the selected failure.
    pub closed spec fn spec_offset(self) -> usize {
        self.offset
    }

    /// The range of the selected failure, if one was given.
    pub closed spec fn spec_range(self) -> Option<TextRange> {
        self.range
    }

    /// The reasons recorded at the selected failure, in increasing order.
    pub closed spec fn spec_reasons(self) -> Seq<PatternFailureReason> {
        self.reasons@
    }

    /// The syntax frame of the selected failure.
    pub closed spec fn spec_frame(self) -> Option<FailureFrame> {
        self.frame
    }

    /// The nested cause of the selected failure.
    pub closed spec fn spec_cause(self) -> Option<FailureTrace> {
        unboxed(self.cause)
    }

    /// Whether any failure was recorded.
    pub closed spec fn spec_initialized(self) -> bool {
        self.initialized
    }

    /// The distinct reasons as a set.
    pub open spec fn reason_set(self) -> Set<ReasonView> {
        reason_views(self.spec_reasons()).to_set()
    }

    /// The range the selected failure is ranked by.
    pub open spec fn spec_anchor(self) -> TextRange {
        anchor(self.spec_cause(), self.spec_range(), self.spec_offset())
    }

    /// A tracker with nothing recorded.
    pub fn new() -> (r: Self)
        ensures
            !r.spec_initialized(),
            r.spec_offset() == 0,
            r.spec_range() is None,
            r.spec_reasons().len() == 0,
            r.spec_frame() is None,
            r.spec_cause() is None,
    {
        FailureTracker { offset: 0, range: None, reasons: Vec::new(), frame: None, cause: None, initialized: false }
    }

    /// Records a failure at an offset.
    pub fn record(&mut self, offset: usize, reason: PatternFailureReason)
        ensures
            recorded(*old(self), *final(self), offset, None, reason, None, None),
    {
        self.record_range(offset, None, reason);
    }

    /// Records a failure at an offset, over a range where one is given.
    pub fn record_range(&mut self, offset: usize, range: Option<TextRange>, reason: PatternFailureReason)
        ensures
            recorded(*old(self), *final(self), offset, range, reason, None, None),
    {
        self.record_detailed(offset, range, reason, None, None);
    }

    /// Records a failure with its syntax frame and nested cause: it replaces
    /// the selected failure where it ranks higher (or nothing was recorded),
    /// joins it where it ties at the same offset and specificity, and is
    /// dropped otherwise.
    pub fn record_detailed(
        &mut self,
        offset: usize,
        range: Option<TextRange>,
        reason: PatternFailureReason,
        frame: Option<FailureFrame>,
        cause: Option<FailureTrace>,
    )
        ensures
            recorded(*old(self), *final(self), offset, range, reason, frame, cause),
    {
        proof {
            use_type_invariant(&*self);
        }
        let specificity = match &cause {
            Some(c) => c.specificity(),
            None => 0,
        };
        let current_specificity = match &self.cause {
            Some(c) => c.specificity(),
            None => 0,
        };
        let candidate_range = match &cause {
            Some(c) => c.root_cause().failure.span.mapped.virtual_range,
            None => match range {
                Some(r) => r,
                None => TextRange::empty(offset),
            },
        };
        let current_range = match &self.cause {
            Some(c) => c.root_cause().failure.span.mapped.virtual_range,
            None => match self.range {
                Some(r) => r,
                None => TextRange::empty(self.offset),
            },
        };
        let rank = compare_failure_rank(current_range, current_specificity, candidate_range, specificity);
        let greater = match rank {
            Ordering::Greater => true,
            _ => false,
        };
        let equal = match rank {
            Ordering::Equal => true,
            _ => false,
        };
        if !self.initialized || greater {
            let mut reasons: Vec<PatternFailureReason> = Vec::new();
            let ghost x = reason_view(reason);
            reasons.push(reason);
            proof {
                assert(reason_views(reasons@) =~= seq![x]);
            }
            self.offset = offset;
            self.range = range;
            self.reasons = reasons;
            self.frame = frame;
            self.cause = match cause {
                Some(c) => Some(Box::new(c)),
                None => None,
            };
            self.initialized = true;
            proof {
                Seq::<ReasonView>::empty().lemma_push_to_set_commute(x);
                assert(Seq::<ReasonView>::empty().push(x) =~= seq![x]);
                assert(Seq::<ReasonView>::empty().to_set() =~= Set::<ReasonView>::empty());
                assert(reason_views(self.reasons@).to_set() =~= Set::<ReasonView>::empty().insert(x));
            }
            return;
        }
        if equal && specificity == current_specificity && offset == self.offset {
            if self.range.is_none() {
                self.range = range;
            }
            let replace = self.frame.is_none() || (self.cause.is_none() && cause.is_some());
            if replace {
                self.frame = frame;
                self.cause = match cause {
                    Some(c) => Some(Box::new(c)),
                    None => None,
                };
            }
            let mut reasons: Vec<PatternFailureReason> = Vec::new();
            std::mem::swap(&mut reasons, &mut self.reasons);
            insert_reason(&mut reasons, reason);
            self.reasons = reasons;
        }
    }

    /// Folds in the failure another tracker selected, by the same rules as
    /// [`FailureTracker::record_detailed`], keeping both sets of reasons on a tie.
    pub fn merge(&mut self, other: Self)
        ensures
            merged(*old(self), other, *final(self)),
    {
        proof {
            use_type_invariant(&*self);
            use_type_invariant(&other);
        }
        if !other.initialized {
            return;
        }
        let specificity = match &self.cause {
            Some(c) => c.specificity(),
            None => 0,
        };
        let other_specificity = match &other.cause {
            Some(c) => c.specificity(),
            None => 0,
        };
        let current_range = match &self.cause {
            Some(c) => c.root_cause().failure.span.mapped.virtual_range,
            None => match self.range {
                Some(r) => r,
                None => TextRange::empty(self.offset),
            },
        };
        let other_range = match &other.cause {
            Some(c) => c.root_cause().failure.span.mapped.virtual_range,
            None => match other.range {
                Some(r) => r,
                None => TextRange::empty(other.offset),
            },
        };
        let rank = compare_failure_rank(current_range, specificity, other_range, other_specificity);
        let greater = match rank {
            Ordering::Greater => true,
            _ => false,
        };
        let equal = match rank {
            Ordering::Equal => true,
            _ => false,
        };
        if !self.initialized || greater {
            *self = other;
            return;
        }
        if equal && other_specificity == specificity && other.offset == self.offset {
            if self.range.is_none() {
                self.range = other.range;
            }
            let FailureTracker { offset: _, range: _, reasons: other_reasons, frame: other_frame, cause: other_cause, initialized: _ } = other;
            let mut reasons: Vec<PatternFailureReason> = Vec::new();
            std::mem::swap(&mut reasons, &mut self.reasons);
            union_reasons(&mut reasons, other_reasons);
            self.reasons = reasons;
            let replace = self.frame.is_none() || (self.cause.is_none() && other_cause.is_some());
            if replace {
                self.frame = other_frame;
                self.cause = other_cause;
            }
        }
    }
}

impl Default for FailureTracker {
    fn default() -> (r: Self)
        ensures
            !r.spec_initialized(),
            r.spec_reasons().len() == 0,
            r.spec_frame() is None,
            r.spec_cause() is None,
    {
        FailureTracker::new()
    }
}

/// Adds every reason of `other` to an ordered set of reasons.
fn union_reasons(reasons: &mut Vec<PatternFailureReason>, other: Vec<PatternFailureReason>)
    requires
        reasons_sorted(reason_views(old(reasons)@)),
    ensures
        reasons_sorted(reason_views(final(reasons)@)),
        reason_views(final(reasons)@).to_set() == reason_views(old(reasons)@).to_set().union(
            reason_views(other@).to_set(),
        ),
{
    let ghost start = reason_views(reasons@).to_set();
    let ghost added = reason_views(other@);
    let ghost all = other@;
    let n = other.len();
    let mut rest = other;
    let mut k: usize = 0;
    proof {
        assert(added.take(0).to_set() =~= Set::<ReasonView>::empty());
        assert(start =~= start.union(added.take(0).to_set()));
        assert(rest@ =~= all.skip(0));
    }
    while rest.len() > 0
        invariant
            added == reason_views(all),
            n == all.len(),
            k <= all.len(),
            rest@ == all.skip(k as int),
            reasons_sorted(reason_views(reasons@)),
            reason_views(reasons@).to_set() == start.union(added.take(k as int).to_set()),
        decreases rest@.len(),
    {
        let r = rest.remove(0);
        proof {
            assert(all.skip(k + 1) =~= all.skip(k as int).remove(0));
            assert(reason_view(r) == added[k as int]);
            assert(added.take(k + 1) =~= added.take(k as int).push(added[k as int]));
            added.take(k as int).lemma_push_to_set_commute(added[k as int]);
        }
        insert_reason(reasons, r);
        proof {
            assert(start.union(added.take(k + 1).to_set()) =~= start.union(added.take(k as int).to_set()).insert(
                added[k as int],
            ));
        }
        k = k + 1;
    }
    proof {
        assert(added.take(k as int) =~= added);
    }
}

/// The range the selected failure is reported at: its own, or the empty
/// range at its offset.
pub open spec fn reported_range(t: FailureTracker) -> TextRange {
    match t.spec_range() {
        Some(r) => r,
        None => TextRange { start: t.spec_offset(), end: t.spec_offset() },
    }
}

/// The selected failure, with its range mapped through the input and its
/// reasons in increasing order.
pub fn tracker_failure(input: &MatchInput, tracker: &FailureTracker) -> (r: Result<PatternFailure, PatternMatchError>)
    ensures
        !reported_range(*tracker).valid_for(encode_utf8(input.local_text())) ==> r == Err::<
            PatternFailure,
            PatternMatchError,
        >((PatternMatchError::InvalidInputRange { range: reported_range(*tracker) })),
        reported_range(*tracker).valid_for(encode_utf8(input.local_text())) ==> (r is Ok),
        r matches Ok(f) ==> f.span.local_range == reported_range(*tracker) && reason_views(f.reasons@)
            == reason_views(tracker.spec_reasons()),
        r matches Err(e) ==> e == (PatternMatchError::InvalidInputRange { range: reported_range(*tracker) }),
{
    let range = match tracker.range {
        Some(r) => r,
        None => TextRange::empty(tracker.offset),
    };
    let span = match input.map_range(range) {
        Ok(span) => span,
        Err(e) => {
            return Err(e);
        },
    };
    let mut reasons: Vec<PatternFailureReason> = Vec::new();
    let mut k: usize = 0;
    while k < tracker.reasons.len()
        invariant
            k <= tracker.reasons@.len(),
            reason_views(reasons@) == reason_views(tracker.reasons@.take(k as int)),
        decreases tracker.reasons@.len() - k,
    {
        let ghost before = reasons@;
        reasons.push(tracker.reasons[k].clone());
        proof {
            assert(reason_views(reasons@) =~= reason_views(before).push(reason_view(tracker.reasons@[k as int])));
            assert(tracker.reasons@.take(k + 1) =~= tracker.reasons@.take(k as int).push(tracker.reasons@[k as int]));
            assert(reason_views(tracker.reasons@.take(k + 1)) =~= reason_views(tracker.reasons@.take(k as int)).push(
                reason_view(tracker.reasons@[k as int]),
            ));
        }
        k = k + 1;
    }
    proof {
        assert(tracker.reasons@.take(tracker.reasons@.len() as int) =~= tracker.reasons@);
    }
    Ok(PatternFailure { span, reasons })
}

/// `t1` is `t0` after recording a failure at `offset`.
pub open spec fn recorded(
    t0: FailureTracker,
    t1: FailureTracker,
    offset: usize,
    range: Option<TextRange>,
    reason: PatternFailureReason,
    frame: Option<FailureFrame>,
    cause: Option<FailureTrace>,
) -> bool {
    let rank = failure_order(
        t0.spec_anchor(),
        t0.spec_anchor().start,
        cause_specificity(t0.spec_cause()),
        anchor(cause, range, offset),
        anchor(cause, range, offset).start,
        cause_specificity(cause),
    );
    if !t0.spec_initialized() || rank == Ordering::Greater {
        &&& t1.spec_initialized()
        &&& t1.spec_offset() == offset
        &&& t1.spec_range() == range
        &&& t1.reason_set() == Set::<ReasonView>::empty().insert(reason_view(reason))
        &&& t1.spec_frame() == frame
        &&& t1.spec_cause() == cause
    } else if rank == Ordering::Equal && cause_specificity(cause) == cause_specificity(t0.spec_cause()) && offset
        == t0.spec_offset() {
        let replace = t0.spec_frame() is None || (t0.spec_cause() is None && cause is Some);
        &&& t1.spec_initialized()
        &&& t1.spec_offset() == t0.spec_offset()
        &&& t1.spec_range() == (if t0.spec_range() is None {
            range
        } else {
            t0.spec_range()
        })
        &&& t1.reason_set() == t0.reason_set().insert(reason_view(reason))
        &&& t1.spec_frame() == (if replace {
            frame
        } else {
            t0.spec_frame()
        })
        &&& t1.spec_cause() == (if replace {
            cause
        } else {
            t0.spec_cause()
        })
    } else {
        t1 == t0
    }
}

/// `t1` is `t0` after folding in tracker `other`.
pub open spec fn merged(t0: FailureTracker, other: FailureTracker, t1: FailureTracker) -> bool {
    let rank = failure_order(
        t0.spec_anchor(),
        t0.spec_anchor().start,
        cause_specificity(t0.spec_cause()),
        other.spec_anchor(),
        other.spec_anchor().start,
        cause_specificity(other.spec_cause()),
    );
    if !other.spec_initialized() {
        t1 == t0
    } else if !t0.spec_initialized() || rank == Ordering::Greater {
        t1 == other
    } else if rank == Ordering::Equal && cause_specificity(other.spec_cause()) == cause_specificity(t0.spec_cause())
        && other.spec_offset() == t0.spec_offset() {
        let replace = t0.spec_frame() is None || (t0.spec_cause() is None && other.spec_cause() is Some);
        &&& t1.spec_initialized()
        &&& t1.spec_offset() == t0.spec_offset()
        &&& t1.spec_range() == (if t0.spec_range() is None {
            other.spec_range()
        } else {
            t0.spec_range()
        })
        &&& t1.reason_set() == t0.reason_set().union(other.reason_set())
        &&& t1.spec_frame() == (if replace {
            other.spec_frame()
        } else {
            t0.spec_frame()
        })
        &&& t1.spec_cause() == (if replace {
            other.spec_cause()
        } else {
            t0.spec_cause()
        })
    } else {
        t1 == t0
    }
}

} // verus!
