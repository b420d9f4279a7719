//! Mapping between original document bytes and macro-expanded virtual source.
//!
//! Text edits are validated and applied atomically. Generated segments retain all
//! relevant origins and expansion IDs so diagnostics can return to editor source.
use crate::expansion::{
    contains_id, graph_outcome, graph_result_view, next_expansion_id, ComponentId, Expansion, ExpansionGraph,
    ExpansionGraphError, ExpansionId, ExpansionKind, ExpansionSite, ExpansionView, HookId,
    SyntaxContextId,
};
use crate::text::{boundary, bytes_of, lemma_encode_concat, lemma_encode_nonempty, str_len, str_slice, TextRange};
use vstd::prelude::*;
use vstd::string::{StringExecFns, StringSliceAdditionalSpecFns};
use vstd::utf8::*;

verus! {

broadcast use vstd::utf8::group_utf8_lib;

/// How a virtual source segment relates to its original range.
#[derive(Debug, Clone, Copy, PartialEq, Eq, Structural, Hash)]
pub enum OriginKind {
    /// The virtual text is byte-for-byte identical to the original text.
    Exact,
    /// The virtual text replaces the complete original range.
    Replaced,
    /// The virtual text was generated at a zero-width original position.
    Anchored,
}

/// One original-document origin associated with a virtual segment.
#[derive(Debug, Clone, Copy, PartialEq, Eq, Structural, Hash)]
pub struct SourceOrigin {
    pub original_range: TextRange,
    pub kind: OriginKind,
    pub expansion: Option<ExpansionId>,
}

impl SourceOrigin {
    /// The exact, unexpanded origin of `range`.
    pub open spec fn exact_spec(range: TextRange) -> SourceOrigin {
        SourceOrigin { original_range: range, kind: OriginKind::Exact, expansion: None }
    }

    pub fn exact(original_range: TextRange, expansion: Option<ExpansionId>) -> (r: Self)
        ensures
            r == (SourceOrigin { original_range, kind: OriginKind::Exact, expansion }),
    {
        SourceOrigin { original_range, kind: OriginKind::Exact, expansion }
    }

    pub fn replaced(original_range: TextRange, expansion: Option<ExpansionId>) -> (r: Self)
        ensures
            r == (SourceOrigin { original_range, kind: OriginKind::Replaced, expansion }),
    {
        SourceOrigin { original_range, kind: OriginKind::Replaced, expansion }
    }

    pub fn anchored(original_offset: usize, expansion: ExpansionId) -> (r: Self)
        ensures
            r == (SourceOrigin {
                original_range: TextRange { start: original_offset, end: original_offset },
                kind: OriginKind::Anchored,
                expansion: Some(expansion),
            }),
    {
        SourceOrigin {
            original_range: TextRange::empty(original_offset),
            kind: OriginKind::Anchored,
            expansion: Some(expansion),
        }
    }
}

/// Contiguous virtual range and all original origins contributing to it.
#[derive(Debug, PartialEq, Eq, Hash)]
pub struct SourceMapSegment {
    pub virtual_range: TextRange,
    pub origins: Vec<SourceOrigin>,
}

/// Mathematical value of a [`SourceMapSegment`].
pub struct SegmentView {
    pub virtual_range: TextRange,
    pub origins: Seq<SourceOrigin>,
}

impl View for SourceMapSegment {
    type V = SegmentView;

    open spec fn view(&self) -> SegmentView {
        SegmentView { virtual_range: self.virtual_range, origins: self.origins@ }
    }
}

impl Clone for SourceMapSegment {
    fn clone(&self) -> (r: Self)
        ensures
            r@ == self@,
    {
        SourceMapSegment { virtual_range: self.virtual_range, origins: self.origins.clone() }
    }
}

impl SourceMapSegment {
    /// Creates a segment with one original-source origin.
    pub fn new(virtual_range: TextRange, origin: SourceOrigin) -> (r: Self)
        ensures
            r@ == (SegmentView { virtual_range, origins: seq![origin] }),
    {
        let mut origins = Vec::new();
        origins.push(origin);
        proof {
            assert(origins@ =~= seq![origin]);
        }
        SourceMapSegment { virtual_range, origins }
    }

    pub fn with_origins(virtual_range: TextRange, origins: Vec<SourceOrigin>) -> (r: Self)
        ensures
            r@ == (SegmentView { virtual_range, origins: origins@ }),
    {
        SourceMapSegment { virtual_range, origins }
    }
}

/// Views of a vector of segments.
pub open spec fn segment_views(v: Seq<SourceMapSegment>) -> Seq<SegmentView> {
    v.map_values(|s: SourceMapSegment| s@)
}

/// Invalid source-map structure or range lookup.
#[derive(Debug, Clone, PartialEq, Eq)]
pub enum SourceMapError {
    InvalidRange { input: &'static str, range: TextRange },
    MissingOrigins { range: TextRange },
    MultipleExactOrigins { range: TextRange },
    EmptyVirtualSourceMapping,
    EmptySegment { range: TextRange },
    Overlap { previous_end: usize, next_start: usize },
    Gap { expected_start: usize, actual_start: usize },
    IncompleteCoverage { covered_end: usize, virtual_len: usize },
    ExactLengthMismatch { virtual_range: TextRange, original_range: TextRange },
    ExactTextMismatch { virtual_range: TextRange, original_range: TextRange },
    NonEmptyAnchor { range: TextRange },
    AnchorWithoutExpansion,
    UnknownExpansion { expansion: ExpansionId },
    InvalidExpansionSite { expansion: ExpansionId, site: &'static str, range: TextRange },
}

/// The bytes `r` of `b`.
pub open spec fn range_bytes(b: Seq<u8>, r: TextRange) -> Seq<u8> {
    b.subrange(r.start as int, r.end as int)
}

/// First problem with one origin of the segment covering virtual range `vr`.
pub open spec fn origin_error(
    ob: Seq<u8>,
    vb: Seq<u8>,
    vr: TextRange,
    o: SourceOrigin,
    es: Seq<ExpansionView>,
) -> Option<SourceMapError> {
    if !o.original_range.valid_for(ob) {
        Some(SourceMapError::InvalidRange { input: "original source", range: o.original_range })
    } else if o.expansion is Some && !contains_id(es, o.expansion.unwrap()) {
        Some(SourceMapError::UnknownExpansion { expansion: o.expansion.unwrap() })
    } else {
        match o.kind {
            OriginKind::Exact => if vr.spec_len() != o.original_range.spec_len() {
                Some(
                    SourceMapError::ExactLengthMismatch {
                        virtual_range: vr,
                        original_range: o.original_range,
                    },
                )
            } else if range_bytes(vb, vr) != range_bytes(ob, o.original_range) {
                Some(
                    SourceMapError::ExactTextMismatch {
                        virtual_range: vr,
                        original_range: o.original_range,
                    },
                )
            } else {
                None
            },
            OriginKind::Replaced => None,
            OriginKind::Anchored => if o.original_range.start != o.original_range.end {
                Some(SourceMapError::NonEmptyAnchor { range: o.original_range })
            } else if o.expansion is None {
                Some(SourceMapError::AnchorWithoutExpansion)
            } else {
                None
            },
        }
    }
}

/// First problem among the origins, checked in order.
pub open spec fn origins_error(
    ob: Seq<u8>,
    vb: Seq<u8>,
    vr: TextRange,
    os: Seq<SourceOrigin>,
    es: Seq<ExpansionView>,
) -> Option<SourceMapError>
    decreases os.len(),
{
    if os.len() == 0 {
        None
    } else {
        match origins_error(ob, vb, vr, os.drop_last(), es) {
            Some(e) => Some(e),
            None => origin_error(ob, vb, vr, os.last(), es),
        }
    }
}

/// First problem with one segment.
#[verifier::opaque]
pub open spec fn segment_error(
    ob: Seq<u8>,
    vb: Seq<u8>,
    seg: SegmentView,
    es: Seq<ExpansionView>,
) -> Option<SourceMapError> {
    if !seg.virtual_range.valid_for(vb) {
        Some(SourceMapError::InvalidRange { input: "virtual source", range: seg.virtual_range })
    } else if seg.origins.len() == 0 {
        Some(SourceMapError::MissingOrigins { range: seg.virtual_range })
    } else if seg.origins.len() > 1 && exists|k: int|
        0 <= k < seg.origins.len() && (#[trigger] seg.origins[k]).kind == OriginKind::Exact {
        Some(SourceMapError::MultipleExactOrigins { range: seg.virtual_range })
    } else {
        origins_error(ob, vb, seg.virtual_range, seg.origins, es)
    }
}

/// Scans the first `n` segments of a non-empty virtual source, in order,
/// returning where coverage ends or the first problem.
pub open spec fn scan_segments(
    ob: Seq<u8>,
    vb: Seq<u8>,
    segs: Seq<SegmentView>,
    es: Seq<ExpansionView>,
    n: int,
) -> Result<usize, SourceMapError>
    decreases n,
{
    if n <= 0 {
        Ok(0)
    } else {
        match scan_segments(ob, vb, segs, es, n - 1) {
            Err(e) => Err(e),
            Ok(expected) => {
                let r = segs[n - 1].virtual_range;
                if r.start == r.end {
                    Err(SourceMapError::EmptySegment { range: r })
                } else if r.start < expected {
                    Err(SourceMapError::Overlap { previous_end: expected, next_start: r.start })
                } else if r.start > expected {
                    Err(SourceMapError::Gap { expected_start: expected, actual_start: r.start })
                } else {
                    match segment_error(ob, vb, segs[n - 1], es) {
                        Some(e) => Err(e),
                        None => Ok(r.end),
                    }
                }
            },
        }
    }
}

/// First problem with a complete segment list for the given original and virtual text.
#[verifier::opaque]
pub open spec fn segments_error(
    ob: Seq<u8>,
    vb: Seq<u8>,
    segs: Seq<SegmentView>,
    es: Seq<ExpansionView>,
) -> Option<SourceMapError> {
    if vb.len() == 0 {
        if segs.len() != 1 || segs[0].virtual_range != (TextRange { start: 0, end: 0 }) {
            Some(SourceMapError::EmptyVirtualSourceMapping)
        } else {
            segment_error(ob, vb, segs[0], es)
        }
    } else {
        match scan_segments(ob, vb, segs, es, segs.len() as int) {
            Err(e) => Some(e),
            Ok(end) => if end != vb.len() {
                Some(
                    SourceMapError::IncompleteCoverage {
                        covered_end: end,
                        virtual_len: vb.len() as usize,
                    },
                )
            } else {
                None
            },
        }
    }
}

/// The `Result` that reports an optional problem.
pub open spec fn as_result(e: Option<SourceMapError>) -> Result<(), SourceMapError> {
    match e {
        Some(e) => Err(e),
        None => Ok(()),
    }
}

/// Once a prefix of the origins has a problem, that problem is the first one.
proof fn lemma_origins_prefix(
    ob: Seq<u8>,
    vb: Seq<u8>,
    vr: TextRange,
    os: Seq<SourceOrigin>,
    es: Seq<ExpansionView>,
    m: int,
)
    requires
        0 <= m <= os.len(),
        origins_error(ob, vb, vr, os.take(m), es) is Some,
    ensures
        origins_error(ob, vb, vr, os, es) == origins_error(ob, vb, vr, os.take(m), es),
    decreases os.len() - m,
{
    if m < os.len() {
        let t = os.take(m + 1);
        assert(t.drop_last() =~= os.take(m));
        lemma_origins_prefix(ob, vb, vr, os, es, m + 1);
    } else {
        assert(os.take(m) =~= os);
    }
}

/// Once a prefix of the segments has a problem, later segments are not examined.
proof fn lemma_scan_prefix(
    ob: Seq<u8>,
    vb: Seq<u8>,
    segs: Seq<SegmentView>,
    es: Seq<ExpansionView>,
    m: int,
    n: int,
)
    requires
        0 <= m <= n,
        scan_segments(ob, vb, segs, es, m) is Err,
    ensures
        scan_segments(ob, vb, segs, es, n) == scan_segments(ob, vb, segs, es, m),
    decreases n - m,
{
    if m < n {
        lemma_scan_prefix(ob, vb, segs, es, m, n - 1);
    }
}

/// Whether the byte ranges `ar` of `a` and `br` of `b` hold the same bytes.
fn bytes_equal(a: &[u8], ar: TextRange, b: &[u8], br: TextRange) -> (r: bool)
    requires
        ar.start <= ar.end <= a@.len(),
        br.start <= br.end <= b@.len(),
    ensures
        r == (range_bytes(a@, ar) == range_bytes(b@, br)),
{
    if ar.end - ar.start != br.end - br.start {
        proof {
            assert(range_bytes(a@, ar).len() != range_bytes(b@, br).len());
        }
        return false;
    }
    let n = ar.end - ar.start;
    let mut i: usize = 0;
    while i < n
        invariant
            n == ar.end - ar.start,
            n == br.end - br.start,
            ar.end <= a@.len(),
            br.end <= b@.len(),
            i <= n,
            forall|k: int| 0 <= k < i ==> range_bytes(a@, ar)[k] == #[trigger] range_bytes(b@, br)[k],
        decreases n - i,
    {
        if a[ar.start + i] != b[br.start + i] {
            proof {
                assert(range_bytes(a@, ar)[i as int] != range_bytes(b@, br)[i as int]);
            }
            return false;
        }
        i = i + 1;
    }
    proof {
        assert(range_bytes(a@, ar) =~= range_bytes(b@, br));
    }
    true
}

/// Validated ordered mapping from virtual UTF-8 ranges to original source.
#[derive(Debug, PartialEq, Eq)]
pub struct SourceMap {
    original_len: usize,
    virtual_len: usize,
    segments: Vec<SourceMapSegment>,
}

/// Mathematical value of a [`SourceMap`].
pub struct SourceMapView {
    pub original_len: nat,
    pub virtual_len: nat,
    pub segments: Seq<SegmentView>,
}

impl View for SourceMap {
    type V = SourceMapView;

    closed spec fn view(&self) -> SourceMapView {
        SourceMapView {
            original_len: self.original_len as nat,
            virtual_len: self.virtual_len as nat,
            segments: segment_views(self.segments@),
        }
    }
}

/// A source map that validates against the given texts and expansions.
pub open spec fn map_wf(ob: Seq<u8>, vb: Seq<u8>, m: SourceMapView, es: Seq<ExpansionView>) -> bool {
    &&& m.original_len == ob.len()
    &&& m.virtual_len == vb.len()
    &&& segments_error(ob, vb, m.segments, es) is None
}

impl Clone for SourceMap {
    fn clone(&self) -> (r: Self)
        ensures
            r@ == self@,
    {
        let mut segments: Vec<SourceMapSegment> = Vec::new();
        let mut i: usize = 0;
        while i < self.segments.len()
            invariant
                i <= self.segments@.len(),
                segments@.len() == i,
                forall|k: int| 0 <= k < i ==> segments@[k]@ == self.segments@[k]@,
            decreases self.segments@.len() - i,
        {
            segments.push(self.segments[i].clone());
            i = i + 1;
        }
        let r = SourceMap {
            original_len: self.original_len,
            virtual_len: self.virtual_len,
            segments,
        };
        proof {
            assert(segment_views(r.segments@) =~= segment_views(self.segments@));
        }
        r
    }
}

impl SourceMap {
    fn validate_segment(
        original: &str,
        virtual_source: &str,
        segment: &SourceMapSegment,
        expansions: &ExpansionGraph,
    ) -> (r: Result<(), SourceMapError>)
        ensures
            r == as_result(
                segment_error(bytes_of(original), bytes_of(virtual_source), segment@, expansions@),
            ),
    {
        reveal(segment_error);
        let ghost ob = bytes_of(original);
        let ghost vb = bytes_of(virtual_source);
        let vr = segment.virtual_range;
        if !vr.is_valid_for(virtual_source) {
            return Err(SourceMapError::InvalidRange { input: "virtual source", range: vr });
        }
        let n = segment.origins.len();
        if n == 0 {
            return Err(SourceMapError::MissingOrigins { range: vr });
        }
        if n > 1 {
            let mut k: usize = 0;
            while k < n
                invariant
                    n == segment.origins@.len(),
                    ob == bytes_of(original),
                    vb == bytes_of(virtual_source),
                    vr == segment.virtual_range,
                    vr.valid_for(vb),
                    n > 1,
                    k <= n,
                    forall|q: int| 0 <= q < k ==> segment.origins@[q].kind != OriginKind::Exact,
                decreases n - k,
            {
                if segment.origins[k].kind == OriginKind::Exact {
                    proof {
                        reveal(segment_error);
                        assert(segment@.origins[k as int].kind == OriginKind::Exact);
                        assert(vr.valid_for(vb));
                        assert(segment@.virtual_range == vr);
                        assert(segment@.origins.len() > 1);
                        assert(segment_error(ob, vb, segment@, expansions@) == Some(
                            SourceMapError::MultipleExactOrigins { range: vr },
                        ));
                    }
                    return Err(SourceMapError::MultipleExactOrigins { range: vr });
                }
                k = k + 1;
            }
        }
        proof {
            if n > 1 {
                assert(!exists|q: int|
                    0 <= q < segment@.origins.len() && (#[trigger] segment@.origins[q]).kind
                        == OriginKind::Exact);
            }
            assert(segment_error(ob, vb, segment@, expansions@) == origins_error(
                ob,
                vb,
                vr,
                segment.origins@,
                expansions@,
            ));
        }
        let ob_slice = original.as_bytes();
        let vb_slice = virtual_source.as_bytes();
        let mut k: usize = 0;
        while k < n
            invariant
                n == segment.origins@.len(),
                ob == bytes_of(original),
                vb == bytes_of(virtual_source),
                ob_slice@ == ob,
                vb_slice@ == vb,
                vr == segment.virtual_range,
                vr.valid_for(vb),
                segment_error(ob, vb, segment@, expansions@) == origins_error(
                    ob,
                    vb,
                    vr,
                    segment.origins@,
                    expansions@,
                ),
                k <= n,
                origins_error(ob, vb, vr, segment.origins@.take(k as int), expansions@) is None,
            decreases n - k,
        {
            let o = segment.origins[k];
            proof {
                let t = segment.origins@.take(k + 1);
                assert(t.drop_last() =~= segment.origins@.take(k as int));
                assert(t.last() == o);
            }
            let or = o.original_range;
            if !or.is_valid_for(original) {
                proof {
                    assert(origin_error(ob, vb, vr, o, expansions@) == Some(
                        SourceMapError::InvalidRange { input: "original source", range: or },
                    ));
                    lemma_origins_prefix(ob, vb, vr, segment.origins@, expansions@, k + 1);
                }
                return Err(SourceMapError::InvalidRange { input: "original source", range: or });
            }
            if let Some(expansion) = o.expansion {
                if !expansions.contains(expansion) {
                    proof {
                        lemma_origins_prefix(ob, vb, vr, segment.origins@, expansions@, k + 1);
                    }
                    return Err(SourceMapError::UnknownExpansion { expansion });
                }
            }
            match o.kind {
                OriginKind::Exact => {
                    if vr.len() != or.len() {
                        proof {
                            lemma_origins_prefix(ob, vb, vr, segment.origins@, expansions@, k + 1);
                        }
                        return Err(
                            SourceMapError::ExactLengthMismatch {
                                virtual_range: vr,
                                original_range: or,
                            },
                        );
                    }
                    if !bytes_equal(vb_slice, vr, ob_slice, or) {
                        proof {
                            lemma_origins_prefix(ob, vb, vr, segment.origins@, expansions@, k + 1);
                        }
                        return Err(
                            SourceMapError::ExactTextMismatch {
                                virtual_range: vr,
                                original_range: or,
                            },
                        );
                    }
                },
                OriginKind::Replaced => {},
                OriginKind::Anchored => {
                    if !or.is_empty() {
                        proof {
                            lemma_origins_prefix(ob, vb, vr, segment.origins@, expansions@, k + 1);
                        }
                        return Err(SourceMapError::NonEmptyAnchor { range: or });
                    }
                    if o.expansion.is_none() {
                        proof {
                            lemma_origins_prefix(ob, vb, vr, segment.origins@, expansions@, k + 1);
                        }
                        return Err(SourceMapError::AnchorWithoutExpansion);
                    }
                },
            }
            k = k + 1;
        }
        proof {
            assert(segment.origins@.take(n as int) =~= segment.origins@);
        }
        Ok(())
    }

    fn validate_segments(
        original: &str,
        virtual_source: &str,
        segments: &Vec<SourceMapSegment>,
        expansions: &ExpansionGraph,
    ) -> (r: Result<(), SourceMapError>)
        ensures
            r == as_result(
                segments_error(
                    bytes_of(original),
                    bytes_of(virtual_source),
                    segment_views(segments@),
                    expansions@,
                ),
            ),
    {
        reveal(segments_error);
        let ghost ob = bytes_of(original);
        let ghost vb = bytes_of(virtual_source);
        let ghost sv = segment_views(segments@);
        let vlen = str_len(virtual_source);
        if vlen == 0 {
            if segments.len() != 1 || segments[0].virtual_range.start != 0
                || segments[0].virtual_range.end != 0 {
                return Err(SourceMapError::EmptyVirtualSourceMapping);
            }
            proof {
                assert(sv[0] == segments@[0]@);
            }
            return Self::validate_segment(original, virtual_source, &segments[0], expansions);
        }
        let mut expected_start: usize = 0;
        let mut k: usize = 0;
        while k < segments.len()
            invariant
                ob == bytes_of(original),
                vb == bytes_of(virtual_source),
                sv == segment_views(segments@),
                vlen == vb.len(),
                vlen > 0,
                k <= segments@.len(),
                scan_segments(ob, vb, sv, expansions@, k as int) == Ok::<usize, SourceMapError>(
                    expected_start,
                ),
            decreases segments@.len() - k,
        {
            let segment = &segments[k];
            proof {
                assert(sv[k as int] == segment@);
            }
            let r = segment.virtual_range;
            if r.start == r.end {
                proof {
                    reveal(segments_error);
                    lemma_scan_prefix(ob, vb, sv, expansions@, k + 1, sv.len() as int);
                }
                return Err(SourceMapError::EmptySegment { range: r });
            }
            if r.start < expected_start {
                proof {
                    reveal(segments_error);
                    lemma_scan_prefix(ob, vb, sv, expansions@, k + 1, sv.len() as int);
                }
                return Err(
                    SourceMapError::Overlap { previous_end: expected_start, next_start: r.start },
                );
            }
            if r.start > expected_start {
                proof {
                    reveal(segments_error);
                    lemma_scan_prefix(ob, vb, sv, expansions@, k + 1, sv.len() as int);
                }
                return Err(
                    SourceMapError::Gap { expected_start, actual_start: r.start },
                );
            }
            let checked = Self::validate_segment(original, virtual_source, segment, expansions);
            if let Err(e) = checked {
                proof {
                    reveal(segments_error);
                    lemma_scan_prefix(ob, vb, sv, expansions@, k + 1, sv.len() as int);
                }
                return Err(e);
            }
            expected_start = r.end;
            k = k + 1;
        }
        if expected_start != vlen {
            return Err(
                SourceMapError::IncompleteCoverage { covered_end: expected_start, virtual_len: vlen },
            );
        }
        Ok(())
    }
}

/// Local virtual range plus every editor-facing original origin.
#[derive(Debug, PartialEq, Eq)]
pub struct MappedSpan {
    pub virtual_range: TextRange,
    pub origins: Vec<SourceOrigin>,
}

/// Mathematical value of a [`MappedSpan`].
pub struct SpanView {
    pub virtual_range: TextRange,
    pub origins: Seq<SourceOrigin>,
}

impl View for MappedSpan {
    type V = SpanView;

    open spec fn view(&self) -> SpanView {
        SpanView { virtual_range: self.virtual_range, origins: self.origins@ }
    }
}

impl Clone for MappedSpan {
    fn clone(&self) -> (r: Self)
        ensures
            r@ == self@,
    {
        MappedSpan { virtual_range: self.virtual_range, origins: self.origins.clone() }
    }
}

/// Whether `o` points at original text without an expansion.
pub open spec fn origin_is_generated(o: SourceOrigin) -> bool {
    o.expansion is Some || o.kind != OriginKind::Exact
}

impl MappedSpan {
    /// Returns the first origin for consumers that cannot display related locations.
    pub fn primary_origin(&self) -> (r: Option<SourceOrigin>)
        ensures
            r == (if self.origins@.len() > 0 {
                Some(self.origins@[0])
            } else {
                None
            }),
    {
        if self.origins.len() > 0 {
            Some(self.origins[0])
        } else {
            None
        }
    }

    /// Returns whether any origin came from a macro expansion.
    pub fn is_generated(&self) -> (r: bool)
        ensures
            r == exists|k: int|
                0 <= k < self.origins@.len() && origin_is_generated(#[trigger] self.origins@[k]),
    {
        let mut k: usize = 0;
        while k < self.origins.len()
            invariant
                k <= self.origins@.len(),
                forall|q: int| 0 <= q < k ==> !origin_is_generated(#[trigger] self.origins@[q]),
            decreases self.origins@.len() - k,
        {
            let o = self.origins[k];
            if o.expansion.is_some() || o.kind != OriginKind::Exact {
                return true;
            }
            k = k + 1;
        }
        false
    }
}

/// Appends the items of `items` that are not yet present to `acc`, in order.
pub open spec fn dedup_into<A>(acc: Seq<A>, items: Seq<A>) -> Seq<A>
    decreases items.len(),
{
    if items.len() == 0 {
        acc
    } else {
        let a = dedup_into(acc, items.drop_last());
        if a.contains(items.last()) {
            a
        } else {
            a.push(items.last())
        }
    }
}

/// Offset of `offset` into the segment, saturating at its start.
pub open spec fn offset_in(seg: SegmentView, offset: int) -> int {
    if offset >= seg.virtual_range.start {
        offset - seg.virtual_range.start
    } else {
        0
    }
}

/// The origin of a zero-width virtual position within `seg`: exact origins
/// narrow to the corresponding original point; others are kept whole.
pub open spec fn point_origin(seg: SegmentView, offset: int, o: SourceOrigin) -> SourceOrigin {
    match o.kind {
        OriginKind::Exact => {
            let p = (o.original_range.start + offset_in(seg, offset)) as usize;
            SourceOrigin { original_range: TextRange { start: p, end: p }, kind: o.kind, expansion: o.expansion }
        },
        _ => o,
    }
}

/// The segment's virtual range contains `offset`.
pub open spec fn seg_contains(seg: SegmentView, offset: int) -> bool {
    seg.virtual_range.start <= offset < seg.virtual_range.end
}

/// Some segment contains `offset`.
pub open spec fn covered(segs: Seq<SegmentView>, offset: int) -> bool {
    exists|k: int| 0 <= k < segs.len() && #[trigger] seg_contains(segs[k], offset)
}

/// The segment that answers a zero-width lookup at `offset`: the only segment of
/// an empty source, the last one at the end of the source, otherwise the first
/// one containing `offset`.
pub open spec fn point_segment(m: SourceMapView, offset: int) -> int {
    if m.virtual_len == 0 {
        0
    } else if offset == m.virtual_len {
        m.segments.len() - 1
    } else {
        choose|k: int|
            0 <= k < m.segments.len() && #[trigger] seg_contains(m.segments[k], offset) && forall|
                q: int,
            | 0 <= q < k ==> !seg_contains(#[trigger] m.segments[q], offset)
    }
}

/// Origins of the zero-width virtual position `offset`.
pub open spec fn point_origins(m: SourceMapView, offset: int) -> Seq<SourceOrigin> {
    let seg = m.segments[point_segment(m, offset)];
    seg.origins.map_values(|o: SourceOrigin| point_origin(seg, offset, o))
}

/// The origin of the part `ov` of segment `seg`: exact origins narrow to the
/// corresponding original bytes; others are kept whole.
pub open spec fn overlap_origin(seg: SegmentView, ov: TextRange, o: SourceOrigin) -> SourceOrigin {
    match o.kind {
        OriginKind::Exact => SourceOrigin {
            original_range: TextRange {
                start: (o.original_range.start + (ov.start - seg.virtual_range.start)) as usize,
                end: (o.original_range.start + (ov.end - seg.virtual_range.start)) as usize,
            },
            kind: o.kind,
            expansion: o.expansion,
        },
        _ => o,
    }
}

/// Origins of the part `ov` of segment `seg`.
pub open spec fn overlap_origins(seg: SegmentView, ov: TextRange) -> Seq<SourceOrigin> {
    seg.origins.map_values(|o: SourceOrigin| overlap_origin(seg, ov, o))
}

/// Origins contributed by one segment to a lookup of `range`.
pub open spec fn segment_contribution(seg: SegmentView, range: TextRange) -> Seq<SourceOrigin> {
    match seg.virtual_range.spec_intersection(range) {
        Some(ov) => overlap_origins(seg, ov),
        None => Seq::empty(),
    }
}

/// Distinct origins of a non-empty virtual range, in segment order.
pub open spec fn range_origins(m: SourceMapView, range: TextRange) -> Seq<SourceOrigin> {
    dedup_into(
        Seq::empty(),
        m.segments.map_values(|seg: SegmentView| segment_contribution(seg, range)).flatten(),
    )
}

/// What a lookup of `range` in map `m` answers.
pub open spec fn map_range_result(m: SourceMapView, range: TextRange) -> Result<
    SpanView,
    SourceMapError,
> {
    if range.start > range.end || range.end > m.virtual_len {
        Err(SourceMapError::InvalidRange { input: "virtual source", range })
    } else if range.start == range.end {
        Ok(SpanView { virtual_range: range, origins: point_origins(m, range.start as int) })
    } else {
        Ok(SpanView { virtual_range: range, origins: range_origins(m, range) })
    }
}

/// Facts about the first `n` segments of a successful scan.
proof fn lemma_scan_ok(
    ob: Seq<u8>,
    vb: Seq<u8>,
    segs: Seq<SegmentView>,
    es: Seq<ExpansionView>,
    n: int,
)
    requires
        0 <= n <= segs.len(),
        scan_segments(ob, vb, segs, es, n) is Ok,
    ensures
        n == 0 ==> scan_segments(ob, vb, segs, es, n) == Ok::<usize, SourceMapError>(0),
        n > 0 ==> scan_segments(ob, vb, segs, es, n) == Ok::<usize, SourceMapError>(
            segs[n - 1].virtual_range.end,
        ),
        forall|k: int|
            0 <= k < n ==> {
                &&& (#[trigger] segs[k]).virtual_range.start < segs[k].virtual_range.end
                &&& segment_error(ob, vb, segs[k], es) is None
                &&& k == 0 ==> segs[k].virtual_range.start == 0
                &&& k > 0 ==> segs[k].virtual_range.start == segs[k - 1].virtual_range.end
            },
    decreases n,
{
    if n > 0 {
        lemma_scan_ok(ob, vb, segs, es, n - 1);
        let prev = scan_segments(ob, vb, segs, es, n - 1);
        assert(prev is Ok);
        let r = segs[n - 1].virtual_range;
        assert(r.start == prev.unwrap());
        assert forall|k: int| 0 <= k < n implies {
            &&& (#[trigger] segs[k]).virtual_range.start < segs[k].virtual_range.end
            &&& segment_error(ob, vb, segs[k], es) is None
            &&& k == 0 ==> segs[k].virtual_range.start == 0
            &&& k > 0 ==> segs[k].virtual_range.start == segs[k - 1].virtual_range.end
        } by {
            if k == n - 1 {
                assert(segment_error(ob, vb, segs[n - 1], es) is None);
                reveal(segment_error);
                assert(r.valid_for(vb));
                if k > 0 {
                    assert(prev == Ok::<usize, SourceMapError>(segs[n - 2].virtual_range.end));
                } else {
                    assert(prev == Ok::<usize, SourceMapError>(0));
                }
            } else {
                assert(segs[k].virtual_range.start < segs[k].virtual_range.end);
            }
        }
    }
}

/// Every offset below the end of a contiguous scan lies in one of its segments.
proof fn lemma_scan_covers(
    ob: Seq<u8>,
    vb: Seq<u8>,
    segs: Seq<SegmentView>,
    es: Seq<ExpansionView>,
    n: int,
    offset: int,
)
    requires
        0 < n <= segs.len(),
        scan_segments(ob, vb, segs, es, n) is Ok,
        0 <= offset < segs[n - 1].virtual_range.end,
    ensures
        exists|k: int| 0 <= k < n && #[trigger] seg_contains(segs[k], offset),
    decreases n,
{
    lemma_scan_ok(ob, vb, segs, es, n);
    if offset >= segs[n - 1].virtual_range.start {
        assert(seg_contains(segs[n - 1], offset));
    } else {
        lemma_scan_ok(ob, vb, segs, es, n - 1);
        lemma_scan_covers(ob, vb, segs, es, n - 1, offset);
    }
}

/// Each origin of an accepted origin list is accepted.
proof fn lemma_origins_ok(
    ob: Seq<u8>,
    vb: Seq<u8>,
    vr: TextRange,
    os: Seq<SourceOrigin>,
    es: Seq<ExpansionView>,
    k: int,
)
    requires
        origins_error(ob, vb, vr, os, es) is None,
        0 <= k < os.len(),
    ensures
        origin_error(ob, vb, vr, os[k], es) is None,
    decreases os.len(),
{
    if k < os.len() - 1 {
        assert(os.drop_last()[k] == os[k]);
        lemma_origins_ok(ob, vb, vr, os.drop_last(), es, k);
    }
}

/// Facts about a valid map that lookups rely on.
proof fn lemma_map_wf(ob: Seq<u8>, vb: Seq<u8>, m: SourceMapView, es: Seq<ExpansionView>)
    requires
        map_wf(ob, vb, m, es),
    ensures
        m.segments.len() > 0,
        vb.len() == 0 ==> m.segments.len() == 1 && m.segments[0].virtual_range == (TextRange {
            start: 0,
            end: 0,
        }),
        vb.len() > 0 ==> m.segments.last().virtual_range.end == vb.len(),
        forall|k: int|
            0 <= k < m.segments.len() ==> segment_error(ob, vb, #[trigger] m.segments[k], es)
                is None,
        forall|k: int|
            0 <= k < m.segments.len() ==> (#[trigger] m.segments[k]).virtual_range.start
                <= m.segments[k].virtual_range.end,
        vb.len() > 0 ==> forall|offset: int|
            0 <= offset < vb.len() ==> #[trigger] covered(m.segments, offset),
{
    reveal(segments_error);
    if vb.len() > 0 {
        let n = m.segments.len() as int;
        lemma_scan_ok(ob, vb, m.segments, es, n);
        assert forall|offset: int| 0 <= offset < vb.len() implies #[trigger] covered(
            m.segments,
            offset,
        ) by {
            lemma_scan_covers(ob, vb, m.segments, es, n, offset);
        }
    }
}

/// An origin accepted for a segment is valid for the original text, and exact
/// origins have the segment's length.
proof fn lemma_origin_ok_facts(
    ob: Seq<u8>,
    vb: Seq<u8>,
    seg: SegmentView,
    es: Seq<ExpansionView>,
    k: int,
)
    requires
        segment_error(ob, vb, seg, es) is None,
        0 <= k < seg.origins.len(),
    ensures
        seg.virtual_range.valid_for(vb),
        seg.origins[k].original_range.valid_for(ob),
        seg.origins[k].kind == OriginKind::Exact ==> seg.origins[k].original_range.spec_len()
            == seg.virtual_range.spec_len(),
{
    reveal(segment_error);
    lemma_origins_ok(ob, vb, seg.virtual_range, seg.origins, es, k);
}

/// Whether `v` already holds `o`.
fn contains_origin(v: &Vec<SourceOrigin>, o: SourceOrigin) -> (r: bool)
    ensures
        r == v@.contains(o),
{
    let mut i: usize = 0;
    while i < v.len()
        invariant
            i <= v@.len(),
            forall|q: int| 0 <= q < i ==> v@[q] != o,
        decreases v@.len() - i,
    {
        if v[i] == o {
            proof {
                assert(v@[i as int] == o);
            }
            return true;
        }
        i = i + 1;
    }
    false
}

/// Appends `o` unless it is already present (one step of [`dedup_into`]).
fn push_distinct(v: &mut Vec<SourceOrigin>, o: SourceOrigin, Ghost(acc): Ghost<Seq<SourceOrigin>>, Ghost(items): Ghost<Seq<SourceOrigin>>)
    requires
        old(v)@ == dedup_into(acc, items),
    ensures
        final(v)@ == dedup_into(acc, items.push(o)),
{
    proof {
        assert(items.push(o).drop_last() =~= items);
    }
    if !contains_origin(v, o) {
        v.push(o);
    }
}

impl SourceMap {
    /// Index of the segment that answers a zero-width lookup at `offset`.
    #[verifier::rlimit(50)]
    fn point_segment_index(
        &self,
        offset: usize,
        Ghost(ob): Ghost<Seq<u8>>,
        Ghost(vb): Ghost<Seq<u8>>,
        Ghost(es): Ghost<Seq<ExpansionView>>,
    ) -> (r: usize)
        requires
            map_wf(ob, vb, self@, es),
            offset <= vb.len(),
        ensures
            r == point_segment(self@, offset as int),
            r < self@.segments.len(),
            self@.virtual_len > 0 && offset < self@.virtual_len ==> seg_contains(
                self@.segments[r as int],
                offset as int,
            ),
    {
        proof {
            lemma_map_wf(ob, vb, self@, es);
        }
        let ghost m = self@;
        let n = self.segments.len();
        if self.virtual_len == 0 {
            return 0;
        }
        if offset == self.virtual_len {
            return n - 1;
        }
        let mut k: usize = 0;
        while k < n && !(self.segments[k].virtual_range.start <= offset && offset
            < self.segments[k].virtual_range.end)
            invariant
                m == self@,
                n == self.segments@.len(),
                k <= n,
                forall|q: int| 0 <= q < k ==> !seg_contains(#[trigger] m.segments[q], offset as int),
            decreases n - k,
        {
            proof {
                assert(m.segments[k as int] == self.segments@[k as int]@);
            }
            k = k + 1;
        }
        proof {
            assert(covered(m.segments, offset as int));
            let w = choose|w: int| 0 <= w < m.segments.len() && #[trigger] seg_contains(m.segments[w], offset as int);
            if k == n {
                assert(!seg_contains(m.segments[w], offset as int));
            }
            assert(m.segments[k as int] == self.segments@[k as int]@);
            assert(seg_contains(m.segments[k as int], offset as int));
            assert(0 <= k < m.segments.len() && seg_contains(m.segments[k as int], offset as int)
                && forall|q: int| 0 <= q < k ==> !seg_contains(#[trigger] m.segments[q], offset as int));
            let c = point_segment(m, offset as int);
            assert(0 <= c < m.segments.len() && seg_contains(m.segments[c], offset as int)
                && forall|q: int| 0 <= q < c ==> !seg_contains(#[trigger] m.segments[q], offset as int));
            if c < k {
                assert(!seg_contains(m.segments[c], offset as int));
            } else if c > k {
                assert(!seg_contains(m.segments[k as int], offset as int));
            }
        }
        k
    }

    /// Origins of the zero-width virtual position `offset`.
    fn map_point(
        &self,
        offset: usize,
        Ghost(ob): Ghost<Seq<u8>>,
        Ghost(vb): Ghost<Seq<u8>>,
        Ghost(es): Ghost<Seq<ExpansionView>>,
    ) -> (r: Vec<SourceOrigin>)
        requires
            map_wf(ob, vb, self@, es),
            offset <= vb.len(),
        ensures
            r@ == point_origins(self@, offset as int),
    {
        proof {
            lemma_map_wf(ob, vb, self@, es);
        }
        let ghost m = self@;
        let index = self.point_segment_index(offset, Ghost(ob), Ghost(vb), Ghost(es));
        let segment = &self.segments[index];
        let ghost seg = segment@;
        proof {
            assert(m.segments[index as int] == seg);
            assert(index as int == point_segment(m, offset as int));
        }
        let mut out: Vec<SourceOrigin> = Vec::new();
        let mut q: usize = 0;
        while q < segment.origins.len()
            invariant
                seg == segment@,
                segment_error(ob, vb, seg, es) is None,
                m.virtual_len == 0 ==> seg.virtual_range == (TextRange { start: 0, end: 0 }) && offset == 0,
                m.virtual_len > 0 ==> seg.virtual_range.start <= offset <= seg.virtual_range.end,
                m.virtual_len == vb.len(),
                m.original_len == ob.len(),
                q <= seg.origins.len(),
                out@ == seg.origins.take(q as int).map_values(|o: SourceOrigin| point_origin(seg, offset as int, o)),
            decreases seg.origins.len() - q,
        {
            let o = segment.origins[q];
            proof {
                lemma_origin_ok_facts(ob, vb, seg, es, q as int);
            }
            let mapped = match o.kind {
                OriginKind::Exact => {
                    let delta = if offset >= segment.virtual_range.start {
                        offset - segment.virtual_range.start
                    } else {
                        0
                    };
                    SourceOrigin::exact(TextRange::empty(o.original_range.start + delta), o.expansion)
                },
                _ => o,
            };
            out.push(mapped);
            proof {
                assert(seg.origins.take(q + 1) =~= seg.origins.take(q as int).push(o));
                assert(out@ =~= seg.origins.take(q + 1).map_values(|o: SourceOrigin| point_origin(seg, offset as int, o)));
            }
            q = q + 1;
        }
        proof {
            assert(seg.origins.take(seg.origins.len() as int) =~= seg.origins);
        }
        out
    }

    /// Origins of the part `overlap` of `segment`.
    fn map_overlap(
        segment: &SourceMapSegment,
        overlap: TextRange,
        Ghost(ob): Ghost<Seq<u8>>,
        Ghost(vb): Ghost<Seq<u8>>,
        Ghost(es): Ghost<Seq<ExpansionView>>,
    ) -> (r: Vec<SourceOrigin>)
        requires
            segment_error(ob, vb, segment@, es) is None,
            segment.virtual_range.start <= overlap.start <= overlap.end <= segment.virtual_range.end,
            ob.len() <= usize::MAX,
        ensures
            r@ == overlap_origins(segment@, overlap),
    {
        let ghost seg = segment@;
        let mut out: Vec<SourceOrigin> = Vec::new();
        let mut q: usize = 0;
        while q < segment.origins.len()
            invariant
                seg == segment@,
                segment_error(ob, vb, seg, es) is None,
                segment.virtual_range.start <= overlap.start <= overlap.end <= segment.virtual_range.end,
                ob.len() <= usize::MAX,
                q <= seg.origins.len(),
                out@ == seg.origins.take(q as int).map_values(|o: SourceOrigin| overlap_origin(seg, overlap, o)),
            decreases seg.origins.len() - q,
        {
            let o = segment.origins[q];
            proof {
                lemma_origin_ok_facts(ob, vb, seg, es, q as int);
            }
            let mapped = match o.kind {
                OriginKind::Exact => {
                    let start_delta = overlap.start - segment.virtual_range.start;
                    let end_delta = overlap.end - segment.virtual_range.start;
                    SourceOrigin::exact(
                        TextRange::new(
                            o.original_range.start + start_delta,
                            o.original_range.start + end_delta,
                        ),
                        o.expansion,
                    )
                },
                _ => o,
            };
            out.push(mapped);
            proof {
                assert(seg.origins.take(q + 1) =~= seg.origins.take(q as int).push(o));
                assert(out@ =~= seg.origins.take(q + 1).map_values(|o: SourceOrigin| overlap_origin(seg, overlap, o)));
            }
            q = q + 1;
        }
        proof {
            assert(seg.origins.take(seg.origins.len() as int) =~= seg.origins);
        }
        out
    }

    /// Maps a virtual range (bounds-checked, not boundary-checked) to its origins.
    fn map_range(
        &self,
        range: TextRange,
        Ghost(ob): Ghost<Seq<u8>>,
        Ghost(vb): Ghost<Seq<u8>>,
        Ghost(es): Ghost<Seq<ExpansionView>>,
    ) -> (r: Result<MappedSpan, SourceMapError>)
        requires
            map_wf(ob, vb, self@, es),
        ensures
            match r {
                Ok(span) => map_range_result(self@, range) == Ok::<SpanView, SourceMapError>(span@),
                Err(e) => map_range_result(self@, range) == Err::<SpanView, SourceMapError>(e),
            },
    {
        if range.start > range.end || range.end > self.virtual_len {
            return Err(SourceMapError::InvalidRange { input: "virtual source", range });
        }
        if range.start == range.end {
            let origins = self.map_point(range.start, Ghost(ob), Ghost(vb), Ghost(es));
            return Ok(MappedSpan { virtual_range: range, origins });
        }
        proof {
            lemma_map_wf(ob, vb, self@, es);
        }
        let ghost m = self@;
        let ghost pieces = m.segments.map_values(|seg: SegmentView| segment_contribution(seg, range));
        let mut origins: Vec<SourceOrigin> = Vec::new();
        let mut k: usize = 0;
        while k < self.segments.len()
            invariant
                m == self@,
                map_wf(ob, vb, m, es),
                forall|j: int| 0 <= j < m.segments.len() ==> segment_error(ob, vb, #[trigger] m.segments[j], es) is None,
                pieces == m.segments.map_values(|seg: SegmentView| segment_contribution(seg, range)),
                k <= self.segments@.len(),
                origins@ == dedup_into(Seq::empty(), pieces.take(k as int).flatten()),
            decreases self.segments@.len() - k,
        {
            let segment = &self.segments[k];
            proof {
                assert(m.segments[k as int] == segment@);
                assert(pieces.take(k + 1) =~= pieces.take(k as int).push(pieces[k as int]));
                pieces.take(k as int).lemma_flatten_push(pieces[k as int]);
            }
            let ghost flat = pieces.take(k as int).flatten();
            match segment.virtual_range.intersection(range) {
                None => {
                    proof {
                        assert(pieces[k as int] =~= Seq::<SourceOrigin>::empty());
                        assert(flat + pieces[k as int] =~= flat);
                    }
                },
                Some(overlap) => {
                    let mapped = Self::map_overlap(segment, overlap, Ghost(ob), Ghost(vb), Ghost(es));
                    let mut t: usize = 0;
                    while t < mapped.len()
                        invariant
                            mapped@ == pieces[k as int],
                            t <= mapped@.len(),
                            origins@ == dedup_into(Seq::empty(), flat + mapped@.take(t as int)),
                        decreases mapped@.len() - t,
                    {
                        proof {
                            assert(flat + mapped@.take(t + 1) =~= (flat + mapped@.take(t as int)).push(mapped@[t as int]));
                        }
                        push_distinct(&mut origins, mapped[t], Ghost(Seq::empty()), Ghost(flat + mapped@.take(t as int)));
                        t = t + 1;
                    }
                    proof {
                        assert(mapped@.take(mapped@.len() as int) =~= mapped@);
                    }
                },
            }
            k = k + 1;
        }
        proof {
            assert(pieces.take(pieces.len() as int) =~= pieces);
        }
        Ok(MappedSpan { virtual_range: range, origins })
    }

    /// Returns the original document length in UTF-8 bytes.
    pub fn original_len(&self) -> (r: usize)
        ensures
            r == self@.original_len,
    {
        self.original_len
    }

    /// Returns the current virtual source length in UTF-8 bytes.
    pub fn virtual_len(&self) -> (r: usize)
        ensures
            r == self@.virtual_len,
    {
        self.virtual_len
    }

    /// Returns validated segments in contiguous virtual order.
    pub fn segments(&self) -> (r: &[SourceMapSegment])
        ensures
            segment_views(r@) == self@.segments,
    {
        self.segments.as_slice()
    }
}

/// Expansion-site validation: the first site (in ID order, call sites before the
/// definition site) whose range is not valid for the original text.
pub open spec fn site_range_ok(ob: Seq<u8>, site: ExpansionSite) -> bool {
    site.original_range.valid_for(ob)
}

/// All sites of one expansion are valid for the original text.
pub open spec fn expansion_sites_ok(ob: Seq<u8>, e: ExpansionView) -> bool {
    &&& forall|k: int| 0 <= k < e.call_sites.len() ==> site_range_ok(ob, #[trigger] e.call_sites[k])
    &&& e.definition_site matches Some(d) ==> site_range_ok(ob, d)
}

/// All sites of the first `n` expansions are valid for the original text.
pub open spec fn sites_ok_upto(ob: Seq<u8>, es: Seq<ExpansionView>, n: int) -> bool {
    forall|j: int| 0 <= j < n ==> #[trigger] expansion_sites_ok(ob, es[j])
}

/// The expansion-site problem [`MappedSource::new`] reports, if any.
pub open spec fn site_error(ob: Seq<u8>, es: Seq<ExpansionView>, e: SourceMapError) -> bool {
    match e {
        SourceMapError::InvalidExpansionSite { expansion, site, range } => exists|j: int|
            0 <= j < es.len() && sites_ok_upto(ob, es, j) && es[j].id == expansion && ({
                ||| exists|k: int|
                    0 <= k < es[j].call_sites.len() && (forall|q: int|
                        0 <= q < k ==> site_range_ok(ob, #[trigger] es[j].call_sites[q]))
                        && !site_range_ok(ob, es[j].call_sites[k]) && range
                        == es[j].call_sites[k].original_range && site@ == "call site"@
                ||| {
                    &&& forall|q: int|
                        0 <= q < es[j].call_sites.len() ==> site_range_ok(
                            ob,
                            #[trigger] es[j].call_sites[q],
                        )
                    &&& es[j].definition_site is Some
                    &&& !site_range_ok(ob, es[j].definition_site.unwrap())
                    &&& range == es[j].definition_site.unwrap().original_range
                    &&& site@ == "definition site"@
                }
            }),
        _ => false,
    }
}

/// Original text, current virtual text, composed source map, and expansion graph.
///
/// Text macros operate on the virtual source while editor-facing diagnostics
/// must point into the immutable original document. This type keeps those two
/// views together and composes provenance across successive macro expansions.
#[derive(Debug, PartialEq, Eq)]
pub struct MappedSource {
    original: String,
    virtual_source: String,
    source_map: SourceMap,
    expansions: ExpansionGraph,
}

/// Mathematical value of a [`MappedSource`].
pub struct MappedSourceView {
    pub original: Seq<char>,
    pub virtual_source: Seq<char>,
    pub map: SourceMapView,
    pub expansions: Seq<ExpansionView>,
}

impl MappedSourceView {
    /// UTF-8 bytes of the original text.
    pub open spec fn ob(self) -> Seq<u8> {
        encode_utf8(self.original)
    }

    /// UTF-8 bytes of the virtual text.
    pub open spec fn vb(self) -> Seq<u8> {
        encode_utf8(self.virtual_source)
    }

    /// What [`MappedSource::map_range`] answers for `range`.
    pub open spec fn map_range(self, range: TextRange) -> Result<SpanView, SourceMapError> {
        if !range.valid_for(self.vb()) {
            Err(SourceMapError::InvalidRange { input: "virtual source", range })
        } else {
            map_range_result(self.map, range)
        }
    }
}

impl View for MappedSource {
    type V = MappedSourceView;

    closed spec fn view(&self) -> MappedSourceView {
        MappedSourceView {
            original: self.original@,
            virtual_source: self.virtual_source@,
            map: self.source_map@,
            expansions: self.expansions@,
        }
    }
}

/// Graph `es2` knows every expansion `es` knows.
pub open spec fn knows_all(es: Seq<ExpansionView>, es2: Seq<ExpansionView>) -> bool {
    forall|x: ExpansionId| contains_id(es, x) ==> contains_id(es2, x)
}

proof fn lemma_origins_error_grow(
    ob: Seq<u8>,
    vb: Seq<u8>,
    vr: TextRange,
    os: Seq<SourceOrigin>,
    es: Seq<ExpansionView>,
    es2: Seq<ExpansionView>,
)
    requires
        origins_error(ob, vb, vr, os, es) is None,
        knows_all(es, es2),
    ensures
        origins_error(ob, vb, vr, os, es2) is None,
    decreases os.len(),
{
    if os.len() > 0 {
        lemma_origins_error_grow(ob, vb, vr, os.drop_last(), es, es2);
        let o = os.last();
        if o.expansion is Some {
            assert(contains_id(es, o.expansion.unwrap()) ==> contains_id(es2, o.expansion.unwrap()));
        }
    }
}

proof fn lemma_segment_error_grow(
    ob: Seq<u8>,
    vb: Seq<u8>,
    seg: SegmentView,
    es: Seq<ExpansionView>,
    es2: Seq<ExpansionView>,
)
    requires
        segment_error(ob, vb, seg, es) is None,
        knows_all(es, es2),
    ensures
        segment_error(ob, vb, seg, es2) is None,
{
    reveal(segment_error);
    if seg.virtual_range.valid_for(vb) && seg.origins.len() > 0 {
        if !(seg.origins.len() > 1 && exists|k: int|
            0 <= k < seg.origins.len() && (#[trigger] seg.origins[k]).kind == OriginKind::Exact) {
            lemma_origins_error_grow(ob, vb, seg.virtual_range, seg.origins, es, es2);
        }
    }
}

proof fn lemma_scan_grow(
    ob: Seq<u8>,
    vb: Seq<u8>,
    segs: Seq<SegmentView>,
    es: Seq<ExpansionView>,
    es2: Seq<ExpansionView>,
    n: int,
)
    requires
        scan_segments(ob, vb, segs, es, n) is Ok,
        knows_all(es, es2),
        n <= segs.len(),
    ensures
        scan_segments(ob, vb, segs, es2, n) == scan_segments(ob, vb, segs, es, n),
    decreases n,
{
    if n > 0 {
        lemma_scan_grow(ob, vb, segs, es, es2, n - 1);
        lemma_scan_ok(ob, vb, segs, es, n);
        lemma_segment_error_grow(ob, vb, segs[n - 1], es, es2);
    }
}

/// Adding expansions to the graph keeps a valid source map valid.
proof fn lemma_map_wf_grow(
    ob: Seq<u8>,
    vb: Seq<u8>,
    m: SourceMapView,
    es: Seq<ExpansionView>,
    es2: Seq<ExpansionView>,
)
    requires
        map_wf(ob, vb, m, es),
        knows_all(es, es2),
    ensures
        map_wf(ob, vb, m, es2),
{
    reveal(segments_error);
    if vb.len() == 0 {
        lemma_segment_error_grow(ob, vb, m.segments[0], es, es2);
    } else {
        lemma_scan_grow(ob, vb, m.segments, es, es2, m.segments.len() as int);
    }
}

impl MappedSource {
    /// The source map is valid for the texts and the expansion graph.
    #[verifier::type_invariant]
    pub open spec fn wf(&self) -> bool {
        map_wf(self@.ob(), self@.vb(), self@.map, self@.expansions)
    }

    /// Creates an unexpanded source whose virtual and original text are identical.
    pub fn identity(source: &str) -> (r: Self)
        ensures
            r@.original == source@,
            r@.virtual_source == source@,
            r@.expansions == Seq::<ExpansionView>::empty(),
            r@.map.original_len == bytes_of(source).len(),
            r@.map.virtual_len == bytes_of(source).len(),
            r@.map.segments == seq![
                SegmentView {
                    virtual_range: TextRange { start: 0, end: bytes_of(source).len() as usize },
                    origins: seq![
                        SourceOrigin {
                            original_range: TextRange { start: 0, end: bytes_of(source).len() as usize },
                            kind: OriginKind::Exact,
                            expansion: None,
                        },
                    ],
                },
            ],
    {
        let len = str_len(source);
        let range = TextRange::new(0, len);
        let mut segments: Vec<SourceMapSegment> = Vec::new();
        segments.push(SourceMapSegment::new(range, SourceOrigin::exact(range, None)));
        let map = SourceMap { original_len: len, virtual_len: len, segments };
        let expansions = ExpansionGraph::default();
        let ghost b = bytes_of(source);
        let ghost seg = map@.segments[0];
        let original = source.to_owned();
        let virtual_source = source.to_owned();
        proof {
            assert(map@.segments =~= seq![seg]);
            assert(seg.origins =~= seq![SourceOrigin::exact_spec(range)]);
            reveal(segment_error);
            reveal(segments_error);
            assert(range.valid_for(b));
            assert(origins_error(b, b, range, seg.origins.drop_last(), expansions@) is None);
            assert(segment_error(b, b, seg, expansions@) is None);
            assert(encode_utf8(original@) == b);
            assert(encode_utf8(virtual_source@) == b);
            if b.len() > 0 {
                assert(scan_segments(b, b, map@.segments, expansions@, 0) == Ok::<usize, SourceMapError>(0));
                assert(scan_segments(b, b, map@.segments, expansions@, 1) == Ok::<usize, SourceMapError>(len));
            }
            assert(map_wf(b, b, map@, expansions@));
        }
        let r = MappedSource { original, virtual_source, source_map: map, expansions };
        r
    }
}

impl Clone for MappedSource {
    fn clone(&self) -> (r: Self)
        ensures
            r@ == self@,
    {
        proof {
            use_type_invariant(self);
        }
        MappedSource {
            original: self.original.clone(),
            virtual_source: self.virtual_source.clone(),
            source_map: self.source_map.clone(),
            expansions: self.expansions.clone(),
        }
    }
}

/// The view of a validated mapped source built from its parts.
pub open spec fn assembled(
    original: Seq<char>,
    virtual_source: Seq<char>,
    segments: Seq<SegmentView>,
    es: Seq<ExpansionView>,
) -> MappedSourceView {
    MappedSourceView {
        original,
        virtual_source,
        map: SourceMapView {
            original_len: encode_utf8(original).len(),
            virtual_len: encode_utf8(virtual_source).len(),
            segments,
        },
        expansions: es,
    }
}

impl MappedSource {
    /// Checks every expansion site against the original text.
    fn validate_expansion_sites(original: &str, expansions: &ExpansionGraph) -> (r: Result<(), SourceMapError>)
        ensures
            r is Ok ==> sites_ok_upto(bytes_of(original), expansions@, expansions@.len() as int),
            r matches Err(e) ==> site_error(bytes_of(original), expansions@, e),
    {
        let ghost ob = bytes_of(original);
        let all = expansions.iter();
        let ghost es = expansions@;
        let mut j: usize = 0;
        while j < all.len()
            invariant
                crate::expansion::views(all@) == es,
                es == expansions@,
                ob == bytes_of(original),
                j <= all@.len(),
                sites_ok_upto(ob, es, j as int),
            decreases all@.len() - j,
        {
            let e = &all[j];
            proof {
                assert(es[j as int] == e@);
            }
            let mut k: usize = 0;
            while k < e.call_sites.len()
                invariant
                    crate::expansion::views(all@) == es,
                    es == expansions@,
                    ob == bytes_of(original),
                    j < all@.len(),
                    es[j as int] == e@,
                    sites_ok_upto(ob, es, j as int),
                    k <= e.call_sites@.len(),
                    forall|q: int| 0 <= q < k ==> site_range_ok(ob, #[trigger] e.call_sites@[q]),
                decreases e.call_sites@.len() - k,
            {
                let range = e.call_sites[k].original_range;
                if !range.is_valid_for(original) {
                    let site = "call site";
                    proof {
                        let jj = j as int;
                        let kk = k as int;
                        assert(!site_range_ok(ob, es[jj].call_sites[kk]));
                        assert(range == es[jj].call_sites[kk].original_range);
                        assert(exists|k2: int|
                            0 <= k2 < es[jj].call_sites.len() && (forall|q: int|
                                0 <= q < k2 ==> site_range_ok(ob, #[trigger] es[jj].call_sites[q]))
                                && !site_range_ok(ob, es[jj].call_sites[k2]) && range
                                == es[jj].call_sites[k2].original_range && site@ == "call site"@);
                        assert(0 <= jj < es.len() && sites_ok_upto(ob, es, jj) && es[jj].id == e.id);
                        assert(site_error(ob, es, SourceMapError::InvalidExpansionSite { expansion: e.id, site, range }));
                    }
                    return Err(SourceMapError::InvalidExpansionSite { expansion: e.id, site, range });
                }
                k = k + 1;
            }
            if let Some(definition_site) = e.definition_site {
                let range = definition_site.original_range;
                if !range.is_valid_for(original) {
                    let site = "definition site";
                    proof {
                        let jj = j as int;
                        assert(forall|q: int|
                            0 <= q < es[jj].call_sites.len() ==> site_range_ok(ob, #[trigger] es[jj].call_sites[q]));
                        assert(0 <= jj < es.len() && sites_ok_upto(ob, es, jj) && es[jj].id == e.id);
                        assert(site_error(ob, es, SourceMapError::InvalidExpansionSite { expansion: e.id, site, range }));
                    }
                    return Err(SourceMapError::InvalidExpansionSite { expansion: e.id, site, range });
                }
            }
            proof {
                assert(expansion_sites_ok(ob, es[j as int]));
                assert forall|q: int| 0 <= q < j + 1 implies #[trigger] expansion_sites_ok(ob, es[q]) by {
                    if q < j {
                        assert(expansion_sites_ok(ob, es[q]));
                    }
                }
            }
            j = j + 1;
        }
        Ok(())
    }

    /// Constructs a mapped source after validating graph sites and complete segment coverage.
    pub fn new(
        original: &str,
        virtual_source: &str,
        expansions: ExpansionGraph,
        segments: Vec<SourceMapSegment>,
    ) -> (r: Result<Self, SourceMapError>)
        ensures
            match r {
                Ok(ms) => {
                    &&& sites_ok_upto(bytes_of(original), expansions@, expansions@.len() as int)
                    &&& segments_error(bytes_of(original), bytes_of(virtual_source), segment_views(segments@), expansions@) is None
                    &&& ms@ == assembled(original@, virtual_source@, segment_views(segments@), expansions@)
                },
                Err(e) => {
                    ||| site_error(bytes_of(original), expansions@, e)
                    ||| sites_ok_upto(bytes_of(original), expansions@, expansions@.len() as int)
                        && segments_error(bytes_of(original), bytes_of(virtual_source), segment_views(segments@), expansions@) == Some(e)
                },
            },
    {
        if let Err(e) = Self::validate_expansion_sites(original, &expansions) {
            return Err(e);
        }
        if let Err(e) = SourceMap::validate_segments(original, virtual_source, &segments, &expansions) {
            return Err(e);
        }
        let map = SourceMap {
            original_len: str_len(original),
            virtual_len: str_len(virtual_source),
            segments,
        };
        let o = original.to_owned();
        let v = virtual_source.to_owned();
        proof {
            assert(encode_utf8(o@) == bytes_of(original));
            assert(encode_utf8(v@) == bytes_of(virtual_source));
        }
        let r = MappedSource { original: o, virtual_source: v, source_map: map, expansions };
        Ok(r)
    }

    /// Returns the immutable editor document text.
    pub fn original(&self) -> (r: &str)
        ensures
            r@ == self@.original,
    {
        self.original.as_str()
    }

    /// Returns text after every accepted Text macro transformation.
    pub fn virtual_source(&self) -> (r: &str)
        ensures
            r@ == self@.virtual_source,
    {
        self.virtual_source.as_str()
    }

    /// Returns the composed mapping from virtual to original bytes.
    pub fn source_map(&self) -> (r: &SourceMap)
        ensures
            r@ == self@.map,
    {
        &self.source_map
    }

    /// Returns accepted Text, Tree, and AST expansion provenance.
    pub fn expansions(&self) -> (r: &ExpansionGraph)
        ensures
            r@ == self@.expansions,
    {
        &self.expansions
    }

    /// Maps one valid virtual range to all contributing original locations.
    pub fn map_range(&self, range: TextRange) -> (r: Result<MappedSpan, SourceMapError>)
        ensures
            match r {
                Ok(span) => self@.map_range(range) == Ok::<SpanView, SourceMapError>(span@),
                Err(e) => self@.map_range(range) == Err::<SpanView, SourceMapError>(e),
            },
    {
        proof {
            use_type_invariant(self);
        }
        if !range.is_valid_for(self.virtual_source.as_str()) {
            return Err(SourceMapError::InvalidRange { input: "virtual source", range });
        }
        self.source_map.map_range(range, Ghost(self@.ob()), Ghost(self@.vb()), Ghost(self@.expansions))
    }

    /// Returns the primary expansion path from `id` to original source.
    pub fn expansion_backtrace(&self, id: ExpansionId) -> (r: Option<Vec<&Expansion>>)
        ensures
            r is Some <==> contains_id(self@.expansions, id),
            r matches Some(v) ==> crate::expansion::path_view(v@) == crate::expansion::primary_backtrace(
                self@.expansions,
                crate::expansion::position_of(self@.expansions, id),
            ),
    {
        self.expansions.backtrace(id)
    }

    /// Returns every distinct expansion path from `id` to original source.
    pub fn expansion_backtraces(&self, id: ExpansionId) -> (r: Option<Vec<Vec<&Expansion>>>)
        ensures
            r is Some <==> contains_id(self@.expansions, id),
            r matches Some(v) ==> crate::expansion::paths_view(v@) == crate::expansion::all_backtraces(
                self@.expansions,
                crate::expansion::position_of(self@.expansions, id),
            ),
    {
        self.expansions.backtraces(id)
    }
}

/// Identity metadata attached to an accepted Text macro batch.
#[derive(Debug, PartialEq, Eq)]
pub struct TextExpansion {
    pub component: ComponentId,
    pub hook: HookId,
    pub definition_site: Option<ExpansionSite>,
}

/// Identity metadata attached to an accepted Tree macro edit.
#[derive(Debug, PartialEq, Eq)]
pub struct TreeExpansion {
    pub component: ComponentId,
    pub hook: HookId,
    pub definition_site: Option<ExpansionSite>,
}

/// Mathematical value of macro identity metadata.
pub struct MetadataView {
    pub component: Seq<char>,
    pub hook: Seq<char>,
    pub definition_site: Option<ExpansionSite>,
}

impl View for TextExpansion {
    type V = MetadataView;

    open spec fn view(&self) -> MetadataView {
        MetadataView {
            component: self.component@,
            hook: self.hook@,
            definition_site: self.definition_site,
        }
    }
}

impl View for TreeExpansion {
    type V = MetadataView;

    open spec fn view(&self) -> MetadataView {
        MetadataView {
            component: self.component@,
            hook: self.hook@,
            definition_site: self.definition_site,
        }
    }
}

impl Clone for TextExpansion {
    fn clone(&self) -> (r: Self)
        ensures
            r@ == self@,
    {
        TextExpansion {
            component: self.component.clone(),
            hook: self.hook.clone(),
            definition_site: self.definition_site,
        }
    }
}

impl Clone for TreeExpansion {
    fn clone(&self) -> (r: Self)
        ensures
            r@ == self@,
    {
        TreeExpansion {
            component: self.component.clone(),
            hook: self.hook.clone(),
            definition_site: self.definition_site,
        }
    }
}

impl TextExpansion {
    /// Creates expansion metadata from the owning component and hook.
    pub fn new(component: &str, hook: &str) -> (r: Self)
        ensures
            r@ == (MetadataView { component: component@, hook: hook@, definition_site: None }),
    {
        TextExpansion {
            component: ComponentId::new(component),
            hook: HookId::new(hook),
            definition_site: None,
        }
    }
}

impl TreeExpansion {
    /// Creates expansion metadata from the owning component and hook.
    pub fn new(component: &str, hook: &str) -> (r: Self)
        ensures
            r@ == (MetadataView { component: component@, hook: hook@, definition_site: None }),
    {
        TreeExpansion {
            component: ComponentId::new(component),
            hook: HookId::new(hook),
            definition_site: None,
        }
    }
}

/// New source provenance and assigned identity after a Tree edit.
#[derive(Debug, PartialEq, Eq)]
pub struct TreeExpansionApplication {
    pub source: MappedSource,
    pub expansion: ExpansionId,
    pub syntax_context: SyntaxContextId,
}

/// Invalid attempt to register Tree expansion provenance.
#[derive(Debug, Clone, PartialEq, Eq)]
pub enum TreeExpansionError {
    InvalidVirtualRange { range: TextRange },
    MissingOrigins,
    InvalidOriginalRange { range: TextRange },
    UnknownExpansion { expansion: ExpansionId },
    Expansion(ExpansionGraphError),
}

/// The expansion site an origin stands for.
pub open spec fn origin_site(o: SourceOrigin) -> ExpansionSite {
    ExpansionSite { original_range: o.original_range, expansion: o.expansion }
}

/// The expansion sites of a sequence of origins.
pub open spec fn origin_sites(os: Seq<SourceOrigin>) -> Seq<ExpansionSite> {
    os.map_values(|o: SourceOrigin| origin_site(o))
}

/// The first origin that is not a valid original range or names an unknown expansion.
pub open spec fn call_origin_error(
    ob: Seq<u8>,
    es: Seq<ExpansionView>,
    os: Seq<SourceOrigin>,
) -> Option<TreeExpansionError>
    decreases os.len(),
{
    if os.len() == 0 {
        None
    } else {
        match call_origin_error(ob, es, os.drop_last()) {
            Some(e) => Some(e),
            None => {
                let o = os.last();
                if !o.original_range.valid_for(ob) {
                    Some(TreeExpansionError::InvalidOriginalRange { range: o.original_range })
                } else if o.expansion is Some && !contains_id(es, o.expansion.unwrap()) {
                    Some(TreeExpansionError::UnknownExpansion { expansion: o.expansion.unwrap() })
                } else {
                    None
                }
            },
        }
    }
}

/// The expansion record a Tree macro registers.
pub open spec fn tree_expansion_of(
    id: ExpansionId,
    meta: MetadataView,
    origins: Seq<SourceOrigin>,
) -> ExpansionView {
    ExpansionView {
        id,
        kind: ExpansionKind::Tree,
        component: meta.component,
        hook: meta.hook,
        call_sites: dedup_into(Seq::empty(), origin_sites(origins)),
        definition_site: meta.definition_site,
        syntax_context: SyntaxContextId(id.0),
    }
}

/// What registering a Tree expansion at `cs` gives: an error, or the new source
/// view, the assigned expansion and its syntax context.
pub open spec fn tree_registration(
    s: MappedSourceView,
    cs: SpanView,
    meta: MetadataView,
    r: Result<(MappedSourceView, ExpansionId, SyntaxContextId), TreeExpansionError>,
) -> bool {
    if !cs.virtual_range.valid_for(s.vb()) {
        r == Err::<(MappedSourceView, ExpansionId, SyntaxContextId), TreeExpansionError>(
            TreeExpansionError::InvalidVirtualRange { range: cs.virtual_range },
        )
    } else if cs.origins.len() == 0 {
        r == Err::<(MappedSourceView, ExpansionId, SyntaxContextId), TreeExpansionError>(
            TreeExpansionError::MissingOrigins,
        )
    } else if call_origin_error(s.ob(), s.expansions, cs.origins) is Some {
        r == Err::<(MappedSourceView, ExpansionId, SyntaxContextId), TreeExpansionError>(
            call_origin_error(s.ob(), s.expansions, cs.origins).unwrap(),
        )
    } else {
        match next_expansion_id(s.expansions) {
            Err(e) => r == Err::<(MappedSourceView, ExpansionId, SyntaxContextId), TreeExpansionError>(
                TreeExpansionError::Expansion(e),
            ),
            Ok(id) => {
                let inp = s.expansions.push(tree_expansion_of(id, meta, cs.origins));
                match r {
                    Ok((v, rid, ctx)) => {
                        &&& rid == id
                        &&& ctx == SyntaxContextId(id.0)
                        &&& v.original == s.original
                        &&& v.virtual_source == s.virtual_source
                        &&& v.map == s.map
                        &&& graph_outcome(inp, Ok(v.expansions))
                    },
                    Err(TreeExpansionError::Expansion(e)) => graph_outcome(inp, Err(e)),
                    Err(_) => false,
                }
            },
        }
    }
}

/// The mathematical outcome of a Tree registration.
pub open spec fn tree_result_view(r: Result<TreeExpansionApplication, TreeExpansionError>) -> Result<
    (MappedSourceView, ExpansionId, SyntaxContextId),
    TreeExpansionError,
> {
    match r {
        Ok(a) => Ok((a.source@, a.expansion, a.syntax_context)),
        Err(e) => Err(e),
    }
}

/// A graph built from `es` plus one more expansion knows everything `es` knows.
proof fn lemma_knows_all_push(es: Seq<ExpansionView>, e: ExpansionView, g: Seq<ExpansionView>)
    requires
        graph_outcome(es.push(e), Ok(g)),
    ensures
        knows_all(es, g),
{
    assert forall|x: ExpansionId| contains_id(es, x) implies contains_id(g, x) by {
        let i = choose|i: int| 0 <= i < es.len() && es[i].id == x;
        assert(es.push(e)[i] == es[i]);
        assert(es.push(e).contains(es[i]));
        assert(g.contains(es[i]));
        let j = choose|j: int| 0 <= j < g.len() && g[j] == es[i];
        assert(g[j].id == x);
    }
}

/// Whether `v` already holds `site`.
fn contains_site(v: &Vec<ExpansionSite>, site: ExpansionSite) -> (r: bool)
    ensures
        r == v@.contains(site),
{
    let mut i: usize = 0;
    while i < v.len()
        invariant
            i <= v@.len(),
            forall|q: int| 0 <= q < i ==> v@[q] != site,
        decreases v@.len() - i,
    {
        if v[i] == site {
            proof {
                assert(v@[i as int] == site);
            }
            return true;
        }
        i = i + 1;
    }
    false
}

/// Appends the site of `o` unless it is already present (one step of [`dedup_into`]).
fn push_site_distinct(
    v: &mut Vec<ExpansionSite>,
    o: SourceOrigin,
    Ghost(items): Ghost<Seq<SourceOrigin>>,
)
    requires
        old(v)@ == dedup_into(Seq::empty(), origin_sites(items)),
    ensures
        final(v)@ == dedup_into(Seq::empty(), origin_sites(items.push(o))),
{
    proof {
        assert(origin_sites(items.push(o)) =~= origin_sites(items).push(origin_site(o)));
        assert(origin_sites(items).push(origin_site(o)).drop_last() =~= origin_sites(items));
    }
    let site = ExpansionSite { original_range: o.original_range, expansion: o.expansion };
    if !contains_site(v, site) {
        v.push(site);
    }
}

impl MappedSource {
    /// Registers the provenance of one Tree macro edit at an already mapped call site.
    ///
    /// The call site must be a valid range of the virtual text with at least one
    /// origin; every origin must be a valid range of the original text and refer to
    /// a known expansion. The new expansion receives the next identity, and its
    /// syntax context has the same number.
    pub fn register_tree_expansion(
        &self,
        call_site: &MappedSpan,
        metadata: TreeExpansion,
    ) -> (r: Result<TreeExpansionApplication, TreeExpansionError>)
        ensures
            tree_registration(self@, call_site@, metadata@, tree_result_view(r)),
    {
        proof {
            use_type_invariant(self);
        }
        let ghost ob = self@.ob();
        let ghost es = self@.expansions;
        let ghost os = call_site.origins@;
        if !call_site.virtual_range.is_valid_for(self.virtual_source.as_str()) {
            return Err(TreeExpansionError::InvalidVirtualRange { range: call_site.virtual_range });
        }
        if call_site.origins.len() == 0 {
            return Err(TreeExpansionError::MissingOrigins);
        }
        let mut call_sites: Vec<ExpansionSite> = Vec::new();
        let mut k: usize = 0;
        while k < call_site.origins.len()
            invariant
                os == call_site.origins@,
                os.len() > 0,
                call_site.virtual_range.valid_for(self@.vb()),
                ob == self@.ob(),
                es == self@.expansions,
                es == self.expansions@,
                k <= os.len(),
                call_origin_error(ob, es, os.take(k as int)) is None,
                call_sites@ == dedup_into(Seq::empty(), origin_sites(os.take(k as int))),
            decreases os.len() - k,
        {
            let origin = call_site.origins[k];
            proof {
                assert(os.take(k + 1).drop_last() =~= os.take(k as int));
                assert(os.take(k + 1).last() == origin);
                assert(os.take(k + 1) =~= os.take(k as int).push(origin));
            }
            if !origin.original_range.is_valid_for(self.original.as_str()) {
                proof {
                    assert(!origin.original_range.valid_for(ob));
                    assert(call_origin_error(ob, es, os.take(k + 1)) == Some(
                        TreeExpansionError::InvalidOriginalRange { range: origin.original_range },
                    ));
                    lemma_call_origin_prefix(ob, es, os, k + 1);
                }
                return Err(TreeExpansionError::InvalidOriginalRange { range: origin.original_range });
            }
            if let Some(expansion) = origin.expansion {
                if !self.expansions.contains(expansion) {
                    proof {
                        assert(call_origin_error(ob, es, os.take(k + 1)) == Some(
                            TreeExpansionError::UnknownExpansion { expansion },
                        ));
                        lemma_call_origin_prefix(ob, es, os, k + 1);
                    }
                    return Err(TreeExpansionError::UnknownExpansion { expansion });
                }
            }
            push_site_distinct(&mut call_sites, origin, Ghost(os.take(k as int)));
            k = k + 1;
        }
        proof {
            assert(os.take(os.len() as int) =~= os);
        }
        let expansion_id = match self.expansions.next_id() {
            Ok(id) => id,
            Err(e) => return Err(TreeExpansionError::Expansion(e)),
        };
        let syntax_context = SyntaxContextId::new(expansion_id.get());
        let ghost meta = metadata@;
        let expansion = Expansion {
            id: expansion_id,
            kind: ExpansionKind::Tree,
            component: metadata.component,
            hook: metadata.hook,
            call_sites,
            definition_site: metadata.definition_site,
            syntax_context,
        };
        proof {
            assert(expansion@ == tree_expansion_of(expansion_id, meta, os));
        }
        let graph = match self.expansions.with_expansion(expansion) {
            Ok(g) => g,
            Err(e) => return Err(TreeExpansionError::Expansion(e)),
        };
        proof {
            lemma_knows_all_push(es, tree_expansion_of(expansion_id, meta, os), graph@);
            lemma_map_wf_grow(ob, self@.vb(), self@.map, es, graph@);
        }
        let source = MappedSource {
            original: self.original.clone(),
            virtual_source: self.virtual_source.clone(),
            source_map: self.source_map.clone(),
            expansions: graph,
        };
        Ok(TreeExpansionApplication { source, expansion: expansion_id, syntax_context })
    }
}

/// Once a prefix of the origins has a problem, that problem is the first one.
proof fn lemma_call_origin_prefix(ob: Seq<u8>, es: Seq<ExpansionView>, os: Seq<SourceOrigin>, m: int)
    requires
        0 <= m <= os.len(),
        call_origin_error(ob, es, os.take(m)) is Some,
    ensures
        call_origin_error(ob, es, os) == call_origin_error(ob, es, os.take(m)),
    decreases os.len() - m,
{
    if m < os.len() {
        assert(os.take(m + 1).drop_last() =~= os.take(m));
        lemma_call_origin_prefix(ob, es, os, m + 1);
    } else {
        assert(os.take(m) =~= os);
    }
}

/// Atomic replacement requested by one Text macro invocation.
#[derive(Debug, PartialEq, Eq)]
pub struct TextEdit {
    pub range: TextRange,
    pub replacement: String,
    pub anchor: Option<usize>,
}

/// Mathematical value of a [`TextEdit`].
pub struct TextEditView {
    pub range: TextRange,
    pub replacement: Seq<char>,
    pub anchor: Option<usize>,
}

impl View for TextEdit {
    type V = TextEditView;

    open spec fn view(&self) -> TextEditView {
        TextEditView { range: self.range, replacement: self.replacement@, anchor: self.anchor }
    }
}

impl Clone for TextEdit {
    fn clone(&self) -> (r: Self)
        ensures
            r@ == self@,
    {
        TextEdit { range: self.range, replacement: self.replacement.clone(), anchor: self.anchor }
    }
}

impl TextEdit {
    /// Creates an unanchored replacement edit.
    pub fn new(range: TextRange, replacement: &str) -> (r: Self)
        ensures
            r@ == (TextEditView { range, replacement: replacement@, anchor: None }),
    {
        TextEdit { range, replacement: replacement.to_owned(), anchor: None }
    }

    /// Creates a replacement whose generated text originates at virtual offset `anchor`.
    pub fn anchored(range: TextRange, replacement: &str, anchor: usize) -> (r: Self)
        ensures
            r@ == (TextEditView { range, replacement: replacement@, anchor: Some(anchor) }),
    {
        TextEdit { range, replacement: replacement.to_owned(), anchor: Some(anchor) }
    }
}

/// Views of a vector of edits.
pub open spec fn edit_views(v: Seq<TextEdit>) -> Seq<TextEditView> {
    v.map_values(|e: TextEdit| e@)
}

/// `a` sorts no later than `b`: by range start, then by range end.
pub open spec fn edit_le(a: TextEditView, b: TextEditView) -> bool {
    a.range.start < b.range.start || (a.range.start == b.range.start && a.range.end <= b.range.end)
}

/// Inserts `e` into `s` after the trailing edits that sort after it.
pub open spec fn insert_edit(s: Seq<TextEditView>, e: TextEditView) -> Seq<TextEditView>
    decreases s.len(),
{
    if s.len() == 0 {
        seq![e]
    } else if edit_le(s.last(), e) {
        s.push(e)
    } else {
        insert_edit(s.drop_last(), e).push(s.last())
    }
}

/// The edits stably sorted by (start, end).
pub open spec fn sort_edits(s: Seq<TextEditView>) -> Seq<TextEditView>
    decreases s.len(),
{
    if s.len() == 0 {
        Seq::empty()
    } else {
        insert_edit(sort_edits(s.drop_last()), s.last())
    }
}

/// Total UTF-8 length of the replacements.
pub open spec fn edits_total(s: Seq<TextEditView>) -> int
    decreases s.len(),
{
    if s.len() == 0 {
        0
    } else {
        edits_total(s.drop_last()) + encode_utf8(s.last().replacement).len()
    }
}

proof fn lemma_insert_edit_at(s: Seq<TextEditView>, e: TextEditView, p: int)
    requires
        0 <= p <= s.len(),
        forall|q: int| p <= q < s.len() ==> !edit_le(#[trigger] s[q], e),
        p == 0 || edit_le(s[p - 1], e),
    ensures
        insert_edit(s, e) == s.take(p).push(e) + s.skip(p),
    decreases s.len(),
{
    if s.len() == 0 {
        assert(s.take(p).push(e) + s.skip(p) =~= seq![e]);
    } else if edit_le(s.last(), e) {
        assert(p == s.len()) by {
            if p < s.len() {
                assert(!edit_le(s[s.len() - 1], e));
            }
        }
        assert(s.take(p).push(e) + s.skip(p) =~= s.push(e));
    } else {
        let d = s.drop_last();
        assert(p < s.len());
        assert forall|q: int| p <= q < d.len() implies !edit_le(#[trigger] d[q], e) by {
            assert(d[q] == s[q]);
        }
        if p > 0 {
            assert(d[p - 1] == s[p - 1]);
        }
        lemma_insert_edit_at(d, e, p);
        assert(insert_edit(s, e) =~= s.take(p).push(e) + s.skip(p));
    }
}

proof fn lemma_insert_edit_sorted(s: Seq<TextEditView>, e: TextEditView)
    requires
        forall|i: int, j: int| 0 <= i < j < s.len() ==> edit_le(s[i], s[j]),
    ensures
        forall|i: int, j: int|
            0 <= i < j < insert_edit(s, e).len() ==> edit_le(insert_edit(s, e)[i], insert_edit(s, e)[j]),
        insert_edit(s, e).len() == s.len() + 1,
        edits_total(insert_edit(s, e)) == edits_total(s) + encode_utf8(e.replacement).len(),
    decreases s.len(),
{
    lemma_insert_edit_len(s, e);
    if s.len() == 0 {
        assert(seq![e].drop_last() =~= Seq::<TextEditView>::empty());
        assert(seq![e].last() == e);
        assert(edits_total(seq![e]) == edits_total(Seq::<TextEditView>::empty()) + encode_utf8(e.replacement).len());
    } else if edit_le(s.last(), e) {
        let r = s.push(e);
        assert(r.drop_last() =~= s);
        assert(r.last() == e);
        assert(edits_total(r) == edits_total(s) + encode_utf8(e.replacement).len());
        assert forall|i: int, j: int| 0 <= i < j < r.len() implies edit_le(r[i], r[j]) by {
            if j == s.len() {
                if i < s.len() - 1 {
                    assert(edit_le(s[i], s[s.len() - 1]));
                }
            }
        }
    } else {
        let d = s.drop_last();
        assert forall|i: int, j: int| 0 <= i < j < d.len() implies edit_le(d[i], d[j]) by {
            assert(d[i] == s[i] && d[j] == s[j]);
        }
        lemma_insert_edit_sorted(d, e);
        let t = insert_edit(d, e);
        let r = t.push(s.last());
        assert(r.drop_last() =~= t);
        assert(r.last() == s.last());
        assert(edits_total(r) == edits_total(t) + encode_utf8(s.last().replacement).len());
        assert(edits_total(s) == edits_total(d) + encode_utf8(s.last().replacement).len());
        assert forall|i: int| 0 <= i < t.len() implies edit_le(#[trigger] t[i], s.last()) by {
            lemma_insert_edit_member(d, e, i);
            if t[i] != e {
                let k = choose|k: int| 0 <= k < d.len() && t[i] == d[k];
                assert(d[k] == s[k]);
                assert(edit_le(s[k], s[s.len() - 1]));
            }
        }
        assert forall|i: int, j: int| 0 <= i < j < r.len() implies edit_le(r[i], r[j]) by {
            if j == t.len() {
                assert(edit_le(t[i], s.last()));
            } else {
                assert(r[i] == t[i] && r[j] == t[j]);
            }
        }
    }
}

/// Every element of `insert_edit(s, e)` is `e` or an element of `s`.
proof fn lemma_insert_edit_member(s: Seq<TextEditView>, e: TextEditView, i: int)
    requires
        0 <= i < insert_edit(s, e).len(),
        insert_edit(s, e).len() == s.len() + 1,
    ensures
        insert_edit(s, e)[i] == e || exists|k: int| 0 <= k < s.len() && insert_edit(s, e)[i] == s[k],
    decreases s.len(),
{
    if s.len() == 0 {
    } else if edit_le(s.last(), e) {
        if i < s.len() {
            assert(insert_edit(s, e)[i] == s[i]);
        }
    } else {
        let d = s.drop_last();
        lemma_insert_edit_len(d, e);
        if i < d.len() + 1 {
            lemma_insert_edit_member(d, e, i);
            if insert_edit(s, e)[i] != e {
                let k = choose|k: int| 0 <= k < d.len() && insert_edit(d, e)[i] == d[k];
                assert(s[k] == d[k]);
            }
        } else {
            assert(insert_edit(s, e)[i] == s[s.len() - 1]);
        }
    }
}

proof fn lemma_insert_edit_len(s: Seq<TextEditView>, e: TextEditView)
    ensures
        insert_edit(s, e).len() == s.len() + 1,
    decreases s.len(),
{
    if s.len() > 0 && !edit_le(s.last(), e) {
        lemma_insert_edit_len(s.drop_last(), e);
    }
}

/// Sorting keeps the length and the total replacement size, and sorts.
pub proof fn lemma_sort_edits(s: Seq<TextEditView>)
    ensures
        sort_edits(s).len() == s.len(),
        edits_total(sort_edits(s)) == edits_total(s),
        forall|i: int, j: int|
            0 <= i < j < sort_edits(s).len() ==> edit_le(sort_edits(s)[i], sort_edits(s)[j]),
    decreases s.len(),
{
    if s.len() > 0 {
        lemma_sort_edits(s.drop_last());
        lemma_insert_edit_sorted(sort_edits(s.drop_last()), s.last());
    }
}

/// Whether `a` sorts no later than `b`.
fn edit_le_exec(a: &TextEdit, b: &TextEdit) -> (r: bool)
    ensures
        r == edit_le(a@, b@),
{
    a.range.start < b.range.start || (a.range.start == b.range.start && a.range.end <= b.range.end)
}

/// Stably sorts edits by (start, end), as [`sort_edits`] describes.
fn sort_text_edits(edits: &Vec<TextEdit>) -> (r: Vec<TextEdit>)
    ensures
        edit_views(r@) == sort_edits(edit_views(edits@)),
{
    let ghost inp = edit_views(edits@);
    let mut out: Vec<TextEdit> = Vec::new();
    let mut i: usize = 0;
    while i < edits.len()
        invariant
            inp == edit_views(edits@),
            i <= edits@.len(),
            edit_views(out@) == sort_edits(inp.take(i as int)),
        decreases edits@.len() - i,
    {
        let e = edits[i].clone();
        let ghost sorted = edit_views(out@);
        proof {
            lemma_sort_edits(inp.take(i as int));
            assert(inp.take(i + 1).drop_last() =~= inp.take(i as int));
            assert(inp.take(i + 1).last() == e@);
        }
        let mut p: usize = out.len();
        while p > 0 && !edit_le_exec(&out[p - 1], &e)
            invariant
                sorted == edit_views(out@),
                p <= out@.len(),
                forall|q: int| p <= q < sorted.len() ==> !edit_le(#[trigger] sorted[q], e@),
            decreases p,
        {
            p = p - 1;
        }
        proof {
            lemma_insert_edit_at(sorted, e@, p as int);
        }
        out.insert(p, e);
        proof {
            assert(edit_views(out@) =~= sorted.take(p as int).push(e@) + sorted.skip(p as int));
        }
        i = i + 1;
    }
    proof {
        assert(inp.take(edits@.len() as int) =~= inp);
    }
    out
}

/// Mapped source and accounting returned after an accepted text-edit batch.
#[derive(Debug, PartialEq, Eq)]
pub struct TextEditApplication {
    pub source: MappedSource,
    pub expansion: Option<ExpansionId>,
    pub generated_bytes: usize,
}

/// Invalid or unrepresentable Text macro edit batch.
#[derive(Debug, Clone, PartialEq, Eq)]
pub enum TextEditError {
    InvalidRange { index: usize, range: TextRange },
    InvalidAnchor { index: usize, anchor: usize },
    NoOpEdit { index: usize },
    OverlappingEdits { first: usize, second: usize },
    Expansion(ExpansionGraphError),
    SourceMap(SourceMapError),
}

/// The problem of the edit at position `i` of a batch on virtual text `vb`, if any.
pub open spec fn edit_problem(vb: Seq<u8>, i: int, e: TextEditView) -> Option<TextEditError> {
    if !e.range.valid_for(vb) {
        Some(TextEditError::InvalidRange { index: i as usize, range: e.range })
    } else if e.range.start == e.range.end && e.replacement.len() == 0 {
        Some(TextEditError::NoOpEdit { index: i as usize })
    } else if e.anchor is Some && !(TextRange {
        start: e.anchor.unwrap(),
        end: e.anchor.unwrap(),
    }).valid_for(vb) {
        Some(TextEditError::InvalidAnchor { index: i as usize, anchor: e.anchor.unwrap() })
    } else {
        None
    }
}

/// The first problem among the first `n` edits.
pub open spec fn edits_problem(vb: Seq<u8>, s: Seq<TextEditView>, n: int) -> Option<TextEditError>
    decreases n,
{
    if n <= 0 {
        None
    } else {
        match edits_problem(vb, s, n - 1) {
            Some(e) => Some(e),
            None => edit_problem(vb, n - 1, s[n - 1]),
        }
    }
}

/// Edit `b`, sorted right after `a`, overlaps it or has no defined order against it.
pub open spec fn edits_overlap(a: TextEditView, b: TextEditView) -> bool {
    b.range.start < a.range.end || (b.range.start == a.range.start && (b.range.start
        == b.range.end || a.range.start == a.range.end))
}

/// The first overlapping neighbour pair among the first `n` sorted edits.
pub open spec fn overlap_problem(s: Seq<TextEditView>, n: int) -> Option<TextEditError>
    decreases n,
{
    if n <= 1 {
        None
    } else {
        match overlap_problem(s, n - 1) {
            Some(e) => Some(e),
            None => if edits_overlap(s[n - 2], s[n - 1]) {
                Some(TextEditError::OverlappingEdits { first: (n - 2) as usize, second: (n - 1) as usize })
            } else {
                None
            },
        }
    }
}

/// The problem that rejects a sorted batch on virtual text `vb`: per-edit problems
/// first, then overlaps.
pub open spec fn batch_error(vb: Seq<u8>, s: Seq<TextEditView>) -> Option<TextEditError> {
    match edits_problem(vb, s, s.len() as int) {
        Some(e) => Some(e),
        None => overlap_problem(s, s.len() as int),
    }
}

proof fn lemma_edits_problem_prefix(vb: Seq<u8>, s: Seq<TextEditView>, m: int, n: int)
    requires
        0 <= m <= n,
        edits_problem(vb, s, m) is Some,
    ensures
        edits_problem(vb, s, n) == edits_problem(vb, s, m),
    decreases n - m,
{
    if m < n {
        lemma_edits_problem_prefix(vb, s, m, n - 1);
    }
}

proof fn lemma_overlap_problem_prefix(s: Seq<TextEditView>, m: int, n: int)
    requires
        0 <= m <= n,
        overlap_problem(s, m) is Some,
    ensures
        overlap_problem(s, n) == overlap_problem(s, m),
    decreases n - m,
{
    if m < n {
        lemma_overlap_problem_prefix(s, m, n - 1);
    }
}

/// What a batch without problems guarantees about each edit and each neighbour pair.
proof fn lemma_batch_ok(vb: Seq<u8>, s: Seq<TextEditView>)
    requires
        batch_error(vb, s) is None,
    ensures
        forall|k: int| 0 <= k < s.len() ==> edit_problem(vb, k, #[trigger] s[k]) is None,
        forall|k: int| 1 <= k < s.len() ==> !edits_overlap(s[k - 1], #[trigger] s[k]),
{
    assert forall|k: int| 0 <= k < s.len() implies edit_problem(vb, k, #[trigger] s[k]) is None by {
        lemma_edits_none_prefix(vb, s, k + 1, s.len() as int);
    }
    assert forall|k: int| 1 <= k < s.len() implies !edits_overlap(s[k - 1], #[trigger] s[k]) by {
        lemma_overlap_none_prefix(s, k + 1, s.len() as int);
    }
}

proof fn lemma_edits_none_prefix(vb: Seq<u8>, s: Seq<TextEditView>, m: int, n: int)
    requires
        0 <= m <= n,
        edits_problem(vb, s, n) is None,
    ensures
        edits_problem(vb, s, m) is None,
    decreases n - m,
{
    if m < n {
        lemma_edits_none_prefix(vb, s, m + 1, n);
    }
}

proof fn lemma_overlap_none_prefix(s: Seq<TextEditView>, m: int, n: int)
    requires
        0 <= m <= n,
        overlap_problem(s, n) is None,
    ensures
        overlap_problem(s, m) is None,
    decreases n - m,
{
    if m < n {
        lemma_overlap_none_prefix(s, m + 1, n);
    }
}

/// The virtual range whose origins an edit takes: its anchor, or the range it replaces.
pub open spec fn edit_lookup(e: TextEditView) -> TextRange {
    match e.anchor {
        Some(a) => TextRange { start: a, end: a },
        None => e.range,
    }
}

/// Origins of the virtual text an edit replaces or is anchored at.
pub open spec fn edit_origins(m: SourceMapView, e: TextEditView) -> Seq<SourceOrigin> {
    match map_range_result(m, edit_lookup(e)) {
        Ok(span) => span.origins,
        Err(_) => Seq::empty(),
    }
}

/// Origins of every edit of a batch, in batch order.
pub open spec fn batch_origins(m: SourceMapView, s: Seq<TextEditView>) -> Seq<SourceOrigin> {
    s.map_values(|e: TextEditView| edit_origins(m, e)).flatten()
}

/// Distinct call sites of a batch, in order of first appearance.
pub open spec fn batch_sites(m: SourceMapView, s: Seq<TextEditView>) -> Seq<ExpansionSite> {
    dedup_into(Seq::empty(), origin_sites(batch_origins(m, s)))
}

/// The expansion record a Text macro batch registers.
pub open spec fn text_expansion_of(
    id: ExpansionId,
    meta: MetadataView,
    sites: Seq<ExpansionSite>,
) -> ExpansionView {
    ExpansionView {
        id,
        kind: ExpansionKind::Text,
        component: meta.component,
        hook: meta.hook,
        call_sites: sites,
        definition_site: meta.definition_site,
        syntax_context: SyntaxContextId(id.0),
    }
}

impl MappedSource {
    /// Finds the first per-edit problem, then the first overlapping neighbours.
    fn validate_text_edits(&self, edits: &Vec<TextEdit>) -> (r: Result<(), TextEditError>)
        ensures
            r == (match batch_error(self@.vb(), edit_views(edits@)) {
                Some(e) => Err(e),
                None => Ok(()),
            }),
    {
        let ghost vb = self@.vb();
        let ghost s = edit_views(edits@);
        let vs = self.virtual_source.as_str();
        let mut index: usize = 0;
        while index < edits.len()
            invariant
                vb == self@.vb(),
                vb == bytes_of(vs),
                s == edit_views(edits@),
                index <= s.len(),
                edits_problem(vb, s, index as int) is None,
            decreases s.len() - index,
        {
            let edit = &edits[index];
            proof {
                assert(s[index as int] == edit@);
            }
            if !edit.range.is_valid_for(vs) {
                proof {
                    lemma_edits_problem_prefix(vb, s, index + 1, s.len() as int);
                }
                return Err(TextEditError::InvalidRange { index, range: edit.range });
            }
            if edit.range.is_empty() && edit.replacement.as_str().is_empty() {
                proof {
                    lemma_edits_problem_prefix(vb, s, index + 1, s.len() as int);
                }
                return Err(TextEditError::NoOpEdit { index });
            }
            if let Some(anchor) = edit.anchor {
                if !TextRange::empty(anchor).is_valid_for(vs) {
                    proof {
                        lemma_edits_problem_prefix(vb, s, index + 1, s.len() as int);
                    }
                    return Err(TextEditError::InvalidAnchor { index, anchor });
                }
            }
            index = index + 1;
        }
        let mut index: usize = 1;
        while index < edits.len()
            invariant
                s == edit_views(edits@),
                vb == self@.vb(),
                1 <= index,
                index <= s.len() || s.len() == 0,
                edits_problem(vb, s, s.len() as int) is None,
                overlap_problem(s, index as int) is None,
            decreases s.len() - index,
        {
            let previous = &edits[index - 1];
            let current = &edits[index];
            proof {
                assert(s[index - 1] == previous@);
                assert(s[index as int] == current@);
            }
            let overlaps = current.range.start < previous.range.end || (current.range.start
                == previous.range.start && (current.range.is_empty() || previous.range.is_empty()));
            if overlaps {
                proof {
                    assert(edits_overlap(s[index - 1], s[index as int]));
                    assert(overlap_problem(s, index + 1) == Some(
                        TextEditError::OverlappingEdits { first: (index - 1) as usize, second: index },
                    ));
                    lemma_overlap_problem_prefix(s, index + 1, s.len() as int);
                }
                return Err(TextEditError::OverlappingEdits { first: index - 1, second: index });
            }
            index = index + 1;
        }
        proof {
            if s.len() > 0 {
                assert(index == s.len());
            }
        }
        Ok(())
    }
}

/// The origin generated text takes from an origin of the text it replaces:
/// anchored at a zero-width origin, otherwise replacing the whole origin range.
pub open spec fn generated_origin(o: SourceOrigin, id: ExpansionId) -> SourceOrigin {
    if o.original_range.start == o.original_range.end {
        SourceOrigin {
            original_range: TextRange { start: o.original_range.start, end: o.original_range.start },
            kind: OriginKind::Anchored,
            expansion: Some(id),
        }
    } else {
        SourceOrigin { original_range: o.original_range, kind: OriginKind::Replaced, expansion: Some(id) }
    }
}

/// Distinct generated origins of one edit's replacement text.
pub open spec fn edit_generated_origins(m: SourceMapView, e: TextEditView, id: ExpansionId) -> Seq<SourceOrigin> {
    dedup_into(Seq::empty(), edit_origins(m, e).map_values(|o: SourceOrigin| generated_origin(o, id)))
}

/// Distinct generated origins of every edit of a batch.
pub open spec fn batch_generated_origins(m: SourceMapView, s: Seq<TextEditView>, id: ExpansionId) -> Seq<SourceOrigin> {
    dedup_into(Seq::empty(), s.map_values(|e: TextEditView| edit_generated_origins(m, e, id)).flatten())
}

/// Where the untouched text resumes after the first `n` sorted edits.
pub open spec fn edit_cursor(s: Seq<TextEditView>, n: int) -> int {
    if n <= 0 {
        0
    } else {
        s[n - 1].range.end as int
    }
}

/// Bytes of `vb` with the first `n` sorted edits applied, up to the end of the last one.
pub open spec fn spliced_prefix(vb: Seq<u8>, s: Seq<TextEditView>, n: int) -> Seq<u8>
    decreases n,
{
    if n <= 0 {
        Seq::empty()
    } else {
        spliced_prefix(vb, s, n - 1) + vb.subrange(edit_cursor(s, n - 1), s[n - 1].range.start as int)
            + encode_utf8(s[n - 1].replacement)
    }
}

/// Bytes of `vb` with every sorted, non-overlapping edit of `s` applied.
pub open spec fn spliced(vb: Seq<u8>, s: Seq<TextEditView>) -> Seq<u8> {
    spliced_prefix(vb, s, s.len() as int) + vb.subrange(edit_cursor(s, s.len() as int), vb.len() as int)
}

/// The segment a copy of the untouched range `range` to offset `base` takes
/// from segment `seg` of the old map: its overlap, moved, with the origins of
/// that overlap.
pub open spec fn preserved_piece(seg: SegmentView, range: TextRange, base: int) -> Seq<SegmentView> {
    match seg.virtual_range.spec_intersection(range) {
        Some(ov) => seq![
            SegmentView {
                virtual_range: TextRange {
                    start: (base + (ov.start - range.start)) as usize,
                    end: (base + (ov.end - range.start)) as usize,
                },
                origins: overlap_origins(seg, ov),
            },
        ],
        None => Seq::empty(),
    }
}

/// The segments a copy of `range` to offset `base` takes from the first `k`
/// segments of `m`.
pub open spec fn preserved_upto(m: SourceMapView, range: TextRange, base: int, k: int) -> Seq<SegmentView>
    decreases k,
{
    if k <= 0 {
        Seq::empty()
    } else {
        preserved_upto(m, range, base, k - 1) + preserved_piece(m.segments[k - 1], range, base)
    }
}

/// The segments that keep the provenance of the untouched range `range` of `m`
/// when it is copied to offset `base`.
pub open spec fn preserved_segments(m: SourceMapView, range: TextRange, base: int) -> Seq<SegmentView> {
    if range.start == range.end {
        Seq::empty()
    } else {
        preserved_upto(m, range, base, m.segments.len() as int)
    }
}

/// The segments for the first `n` sorted edits of `s`: untouched text before
/// each edit keeps its provenance, and non-empty replacement text maps to the
/// generated origins of its edit.
#[verifier::opaque]
pub open spec fn spliced_segments_upto(
    m: SourceMapView,
    vb: Seq<u8>,
    s: Seq<TextEditView>,
    id: ExpansionId,
    n: int,
) -> Seq<SegmentView>
    decreases n,
{
    if n <= 0 {
        Seq::empty()
    } else {
        let cur = edit_cursor(s, n - 1);
        let e = s[n - 1];
        let base = spliced_prefix(vb, s, n - 1).len() as int;
        let start = base + (e.range.start - cur);
        let len = encode_utf8(e.replacement).len() as int;
        spliced_segments_upto(m, vb, s, id, n - 1) + preserved_segments(
            m,
            TextRange { start: cur as usize, end: e.range.start },
            base,
        ) + if len > 0 {
            seq![
                SegmentView {
                    virtual_range: TextRange { start: start as usize, end: (start + len) as usize },
                    origins: edit_generated_origins(m, e, id),
                },
            ]
        } else {
            Seq::empty()
        }
    }
}

/// The segments of the map after the sorted edits `s`: those of each edit, then
/// the untouched tail; text that ends up empty maps to every generated origin.
#[verifier::opaque]
pub open spec fn spliced_segments(m: SourceMapView, vb: Seq<u8>, s: Seq<TextEditView>, id: ExpansionId) -> Seq<
    SegmentView,
> {
    let body = spliced_segments_upto(m, vb, s, id, s.len() as int) + preserved_segments(
        m,
        TextRange { start: edit_cursor(s, s.len() as int) as usize, end: vb.len() as usize },
        spliced_prefix(vb, s, s.len() as int).len() as int,
    );
    if spliced(vb, s).len() == 0 {
        body + seq![SegmentView { virtual_range: TextRange { start: 0, end: 0 }, origins: batch_generated_origins(m, s, id) }]
    } else {
        body
    }
}

/// The segments after the last edit: the tail, and for empty text the segment
/// of every generated origin.
proof fn lemma_spliced_tail(m: SourceMapView, vb: Seq<u8>, s: Seq<TextEditView>, id: ExpansionId, body: Seq<SegmentView>)
    requires
        body == spliced_segments_upto(m, vb, s, id, s.len() as int) + preserved_segments(
            m,
            TextRange { start: edit_cursor(s, s.len() as int) as usize, end: vb.len() as usize },
            spliced_prefix(vb, s, s.len() as int).len() as int,
        ),
    ensures
        spliced(vb, s).len() == 0 ==> spliced_segments(m, vb, s, id) == body.push(
            SegmentView { virtual_range: TextRange { start: 0, end: 0 }, origins: batch_generated_origins(m, s, id) },
        ),
        spliced(vb, s).len() != 0 ==> spliced_segments(m, vb, s, id) == body,
{
    reveal(spliced_segments);
    assert(body + seq![SegmentView { virtual_range: TextRange { start: 0, end: 0 }, origins: batch_generated_origins(m, s, id) }]
        =~= body.push(SegmentView { virtual_range: TextRange { start: 0, end: 0 }, origins: batch_generated_origins(m, s, id) }));
}

/// What applying the edit batch `inp` to `s` gives: an error, or the new source
/// view, the allocated expansion and the number of generated bytes.
pub open spec fn text_edit_outcome(
    s: MappedSourceView,
    inp: Seq<TextEditView>,
    meta: MetadataView,
    r: Result<(MappedSourceView, Option<ExpansionId>, usize), TextEditError>,
) -> bool {
    let sorted = sort_edits(inp);
    if inp.len() == 0 {
        r == Ok::<(MappedSourceView, Option<ExpansionId>, usize), TextEditError>((s, None, 0usize))
    } else if batch_error(s.vb(), sorted) is Some {
        r == Err::<(MappedSourceView, Option<ExpansionId>, usize), TextEditError>(
            batch_error(s.vb(), sorted).unwrap(),
        )
    } else {
        match next_expansion_id(s.expansions) {
            Err(e) => r == Err::<(MappedSourceView, Option<ExpansionId>, usize), TextEditError>(
                TextEditError::Expansion(e),
            ),
            Ok(id) => {
                let inp_g = s.expansions.push(text_expansion_of(id, meta, batch_sites(s.map, sorted)));
                match r {
                    Ok((v, eid, generated)) => {
                        &&& eid == Some(id)
                        &&& generated == edits_total(inp)
                        &&& v.original == s.original
                        &&& encode_utf8(v.virtual_source) == spliced(s.vb(), sorted)
                        &&& graph_outcome(inp_g, Ok(v.expansions))
                        &&& map_wf(v.ob(), v.vb(), v.map, v.expansions)
                        &&& v.map.segments == spliced_segments(s.map, s.vb(), sorted, id)
                    },
                    Err(TextEditError::Expansion(e)) => graph_outcome(inp_g, Err(e)),
                    Err(TextEditError::SourceMap(_)) => exists|g: Seq<ExpansionView>|
                        graph_outcome(inp_g, Ok(g)),
                    Err(_) => false,
                }
            },
        }
    }
}

/// The mathematical outcome of applying a text-edit batch.
pub open spec fn text_edit_result_view(r: Result<TextEditApplication, TextEditError>) -> Result<
    (MappedSourceView, Option<ExpansionId>, usize),
    TextEditError,
> {
    match r {
        Ok(a) => Ok((a.source@, a.expansion, a.generated_bytes)),
        Err(e) => Err(e),
    }
}

proof fn lemma_total_prefix(s: Seq<TextEditView>, k: int)
    requires
        0 <= k <= s.len(),
    ensures
        edits_total(s.take(k)) <= edits_total(s),
        k < s.len() ==> edits_total(s.take(k + 1)) == edits_total(s.take(k)) + encode_utf8(
            s[k].replacement,
        ).len(),
    decreases s.len() - k,
{
    if k < s.len() {
        assert(s.take(k + 1).drop_last() =~= s.take(k));
        assert(s.take(k + 1).last() == s[k]);
        lemma_total_prefix(s, k + 1);
    } else {
        assert(s.take(k) =~= s);
    }
}

impl MappedSource {
    /// Maps the anchor of an edit, or else its replaced range.
    fn mapped_edit_span(&self, edit: &TextEdit) -> (r: Result<MappedSpan, SourceMapError>)
        ensures
            match r {
                Ok(span) => self@.map_range(edit_lookup(edit@)) == Ok::<SpanView, SourceMapError>(span@),
                Err(e) => self@.map_range(edit_lookup(edit@)) == Err::<SpanView, SourceMapError>(e),
            },
    {
        if let Some(anchor) = edit.anchor {
            self.map_range(TextRange::empty(anchor))
        } else {
            self.map_range(edit.range)
        }
    }

    /// The origins of an edit whose range and anchor are valid.
    fn edit_origin_list(&self, edit: &TextEdit) -> (r: Vec<SourceOrigin>)
        requires
            edit_problem(self@.vb(), 0, edit@) is None,
        ensures
            r@ == edit_origins(self@.map, edit@),
    {
        proof {
            use_type_invariant(self);
        }
        match self.mapped_edit_span(edit) {
            Ok(span) => span.origins,
            Err(_) => {
                proof {
                    assert(false);
                }
                Vec::new()
            },
        }
    }

    /// Distinct call sites of a validated batch, in order of first appearance.
    fn text_edit_call_sites(&self, edits: &Vec<TextEdit>) -> (r: Vec<ExpansionSite>)
        requires
            forall|k: int| 0 <= k < edits@.len() ==> edit_problem(self@.vb(), k, #[trigger] edits@[k]@) is None,
        ensures
            r@ == batch_sites(self@.map, edit_views(edits@)),
    {
        let ghost m = self@.map;
        let ghost sv = edit_views(edits@);
        let ghost pieces = sv.map_values(|e: TextEditView| edit_origins(m, e));
        let mut call_sites: Vec<ExpansionSite> = Vec::new();
        let mut k: usize = 0;
        while k < edits.len()
            invariant
                m == self@.map,
                sv == edit_views(edits@),
                pieces == sv.map_values(|e: TextEditView| edit_origins(m, e)),
                forall|q: int| 0 <= q < edits@.len() ==> edit_problem(self@.vb(), q, #[trigger] edits@[q]@) is None,
                k <= edits@.len(),
                call_sites@ == dedup_into(Seq::empty(), origin_sites(pieces.take(k as int).flatten())),
            decreases edits@.len() - k,
        {
            let edit = &edits[k];
            proof {
                assert(edit_problem(self@.vb(), k as int, edits@[k as int]@) is None);
                assert(pieces[k as int] == edit_origins(m, edit@));
                assert(pieces.take(k + 1) =~= pieces.take(k as int).push(pieces[k as int]));
                pieces.take(k as int).lemma_flatten_push(pieces[k as int]);
            }
            let ghost flat = pieces.take(k as int).flatten();
            let origins = self.edit_origin_list(edit);
            let mut t: usize = 0;
            while t < origins.len()
                invariant
                    origins@ == pieces[k as int],
                    t <= origins@.len(),
                    call_sites@ == dedup_into(Seq::empty(), origin_sites(flat + origins@.take(t as int))),
                decreases origins@.len() - t,
            {
                proof {
                    assert(flat + origins@.take(t + 1) =~= (flat + origins@.take(t as int)).push(origins@[t as int]));
                }
                push_site_distinct(&mut call_sites, origins[t], Ghost(flat + origins@.take(t as int)));
                t = t + 1;
            }
            proof {
                assert(origins@.take(origins@.len() as int) =~= origins@);
            }
            k = k + 1;
        }
        proof {
            assert(pieces.take(pieces.len() as int) =~= pieces);
        }
        call_sites
    }

    /// Distinct generated origins of one validated edit's replacement text.
    fn generated_origins(&self, edit: &TextEdit, expansion: ExpansionId) -> (r: Vec<SourceOrigin>)
        requires
            edit_problem(self@.vb(), 0, edit@) is None,
        ensures
            r@ == edit_generated_origins(self@.map, edit@, expansion),
    {
        let mapped = self.edit_origin_list(edit);
        let ghost gen = mapped@.map_values(|o: SourceOrigin| generated_origin(o, expansion));
        let mut origins: Vec<SourceOrigin> = Vec::new();
        let mut t: usize = 0;
        while t < mapped.len()
            invariant
                gen == mapped@.map_values(|o: SourceOrigin| generated_origin(o, expansion)),
                t <= mapped@.len(),
                origins@ == dedup_into(Seq::empty(), gen.take(t as int)),
            decreases mapped@.len() - t,
        {
            let origin = mapped[t];
            let generated = if origin.original_range.is_empty() {
                SourceOrigin::anchored(origin.original_range.start, expansion)
            } else {
                SourceOrigin::replaced(origin.original_range, Some(expansion))
            };
            proof {
                assert(gen[t as int] == generated);
                assert(gen.take(t + 1) =~= gen.take(t as int).push(generated));
            }
            push_distinct(&mut origins, generated, Ghost(Seq::empty()), Ghost(gen.take(t as int)));
            t = t + 1;
        }
        proof {
            assert(gen.take(gen.len() as int) =~= gen);
        }
        origins
    }

    /// Distinct generated origins of every edit of a validated batch.
    fn generated_origins_for_edits(&self, edits: &Vec<TextEdit>, expansion: ExpansionId) -> (r: Vec<SourceOrigin>)
        requires
            forall|k: int| 0 <= k < edits@.len() ==> edit_problem(self@.vb(), k, #[trigger] edits@[k]@) is None,
        ensures
            r@ == batch_generated_origins(self@.map, edit_views(edits@), expansion),
    {
        let ghost m = self@.map;
        let ghost sv = edit_views(edits@);
        let ghost pieces = sv.map_values(|e: TextEditView| edit_generated_origins(m, e, expansion));
        let mut origins: Vec<SourceOrigin> = Vec::new();
        let mut k: usize = 0;
        while k < edits.len()
            invariant
                m == self@.map,
                sv == edit_views(edits@),
                pieces == sv.map_values(|e: TextEditView| edit_generated_origins(m, e, expansion)),
                forall|q: int| 0 <= q < edits@.len() ==> edit_problem(self@.vb(), q, #[trigger] edits@[q]@) is None,
                k <= edits@.len(),
                origins@ == dedup_into(Seq::empty(), pieces.take(k as int).flatten()),
            decreases edits@.len() - k,
        {
            let edit = &edits[k];
            proof {
                assert(edit_problem(self@.vb(), k as int, edits@[k as int]@) is None);
                assert(pieces[k as int] == edit_generated_origins(m, edit@, expansion));
                assert(pieces.take(k + 1) =~= pieces.take(k as int).push(pieces[k as int]));
                pieces.take(k as int).lemma_flatten_push(pieces[k as int]);
            }
            let ghost flat = pieces.take(k as int).flatten();
            let generated = self.generated_origins(edit, expansion);
            let mut t: usize = 0;
            while t < generated.len()
                invariant
                    generated@ == pieces[k as int],
                    t <= generated@.len(),
                    origins@ == dedup_into(Seq::empty(), flat + generated@.take(t as int)),
                decreases generated@.len() - t,
            {
                proof {
                    assert(flat + generated@.take(t + 1) =~= (flat + generated@.take(t as int)).push(generated@[t as int]));
                }
                push_distinct(&mut origins, generated[t], Ghost(Seq::empty()), Ghost(flat + generated@.take(t as int)));
                t = t + 1;
            }
            proof {
                assert(generated@.take(generated@.len() as int) =~= generated@);
            }
            k = k + 1;
        }
        proof {
            assert(pieces.take(pieces.len() as int) =~= pieces);
        }
        origins
    }
}

/// Total UTF-8 length of the replacements of a batch, saturating at `usize::MAX`.
fn total_generated_bytes(edits: &Vec<TextEdit>) -> (r: usize)
    requires
        edits_total(edit_views(edits@)) <= usize::MAX,
    ensures
        r == edits_total(edit_views(edits@)),
{
    let ghost s = edit_views(edits@);
    let mut generated_bytes: usize = 0;
    let mut k: usize = 0;
    while k < edits.len()
        invariant
            s == edit_views(edits@),
            k <= s.len(),
            generated_bytes == edits_total(s.take(k as int)),
            edits_total(s) <= usize::MAX,
        decreases s.len() - k,
    {
        proof {
            lemma_total_prefix(s, k as int);
            lemma_total_prefix(s, k + 1);
            assert(s[k as int] == edits@[k as int]@);
        }
        generated_bytes = generated_bytes.saturating_add(str_len(edits[k].replacement.as_str()));
        k = k + 1;
    }
    proof {
        assert(s.take(s.len() as int) =~= s);
    }
    generated_bytes
}

impl MappedSource {
    /// Builds the virtual text of a validated, sorted batch and its candidate segments.
    #[verifier::rlimit(100)]
    #[verifier::spinoff_prover]
    fn splice_text_edits(&self, sorted: &Vec<TextEdit>, expansion_id: ExpansionId) -> (r: (String, Vec<SourceMapSegment>))
        requires
            forall|q: int| 0 <= q < sorted@.len() ==> edit_problem(self@.vb(), q, #[trigger] sorted@[q]@) is None,
            forall|q: int| 1 <= q < sorted@.len() ==> !edits_overlap(sorted@[q - 1]@, #[trigger] sorted@[q]@),
            self@.vb().len() + edits_total(edit_views(sorted@)) <= usize::MAX,
        ensures
            encode_utf8(r.0@) == spliced(self@.vb(), edit_views(sorted@)),
            segment_views(r.1@) == spliced_segments(self@.map, self@.vb(), edit_views(sorted@), expansion_id),
    {
        let ghost vb = self@.vb();
        let ghost s = edit_views(sorted@);
        proof {
            assert forall|q: int| 0 <= q < s.len() implies edit_problem(vb, q, #[trigger] s[q]) is None by {
                assert(s[q] == sorted@[q]@);
            }
            assert forall|q: int| 1 <= q < s.len() implies !edits_overlap(s[q - 1], #[trigger] s[q]) by {
                assert(s[q] == sorted@[q]@);
                assert(s[q - 1] == sorted@[q - 1]@);
            }
        }
        let vs = self.virtual_source.as_str();
        let mut virtual_source = String::new();
        let mut segments: Vec<SourceMapSegment> = Vec::new();
        let mut cursor: usize = 0;
        let mut i: usize = 0;
        proof {
            assert(encode_utf8(virtual_source@) =~= Seq::<u8>::empty());
            assert(segment_views(segments@) =~= spliced_segments_upto(self@.map, vb, s, expansion_id, 0)) by {
                reveal(spliced_segments_upto);
            }
        }
        while i < sorted.len()
            invariant
                s == edit_views(sorted@),
                vb == self@.vb(),
                vb == bytes_of(vs),
                forall|q: int| 0 <= q < s.len() ==> edit_problem(vb, q, #[trigger] s[q]) is None,
                forall|q: int| 1 <= q < s.len() ==> !edits_overlap(s[q - 1], #[trigger] s[q]),
                i <= s.len(),
                cursor == edit_cursor(s, i as int),
                cursor <= vb.len(),
                boundary(vb, cursor as int),
                encode_utf8(virtual_source@) == spliced_prefix(vb, s, i as int),
                segment_views(segments@) == spliced_segments_upto(self@.map, vb, s, expansion_id, i as int),
                spliced_prefix(vb, s, i as int).len() <= cursor + edits_total(s.take(i as int)),
                vb.len() + edits_total(s) <= usize::MAX,
            decreases s.len() - i,
        {
            let edit = &sorted[i];
            proof {
                assert(s[i as int] == edit@);
                assert(edit_problem(vb, i as int, s[i as int]) is None);
                if i > 0 {
                    assert(!edits_overlap(s[i - 1], s[i as int]));
                }
                lemma_total_prefix(s, i as int);
                lemma_total_prefix(s, i + 1);
            }
            let ghost before = virtual_source@;
            let ghost segs_prev = segment_views(segments@);
            self.append_preserved_range(TextRange::new(cursor, edit.range.start), &mut virtual_source, &mut segments);
            let ghost segs_mid = segment_views(segments@);
            let replacement_start = str_len(virtual_source.as_str());
            let ghost mid = virtual_source@;
            virtual_source.append(edit.replacement.as_str());
            proof {
                lemma_encode_concat(mid, edit.replacement@);
                assert(spliced_prefix(vb, s, i + 1) == spliced_prefix(vb, s, i as int) + vb.subrange(
                    cursor as int,
                    edit.range.start as int,
                ) + encode_utf8(edit.replacement@));
            }
            let replacement_end = str_len(virtual_source.as_str());
            proof {
                assert(replacement_end == replacement_start + encode_utf8(edit.replacement@).len());
                assert(replacement_start == spliced_prefix(vb, s, i as int).len() + (edit.range.start - cursor));
            }
            if replacement_start != replacement_end {
                let origins = self.generated_origins(edit, expansion_id);
                segments.push(
                    SourceMapSegment::with_origins(TextRange::new(replacement_start, replacement_end), origins),
                );
                proof {
                    assert(segment_views(segments@) =~= segs_mid.push(segments@[segments@.len() - 1]@));
                }
            }
            proof {
                assert(segment_views(segments@) =~= spliced_segments_upto(self@.map, vb, s, expansion_id, i + 1)) by {
                    reveal(spliced_segments_upto);
                }
            }
            cursor = edit.range.end;
            i = i + 1;
        }
        self.finish_splice(sorted, expansion_id, cursor, virtual_source, segments)
    }

    /// Appends the text after the last edit, and the segment an empty result still needs.
    #[verifier::rlimit(100)]
    #[verifier::spinoff_prover]
    fn finish_splice(
        &self,
        sorted: &Vec<TextEdit>,
        expansion_id: ExpansionId,
        cursor: usize,
        virtual_source: String,
        segments: Vec<SourceMapSegment>,
    ) -> (r: (String, Vec<SourceMapSegment>))
        requires
            forall|q: int| 0 <= q < sorted@.len() ==> edit_problem(self@.vb(), q, #[trigger] sorted@[q]@) is None,
            cursor == edit_cursor(edit_views(sorted@), sorted@.len() as int),
            cursor <= self@.vb().len(),
            boundary(self@.vb(), cursor as int),
            encode_utf8(virtual_source@) == spliced_prefix(self@.vb(), edit_views(sorted@), sorted@.len() as int),
            segment_views(segments@) == spliced_segments_upto(
                self@.map,
                self@.vb(),
                edit_views(sorted@),
                expansion_id,
                sorted@.len() as int,
            ),
            spliced_prefix(self@.vb(), edit_views(sorted@), sorted@.len() as int).len() <= cursor + edits_total(
                edit_views(sorted@).take(sorted@.len() as int),
            ),
            self@.vb().len() + edits_total(edit_views(sorted@)) <= usize::MAX,
        ensures
            encode_utf8(r.0@) == spliced(self@.vb(), edit_views(sorted@)),
            segment_views(r.1@) == spliced_segments(self@.map, self@.vb(), edit_views(sorted@), expansion_id),
    {
        let ghost vb = self@.vb();
        let ghost s = edit_views(sorted@);
        let vs = self.virtual_source.as_str();
        let mut virtual_source = virtual_source;
        let mut segments = segments;
        proof {
            assert(s.take(s.len() as int) =~= s);
        }
        let ghost before = virtual_source@;
        self.append_preserved_range(TextRange::new(cursor, str_len(vs)), &mut virtual_source, &mut segments);
        let ghost body = segment_views(segments@);
        proof {
            assert(encode_utf8(virtual_source@) == spliced(vb, s));
            lemma_spliced_tail(self@.map, vb, s, expansion_id, body);
            if virtual_source@.len() > 0 {
                lemma_encode_nonempty(virtual_source@);
            }
        }
        if virtual_source.as_str().is_empty() {
            let origins = self.generated_origins_for_edits(sorted, expansion_id);
            segments.push(SourceMapSegment::with_origins(TextRange::empty(0), origins));
            proof {
                assert(segment_views(segments@) =~= body.push(segments@[segments@.len() - 1]@));
            }
        }
        (virtual_source, segments)
    }
}

impl MappedSource {
    /// Appends the untouched virtual text `range` to `output`, with segments that
    /// keep the provenance of the current map.
    fn append_preserved_range(
        &self,
        range: TextRange,
        output: &mut String,
        segments: &mut Vec<SourceMapSegment>,
    )
        requires
            range.valid_for(self@.vb()),
            encode_utf8(old(output)@).len() + range.spec_len() <= usize::MAX,
        ensures
            encode_utf8(final(output)@) == encode_utf8(old(output)@) + self@.vb().subrange(
                range.start as int,
                range.end as int,
            ),
            segment_views(final(segments)@) == segment_views(old(segments)@) + preserved_segments(
                self@.map,
                range,
                encode_utf8(old(output)@).len() as int,
            ),
    {
        proof {
            use_type_invariant(self);
            lemma_map_wf(self@.ob(), self@.vb(), self@.map, self@.expansions);
        }
        let ghost vb = self@.vb();
        let ghost segs0 = segment_views(segments@);
        if range.is_empty() {
            proof {
                assert(vb.subrange(range.start as int, range.end as int) =~= Seq::<u8>::empty());
                assert(encode_utf8(output@) + Seq::<u8>::empty() =~= encode_utf8(output@));
                assert(segs0 + Seq::<SegmentView>::empty() =~= segs0);
            }
            return;
        }
        let piece = str_slice(self.virtual_source.as_str(), range.start, range.end);
        let base = str_len(output.as_str());
        let ghost before = output@;
        output.append(piece);
        proof {
            lemma_encode_concat(before, piece@);
        }
        let mut k: usize = 0;
        proof {
            assert(segment_views(segments@) =~= segs0 + preserved_upto(self@.map, range, base as int, 0));
        }
        while k < self.source_map.segments.len()
            invariant
                segment_views(segments@) == segs0 + preserved_upto(self@.map, range, base as int, k as int),
                segs0 == segment_views(old(segments)@),
                range.start != range.end,
                self@.map == self.source_map@,
                base == encode_utf8(before).len(),
                base + range.spec_len() <= usize::MAX,
                range.start <= range.end,
                k <= self.source_map.segments@.len(),
                map_wf(self@.ob(), self@.vb(), self.source_map@, self@.expansions),
                forall|j: int|
                    0 <= j < self.source_map@.segments.len() ==> segment_error(
                        self@.ob(),
                        self@.vb(),
                        #[trigger] self.source_map@.segments[j],
                        self@.expansions,
                    ) is None,
            decreases self.source_map.segments@.len() - k,
        {
            let segment = &self.source_map.segments[k];
            proof {
                assert(self.source_map@.segments[k as int] == segment@);
            }
            let ghost segs_before = segment_views(segments@);
            if let Some(overlap) = segment.virtual_range.intersection(range) {
                let start = base + (overlap.start - range.start);
                let end = base + (overlap.end - range.start);
                let origins = SourceMap::map_overlap(
                    segment,
                    overlap,
                    Ghost(self@.ob()),
                    Ghost(self@.vb()),
                    Ghost(self@.expansions),
                );
                segments.push(SourceMapSegment::with_origins(TextRange::new(start, end), origins));
                proof {
                    assert(segment_views(segments@) =~= segs_before.push(segments@[segments@.len() - 1]@));
                }
            }
            proof {
                assert(segment_views(segments@) =~= segs0 + preserved_upto(self@.map, range, base as int, k + 1));
            }
            k = k + 1;
        }
        proof {
            assert(self@.map.segments.len() == self.source_map.segments@.len());
        }
    }

    /// Validates and atomically applies one Text macro edit batch.
    ///
    /// Edits may be supplied in any order, but their ranges must not overlap.
    /// Empty batches return an unchanged clone without allocating an expansion
    /// ID. Inserted text can use [`TextEdit::anchored`] when its diagnostic origin
    /// should be a specific zero-width call site. No partial edit is applied.
    pub fn apply_text_edits(&self, edits: Vec<TextEdit>, metadata: TextExpansion) -> (r: Result<
        TextEditApplication,
        TextEditError,
    >)
        requires
            self@.vb().len() + edits_total(edit_views(edits@)) <= usize::MAX,
        ensures
            text_edit_outcome(self@, edit_views(edits@), metadata@, text_edit_result_view(r)),
    {
        proof {
            use_type_invariant(self);
        }
        let ghost vb = self@.vb();
        let ghost inp = edit_views(edits@);
        if edits.len() == 0 {
            return Ok(TextEditApplication { source: self.clone(), expansion: None, generated_bytes: 0 });
        }
        let sorted = sort_text_edits(&edits);
        let ghost s = edit_views(sorted@);
        proof {
            lemma_sort_edits(inp);
        }
        if let Err(e) = self.validate_text_edits(&sorted) {
            return Err(e);
        }
        proof {
            lemma_batch_ok(vb, s);
            assert forall|k: int| 0 <= k < sorted@.len() implies edit_problem(vb, k, #[trigger] sorted@[k]@) is None by {
                assert(s[k] == sorted@[k]@);
            }
        }
        let expansion_id = match self.expansions.next_id() {
            Ok(id) => id,
            Err(e) => return Err(TextEditError::Expansion(e)),
        };
        let call_sites = self.text_edit_call_sites(&sorted);
        let ghost meta = metadata@;
        let expansion = Expansion {
            id: expansion_id,
            kind: ExpansionKind::Text,
            component: metadata.component,
            hook: metadata.hook,
            call_sites,
            definition_site: metadata.definition_site,
            syntax_context: SyntaxContextId::new(expansion_id.get()),
        };
        proof {
            assert(expansion@ == text_expansion_of(expansion_id, meta, batch_sites(self@.map, s)));
        }
        let expansions = match self.expansions.with_expansion(expansion) {
            Ok(g) => g,
            Err(e) => return Err(TextEditError::Expansion(e)),
        };
        let ghost graph = expansions@;

        proof {
            assert forall|q: int| 1 <= q < sorted@.len() implies !edits_overlap(sorted@[q - 1]@, #[trigger] sorted@[q]@) by {
                assert(s[q] == sorted@[q]@);
                assert(s[q - 1] == sorted@[q - 1]@);
            }
        }
        let generated_bytes = total_generated_bytes(&sorted);
        let (virtual_source, segments) = self.splice_text_edits(&sorted, expansion_id);
        match MappedSource::new(self.original.as_str(), virtual_source.as_str(), expansions, segments) {
            Ok(source) => Ok(TextEditApplication { source, expansion: Some(expansion_id), generated_bytes }),
            Err(e) => Err(TextEditError::SourceMap(e)),
        }
    }
}

/// Every valid range of the virtual text of a valid mapped source has a mapping.
pub proof fn lemma_valid_range_maps(v: MappedSourceView, range: TextRange)
    requires
        map_wf(v.ob(), v.vb(), v.map, v.expansions),
        range.valid_for(v.vb()),
    ensures
        v.map_range(range) is Ok,
        v.map_range(range).unwrap().virtual_range == range,
{
}


/// `start..end` of a range, in decimal.
pub open spec fn range_text(r: TextRange) -> Seq<char> {
    crate::raw_tree::decimal(r.start as nat) + seq!['.', '.'] + crate::raw_tree::decimal(r.end as nat)
}

/// Appends `start..end` of a range.
fn push_range(out: &mut String, r: TextRange)
    ensures
        final(out)@ == old(out)@ + range_text(r),
{
    let ghost before = out@;
    crate::raw_tree::push_offset(out, r.start);
    out.append("..");
    proof {
        reveal_strlit("..");
    }
    crate::raw_tree::push_offset(out, r.end);
    proof {
        assert(out@ =~= before + range_text(r));
    }
}

/// The message text of a source-map error.
pub open spec fn source_map_error_text(e: SourceMapError) -> Seq<char> {
    match e {
        SourceMapError::InvalidRange { input, range } => "invalid "@ + input@ + " byte range "@ + range_text(range),
        SourceMapError::MissingOrigins { range } => "source map segment "@ + range_text(range) + " has no origins"@,
        SourceMapError::MultipleExactOrigins { range } => "exact source map segment "@ + range_text(range)
            + " must have exactly one origin"@,
        SourceMapError::EmptyVirtualSourceMapping => "empty virtual source must have exactly one zero-width mapping at byte 0"@,
        SourceMapError::EmptySegment { range } => "non-empty virtual source has an empty mapping segment at "@
            + range_text(range),
        SourceMapError::Overlap { previous_end, next_start } => "source map segments overlap: previous ends at "@
            + crate::raw_tree::decimal(previous_end as nat) + ", next starts at "@ + crate::raw_tree::decimal(
            next_start as nat,
        ),
        SourceMapError::Gap { expected_start, actual_start } => "source map has a gap: expected byte "@
            + crate::raw_tree::decimal(expected_start as nat) + ", next starts at "@ + crate::raw_tree::decimal(
            actual_start as nat,
        ),
        SourceMapError::IncompleteCoverage { covered_end, virtual_len } => "source map covers through byte "@
            + crate::raw_tree::decimal(covered_end as nat) + ", but virtual source length is "@
            + crate::raw_tree::decimal(virtual_len as nat),
        SourceMapError::ExactLengthMismatch { virtual_range, original_range } =>
            "exact mapping length mismatch between virtual "@ + range_text(virtual_range) + " and original "@
            + range_text(original_range),
        SourceMapError::ExactTextMismatch { virtual_range, original_range } =>
            "exact mapping text mismatch between virtual "@ + range_text(virtual_range) + " and original "@
            + range_text(original_range),
        SourceMapError::NonEmptyAnchor { range } => "anchor mapping must use an empty original range, found "@
            + range_text(range),
        SourceMapError::AnchorWithoutExpansion => "anchor mapping must reference the expansion that generated it"@,
        SourceMapError::UnknownExpansion { expansion } => "source map references unknown expansion "@
            + crate::raw_tree::decimal(expansion.0 as nat),
        SourceMapError::InvalidExpansionSite { expansion, site, range } => "expansion "@ + crate::raw_tree::decimal(
            expansion.0 as nat,
        ) + " has invalid "@ + site@ + " range "@ + range_text(range) + " in the original source"@,
    }
}

impl SourceMapError {
    /// The human-readable message of the error.
    pub fn message(&self) -> (r: String)
        ensures
            r@ == source_map_error_text(*self),
    {
        let mut out = String::new();
        match self {
            SourceMapError::InvalidRange { input, range } => {
                out.append("invalid ");
                out.append(input);
                out.append(" byte range ");
                push_range(&mut out, *range);
            },
            SourceMapError::MissingOrigins { range } => {
                out.append("source map segment ");
                push_range(&mut out, *range);
                out.append(" has no origins");
            },
            SourceMapError::MultipleExactOrigins { range } => {
                out.append("exact source map segment ");
                push_range(&mut out, *range);
                out.append(" must have exactly one origin");
            },
            SourceMapError::EmptyVirtualSourceMapping => {
                out.append("empty virtual source must have exactly one zero-width mapping at byte 0");
            },
            SourceMapError::EmptySegment { range } => {
                out.append("non-empty virtual source has an empty mapping segment at ");
                push_range(&mut out, *range);
            },
            SourceMapError::Overlap { previous_end, next_start } => {
                out.append("source map segments overlap: previous ends at ");
                crate::raw_tree::push_offset(&mut out, *previous_end);
                out.append(", next starts at ");
                crate::raw_tree::push_offset(&mut out, *next_start);
            },
            SourceMapError::Gap { expected_start, actual_start } => {
                out.append("source map has a gap: expected byte ");
                crate::raw_tree::push_offset(&mut out, *expected_start);
                out.append(", next starts at ");
                crate::raw_tree::push_offset(&mut out, *actual_start);
            },
            SourceMapError::IncompleteCoverage { covered_end, virtual_len } => {
                out.append("source map covers through byte ");
                crate::raw_tree::push_offset(&mut out, *covered_end);
                out.append(", but virtual source length is ");
                crate::raw_tree::push_offset(&mut out, *virtual_len);
            },
            SourceMapError::ExactLengthMismatch { virtual_range, original_range } => {
                out.append("exact mapping length mismatch between virtual ");
                push_range(&mut out, *virtual_range);
                out.append(" and original ");
                push_range(&mut out, *original_range);
            },
            SourceMapError::ExactTextMismatch { virtual_range, original_range } => {
                out.append("exact mapping text mismatch between virtual ");
                push_range(&mut out, *virtual_range);
                out.append(" and original ");
                push_range(&mut out, *original_range);
            },
            SourceMapError::NonEmptyAnchor { range } => {
                out.append("anchor mapping must use an empty original range, found ");
                push_range(&mut out, *range);
            },
            SourceMapError::AnchorWithoutExpansion => {
                out.append("anchor mapping must reference the expansion that generated it");
            },
            SourceMapError::UnknownExpansion { expansion } => {
                out.append("source map references unknown expansion ");
                crate::raw_tree::push_decimal(&mut out, expansion.0);
            },
            SourceMapError::InvalidExpansionSite { expansion, site, range } => {
                out.append("expansion ");
                crate::raw_tree::push_decimal(&mut out, expansion.0);
                out.append(" has invalid ");
                out.append(site);
                out.append(" range ");
                push_range(&mut out, *range);
                out.append(" in the original source");
            },
        }
        proof {
            assert(out@ =~= source_map_error_text(*self));
        }
        out
    }
}

} // verus!
