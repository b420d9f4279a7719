//! Properties of mapped sources and their expansion graphs that span their
//! operations: how the segments of a well-formed map tile the virtual text,
//! what text edits, Tree registrations and tree edits change, and where
//! backtraces start.
use crate::expansion::{
    all_backtraces, backtrace_branch, branches_through, distinct_parents, next_expansion_id, ExpansionId, ExpansionKind,
    ExpansionView, SyntaxContextId,
};
use crate::source_map::{
    edits_total, map_wf, scan_segments, segment_error, segments_error, sort_edits, spliced, text_edit_outcome,
    tree_registration, MappedSourceView, MetadataView, OriginKind, SegmentView, SourceMapError, SourceMapView,
    SpanView, TextEditView,
};
use crate::raw_tree::{same_diagnostic, RawTree};
use crate::tree_edit::{edit_fragment, edit_outcome, node_at, TreeEdit, TreeEditApplication};
use crate::raw_tree::RawNodeId;
use vstd::utf8::*;
use crate::text::TextRange;
use vstd::prelude::*;

verus! {

/// A segment that passes the checks: a non-empty range of the virtual text
/// on character boundaries, with at least one origin, and with an exact
/// origin only as its single origin.
pub open spec fn segment_sound(vb: Seq<u8>, seg: SegmentView) -> bool {
    &&& seg.virtual_range.valid_for(vb)
    &&& seg.origins.len() >= 1
    &&& (exists|k: int| 0 <= k < seg.origins.len() && (#[trigger] seg.origins[k]).kind == OriginKind::Exact)
        ==> seg.origins.len() == 1
}

/// The first `n` segments that scan without a problem are sound, non-empty,
/// start at 0 and follow each other without gap or overlap up to where the scan ends.
proof fn lemma_scan_tiles(ob: Seq<u8>, vb: Seq<u8>, segs: Seq<SegmentView>, es: Seq<ExpansionView>, n: int)
    requires
        0 <= n <= segs.len(),
        scan_segments(ob, vb, segs, es, n) is Ok,
    ensures
        n == 0 ==> scan_segments(ob, vb, segs, es, n) == Ok::<usize, SourceMapError>(0),
        n > 0 ==> segs[0].virtual_range.start == 0,
        n > 0 ==> scan_segments(ob, vb, segs, es, n) == Ok::<usize, SourceMapError>(segs[n - 1].virtual_range.end),
        forall|i: int| 0 <= i < n ==> segment_sound(vb, #[trigger] segs[i]),
        forall|i: int| 0 <= i < n ==> (#[trigger] segs[i]).virtual_range.start < segs[i].virtual_range.end,
        forall|i: int| 0 <= i < n - 1 ==> (#[trigger] segs[i]).virtual_range.end == segs[i + 1].virtual_range.start,
    decreases n,
{
    reveal(segment_error);
    if n > 0 {
        lemma_scan_tiles(ob, vb, segs, es, n - 1);
    }
}

/// The segments of a well-formed map tile the virtual text: an empty text has
/// one empty segment; otherwise the segments are non-empty, start at 0, each
/// ends where the next starts, and the last ends at the end of the text.
/// Every segment lies on character boundaries and has at least one origin,
/// and an exact origin is its segment's only origin.
pub proof fn lemma_segments_tile(ob: Seq<u8>, vb: Seq<u8>, m: SourceMapView, es: Seq<ExpansionView>)
    requires
        map_wf(ob, vb, m, es),
    ensures
        vb.len() == 0 ==> m.segments.len() == 1 && m.segments[0].virtual_range == (TextRange { start: 0, end: 0 })
            && segment_sound(vb, m.segments[0]),
        vb.len() > 0 ==> {
            &&& m.segments.len() > 0
            &&& m.segments[0].virtual_range.start == 0
            &&& m.segments.last().virtual_range.end == vb.len()
            &&& forall|i: int| 0 <= i < m.segments.len() ==> segment_sound(vb, #[trigger] m.segments[i])
            &&& forall|i: int|
                0 <= i < m.segments.len() ==> (#[trigger] m.segments[i]).virtual_range.start
                    < m.segments[i].virtual_range.end
            &&& forall|i: int|
                0 <= i < m.segments.len() - 1 ==> (#[trigger] m.segments[i]).virtual_range.end
                    == m.segments[i + 1].virtual_range.start
        },
{
    reveal(segments_error);
    reveal(segment_error);
    assert(segments_error(ob, vb, m.segments, es) is None);
    if vb.len() > 0 {
        assert(scan_segments(ob, vb, m.segments, es, m.segments.len() as int) is Ok);
        lemma_scan_tiles(ob, vb, m.segments, es, m.segments.len() as int);
    } else {
        assert(segment_error(ob, vb, m.segments[0], es) is None);
    }
}

/// A Tree registration changes neither text nor map: it allocates the next
/// expansion identity, gives the new syntax context the same number, and
/// adds exactly one expansion, of kind Tree and with that identity, to the graph.
pub proof fn lemma_tree_registration_adds_one(
    s: MappedSourceView,
    cs: SpanView,
    meta: MetadataView,
    v: MappedSourceView,
    id: ExpansionId,
    ctx: SyntaxContextId,
)
    requires
        tree_registration(s, cs, meta, Ok((v, id, ctx))),
    ensures
        v.original == s.original,
        v.virtual_source == s.virtual_source,
        v.map == s.map,
        next_expansion_id(s.expansions) == Ok::<ExpansionId, crate::expansion::ExpansionGraphError>(id),
        ctx.0 == id.0,
        v.expansions.len() == s.expansions.len() + 1,
        exists|k: int| 0 <= k < v.expansions.len() && (#[trigger] v.expansions[k]).id == id && v.expansions[k].kind == ExpansionKind::Tree,
{
    let inp = s.expansions.push(crate::source_map::tree_expansion_of(id, meta, cs.origins));
    assert(inp.contains(inp.last()));
    assert(v.expansions.contains(inp.last()));
}

/// Applying an empty batch changes nothing. Applying a non-empty batch keeps
/// the original text, splices the edits, in order of their ranges, into the
/// virtual text, counts the replacement bytes, allocates the next expansion
/// identity, and adds exactly one expansion, of kind Text and with that
/// identity, to the graph.
pub proof fn lemma_text_edits_add_one(
    s: MappedSourceView,
    inp: Seq<TextEditView>,
    meta: MetadataView,
    v: MappedSourceView,
    eid: Option<ExpansionId>,
    generated: usize,
)
    requires
        text_edit_outcome(s, inp, meta, Ok((v, eid, generated))),
    ensures
        inp.len() == 0 ==> v == s && eid is None && generated == 0,
        inp.len() > 0 ==> {
            &&& v.original == s.original
            &&& encode_utf8(v.virtual_source) == spliced(s.vb(), sort_edits(inp))
            &&& generated == edits_total(inp)
            &&& next_expansion_id(s.expansions) is Ok
            &&& eid == Some(next_expansion_id(s.expansions)->Ok_0)
            &&& v.expansions.len() == s.expansions.len() + 1
            &&& exists|k: int|
                0 <= k < v.expansions.len() && (#[trigger] v.expansions[k]).id == eid->Some_0 && v.expansions[k].kind
                    == ExpansionKind::Text
        },
{
    if inp.len() > 0 {
        let id = next_expansion_id(s.expansions)->Ok_0;
        let inp_g = s.expansions.push(
            crate::source_map::text_expansion_of(id, meta, crate::source_map::batch_sites(s.map, sort_edits(inp))),
        );
        assert(inp_g.contains(inp_g.last()));
        assert(v.expansions.contains(inp_g.last()));
    }
}

/// A successful structural edit keeps the original and the virtual text and
/// the map, adds exactly one Tree expansion to the graph, places as many
/// generated roots as the fragment has, and keeps every diagnostic of the
/// input tree.
pub proof fn lemma_tree_edit_keeps_text(
    s: MappedSourceView,
    tree: RawTree,
    target: RawNodeId,
    edit: TreeEdit,
    meta: MetadataView,
    a: TreeEditApplication,
)
    requires
        edit_outcome(s, tree, target, edit, meta, Ok(a)),
    ensures
        a.source@.original == s.original,
        a.source@.virtual_source == s.virtual_source,
        a.source@.map == s.map,
        a.source@.expansions.len() == s.expansions.len() + 1,
        a.replacement_roots == edit_fragment(edit).roots@.len(),
        a.tree.diagnostics@.len() == tree.diagnostics@.len(),
        forall|k: int|
            0 <= k < tree.diagnostics@.len() ==> same_diagnostic(#[trigger] a.tree.diagnostics@[k], tree.diagnostics@[k]),
{
    let node = node_at(tree, target)->Some_0;
    lemma_tree_registration_adds_one(s, node.span@, meta, a.source@, a.expansion, a.syntax_context);
}

/// The path `p` starts at `e`.
pub open spec fn starts_at(p: Seq<ExpansionView>, e: ExpansionView) -> bool {
    p.len() > 0 && p[0] == e
}

/// Every path of a flattened list of path lists starts at `e` when every path of every list does.
proof fn lemma_flatten_starts_at(ss: Seq<Seq<Seq<ExpansionView>>>, e: ExpansionView)
    requires
        forall|k: int, q: int| 0 <= k < ss.len() && 0 <= q < ss[k].len() ==> starts_at(#[trigger] ss[k][q], e),
    ensures
        forall|q: int| 0 <= q < ss.flatten().len() ==> starts_at(#[trigger] ss.flatten()[q], e),
    decreases ss.len(),
{
    if ss.len() > 0 {
        let rest = ss.drop_first();
        assert forall|k: int, q: int| 0 <= k < rest.len() && 0 <= q < rest[k].len() implies starts_at(#[trigger] rest[k][q], e) by {
            assert(rest[k] == ss[k + 1]);
        }
        lemma_flatten_starts_at(rest, e);
        let f = ss.flatten();
        assert(f == ss.first() + rest.flatten());
        assert forall|q: int| 0 <= q < f.len() implies starts_at(#[trigger] f[q], e) by {
            if q < ss.first().len() {
                assert(f[q] == ss[0][q]);
            } else {
                assert(f[q] == rest.flatten()[q - ss.first().len()]);
            }
        }
    }
}

/// The path lists through the parents `ps` are the branches through each of them.
proof fn lemma_branches_through(es: Seq<ExpansionView>, i: int, ps: Seq<Option<ExpansionId>>)
    ensures
        branches_through(es, i, ps).len() == ps.len(),
        forall|k: int| 0 <= k < ps.len() ==> #[trigger] branches_through(es, i, ps)[k] == backtrace_branch(es, i, ps[k]),
    decreases ps.len(),
{
    if ps.len() > 0 {
        lemma_branches_through(es, i, ps.drop_last());
        assert forall|k: int| 0 <= k < ps.len() implies #[trigger] branches_through(es, i, ps)[k] == backtrace_branch(
            es,
            i,
            ps[k],
        ) by {
            if k < ps.len() - 1 {
                assert(ps.drop_last()[k] == ps[k]);
            }
        }
    }
}

/// Every backtrace of the expansion at position `i` is a non-empty path that
/// starts at that expansion.
pub proof fn lemma_backtraces_start_at(es: Seq<ExpansionView>, i: int)
    requires
        0 <= i < es.len(),
    ensures
        forall|q: int| 0 <= q < all_backtraces(es, i).len() ==> starts_at(#[trigger] all_backtraces(es, i)[q], es[i]),
{
    let ps = distinct_parents(es[i].call_sites);
    let ss = branches_through(es, i, ps);
    lemma_branches_through(es, i, ps);
    assert forall|k: int, q: int| 0 <= k < ss.len() && 0 <= q < ss[k].len() implies starts_at(#[trigger] ss[k][q], es[i]) by {
        assert(ss[k] == backtrace_branch(es, i, ps[k]));
        match ps[k] {
            None => {},
            Some(pid) => {
                let j = crate::expansion::position_of(es, pid);
                if crate::expansion::graph_rank(es)(j) < crate::expansion::graph_rank(es)(i) {
                    let t = all_backtraces(es, j);
                    assert(ss[k][q] == seq![es[i]] + t[q]);
                }
            },
        }
    }
    lemma_flatten_starts_at(ss, es[i]);
}

} // verus!
