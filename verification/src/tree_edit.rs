//! Validated replacement operations over a lossless `RawTree`.
//!
//! Addon-provided fragments use local IDs. The host allocates stable node,
//! expansion, and syntax-context identities only after the entire edit validates.
use crate::expansion::{ExpansionId, SyntaxContextId};
use crate::raw_tree::{
    children_ok, node_line_ok, physical_lines_of, ids_increasing, links_ok, parent_ok, same_diagnostic, Indentation, LineEnding, RawDiagnostic, RawLine, RawNode, RawNodeId,
    RawNodeKind, RawTree, RawTrivia, RawTriviaKind,
};
use crate::source_map::{
    tree_registration, tree_result_view, MappedSource, MappedSourceView, MappedSpan, MetadataView,
    OriginKind, SourceOrigin, SpanView,
    TreeExpansion, TreeExpansionError,
};
use crate::raw_tree::trim_end_whitespace;
use crate::text::{blank, bytes_of, is_blank, str_len, ws_start_before, TextRange};
use vstd::prelude::*;
use vstd::string::{StringExecFns, StringSliceAdditionalSpecFns};
use vstd::utf8::encode_utf8;

verus! {

/// Addon-local identity used only while validating a generated fragment.
#[derive(Debug, Clone, Copy, PartialEq, Eq, Structural, PartialOrd, Ord, Hash)]
pub struct GeneratedRawNodeId(pub u64);

impl GeneratedRawNodeId {
    pub fn new(value: u64) -> (r: Self)
        ensures
            r.0 == value,
    {
        GeneratedRawNodeId(value)
    }

    pub fn get(self) -> (r: u64)
        ensures
            r == self.0,
    {
        self.0
    }
}

/// Allowed structural kind for an addon-generated raw node.
#[derive(Debug, Clone, Copy, PartialEq, Eq, Structural, Hash)]
pub enum GeneratedRawNodeKind {
    Blank,
    Comment,
    Simple,
    Section,
}

/// One node in an addon-provided replacement fragment.
#[derive(Debug, PartialEq, Eq)]
pub struct GeneratedRawNode {
    pub id: GeneratedRawNodeId,
    pub kind: GeneratedRawNodeKind,
    pub text: String,
    pub children: Vec<GeneratedRawNodeId>,
}

/// Validated-input arena and roots supplied by a Tree macro.
#[derive(Debug, PartialEq, Eq)]
pub struct GeneratedRawTree {
    pub roots: Vec<GeneratedRawNodeId>,
    pub nodes: Vec<GeneratedRawNode>,
}

/// Where original Section children are attached to generated content.
#[derive(Debug, Clone, Copy, PartialEq, Eq, Structural, Hash)]
pub enum RetainedChildrenPlacement {
    Prepend,
    Append,
}

/// Policy for preserving children of the replaced Section.
#[derive(Debug, Clone, Copy, PartialEq, Eq, Structural, Hash)]
pub struct RetainedChildren {
    pub parent: GeneratedRawNodeId,
    pub placement: RetainedChildrenPlacement,
}

/// Atomic structural operation targeting the current RawTree node.
#[derive(Debug, PartialEq, Eq)]
pub enum TreeEdit {
    ReplaceNode { replacement: GeneratedRawTree, retained_children: Option<RetainedChildren> },
    ReplaceChildren { replacement: GeneratedRawTree },
}

/// Component and hook identity attached to generated tree provenance.
#[derive(Debug, Clone, PartialEq, Eq)]
pub struct TreeEditMetadata {
    pub component: String,
    pub hook: String,
}

/// Updated tree/source provenance and generated root identities.
#[derive(Debug, PartialEq, Eq)]
pub struct TreeEditApplication {
    pub source: MappedSource,
    pub tree: RawTree,
    pub expansion: ExpansionId,
    pub syntax_context: SyntaxContextId,
    pub replacement_roots: usize,
}

/// Rejected generated tree, target, retained-child policy, or provenance operation.
#[derive(Debug, Clone, PartialEq, Eq)]
pub enum TreeEditError {
    UnknownInputNode { id: RawNodeId },
    InputCycle { id: RawNodeId },
    ReusedInputNode { id: RawNodeId },
    UnreachableInputNode { id: RawNodeId },
    UnknownTarget { target: RawNodeId },
    ChildrenOfNonSection { target: RawNodeId },
    DuplicateGeneratedId { id: GeneratedRawNodeId },
    UnknownGeneratedNode { id: GeneratedRawNodeId },
    ReusedGeneratedNode { id: GeneratedRawNodeId },
    GeneratedCycle { id: GeneratedRawNodeId },
    UnreachableGeneratedNode { id: GeneratedRawNodeId },
    ChildrenOfGeneratedLeaf { id: GeneratedRawNodeId, kind: GeneratedRawNodeKind },
    InvalidGeneratedText { id: GeneratedRawNodeId, kind: GeneratedRawNodeKind },
    UnknownRetainedChildrenParent { id: GeneratedRawNodeId },
    RetainedChildrenParentNotSection { id: GeneratedRawNodeId },
    Expansion(TreeExpansionError),
}

/// The text of a generated node is unusable for its kind.
pub open spec fn invalid_generated_text(kind: GeneratedRawNodeKind, text: Seq<u8>) -> bool {
    match kind {
        GeneratedRawNodeKind::Blank => text.len() > 0,
        GeneratedRawNodeKind::Comment => false,
        GeneratedRawNodeKind::Simple => blank(text),
        GeneratedRawNodeKind::Section => blank(text) || {
            let end = ws_start_before(text, text.len() as int);
            end > 0 && text[end - 1] == 0x3a
        },
    }
}

/// The problem of one generated node taken alone, if any.
pub open spec fn generated_node_problem(node: GeneratedRawNode) -> Option<TreeEditError> {
    if node.kind != GeneratedRawNodeKind::Section && node.children@.len() > 0 {
        Some(TreeEditError::ChildrenOfGeneratedLeaf { id: node.id, kind: node.kind })
    } else if invalid_generated_text(node.kind, encode_utf8(node.text@)) {
        Some(TreeEditError::InvalidGeneratedText { id: node.id, kind: node.kind })
    } else {
        None
    }
}

/// Checks one generated node's children and text against its kind.
pub fn validate_generated_node(node: &GeneratedRawNode) -> (r: Result<(), TreeEditError>)
    ensures
        r == (match generated_node_problem(*node) {
            Some(e) => Err(e),
            None => Ok(()),
        }),
{
    if node.kind != GeneratedRawNodeKind::Section && node.children.len() > 0 {
        return Err(TreeEditError::ChildrenOfGeneratedLeaf { id: node.id, kind: node.kind });
    }
    let text = node.text.as_str();
    let invalid_text = match node.kind {
        GeneratedRawNodeKind::Blank => str_len(text) > 0,
        GeneratedRawNodeKind::Comment => false,
        GeneratedRawNodeKind::Simple => is_blank(text),
        GeneratedRawNodeKind::Section => {
            if is_blank(text) {
                true
            } else {
                let end = trim_end_whitespace(text);
                end > 0 && text.as_bytes()[end - 1] == 0x3a
            }
        },
    };
    if invalid_text {
        return Err(TreeEditError::InvalidGeneratedText { id: node.id, kind: node.kind });
    }
    Ok(())
}

/// Node `i` of the fragment repeats the ID of an earlier node.
pub open spec fn duplicate_before(f: Seq<GeneratedRawNode>, i: int) -> bool {
    exists|j: int| 0 <= j < i && f[j].id == f[i].id
}

/// The first duplicate ID or invalid node among the first `n` nodes.
pub open spec fn node_phase(f: Seq<GeneratedRawNode>, n: int) -> Option<TreeEditError>
    decreases n,
{
    if n <= 0 {
        None
    } else {
        match node_phase(f, n - 1) {
            Some(e) => Some(e),
            None => if duplicate_before(f, n - 1) {
                Some(TreeEditError::DuplicateGeneratedId { id: f[n - 1].id })
            } else {
                generated_node_problem(f[n - 1])
            },
        }
    }
}

/// Some node of the fragment has this ID.
pub open spec fn declared(f: Seq<GeneratedRawNode>, id: GeneratedRawNodeId) -> bool {
    exists|j: int| 0 <= j < f.len() && f[j].id == id
}

/// The first reference among `refs[..n]` to an undeclared node.
pub open spec fn unknown_in(f: Seq<GeneratedRawNode>, refs: Seq<GeneratedRawNodeId>, n: int) -> Option<TreeEditError>
    decreases n,
{
    if n <= 0 {
        None
    } else {
        match unknown_in(f, refs, n - 1) {
            Some(e) => Some(e),
            None => if !declared(f, refs[n - 1]) {
                Some(TreeEditError::UnknownGeneratedNode { id: refs[n - 1] })
            } else {
                None
            },
        }
    }
}

/// The first undeclared child among the children of the first `n` nodes.
pub open spec fn unknown_children(f: Seq<GeneratedRawNode>, n: int) -> Option<TreeEditError>
    decreases n,
{
    if n <= 0 {
        None
    } else {
        match unknown_children(f, n - 1) {
            Some(e) => Some(e),
            None => unknown_in(f, f[n - 1].children@, f[n - 1].children@.len() as int),
        }
    }
}

/// How often `id` occurs in `refs`.
pub open spec fn count_in(refs: Seq<GeneratedRawNodeId>, id: GeneratedRawNodeId) -> nat
    decreases refs.len(),
{
    if refs.len() == 0 {
        0
    } else {
        count_in(refs.drop_last(), id) + if refs.last() == id {
            1nat
        } else {
            0nat
        }
    }
}

/// How often `id` is referenced as a child by the first `n` nodes.
pub open spec fn child_count(f: Seq<GeneratedRawNode>, n: int, id: GeneratedRawNodeId) -> nat
    decreases n,
{
    if n <= 0 {
        0
    } else {
        child_count(f, n - 1, id) + count_in(f[n - 1].children@, id)
    }
}

/// How often `id` is referenced by the fragment, as a root or as a child.
pub open spec fn references(t: GeneratedRawTree, id: GeneratedRawNodeId) -> nat {
    count_in(t.roots@, id) + child_count(t.nodes@, t.nodes@.len() as int, id)
}

/// The smallest declared ID that is referenced more than once, if any.
pub open spec fn reused_id(t: GeneratedRawTree) -> Option<GeneratedRawNodeId> {
    if exists|j: int| 0 <= j < t.nodes@.len() && references(t, t.nodes@[j].id) > 1 {
        let j = choose|j: int|
            0 <= j < t.nodes@.len() && references(t, t.nodes@[j].id) > 1 && forall|k: int|
                0 <= k < t.nodes@.len() && references(t, t.nodes@[k].id) > 1 ==> t.nodes@[j].id.0
                    <= t.nodes@[k].id.0;
        Some(t.nodes@[j].id)
    } else {
        None
    }
}

/// The problem found before reachability is examined: node problems, unknown
/// roots, unknown children, then the smallest reused ID.
pub open spec fn fragment_shape_error(t: GeneratedRawTree) -> Option<TreeEditError> {
    match node_phase(t.nodes@, t.nodes@.len() as int) {
        Some(e) => Some(e),
        None => match unknown_in(t.nodes@, t.roots@, t.roots@.len() as int) {
            Some(e) => Some(e),
            None => match unknown_children(t.nodes@, t.nodes@.len() as int) {
                Some(e) => Some(e),
                None => match reused_id(t) {
                    Some(id) => Some(TreeEditError::ReusedGeneratedNode { id }),
                    None => None,
                },
            },
        },
    }
}

proof fn lemma_node_phase_prefix(f: Seq<GeneratedRawNode>, m: int, n: int)
    requires
        0 <= m <= n,
        node_phase(f, m) is Some,
    ensures
        node_phase(f, n) == node_phase(f, m),
    decreases n - m,
{
    if m < n {
        lemma_node_phase_prefix(f, m, n - 1);
    }
}

proof fn lemma_unknown_in_prefix(f: Seq<GeneratedRawNode>, refs: Seq<GeneratedRawNodeId>, m: int, n: int)
    requires
        0 <= m <= n,
        unknown_in(f, refs, m) is Some,
    ensures
        unknown_in(f, refs, n) == unknown_in(f, refs, m),
    decreases n - m,
{
    if m < n {
        lemma_unknown_in_prefix(f, refs, m, n - 1);
    }
}

proof fn lemma_unknown_children_prefix(f: Seq<GeneratedRawNode>, m: int, n: int)
    requires
        0 <= m <= n,
        unknown_children(f, m) is Some,
    ensures
        unknown_children(f, n) == unknown_children(f, m),
    decreases n - m,
{
    if m < n {
        lemma_unknown_children_prefix(f, m, n - 1);
    }
}

/// Index of the first fragment node with ID `id`.
fn find_generated(nodes: &Vec<GeneratedRawNode>, id: GeneratedRawNodeId) -> (r: Option<usize>)
    ensures
        r is Some <==> declared(nodes@, id),
        r matches Some(j) ==> j < nodes@.len() && nodes@[j as int].id == id && forall|k: int|
            0 <= k < j ==> nodes@[k].id != id,
{
    let mut j: usize = 0;
    while j < nodes.len()
        invariant
            j <= nodes@.len(),
            forall|k: int| 0 <= k < j ==> nodes@[k].id != id,
        decreases nodes@.len() - j,
    {
        if nodes[j].id == id {
            return Some(j);
        }
        j = j + 1;
    }
    None
}

/// How often `id` occurs in `refs`.
fn count_refs(refs: &Vec<GeneratedRawNodeId>, id: GeneratedRawNodeId) -> (r: usize)
    ensures
        r == count_in(refs@, id),
        r <= refs@.len(),
{
    let mut count: usize = 0;
    let mut k: usize = 0;
    while k < refs.len()
        invariant
            k <= refs@.len(),
            count == count_in(refs@.take(k as int), id),
            count <= k,
        decreases refs@.len() - k,
    {
        proof {
            assert(refs@.take(k + 1).drop_last() =~= refs@.take(k as int));
        }
        if refs[k] == id {
            count = count + 1;
        }
        k = k + 1;
    }
    proof {
        assert(refs@.take(refs@.len() as int) =~= refs@);
    }
    count
}

/// Node `b` of the fragment is listed as a child of node `a`.
pub open spec fn gen_child(t: GeneratedRawTree, a: int, b: int) -> bool {
    exists|k: int| 0 <= k < t.nodes@[a].children@.len() && t.nodes@[a].children@[k] == t.nodes@[b].id
}

/// Node `b` of the fragment is listed as a root.
pub open spec fn gen_root(t: GeneratedRawTree, b: int) -> bool {
    exists|k: int| 0 <= k < t.roots@.len() && t.roots@[k] == t.nodes@[b].id
}

/// A chain of node indices from a root, each a child of the one before.
pub open spec fn gen_path(t: GeneratedRawTree, p: Seq<int>) -> bool {
    &&& p.len() >= 1
    &&& forall|q: int| 0 <= q < p.len() ==> 0 <= #[trigger] p[q] < t.nodes@.len()
    &&& gen_root(t, p[0])
    &&& forall|q: int| 0 <= q < p.len() - 1 ==> #[trigger] gen_child(t, p[q], p[q + 1])
}

/// Node `b` of the fragment can be reached from a root.
pub open spec fn gen_reachable(t: GeneratedRawTree, b: int) -> bool {
    exists|p: Seq<int>| gen_path(t, p) && p.last() == b
}

/// What validating a fragment gives: its shape problem, else the first node that
/// no root reaches, else success.
pub open spec fn fragment_outcome(t: GeneratedRawTree, r: Result<(), TreeEditError>) -> bool {
    match fragment_shape_error(t) {
        Some(e) => r == Err::<(), TreeEditError>(e),
        None => match r {
            Ok(()) => forall|j: int| 0 <= j < t.nodes@.len() ==> gen_reachable(t, j),
            Err(TreeEditError::UnreachableGeneratedNode { id }) => exists|j: int|
                0 <= j < t.nodes@.len() && !gen_reachable(t, j) && t.nodes@[j].id == id && forall|k: int|
                    0 <= k < j ==> gen_reachable(t, k),
            Err(_) => false,
        },
    }
}

/// Number of unmarked entries.
pub open spec fn count_false(s: Seq<bool>) -> nat
    decreases s.len(),
{
    if s.len() == 0 {
        0
    } else {
        count_false(s.drop_last()) + if s.last() {
            0nat
        } else {
            1nat
        }
    }
}

proof fn lemma_count_false_mark(s: Seq<bool>, i: int)
    requires
        0 <= i < s.len(),
        !s[i],
    ensures
        count_false(s.update(i, true)) + 1 == count_false(s),
    decreases s.len(),
{
    let u = s.update(i, true);
    if i == s.len() - 1 {
        assert(u.drop_last() =~= s.drop_last());
    } else {
        assert(u.drop_last() =~= s.drop_last().update(i, true));
        lemma_count_false_mark(s.drop_last(), i);
    }
}

proof fn lemma_marked_reach(t: GeneratedRawTree, marked: Seq<bool>, p: Seq<int>)
    requires
        marked.len() == t.nodes@.len(),
        gen_path(t, p),
        forall|b: int| 0 <= b < t.nodes@.len() && gen_root(t, b) ==> marked[b],
        forall|a: int, b: int|
            0 <= a < t.nodes@.len() && 0 <= b < t.nodes@.len() && marked[a] && #[trigger] gen_child(t, a, b)
                ==> marked[b],
    ensures
        marked[p.last()],
    decreases p.len(),
{
    if p.len() > 1 {
        let q = p.drop_last();
        assert(gen_path(t, q)) by {
            assert forall|x: int| 0 <= x < q.len() implies 0 <= #[trigger] q[x] < t.nodes@.len() by {
                assert(q[x] == p[x]);
            }
            assert forall|x: int| 0 <= x < q.len() - 1 implies #[trigger] gen_child(t, q[x], q[x + 1]) by {
                assert(q[x] == p[x] && q[x + 1] == p[x + 1]);
                assert(gen_child(t, p[x], p[x + 1]));
            }
        }
        lemma_marked_reach(t, marked, q);
        let x = p.len() - 2;
        assert(gen_child(t, p[x], p[x + 1]));
        assert(q.last() == p[x]);
        assert(p.last() == p[x + 1]);
        assert(0 <= p[x] < t.nodes@.len() && 0 <= p[x + 1] < t.nodes@.len());
    }
}

proof fn lemma_node_phase_none(f: Seq<GeneratedRawNode>, m: int, n: int)
    requires
        0 <= m <= n,
        node_phase(f, n) is None,
    ensures
        node_phase(f, m) is None,
    decreases n - m,
{
    if m < n {
        lemma_node_phase_none(f, m + 1, n);
    }
}

/// With unique IDs, a node's ID identifies it.
proof fn lemma_unique_index(f: Seq<GeneratedRawNode>, j: int, b: int)
    requires
        node_phase(f, f.len() as int) is None,
        0 <= j < f.len(),
        0 <= b < f.len(),
        f[j].id == f[b].id,
    ensures
        j == b,
{
    if j != b {
        let hi = if j < b {
            b
        } else {
            j
        };
        let lo = if j < b {
            j
        } else {
            b
        };
        lemma_node_phase_none(f, hi + 1, f.len() as int);
        assert(f[lo].id == f[hi].id);
        assert(duplicate_before(f, hi));
    }
}

proof fn lemma_unknown_none_prefix(f: Seq<GeneratedRawNode>, refs: Seq<GeneratedRawNodeId>, m: int, n: int)
    requires
        0 <= m <= n,
        unknown_in(f, refs, n) is None,
    ensures
        unknown_in(f, refs, m) is None,
    decreases n - m,
{
    if m < n {
        lemma_unknown_none_prefix(f, refs, m + 1, n);
    }
}

/// References that passed the shape checks are declared.
proof fn lemma_unknown_known(f: Seq<GeneratedRawNode>, refs: Seq<GeneratedRawNodeId>, k: int)
    requires
        unknown_in(f, refs, refs.len() as int) is None,
        0 <= k < refs.len(),
    ensures
        declared(f, refs[k]),
{
    lemma_unknown_none_prefix(f, refs, k + 1, refs.len() as int);
}

proof fn lemma_unknown_children_none(f: Seq<GeneratedRawNode>, m: int, n: int)
    requires
        0 <= m <= n,
        unknown_children(f, n) is None,
    ensures
        unknown_children(f, m) is None,
    decreases n - m,
{
    if m < n {
        lemma_unknown_children_none(f, m + 1, n);
    }
}

proof fn lemma_children_known(f: Seq<GeneratedRawNode>, a: int, c: int)
    requires
        unknown_children(f, f.len() as int) is None,
        0 <= a < f.len(),
        0 <= c < f[a].children@.len(),
    ensures
        declared(f, f[a].children@[c]),
{
    lemma_unknown_children_none(f, a + 1, f.len() as int);
    lemma_unknown_known(f, f[a].children@, c);
}

proof fn lemma_child_count_mono(f: Seq<GeneratedRawNode>, m: int, n: int, id: GeneratedRawNodeId)
    requires
        0 <= m <= n,
    ensures
        child_count(f, m, id) <= child_count(f, n, id),
    decreases n - m,
{
    if m < n {
        lemma_child_count_mono(f, m, n - 1, id);
    }
}

/// Whether the fragment references `id` more than once.
fn referenced_twice(t: &GeneratedRawTree, id: GeneratedRawNodeId) -> (r: bool)
    ensures
        r == (references(*t, id) > 1),
{
    let mut total: usize = count_refs(&t.roots, id);
    if total > 1 {
        return true;
    }
    let mut k: usize = 0;
    while k < t.nodes.len()
        invariant
            k <= t.nodes@.len(),
            total == count_in(t.roots@, id) + child_count(t.nodes@, k as int, id),
            total <= 1,
        decreases t.nodes@.len() - k,
    {
        let c = count_refs(&t.nodes[k].children, id);
        if c > 1 - total {
            proof {
                lemma_child_count_mono(t.nodes@, k + 1, t.nodes@.len() as int, id);
            }
            return true;
        }
        total = total + c;
        k = k + 1;
    }
    false
}

/// The smallest declared ID that the fragment references more than once.
fn smallest_reused(t: &GeneratedRawTree) -> (r: Option<GeneratedRawNodeId>)
    ensures
        r == reused_id(*t),
{
    let mut best: Option<GeneratedRawNodeId> = None;
    let mut j: usize = 0;
    while j < t.nodes.len()
        invariant
            j <= t.nodes@.len(),
            best is None <==> !exists|q: int| 0 <= q < j && references(*t, t.nodes@[q].id) > 1,
            best matches Some(b) ==> exists|q: int|
                0 <= q < j && references(*t, t.nodes@[q].id) > 1 && t.nodes@[q].id == b,
            best matches Some(b) ==> forall|q: int|
                0 <= q < j && references(*t, t.nodes@[q].id) > 1 ==> b.0 <= t.nodes@[q].id.0,
        decreases t.nodes@.len() - j,
    {
        let id = t.nodes[j].id;
        if referenced_twice(t, id) {
            match best {
                None => {
                    best = Some(id);
                },
                Some(b) => {
                    if id.0 < b.0 {
                        best = Some(id);
                    }
                },
            }
        }
        j = j + 1;
    }
    proof {
        if let Some(b) = best {
            let jj = choose|jj: int|
                0 <= jj < t.nodes@.len() && references(*t, t.nodes@[jj].id) > 1 && forall|k: int|
                    0 <= k < t.nodes@.len() && references(*t, t.nodes@[k].id) > 1 ==> t.nodes@[jj].id.0
                        <= t.nodes@[k].id.0;
            let q = choose|q: int| 0 <= q < t.nodes@.len() && references(*t, t.nodes@[q].id) > 1 && t.nodes@[q].id == b;
            assert(b.0 <= t.nodes@[jj].id.0);
            assert(t.nodes@[jj].id.0 <= b.0);
            assert(reused_id(*t) == Some(b));
        }
    }
    best
}

/// The result that reports an optional problem.
pub open spec fn problem_result(e: Option<TreeEditError>) -> Result<(), TreeEditError> {
    match e {
        Some(e) => Err(e),
        None => Ok(()),
    }
}

/// Rejects the first duplicate ID or invalid generated node.
fn check_generated_nodes(nodes: &Vec<GeneratedRawNode>) -> (r: Result<(), TreeEditError>)
    ensures
        r == problem_result(node_phase(nodes@, nodes@.len() as int)),
{
    let n = nodes.len();
    let mut index: usize = 0;
    while index < n
        invariant
            n == nodes@.len(),
            index <= n,
            node_phase(nodes@, index as int) is None,
        decreases n - index,
    {
        let node = &nodes[index];
        let j = find_generated(nodes, node.id).unwrap();
        if j < index {
            proof {
                assert(duplicate_before(nodes@, index as int));
                lemma_node_phase_prefix(nodes@, index + 1, n as int);
            }
            return Err(TreeEditError::DuplicateGeneratedId { id: node.id });
        }
        proof {
            assert(!duplicate_before(nodes@, index as int));
        }
        if let Err(e) = validate_generated_node(node) {
            proof {
                lemma_node_phase_prefix(nodes@, index + 1, n as int);
            }
            return Err(e);
        }
        index = index + 1;
    }
    Ok(())
}

/// Rejects the first reference to an undeclared node.
fn check_references(nodes: &Vec<GeneratedRawNode>, refs: &Vec<GeneratedRawNodeId>) -> (r: Result<(), TreeEditError>)
    ensures
        r == problem_result(unknown_in(nodes@, refs@, refs@.len() as int)),
{
    let mut k: usize = 0;
    while k < refs.len()
        invariant
            k <= refs@.len(),
            unknown_in(nodes@, refs@, k as int) is None,
        decreases refs@.len() - k,
    {
        if find_generated(nodes, refs[k]).is_none() {
            proof {
                lemma_unknown_in_prefix(nodes@, refs@, k + 1, refs@.len() as int);
            }
            return Err(TreeEditError::UnknownGeneratedNode { id: refs[k] });
        }
        k = k + 1;
    }
    Ok(())
}

/// Rejects the first undeclared child, in node order.
fn check_children(nodes: &Vec<GeneratedRawNode>) -> (r: Result<(), TreeEditError>)
    ensures
        r == problem_result(unknown_children(nodes@, nodes@.len() as int)),
{
    let n = nodes.len();
    let mut index: usize = 0;
    while index < n
        invariant
            n == nodes@.len(),
            index <= n,
            unknown_children(nodes@, index as int) is None,
        decreases n - index,
    {
        if let Err(e) = check_references(nodes, &nodes[index].children) {
            proof {
                lemma_unknown_children_prefix(nodes@, index + 1, n as int);
            }
            return Err(e);
        }
        index = index + 1;
    }
    Ok(())
}

/// Every marked node is reachable.
pub open spec fn marks_sound(t: GeneratedRawTree, marked: Seq<bool>) -> bool {
    &&& marked.len() == t.nodes@.len()
    &&& forall|q: int| 0 <= q < marked.len() && #[trigger] marked[q] ==> gen_reachable(t, q)
}

/// The work stack holds marked nodes.
pub open spec fn stack_ok(t: GeneratedRawTree, marked: Seq<bool>, stack: Seq<usize>) -> bool {
    forall|q: int| 0 <= q < stack.len() ==> (#[trigger] stack[q] as int) < t.nodes@.len() && marked[stack[q] as int]
}

/// Every root is marked.
pub open spec fn roots_marked(t: GeneratedRawTree, marked: Seq<bool>) -> bool {
    forall|b: int| 0 <= b < t.nodes@.len() && #[trigger] gen_root(t, b) ==> marked[b]
}

/// Every marked node off the stack (other than `skip`) has its children marked.
pub open spec fn closed_except(t: GeneratedRawTree, marked: Seq<bool>, stack: Seq<usize>, skip: int) -> bool {
    forall|a: int, c: int|
        0 <= a < t.nodes@.len() && 0 <= c < t.nodes@.len() && marked[a] && a != skip && !stack.contains(a as usize)
            && #[trigger] gen_child(t, a, c) ==> marked[c]
}

/// Marks the unmarked children of node `a` and pushes them on the stack.
#[verifier::rlimit(60)]
#[verifier::spinoff_prover]
fn visit_children(t: &GeneratedRawTree, a: usize, marked: &mut Vec<bool>, stack: &mut Vec<usize>)
    requires
        fragment_shape_error(*t) is None,
        (a as int) < t.nodes@.len(),
        old(marked)@[a as int],
        marks_sound(*t, old(marked)@),
        stack_ok(*t, old(marked)@, old(stack)@),
        roots_marked(*t, old(marked)@),
        closed_except(*t, old(marked)@, old(stack)@, a as int),
    ensures
        marks_sound(*t, final(marked)@),
        stack_ok(*t, final(marked)@, final(stack)@),
        roots_marked(*t, final(marked)@),
        closed_except(*t, final(marked)@, final(stack)@, -1),
        old(stack)@.len() <= final(stack)@.len(),
        count_false(final(marked)@) + (final(stack)@.len() - old(stack)@.len()) == count_false(old(marked)@),
{
    let ghost f = t.nodes@;
    let ghost m0 = marked@;
    let ghost s0 = stack@;
    let ghost n = f.len();
    proof {
        assert(node_phase(f, n as int) is None);
        assert(unknown_children(f, n as int) is None);
    }
    let children = &t.nodes[a].children;
    let mut c: usize = 0;
    while c < children.len()
        invariant
            fragment_shape_error(*t) is None,
            f == t.nodes@,
            n == f.len(),
            node_phase(f, n as int) is None,
            unknown_children(f, n as int) is None,
            (a as int) < n,
            marked@[a as int],
            children@ == f[a as int].children@,
            c <= children@.len(),
            s0.len() <= stack@.len(),
            count_false(marked@) + (stack@.len() - s0.len()) == count_false(m0),
            forall|q: int| 0 <= q < n && m0[q] ==> #[trigger] marked@[q],
            forall|q: int| 0 <= q < s0.len() ==> stack@[q] == #[trigger] s0[q],
            marks_sound(*t, marked@),
            stack_ok(*t, marked@, stack@),
            roots_marked(*t, marked@),
            closed_except(*t, m0, s0, a as int),
            forall|x: int, b: int| 0 <= x < c && 0 <= b < n && children@[x] == f[b].id ==> marked@[b],
            forall|q: int| 0 <= q < n && #[trigger] marked@[q] && !m0[q] ==> stack@.contains(q as usize),
        decreases children@.len() - c,
    {
        proof {
            lemma_children_known(f, a as int, c as int);
        }
        let b = find_generated(&t.nodes, children[c]).unwrap();
        if !marked[b] {
            proof {
                assert(gen_reachable(*t, a as int));
                let p = choose|p: Seq<int>| gen_path(*t, p) && p.last() == a as int;
                let p2 = p.push(b as int);
                assert(gen_child(*t, a as int, b as int));
                assert(gen_path(*t, p2)) by {
                    assert forall|x: int| 0 <= x < p2.len() implies 0 <= #[trigger] p2[x] < t.nodes@.len() by {
                        if x < p.len() {
                            assert(p2[x] == p[x]);
                        }
                    }
                    assert forall|x: int| 0 <= x < p2.len() - 1 implies #[trigger] gen_child(*t, p2[x], p2[x + 1]) by {
                        if x < p.len() - 1 {
                            assert(p2[x] == p[x] && p2[x + 1] == p[x + 1]);
                            assert(gen_child(*t, p[x], p[x + 1]));
                        }
                    }
                }
                assert(gen_path(*t, p2) && p2.last() == b as int);
                lemma_count_false_mark(marked@, b as int);
            }
            let ghost before_stack = stack@;
            marked.set(b, true);
            stack.push(b);
            proof {
                assert forall|q: int| 0 <= q < s0.len() implies stack@[q] == #[trigger] s0[q] by {
                    assert(stack@[q] == before_stack[q]);
                }
                assert forall|q: int| 0 <= q < n && #[trigger] marked@[q] && !m0[q] implies stack@.contains(q as usize) by {
                    if q == b as int {
                        assert(stack@[stack@.len() - 1] == b);
                    } else {
                        assert(before_stack.contains(q as usize));
                        let i = choose|i: int| 0 <= i < before_stack.len() && before_stack[i] == q as usize;
                        assert(stack@[i] == before_stack[i]);
                    }
                }
            }
        }
        proof {
            assert forall|x: int, d: int| 0 <= x < c + 1 && 0 <= d < n && children@[x] == f[d].id implies marked@[d] by {
                if x == c {
                    lemma_unique_index(f, b as int, d);
                }
            }
        }
        c = c + 1;
    }
    proof {
        assert forall|a2: int, c2: int|
            0 <= a2 < n && 0 <= c2 < n && marked@[a2] && a2 != -1 && !stack@.contains(a2 as usize)
                && #[trigger] gen_child(*t, a2, c2) implies marked@[c2] by {
            if a2 == a {
                let x = choose|x: int| 0 <= x < f[a as int].children@.len() && f[a as int].children@[x] == f[c2].id;
            } else {
                if !m0[a2] {
                    assert(stack@.contains(a2 as usize));
                }
                assert(!s0.contains(a2 as usize)) by {
                    if s0.contains(a2 as usize) {
                        let i = choose|i: int| 0 <= i < s0.len() && s0[i] == a2 as usize;
                        assert(stack@[i] == s0[i]);
                    }
                }
            }
        }
    }
}


proof fn lemma_count_false_all(s: Seq<bool>)
    requires
        forall|q: int| 0 <= q < s.len() ==> !s[q],
    ensures
        count_false(s) == s.len(),
    decreases s.len(),
{
    if s.len() > 0 {
        lemma_count_false_all(s.drop_last());
    }
}

/// Marks exactly the fragment nodes that some root reaches.
#[verifier::rlimit(40)]
fn reachable_marks(t: &GeneratedRawTree) -> (marked: Vec<bool>)
    requires
        fragment_shape_error(*t) is None,
    ensures
        marked@.len() == t.nodes@.len(),
        forall|j: int| 0 <= j < t.nodes@.len() ==> (marked@[j] <==> gen_reachable(*t, j)),
{
    let ghost f = t.nodes@;
    let n = t.nodes.len();
    let mut marked: Vec<bool> = Vec::new();
    let mut i: usize = 0;
    while i < n
        invariant
            n == f.len(),
            i <= n,
            marked@.len() == i,
            forall|q: int| 0 <= q < i ==> !marked@[q],
        decreases n - i,
    {
        marked.push(false);
        i = i + 1;
    }
    proof {
        lemma_count_false_all(marked@);
        assert(node_phase(f, n as int) is None);
        assert(unknown_in(f, t.roots@, t.roots@.len() as int) is None);
    }
    let mut stack: Vec<usize> = Vec::new();
    let mut k: usize = 0;
    while k < t.roots.len()
        invariant
            fragment_shape_error(*t) is None,
            f == t.nodes@,
            n == f.len(),
            node_phase(f, n as int) is None,
            unknown_in(f, t.roots@, t.roots@.len() as int) is None,
            k <= t.roots@.len(),
            marked@.len() == n,
            count_false(marked@) + stack@.len() == n,
            marks_sound(*t, marked@),
            stack_ok(*t, marked@, stack@),
            forall|q: int| 0 <= q < n && #[trigger] marked@[q] ==> stack@.contains(q as usize),
            forall|x: int, b: int| 0 <= x < k && 0 <= b < n && t.roots@[x] == f[b].id ==> marked@[b],
        decreases t.roots@.len() - k,
    {
        proof {
            lemma_unknown_known(f, t.roots@, k as int);
        }
        let b = find_generated(&t.nodes, t.roots[k]).unwrap();
        if !marked[b] {
            proof {
                let p = seq![b as int];
                assert(gen_root(*t, b as int));
                assert(gen_path(*t, p) && p.last() == b as int);
                assert(gen_reachable(*t, b as int));
                lemma_count_false_mark(marked@, b as int);
            }
            let ghost before_stack = stack@;
            let ghost before_marked = marked@;
            marked.set(b, true);
            stack.push(b);
            proof {
                assert forall|q: int| 0 <= q < marked@.len() && #[trigger] marked@[q] implies gen_reachable(*t, q) by {
                    if q != b as int {
                        assert(before_marked[q]);
                    }
                }
                assert forall|q: int| 0 <= q < stack@.len() implies (#[trigger] stack@[q] as int) < t.nodes@.len()
                    && marked@[stack@[q] as int] by {
                    if q < before_stack.len() {
                        assert(stack@[q] == before_stack[q]);
                    }
                }
                assert forall|q: int| 0 <= q < n && #[trigger] marked@[q] implies stack@.contains(q as usize) by {
                    if q == b as int {
                        assert(stack@[stack@.len() - 1] == b);
                    } else {
                        let i = choose|i: int| 0 <= i < before_stack.len() && before_stack[i] == q as usize;
                        assert(stack@[i] == before_stack[i]);
                    }
                }
            }
        }
        proof {
            assert forall|x: int, d: int| 0 <= x < k + 1 && 0 <= d < n && t.roots@[x] == f[d].id implies marked@[d] by {
                if x == k {
                    lemma_unique_index(f, b as int, d);
                }
            }
        }
        k = k + 1;
    }
    proof {
        assert forall|b: int| 0 <= b < n && #[trigger] gen_root(*t, b) implies marked@[b] by {
            let x = choose|x: int| 0 <= x < t.roots@.len() && t.roots@[x] == t.nodes@[b].id;
        }
    }
    while stack.len() > 0
        invariant
            fragment_shape_error(*t) is None,
            f == t.nodes@,
            n == f.len(),
            marks_sound(*t, marked@),
            stack_ok(*t, marked@, stack@),
            roots_marked(*t, marked@),
            closed_except(*t, marked@, stack@, -1),
        decreases count_false(marked@) + stack@.len(),
    {
        let ghost s1 = stack@;
        let a = stack.pop().unwrap();
        proof {
            assert(s1[s1.len() - 1] == a);
            assert forall|q: int| 0 <= q < stack@.len() implies (#[trigger] stack@[q] as int) < t.nodes@.len()
                && marked@[stack@[q] as int] by {
                assert(stack@[q] == s1[q]);
            }
            assert forall|a2: int, c2: int|
                0 <= a2 < n && 0 <= c2 < n && marked@[a2] && a2 != a as int && !stack@.contains(a2 as usize)
                    && #[trigger] gen_child(*t, a2, c2) implies marked@[c2] by {
                if s1.contains(a2 as usize) {
                    let i = choose|i: int| 0 <= i < s1.len() && s1[i] == a2 as usize;
                    if i < s1.len() - 1 {
                        assert(stack@[i] == s1[i]);
                    }
                }
            }
        }
        visit_children(t, a, &mut marked, &mut stack);
    }
    proof {
        assert forall|j: int| 0 <= j < n implies (marked@[j] <==> gen_reachable(*t, j)) by {
            if gen_reachable(*t, j) {
                let p = choose|p: Seq<int>| gen_path(*t, p) && p.last() == j;
                lemma_marked_reach(*t, marked@, p);
            }
        }
    }
    marked
}

/// Checks the fragment's shape, then that a root reaches every node.
pub fn validate_fragment(t: &GeneratedRawTree) -> (r: Result<(), TreeEditError>)
    ensures
        fragment_outcome(*t, r),
{
    if let Err(e) = check_generated_nodes(&t.nodes) {
        return Err(e);
    }
    if let Err(e) = check_references(&t.nodes, &t.roots) {
        return Err(e);
    }
    if let Err(e) = check_children(&t.nodes) {
        return Err(e);
    }
    if let Some(id) = smallest_reused(t) {
        return Err(TreeEditError::ReusedGeneratedNode { id });
    }
    let marked = reachable_marks(t);
    let mut j: usize = 0;
    while j < t.nodes.len()
        invariant
            fragment_shape_error(*t) is None,
            marked@.len() == t.nodes@.len(),
            forall|q: int| 0 <= q < t.nodes@.len() ==> (marked@[q] <==> gen_reachable(*t, q)),
            j <= t.nodes@.len(),
            forall|q: int| 0 <= q < j ==> gen_reachable(*t, q),
        decreases t.nodes@.len() - j,
    {
        if !marked[j] {
            proof {
                assert(!gen_reachable(*t, j as int));
            }
            return Err(TreeEditError::UnreachableGeneratedNode { id: t.nodes[j].id });
        }
        j = j + 1;
    }
    Ok(())
}


/// The error kinds a malformed input tree gives.
pub open spec fn input_tree_error(e: TreeEditError) -> bool {
    ||| e is UnknownInputNode
    ||| e is InputCycle
    ||| e is ReusedInputNode
    ||| e is UnreachableInputNode
}

/// Number of nodes the traversal has not entered yet.
pub open spec fn count_new(s: Seq<u8>) -> nat
    decreases s.len(),
{
    if s.len() == 0 {
        0
    } else {
        count_new(s.drop_last()) + if s.last() == 0 {
            1nat
        } else {
            0nat
        }
    }
}

proof fn lemma_count_new_mark(s: Seq<u8>, i: int, v: u8)
    requires
        0 <= i < s.len(),
        s[i] == 0,
        v != 0,
    ensures
        count_new(s.update(i, v)) + 1 == count_new(s),
    decreases s.len(),
{
    let u = s.update(i, v);
    if i == s.len() - 1 {
        assert(u.drop_last() =~= s.drop_last());
    } else {
        assert(u.drop_last() =~= s.drop_last().update(i, v));
        lemma_count_new_mark(s.drop_last(), i, v);
    }
}

proof fn lemma_count_new_mono(s: Seq<u8>, t: Seq<u8>)
    requires
        s.len() == t.len(),
        forall|i: int| 0 <= i < s.len() && s[i] != 0 ==> t[i] != 0,
    ensures
        count_new(t) <= count_new(s),
    decreases s.len(),
{
    if s.len() > 0 {
        lemma_count_new_mono(s.drop_last(), t.drop_last());
    }
}

proof fn lemma_count_new_bound(s: Seq<u8>)
    ensures
        count_new(s) <= s.len(),
    decreases s.len(),
{
    if s.len() > 0 {
        lemma_count_new_bound(s.drop_last());
    }
}

/// Entered nodes stay entered.
pub open spec fn stays_entered(a: Seq<u8>, b: Seq<u8>) -> bool {
    &&& a.len() == b.len()
    &&& forall|i: int| 0 <= i < a.len() && a[i] != 0 ==> #[trigger] b[i] != 0
}

/// Node `a` is node `x` or one of its ancestors by parent links; a parent link
/// counts only when it points to an earlier node.
pub open spec fn under(nodes: Seq<RawNode>, x: int, a: int) -> bool
    decreases x,
{
    if x < 0 || x >= nodes.len() {
        false
    } else if x == a {
        true
    } else {
        match nodes[x].parent {
            Some(p) => if 0 <= p.0 < x {
                under(nodes, p.0 as int, a)
            } else {
                false
            },
            None => false,
        }
    }
}

/// A tree whose links agree and whose node IDs are their indices, as the
/// parser builds them.
pub open spec fn proper_tree(t: RawTree) -> bool {
    links_ok(t.nodes@, t.roots@) && ids_match_indices(t.nodes@)
}

proof fn lemma_under_bounds(nodes: Seq<RawNode>, x: int, a: int)
    requires
        under(nodes, x, a),
    ensures
        0 <= a <= x < nodes.len(),
    decreases x,
{
    if x != a {
        let p = nodes[x].parent.unwrap();
        lemma_under_bounds(nodes, p.0 as int, a);
    }
}

/// A node below `a` lies below some child of `a`.
proof fn lemma_under_child(nodes: Seq<RawNode>, x: int, a: int) -> (c: int)
    requires
        under(nodes, x, a),
        x != a,
    ensures
        0 <= c < nodes.len(),
        nodes[c].parent == Some(RawNodeId(a as u64)),
        under(nodes, x, c),
    decreases x,
{
    let p = nodes[x].parent.unwrap();
    lemma_under_bounds(nodes, p.0 as int, a);
    if p.0 as int == a {
        assert(0 <= a);
        assert(p == RawNodeId(a as u64));
        x
    } else {
        let c = lemma_under_child(nodes, p.0 as int, a);
        assert(under(nodes, x, c)) by {
            lemma_under_step(nodes, x, p, c);
        }
        c
    }
}

/// Being below the parent of `x` makes `x` below too.
proof fn lemma_under_step(nodes: Seq<RawNode>, x: int, p: RawNodeId, c: int)
    requires
        0 <= x < nodes.len(),
        nodes[x].parent == Some(p),
        p.0 < x,
        under(nodes, p.0 as int, c),
    ensures
        under(nodes, x, c),
{
    lemma_under_bounds(nodes, p.0 as int, c);
}

/// Below is transitive.
proof fn lemma_under_trans(nodes: Seq<RawNode>, x: int, c: int, a: int)
    requires
        under(nodes, x, c),
        under(nodes, c, a),
    ensures
        under(nodes, x, a),
    decreases x,
{
    lemma_under_bounds(nodes, x, c);
    if x != c {
        let p = nodes[x].parent.unwrap();
        lemma_under_trans(nodes, p.0 as int, c, a);
        lemma_under_step(nodes, x, p, a);
    }
}

/// Two distinct nodes with the same parent (or both without one) have no
/// common node below them.
proof fn lemma_siblings_disjoint(nodes: Seq<RawNode>, x: int, c1: int, c2: int)
    requires
        0 <= c1 < nodes.len(),
        0 <= c2 < nodes.len(),
        c1 != c2,
        nodes[c1].parent == nodes[c2].parent,
        forall|i: int| 0 <= i < nodes.len() ==> #[trigger] parent_ok(nodes, i),
    ensures
        !(under(nodes, x, c1) && under(nodes, x, c2)),
    decreases x,
{
    if under(nodes, x, c1) && under(nodes, x, c2) {
        lemma_under_bounds(nodes, x, c1);
        lemma_under_bounds(nodes, x, c2);
        if x == c1 {
            lemma_not_under_sibling(nodes, c1, c2);
        } else if x == c2 {
            lemma_not_under_sibling(nodes, c2, c1);
        } else {
            let p = nodes[x].parent.unwrap();
            lemma_siblings_disjoint(nodes, p.0 as int, c1, c2);
        }
    }
}

/// A node is not below a distinct node with the same parent.
proof fn lemma_not_under_sibling(nodes: Seq<RawNode>, c1: int, c2: int)
    requires
        0 <= c1 < nodes.len(),
        0 <= c2 < nodes.len(),
        c1 != c2,
        nodes[c1].parent == nodes[c2].parent,
        forall|i: int| 0 <= i < nodes.len() ==> #[trigger] parent_ok(nodes, i),
    ensures
        !under(nodes, c1, c2),
{
    if under(nodes, c1, c2) {
        assert(parent_ok(nodes, c1));
        assert(parent_ok(nodes, c2));
        match nodes[c1].parent {
            Some(p) => {
                assert(under(nodes, p.0 as int, c2));
                lemma_under_bounds(nodes, p.0 as int, c2);
            },
            None => {},
        }
    }
}

/// Every node of a proper tree lies below some root.
proof fn lemma_under_some_root(t: RawTree, x: int) -> (k: int)
    requires
        proper_tree(t),
        t.nodes@.len() <= u64::MAX,
        0 <= x < t.nodes@.len(),
    ensures
        0 <= k < t.roots@.len(),
        under(t.nodes@, x, t.roots@[k].0 as int),
    decreases x,
{
    let nodes = t.nodes@;
    assert(parent_ok(nodes, x));
    match nodes[x].parent {
        None => {
            assert(t.roots@.contains(RawNodeId(x as u64)));
            let k = choose|k: int| 0 <= k < t.roots@.len() && t.roots@[k] == RawNodeId(x as u64);
            k
        },
        Some(p) => {
            let k = lemma_under_some_root(t, p.0 as int);
            lemma_under_step(nodes, x, p, t.roots@[k].0 as int);
            k
        },
    }
}

/// In a proper tree, the walk has not entered any node below `id`, which names a node.
pub open spec fn fresh_subtree(t: RawTree, id: RawNodeId, s: Seq<u8>) -> bool {
    &&& proper_tree(t)
    &&& t.nodes@.len() <= u64::MAX
    &&& s.len() == t.nodes@.len()
    &&& id.0 < t.nodes@.len()
    &&& forall|x: int| 0 <= x < t.nodes@.len() && under(t.nodes@, x, id.0 as int) ==> #[trigger] s[x] == 0
}

/// Every node the walk has entered carries the ID of its own index.
pub open spec fn entered_named(nodes: Seq<RawNode>, s: Seq<u8>) -> bool {
    forall|x: int| 0 <= x < s.len() && #[trigger] s[x] != 0 ==> nodes[x].id == RawNodeId(x as u64)
}

/// Depth-first walk of the input subtree at `id`: state 0 is unseen, 1 is on the
/// current path, 2 is finished.
fn check_input_node(tree: &RawTree, id: RawNodeId, state: &mut Vec<u8>, fuel: usize) -> (r: Result<(), TreeEditError>)
    requires
        old(state)@.len() == tree.nodes@.len(),
        forall|q: int| 0 <= q < old(state)@.len() ==> #[trigger] old(state)@[q] <= 2,
        count_new(old(state)@) <= fuel,
    ensures
        forall|q: int| 0 <= q < final(state)@.len() ==> #[trigger] final(state)@[q] <= 2,
        stays_entered(old(state)@, final(state)@),
        count_new(final(state)@) <= count_new(old(state)@),
        r matches Err(e) ==> input_tree_error(e),
        r is Ok ==> id.0 < tree.nodes@.len() && tree.nodes@[id.0 as int].id == id && old(state)@[id.0 as int]
            == 0 && final(state)@[id.0 as int] == 2,
        entered_named(tree.nodes@, old(state)@) ==> entered_named(tree.nodes@, final(state)@),
        fresh_subtree(*tree, id, old(state)@) ==> r is Ok && forall|x: int|
            0 <= x < tree.nodes@.len() ==> #[trigger] final(state)@[x] == (if under(tree.nodes@, x, id.0 as int) {
                2u8
            } else {
                old(state)@[x]
            }),
    decreases fuel,
{
    let n = tree.nodes.len();
    let ghost mode = fresh_subtree(*tree, id, state@);
    proof {
        if mode {
            assert(under(tree.nodes@, id.0 as int, id.0 as int));
        }
    }
    if id.0 < n as u64 && state[id.0 as usize] == 2 {
        return Err(TreeEditError::ReusedInputNode { id });
    }
    if id.0 < n as u64 && state[id.0 as usize] == 1 {
        return Err(TreeEditError::InputCycle { id });
    }
    let node = match tree.get(id) {
        Some(node) => node,
        None => {
            return Err(TreeEditError::UnknownInputNode { id });
        },
    };
    let i = id.0 as usize;
    let ghost s0 = state@;
    proof {
        assert(s0[i as int] <= 2);
        lemma_count_new_mark(s0, i as int, 1);
    }
    state.set(i, 1);
    let ghost s1 = state@;
    let ghost nodes = tree.nodes@;
    proof {
        if entered_named(nodes, s0) {
            assert forall|x: int| 0 <= x < s1.len() && #[trigger] s1[x] != 0 implies nodes[x].id == RawNodeId(x as u64) by {
                if x != i {
                    assert(s0[x] != 0);
                }
            }
        }
    }
    let mut k: usize = 0;
    while k < node.children.len()
        invariant
            n == tree.nodes@.len(),
            nodes == tree.nodes@,
            i < n,
            i == id.0,
            *node == nodes[i as int],
            s0.len() == n,
            s1 == s0.update(i as int, 1),
            s0 == old(state)@,
            nodes[i as int].id == id,
            s0[i as int] == 0,
            entered_named(nodes, s0) ==> entered_named(nodes, state@),
            mode == fresh_subtree(*tree, id, s0),
            mode ==> state@[i as int] == 1,
            mode ==> forall|x: int|
                0 <= x < n && !under(nodes, x, i as int) ==> #[trigger] state@[x] == s0[x],
            mode ==> forall|x: int|
                0 <= x < n && under(nodes, x, i as int) && x != i ==> #[trigger] state@[x] == (if exists|j: int|
                    0 <= j < k && #[trigger] under(nodes, x, node.children@[j].0 as int) {
                    2u8
                } else {
                    0u8
                }),
            forall|q: int| 0 <= q < state@.len() ==> #[trigger] state@[q] <= 2,
            count_new(s1) + 1 == count_new(s0),
            count_new(s0) <= fuel,
            stays_entered(s1, state@),
            count_new(state@) <= count_new(s1),
            k <= node.children@.len(),
        decreases node.children@.len() - k,
    {
        let ghost before = state@;
        let child = node.children[k];
        proof {
            if mode {
                assert(children_ok(nodes, i as int));
                let c = child.0 as int;
                assert(node.children@[k as int] == child);
                assert(i < c < n);
                assert(nodes[c].parent == Some(RawNodeId(i as u64)));
                assert(under(nodes, c, i as int)) by {
                    lemma_under_step(nodes, c, RawNodeId(i as u64), i as int);
                }
                assert forall|x: int| 0 <= x < n && under(nodes, x, c) implies #[trigger] state@[x] == 0 by {
                    lemma_under_trans(nodes, x, c, i as int);
                    lemma_under_bounds(nodes, x, c);
                    assert forall|j: int| 0 <= j < k implies !#[trigger] under(nodes, x, node.children@[j].0 as int) by {
                        let cj = node.children@[j].0 as int;
                        assert(node.children@[j].0 < child.0);
                        assert(nodes[cj].parent == Some(RawNodeId(i as u64)));
                        lemma_siblings_disjoint(nodes, x, cj, c);
                    }
                }
                assert(fresh_subtree(*tree, child, state@));
            }
        }
        let res = check_input_node(tree, child, state, fuel - 1);
        if let Err(e) = res {
            proof {
                assert(stays_entered(s0, state@)) by {
                    assert forall|q: int| 0 <= q < n && s0[q] != 0 implies #[trigger] state@[q] != 0 by {
                        assert(s1[q] != 0);
                        assert(before[q] != 0);
                    }
                }
            }
            return Err(e);
        }
        proof {
            assert forall|q: int| 0 <= q < n && s1[q] != 0 implies #[trigger] state@[q] != 0 by {
                assert(before[q] != 0);
            }
            if mode {
                let c = child.0 as int;
                assert(node.children@[k as int] == child);
                assert forall|x: int| 0 <= x < n && !under(nodes, x, i as int) implies #[trigger] state@[x] == s0[x] by {
                    if under(nodes, x, c) {
                        lemma_under_step(nodes, c, RawNodeId(i as u64), i as int);
                        lemma_under_trans(nodes, x, c, i as int);
                    }
                }
                assert forall|x: int| 0 <= x < n && under(nodes, x, i as int) && x != i implies #[trigger] state@[x] == (
                if exists|j: int| 0 <= j < k + 1 && #[trigger] under(nodes, x, node.children@[j].0 as int) {
                    2u8
                } else {
                    0u8
                }) by {
                    if under(nodes, x, c) {
                        assert(under(nodes, x, node.children@[k as int].0 as int));
                    } else {
                        if exists|j: int| 0 <= j < k + 1 && #[trigger] under(nodes, x, node.children@[j].0 as int) {
                            let j = choose|j: int| 0 <= j < k + 1 && #[trigger] under(nodes, x, node.children@[j].0 as int);
                            assert(j < k);
                        }
                    }
                }
                assert(!under(nodes, i as int, c)) by {
                    if under(nodes, i as int, c) {
                        lemma_under_bounds(nodes, i as int, c);
                    }
                }
            }
        }
        k = k + 1;
    }
    let ghost s2 = state@;
    proof {
        if mode {
            assert forall|x: int| 0 <= x < n && under(nodes, x, i as int) && x != i implies s2[x] == 2 by {
                let c = lemma_under_child(nodes, x, i as int);
                assert(parent_ok(nodes, c));
                assert(nodes[i as int].children@.contains(RawNodeId(c as u64)));
                let j = choose|j: int| 0 <= j < nodes[i as int].children@.len() && nodes[i as int].children@[j] == RawNodeId(c as u64);
                assert(under(nodes, x, node.children@[j].0 as int));
            }
        }
    }
    state.set(i, 2);
    proof {
        assert forall|q: int| 0 <= q < n && s2[q] != 0 implies #[trigger] state@[q] != 0 by {}
        assert forall|q: int| 0 <= q < n && s0[q] != 0 implies #[trigger] state@[q] != 0 by {
            assert(s1[q] != 0);
            assert(s2[q] != 0);
        }
        lemma_count_new_mono(s2, state@);
        if entered_named(nodes, s0) {
            assert forall|x: int| 0 <= x < state@.len() && #[trigger] state@[x] != 0 implies nodes[x].id == RawNodeId(x as u64) by {
                if x != i {
                    assert(s2[x] != 0);
                }
            }
        }
    }
    Ok(())
}

/// Walks the input tree from its roots, then requires that the walk entered every node.
fn check_input_tree(tree: &RawTree) -> (r: Result<(), TreeEditError>)
    ensures
        r matches Err(e) ==> input_tree_error(e),
        proper_tree(*tree) ==> r is Ok,
        r is Ok ==> forall|k: int|
            0 <= k < tree.roots@.len() ==> (#[trigger] tree.roots@[k]).0 < tree.nodes@.len()
                && tree.nodes@[tree.roots@[k].0 as int].id == tree.roots@[k],
        r is Ok ==> forall|a: int, b: int|
            0 <= a < b < tree.roots@.len() ==> #[trigger] tree.roots@[a] != #[trigger] tree.roots@[b],
        r is Ok ==> forall|j: int|
            0 <= j < tree.nodes@.len() ==> (#[trigger] tree.nodes@[j]).id.0 < tree.nodes@.len()
                && tree.nodes@[tree.nodes@[j].id.0 as int].id == tree.nodes@[j].id,
{
    let n = tree.nodes.len();
    let ghost good = proper_tree(*tree);
    let ghost nodes = tree.nodes@;
    let ghost roots = tree.roots@;
    let mut state: Vec<u8> = Vec::new();
    let mut i: usize = 0;
    while i < n
        invariant
            n == tree.nodes@.len(),
            i <= n,
            state@.len() == i,
            forall|q: int| 0 <= q < state@.len() ==> #[trigger] state@[q] == 0,
        decreases n - i,
    {
        state.push(0);
        i = i + 1;
    }
    proof {
        assert(n <= u64::MAX);
    }
    let mut k: usize = 0;
    while k < tree.roots.len()
        invariant
            n == tree.nodes@.len(),
            n <= u64::MAX,
            nodes == tree.nodes@,
            roots == tree.roots@,
            good == proper_tree(*tree),
            state@.len() == n,
            forall|q: int| 0 <= q < state@.len() ==> #[trigger] state@[q] <= 2,
            k <= tree.roots@.len(),
            good ==> forall|x: int|
                0 <= x < n ==> #[trigger] state@[x] == (if exists|j: int|
                    0 <= j < k && #[trigger] under(nodes, x, roots[j].0 as int) {
                    2u8
                } else {
                    0u8
                }),
            entered_named(nodes, state@),
            forall|j: int|
                0 <= j < k ==> (#[trigger] roots[j]).0 < n && nodes[roots[j].0 as int].id == roots[j]
                    && state@[roots[j].0 as int] != 0,
            forall|a: int, b: int| 0 <= a < b < k ==> #[trigger] roots[a] != #[trigger] roots[b],
        decreases tree.roots@.len() - k,
    {
        proof {
            lemma_count_new_bound(state@);
        }
        let root = tree.roots[k];
        let ghost before = state@;
        proof {
            if good {
                assert(roots[k as int] == root);
                assert(root.0 < n);
                assert forall|x: int| 0 <= x < n && under(nodes, x, root.0 as int) implies #[trigger] state@[x] == 0 by {
                    assert forall|j: int| 0 <= j < k implies !#[trigger] under(nodes, x, roots[j].0 as int) by {
                        assert(roots[j].0 < root.0);
                        assert(roots[j].0 < n);
                        lemma_siblings_disjoint(nodes, x, roots[j].0 as int, root.0 as int);
                    }
                }
                assert(fresh_subtree(*tree, root, state@));
            }
        }
        if let Err(e) = check_input_node(tree, root, &mut state, n) {
            return Err(e);
        }
        proof {
            assert(roots[k as int] == root);
            assert forall|j: int| 0 <= j < k + 1 implies (#[trigger] roots[j]).0 < n && nodes[roots[j].0 as int].id
                == roots[j] && state@[roots[j].0 as int] != 0 by {
                if j < k {
                    assert(before[roots[j].0 as int] != 0);
                }
            }
            assert forall|a: int, b: int| 0 <= a < b < k + 1 implies #[trigger] roots[a] != #[trigger] roots[b] by {
                if b == k {
                    assert(before[roots[a].0 as int] != 0);
                }
            }
        }
        proof {
            if good {
                assert forall|x: int| 0 <= x < n implies #[trigger] state@[x] == (if exists|j: int|
                    0 <= j < k + 1 && #[trigger] under(nodes, x, roots[j].0 as int) {
                    2u8
                } else {
                    0u8
                }) by {
                    if under(nodes, x, root.0 as int) {
                        assert(under(nodes, x, roots[k as int].0 as int));
                    } else {
                        if exists|j: int| 0 <= j < k + 1 && #[trigger] under(nodes, x, roots[j].0 as int) {
                            let j = choose|j: int| 0 <= j < k + 1 && #[trigger] under(nodes, x, roots[j].0 as int);
                            assert(j < k);
                        }
                    }
                }
            }
        }
        k = k + 1;
    }
    proof {
        if good {
            assert forall|x: int| 0 <= x < n implies #[trigger] state@[x] == 2 by {
                let j = lemma_under_some_root(*tree, x);
                assert(under(nodes, x, roots[j].0 as int));
            }
        }
    }
    let mut j: usize = 0;
    while j < n
        invariant
            n == tree.nodes@.len(),
            nodes == tree.nodes@,
            state@.len() == n,
            j <= n,
            good == proper_tree(*tree),
            good ==> forall|x: int| 0 <= x < n ==> #[trigger] state@[x] == 2,
            entered_named(nodes, state@),
            forall|q: int|
                0 <= q < j ==> (#[trigger] nodes[q]).id.0 < n && nodes[nodes[q].id.0 as int].id == nodes[q].id,
        decreases n - j,
    {
        let id = tree.nodes[j].id;
        proof {
            if good {
                assert(id == RawNodeId(j as u64));
            }
        }
        if !(id.0 < n as u64 && state[id.0 as usize] == 2) {
            return Err(TreeEditError::UnreachableInputNode { id });
        }
        proof {
            assert(state@[id.0 as int] != 0);
            assert(nodes[j as int].id == id);
        }
        j = j + 1;
    }
    Ok(())
}

/// The origins of generated text: each call-site origin, replaced (or anchored
/// where it is empty) and attributed to `e`.
pub open spec fn generated_origins(os: Seq<SourceOrigin>, e: ExpansionId) -> Seq<SourceOrigin> {
    os.map_values(
        |o: SourceOrigin|
            SourceOrigin {
                original_range: o.original_range,
                kind: if o.original_range.start == o.original_range.end {
                    OriginKind::Anchored
                } else {
                    OriginKind::Replaced
                },
                expansion: Some(e),
            },
    )
}

/// The span every generated node covers: the call site's virtual range, with
/// origins attributed to the expansion.
fn generated_span(call_site: &MappedSpan, expansion: ExpansionId) -> (r: MappedSpan)
    ensures
        r.virtual_range == call_site.virtual_range,
        r.origins@ == generated_origins(call_site.origins@, expansion),
{
    let mut origins: Vec<SourceOrigin> = Vec::new();
    let mut k: usize = 0;
    while k < call_site.origins.len()
        invariant
            k <= call_site.origins@.len(),
            origins@ == generated_origins(call_site.origins@.take(k as int), expansion),
        decreases call_site.origins@.len() - k,
    {
        let o = call_site.origins[k];
        let kind = if o.original_range.is_empty() {
            OriginKind::Anchored
        } else {
            OriginKind::Replaced
        };
        origins.push(SourceOrigin { original_range: o.original_range, kind, expansion: Some(expansion) });
        proof {
            assert(call_site.origins@.take(k + 1) =~= call_site.origins@.take(k as int).push(o));
            assert(origins@ =~= generated_origins(call_site.origins@.take(k + 1), expansion));
        }
        k = k + 1;
    }
    proof {
        assert(call_site.origins@.take(call_site.origins@.len() as int) =~= call_site.origins@);
    }
    MappedSpan { virtual_range: call_site.virtual_range, origins }
}

/// The zero-width span at the end of the call site, with generated origins.
fn generated_point(call_site: &MappedSpan, expansion: ExpansionId) -> (r: MappedSpan)
    ensures
        r.virtual_range == (TextRange { start: call_site.virtual_range.end, end: call_site.virtual_range.end }),
        r.origins@ == generated_origins(call_site.origins@, expansion),
{
    let mut span = generated_span(call_site, expansion);
    span.virtual_range = TextRange::empty(call_site.virtual_range.end);
    span
}


/// The raw kind a generated kind becomes.
pub open spec fn raw_kind(k: GeneratedRawNodeKind) -> RawNodeKind {
    match k {
        GeneratedRawNodeKind::Blank => RawNodeKind::Blank,
        GeneratedRawNodeKind::Comment => RawNodeKind::Comment,
        GeneratedRawNodeKind::Simple => RawNodeKind::Simple,
        GeneratedRawNodeKind::Section => RawNodeKind::Section,
    }
}

/// The raw node a generated node becomes: it covers the call site, sits on the
/// target's line and belongs to the expansion's syntax context.
fn build_generated_node(
    g: &GeneratedRawNode,
    span: &MappedSpan,
    point: &MappedSpan,
    line_number: usize,
    syntax_context: SyntaxContextId,
) -> (r: RawNode)
    ensures
        r.kind == raw_kind(g.kind),
        r.text@ == g.text@,
        r.span@ == span@,
        r.syntax_context == syntax_context,
        r.parent is None,
        r.children@.len() == 0,
{
    let kind = match g.kind {
        GeneratedRawNodeKind::Blank => RawNodeKind::Blank,
        GeneratedRawNodeKind::Comment => RawNodeKind::Comment,
        GeneratedRawNodeKind::Simple => RawNodeKind::Simple,
        GeneratedRawNodeKind::Section => RawNodeKind::Section,
    };
    let raw_text = match g.kind {
        GeneratedRawNodeKind::Blank => String::new(),
        GeneratedRawNodeKind::Section => g.text.clone().concat(":"),
        _ => g.text.clone(),
    };
    let is_code = kind == RawNodeKind::Simple || kind == RawNodeKind::Section;
    let code_span = if is_code {
        Some(span.clone())
    } else {
        None
    };
    let header_span = if kind == RawNodeKind::Section {
        Some(span.clone())
    } else {
        None
    };
    let body_span = if kind == RawNodeKind::Section {
        Some(point.clone())
    } else {
        None
    };
    let line = RawLine {
        number: line_number,
        raw_text,
        line_ending: LineEnding::Absent,
        span: span.clone(),
        content_span: span.clone(),
        line_ending_span: point.clone(),
        indentation: RawTrivia { kind: RawTriviaKind::Whitespace, text: String::new(), span: point.clone() },
        trailing_trivia: Vec::new(),
    };
    RawNode {
        id: RawNodeId(0),
        kind,
        text: g.text.clone(),
        span: span.clone(),
        line,
        code_span,
        header_span,
        body_span,
        indent_level: None,
        invalid_reason: None,
        syntax_context,
        parent: None,
        children: Vec::new(),
    }
}

/// A node waiting to be copied into the rebuilt tree, with its new parent.
#[derive(Clone, Copy)]
enum Pending {
    Original { index: usize, parent: Option<RawNodeId> },
    Generated { index: usize, parent: Option<RawNodeId> },
}

/// A pending entry names a node of its arena and an already placed parent.
spec fn pending_ok(item: Pending, n: int, m: int, placed: int) -> bool {
    match item {
        Pending::Original { index, parent } => index < n && (parent matches Some(p) ==> p.0 < placed),
        Pending::Generated { index, parent } => index < m && (parent matches Some(p) ==> p.0 < placed),
    }
}

/// The parent a pending entry will be placed under.
spec fn pending_parent(item: Pending) -> Option<RawNodeId> {
    match item {
        Pending::Original { parent, .. } => parent,
        Pending::Generated { parent, .. } => parent,
    }
}

/// Every pending entry will be placed under a Section (or as a root).
spec fn parents_are_sections(stack: Seq<Pending>, nodes: Seq<RawNode>) -> bool {
    forall|q: int|
        0 <= q < stack.len() ==> (pending_parent(#[trigger] stack[q]) matches Some(p) ==> p.0 < nodes.len()
            && nodes[p.0 as int].kind == RawNodeKind::Section)
}

/// Every pending entry is well formed.
spec fn stack_pending_ok(stack: Seq<Pending>, n: int, m: int, placed: int) -> bool {
    forall|q: int| 0 <= q < stack.len() ==> pending_ok(#[trigger] stack[q], n, m, placed)
}

/// Index of the input node that `id` names, if the arena holds it at that index.
fn input_index(tree: &RawTree, id: RawNodeId) -> (r: Option<usize>)
    ensures
        r is Some <==> id.0 < tree.nodes@.len(),
        r matches Some(i) ==> i < tree.nodes@.len() && i == id.0,
{
    if id.0 < tree.nodes.len() as u64 {
        Some(id.index())
    } else {
        None
    }
}

/// The entries pushed for the input children `ids[k..]` under `parent`, last
/// child first, skipping IDs outside an arena of `n` nodes.
spec fn input_pending(ids: Seq<RawNodeId>, n: int, parent: Option<RawNodeId>, k: int) -> Seq<Pending>
    decreases ids.len() - k,
{
    if k < 0 || k >= ids.len() {
        Seq::empty()
    } else {
        input_pending(ids, n, parent, k + 1) + if ids[k].0 < n {
            seq![Pending::Original { index: ids[k].0 as usize, parent }]
        } else {
            Seq::empty()
        }
    }
}

/// The index of the first fragment node with ID `id`.
#[verifier::opaque]
spec fn generated_index(nodes: Seq<GeneratedRawNode>, id: GeneratedRawNodeId) -> int {
    choose|j: int| 0 <= j < nodes.len() && nodes[j].id == id && forall|k: int| 0 <= k < j ==> nodes[k].id != id
}

/// The entries pushed for the generated children `ids[k..]` under `parent`,
/// last child first, skipping IDs the fragment does not declare.
spec fn generated_pending(
    ids: Seq<GeneratedRawNodeId>,
    nodes: Seq<GeneratedRawNode>,
    parent: Option<RawNodeId>,
    k: int,
) -> Seq<Pending>
    decreases ids.len() - k,
{
    if k < 0 || k >= ids.len() {
        Seq::empty()
    } else {
        generated_pending(ids, nodes, parent, k + 1) + if declared(nodes, ids[k]) {
            seq![Pending::Generated { index: generated_index(nodes, ids[k]) as usize, parent }]
        } else {
            Seq::empty()
        }
    }
}

/// `after` is the stack `before` with the input children `ids` pushed under
/// `parent`, last child first.
#[verifier::opaque]
spec fn pushed_input_children(
    before: Seq<Pending>,
    after: Seq<Pending>,
    ids: Seq<RawNodeId>,
    n: int,
    parent: Option<RawNodeId>,
) -> bool {
    after == before + input_pending(ids, n, parent, 0)
}

/// `after` is the stack `before` with the generated children `ids` pushed under
/// `parent`, last child first.
#[verifier::opaque]
spec fn pushed_generated_children(
    before: Seq<Pending>,
    after: Seq<Pending>,
    ids: Seq<GeneratedRawNodeId>,
    nodes: Seq<GeneratedRawNode>,
    parent: Option<RawNodeId>,
) -> bool {
    after == before + generated_pending(ids, nodes, parent, 0)
}

/// The first fragment node with ID `id` is the one that `generated_index` names.
proof fn lemma_generated_index(nodes: Seq<GeneratedRawNode>, id: GeneratedRawNodeId, i: int)
    requires
        0 <= i < nodes.len(),
        nodes[i].id == id,
        forall|k: int| 0 <= k < i ==> nodes[k].id != id,
    ensures
        generated_index(nodes, id) == i,
{
    reveal(generated_index);
    let c = generated_index(nodes, id);
    assert(0 <= c < nodes.len() && nodes[c].id == id && forall|k: int| 0 <= k < c ==> nodes[k].id != id);
    if c < i {
        assert(nodes[c].id != id);
    }
    if i < c {
        assert(nodes[i].id != id);
    }
}

/// Pushes input children so that the first one is taken next.
fn push_input_children(
    tree: &RawTree,
    ids: &Vec<RawNodeId>,
    parent: Option<RawNodeId>,
    stack: &mut Vec<Pending>,
    Ghost(m): Ghost<int>,
    Ghost(placed): Ghost<int>,
)
    requires
        stack_pending_ok(old(stack)@, tree.nodes@.len() as int, m, placed),
        parent matches Some(p) ==> p.0 < placed,
    ensures
        stack_pending_ok(final(stack)@, tree.nodes@.len() as int, m, placed),
        final(stack)@.len() >= old(stack)@.len(),
        forall|q: int| 0 <= q < old(stack)@.len() ==> #[trigger] final(stack)@[q] == old(stack)@[q],
        forall|q: int| old(stack)@.len() <= q < final(stack)@.len() ==> pending_parent(#[trigger] final(stack)@[q]) == parent,
        final(stack)@.len() > old(stack)@.len() ==> ids@.len() > 0,
        pushed_input_children(old(stack)@, final(stack)@, ids@, tree.nodes@.len() as int, parent),
{
    let mut k = ids.len();
    while k > 0
        invariant
            k <= ids@.len(),
            stack@ == old(stack)@ + input_pending(ids@, tree.nodes@.len() as int, parent, k as int),
            stack_pending_ok(stack@, tree.nodes@.len() as int, m, placed),
            stack@.len() >= old(stack)@.len(),
            parent matches Some(p) ==> p.0 < placed,
            forall|q: int| 0 <= q < old(stack)@.len() ==> #[trigger] stack@[q] == old(stack)@[q],
            forall|q: int| old(stack)@.len() <= q < stack@.len() ==> pending_parent(#[trigger] stack@[q]) == parent,
            stack@.len() > old(stack)@.len() ==> ids@.len() > 0,
        decreases k,
    {
        k = k - 1;
        if let Some(i) = input_index(tree, ids[k]) {
            stack.push(Pending::Original { index: i, parent });
        }
        proof {
            assert(stack@ =~= old(stack)@ + input_pending(ids@, tree.nodes@.len() as int, parent, k as int));
        }
    }
    proof {
        reveal(pushed_input_children);
    }
}

/// Pushes generated children so that the first one is taken next.
fn push_generated_children(
    f: &GeneratedRawTree,
    ids: &Vec<GeneratedRawNodeId>,
    parent: Option<RawNodeId>,
    stack: &mut Vec<Pending>,
    Ghost(n): Ghost<int>,
    Ghost(placed): Ghost<int>,
)
    requires
        stack_pending_ok(old(stack)@, n, f.nodes@.len() as int, placed),
        parent matches Some(p) ==> p.0 < placed,
    ensures
        stack_pending_ok(final(stack)@, n, f.nodes@.len() as int, placed),
        final(stack)@.len() >= old(stack)@.len(),
        forall|q: int| 0 <= q < old(stack)@.len() ==> #[trigger] final(stack)@[q] == old(stack)@[q],
        forall|q: int| old(stack)@.len() <= q < final(stack)@.len() ==> pending_parent(#[trigger] final(stack)@[q]) == parent,
        final(stack)@.len() > old(stack)@.len() ==> ids@.len() > 0,
        pushed_generated_children(old(stack)@, final(stack)@, ids@, f.nodes@, parent),
{
    let mut k = ids.len();
    while k > 0
        invariant
            k <= ids@.len(),
            stack@ == old(stack)@ + generated_pending(ids@, f.nodes@, parent, k as int),
            stack_pending_ok(stack@, n, f.nodes@.len() as int, placed),
            stack@.len() >= old(stack)@.len(),
            parent matches Some(p) ==> p.0 < placed,
            forall|q: int| 0 <= q < old(stack)@.len() ==> #[trigger] stack@[q] == old(stack)@[q],
            forall|q: int| old(stack)@.len() <= q < stack@.len() ==> pending_parent(#[trigger] stack@[q]) == parent,
            stack@.len() > old(stack)@.len() ==> ids@.len() > 0,
        decreases k,
    {
        k = k - 1;
        let ghost rest = generated_pending(ids@, f.nodes@, parent, k + 1);
        if let Some(i) = find_generated(&f.nodes, ids[k]) {
            proof {
                lemma_generated_index(f.nodes@, ids@[k as int], i as int);
                assert(generated_pending(ids@, f.nodes@, parent, k as int) == rest + seq![
                    Pending::Generated { index: i, parent },
                ]);
            }
            stack.push(Pending::Generated { index: i, parent });
            proof {
                assert(stack@ =~= old(stack)@ + (rest + seq![Pending::Generated { index: i, parent }]));
            }
        } else {
            proof {
                assert(generated_pending(ids@, f.nodes@, parent, k as int) =~= rest);
            }
        }
    }
    proof {
        reveal(pushed_generated_children);
    }
}

/// The parts of a node other than its identity and links.
pub open spec fn same_content(a: RawNode, b: RawNode) -> bool {
    &&& a.kind == b.kind
    &&& a.text@ == b.text@
    &&& a.span@ == b.span@
    &&& a.syntax_context == b.syntax_context
    &&& a.line.number == b.line.number
    &&& a.line.raw_text@ == b.line.raw_text@
}

/// Every node of an arena carries the ID of its own index.
pub open spec fn ids_match_indices(nodes: Seq<RawNode>) -> bool {
    forall|i: int| 0 <= i < nodes.len() ==> (#[trigger] nodes[i]).id == RawNodeId(i as u64)
}

/// Places `node` as the next arena entry under `parent`, or as a root.
#[verifier::rlimit(40)]
fn place(nodes: &mut Vec<RawNode>, roots: &mut Vec<RawNodeId>, node: RawNode, parent: Option<RawNodeId>) -> (r: RawNodeId)
    requires
        parent matches Some(p) ==> p.0 < old(nodes)@.len(),
        old(nodes)@.len() < u64::MAX,
        ids_match_indices(old(nodes)@),
    ensures
        final(nodes)@.len() == old(nodes)@.len() + 1,
        r == RawNodeId(old(nodes)@.len() as u64),
        ids_match_indices(final(nodes)@),
        same_content(final(nodes)@[old(nodes)@.len() as int], node),
        forall|i: int| 0 <= i < old(nodes)@.len() ==> same_content(#[trigger] final(nodes)@[i], old(nodes)@[i]),
        links_ok(old(nodes)@, old(roots)@) && (parent matches Some(p) ==> old(nodes)@[p.0 as int].kind
            == RawNodeKind::Section) ==> links_ok(final(nodes)@, final(roots)@),
{
    let ghost old_nodes = nodes@;
    let ghost old_roots = roots@;
    let ghost input = node;
    let n = nodes.len();
    let mut node = node;
    let id = RawNodeId(n as u64);
    node.id = id;
    node.parent = parent;
    node.children = Vec::new();
    match parent {
        Some(p) => {
            let index = p.0 as usize;
            nodes[index].children.push(id);
        },
        None => {
            roots.push(id);
        },
    }
    nodes.push(node);
    proof {
        let ns = nodes@;
        assert(ns.len() == n + 1);
        assert forall|i: int| 0 <= i < ns.len() implies (#[trigger] ns[i]).id == RawNodeId(i as u64) by {
            if i < n {
                assert(old_nodes[i].id == RawNodeId(i as u64));
            }
        }
        assert forall|i: int| 0 <= i < n implies same_content(#[trigger] ns[i], old_nodes[i]) by {}
        if links_ok(old_nodes, old_roots) && (parent matches Some(p) ==> old_nodes[p.0 as int].kind
            == RawNodeKind::Section) {
            assert forall|i: int| 0 <= i < ns.len() implies #[trigger] parent_ok(ns, i) by {
                if i < n {
                    assert(parent_ok(old_nodes, i));
                    if let Some(q) = ns[i].parent {
                        assert(old_nodes[q.0 as int].children@.contains(RawNodeId(i as u64)));
                        if parent == Some(q) {
                            let j = choose|j: int|
                                0 <= j < old_nodes[q.0 as int].children@.len() && old_nodes[q.0 as int].children@[j]
                                    == RawNodeId(i as u64);
                            assert(ns[q.0 as int].children@[j] == RawNodeId(i as u64));
                        }
                    }
                } else {
                    if let Some(q) = parent {
                        assert(ns[q.0 as int].children@.last() == id);
                    }
                }
            }
            assert forall|i: int| 0 <= i < ns.len() implies #[trigger] children_ok(ns, i) by {
                if i < n {
                    assert(children_ok(old_nodes, i));
                    if parent == Some(RawNodeId(i as u64)) {
                        let ch = ns[i].children@;
                        assert(ch == old_nodes[i].children@.push(id));
                        assert forall|a: int, b: int| 0 <= a < b < ch.len() implies ch[a].0 < ch[b].0 by {
                            if b == ch.len() - 1 {
                                assert(old_nodes[i].children@[a].0 < n);
                            }
                        }
                        assert forall|k: int| 0 <= k < ch.len() implies i < (#[trigger] ch[k]).0 < ns.len()
                            && ns[ch[k].0 as int].parent == Some(RawNodeId(i as u64)) by {
                            if k < ch.len() - 1 {
                                assert(ch[k] == old_nodes[i].children@[k]);
                            }
                        }
                    } else {
                        assert(ns[i].children@ == old_nodes[i].children@);
                    }
                } else {
                    assert(ns[i].children@.len() == 0);
                    assert(ids_increasing(ns[i].children@));
                }
            }
            if parent is None {
                let rs = roots@;
                assert(rs == old_roots.push(id));
                assert forall|a: int, b: int| 0 <= a < b < rs.len() implies rs[a].0 < rs[b].0 by {
                    if b == rs.len() - 1 {
                        assert(old_roots[a].0 < n);
                    }
                }
                assert forall|i: int| 0 <= i < ns.len() && (#[trigger] ns[i].parent) is None implies rs.contains(
                    RawNodeId(i as u64),
                ) by {
                    if i < n {
                        assert(old_roots.contains(RawNodeId(i as u64)));
                        let j = choose|j: int| 0 <= j < old_roots.len() && old_roots[j] == RawNodeId(i as u64);
                        assert(rs[j] == RawNodeId(i as u64));
                    } else {
                        assert(rs[rs.len() - 1] == id);
                    }
                }
            } else {
                assert forall|i: int| 0 <= i < ns.len() && (#[trigger] ns[i].parent) is None implies roots@.contains(
                    RawNodeId(i as u64),
                ) by {
                    if i < n {
                        assert(old_roots.contains(RawNodeId(i as u64)));
                    }
                }
            }
            assert(links_ok(ns, roots@));
        }
    }
    id
}

proof fn lemma_pending_grow(stack: Seq<Pending>, n: int, m: int, p1: int, p2: int)
    requires
        stack_pending_ok(stack, n, m, p1),
        p1 <= p2,
    ensures
        stack_pending_ok(stack, n, m, p2),
{
    assert forall|q: int| 0 <= q < stack.len() implies pending_ok(#[trigger] stack[q], n, m, p2) by {
        assert(pending_ok(stack[q], n, m, p1));
    }
}

proof fn lemma_pending_pop(stack: Seq<Pending>, n: int, m: int, p: int)
    requires
        stack_pending_ok(stack, n, m, p),
        stack.len() > 0,
    ensures
        stack_pending_ok(stack.drop_last(), n, m, p),
        pending_ok(stack.last(), n, m, p),
{
    assert forall|q: int| 0 <= q < stack.drop_last().len() implies pending_ok(#[trigger] stack.drop_last()[q], n, m, p) by {
        assert(stack.drop_last()[q] == stack[q]);
    }
}

/// Clones every diagnostic of a tree.
fn clone_diagnostics(v: &Vec<RawDiagnostic>) -> (r: Vec<RawDiagnostic>)
    ensures
        r@.len() == v@.len(),
        forall|k: int| 0 <= k < v@.len() ==> same_diagnostic(#[trigger] r@[k], v@[k]),
{
    let mut r: Vec<RawDiagnostic> = Vec::new();
    let mut k: usize = 0;
    while k < v.len()
        invariant
            k <= v@.len(),
            r@.len() == k,
            forall|q: int| 0 <= q < k ==> same_diagnostic(#[trigger] r@[q], v@[q]),
        decreases v@.len() - k,
    {
        r.push(v[k].clone());
        k = k + 1;
    }
    r
}

/// Clones the optional indentation unit of a tree.
fn clone_indentation(i: &Option<Indentation>) -> (r: Option<Indentation>)
    ensures
        r is Some <==> i is Some,
        r matches Some(x) ==> x.kind == i.unwrap().kind && x.unit@ == i.unwrap().unit@,
{
    match i {
        Some(x) => Some(x.clone()),
        None => None,
    }
}

/// Where a node of a rebuilt tree comes from: an input node or a fragment node,
/// by index.
pub enum NodeOrigin {
    Input(int),
    Fragment(int),
}

/// A rebuilt node matches its origin: an input node's content is kept; a
/// fragment node becomes a node of its raw kind and text that covers the
/// generated span in the expansion's syntax context.
pub open spec fn origin_ok(
    out: RawNode,
    o: NodeOrigin,
    tree: RawTree,
    f: GeneratedRawTree,
    span: SpanView,
    ctx: SyntaxContextId,
) -> bool {
    match o {
        NodeOrigin::Input(j) => 0 <= j < tree.nodes@.len() && same_content(out, tree.nodes@[j]),
        NodeOrigin::Fragment(g) => {
            &&& 0 <= g < f.nodes@.len()
            &&& out.kind == raw_kind(f.nodes@[g].kind)
            &&& out.text@ == f.nodes@[g].text@
            &&& out.span@ == span
            &&& out.syntax_context == ctx
        },
    }
}

/// The nodes `out` are rebuilt from `tree` and fragment `f` with origins `o`:
/// IDs match indices, each node matches its origin, no origin is used twice,
/// and the input node `dropped` is not kept.
pub open spec fn rebuilt_from(
    out: Seq<RawNode>,
    o: Seq<NodeOrigin>,
    tree: RawTree,
    f: GeneratedRawTree,
    span: SpanView,
    ctx: SyntaxContextId,
    dropped: int,
) -> bool {
    &&& o.len() == out.len()
    &&& ids_match_indices(out)
    &&& forall|i: int| 0 <= i < out.len() ==> origin_ok(#[trigger] out[i], o[i], tree, f, span, ctx)
    &&& forall|i: int, j: int| 0 <= i < j < o.len() ==> #[trigger] o[i] != #[trigger] o[j]
    &&& forall|i: int| 0 <= i < o.len() ==> #[trigger] o[i] != NodeOrigin::Input(dropped)
}

/// Node problems of a shape-checked fragment are absent one by one.
proof fn lemma_fragment_node_ok(f: Seq<GeneratedRawNode>, j: int)
    requires
        node_phase(f, f.len() as int) is None,
        0 <= j < f.len(),
    ensures
        generated_node_problem(f[j]) is None,
{
    lemma_node_phase_none(f, j + 1, f.len() as int);
}

/// Pending entries pushed under a Section keep every parent a Section.
proof fn lemma_sections_after_push(
    before: Seq<Pending>,
    after: Seq<Pending>,
    parent: Option<RawNodeId>,
    nodes: Seq<RawNode>,
)
    requires
        parents_are_sections(before, nodes),
        after.len() >= before.len(),
        forall|q: int| 0 <= q < before.len() ==> #[trigger] after[q] == before[q],
        forall|q: int| before.len() <= q < after.len() ==> pending_parent(#[trigger] after[q]) == parent,
        after.len() > before.len() ==> (parent matches Some(p) ==> p.0 < nodes.len() && nodes[p.0 as int].kind
            == RawNodeKind::Section),
    ensures
        parents_are_sections(after, nodes),
{
    assert forall|q: int| 0 <= q < after.len() implies (pending_parent(#[trigger] after[q]) matches Some(p)
        ==> p.0 < nodes.len() && nodes[p.0 as int].kind == RawNodeKind::Section) by {
        if q < before.len() {
            assert(after[q] == before[q]);
        }
    }
}

/// Placing a node keeps the parents of pending entries Sections.
proof fn lemma_sections_after_place(stack: Seq<Pending>, old_nodes: Seq<RawNode>, nodes: Seq<RawNode>)
    requires
        parents_are_sections(stack, old_nodes),
        nodes.len() >= old_nodes.len(),
        forall|i: int| 0 <= i < old_nodes.len() ==> same_content(#[trigger] nodes[i], old_nodes[i]),
    ensures
        parents_are_sections(stack, nodes),
{
    assert forall|q: int| 0 <= q < stack.len() implies (pending_parent(#[trigger] stack[q]) matches Some(p)
        ==> p.0 < nodes.len() && nodes[p.0 as int].kind == RawNodeKind::Section) by {
        if let Some(p) = pending_parent(stack[q]) {
            assert(same_content(nodes[p.0 as int], old_nodes[p.0 as int]));
        }
    }
}

/// Copies the input forest in depth-first order, putting the generated roots in
/// place of the target (or of its children), and the target's own children at
/// the retained parent when one is given.
#[verifier::rlimit(100)]
#[verifier::spinoff_prover]
fn rebuild_tree(
    tree: &RawTree,
    target_index: usize,
    f: &GeneratedRawTree,
    replace_children: bool,
    retained: Option<(usize, RetainedChildrenPlacement)>,
    span: &MappedSpan,
    point: &MappedSpan,
    line_number: usize,
    syntax_context: SyntaxContextId,
) -> (r: (RawTree, Ghost<Seq<NodeOrigin>>))
    requires
        target_index < tree.nodes@.len(),
        tree.nodes@.len() + f.nodes@.len() < u64::MAX,
        fragment_shape_error(*f) is None,
        replace_children ==> tree.nodes@[target_index as int].kind == RawNodeKind::Section,
        retained matches Some((ri, _)) ==> ri < f.nodes@.len() && f.nodes@[ri as int].kind
            == GeneratedRawNodeKind::Section,
    ensures
        rebuilt_from(
            r.0.nodes@,
            r.1@,
            *tree,
            *f,
            span@,
            syntax_context,
            if replace_children {
                -1
            } else {
                target_index as int
            },
        ),
        links_ok(tree.nodes@, tree.roots@) ==> links_ok(r.0.nodes@, r.0.roots@),
        r.0.diagnostics@.len() == tree.diagnostics@.len(),
        forall|k: int| 0 <= k < r.0.diagnostics@.len() ==> same_diagnostic(#[trigger] r.0.diagnostics@[k], tree.diagnostics@[k]),
        r.0.indentation is Some <==> tree.indentation is Some,
        r.0.indentation matches Some(x) ==> x.kind == tree.indentation.unwrap().kind && x.unit@ == tree.indentation.unwrap().unit@,
{
    let n = tree.nodes.len();
    let m = f.nodes.len();
    let ghost input_ok = links_ok(tree.nodes@, tree.roots@);
    let ghost dropped: int = if replace_children {
        -1
    } else {
        target_index as int
    };
    let mut done_input: Vec<bool> = Vec::new();
    let mut i: usize = 0;
    while i < n
        invariant
            n == tree.nodes@.len(),
            i <= n,
            done_input@.len() == i,
            forall|q: int| 0 <= q < i ==> !done_input@[q],
        decreases n - i,
    {
        done_input.push(false);
        i = i + 1;
    }
    let mut done_generated: Vec<bool> = Vec::new();
    let mut j: usize = 0;
    while j < m
        invariant
            m == f.nodes@.len(),
            j <= m,
            done_generated@.len() == j,
            forall|q: int| 0 <= q < j ==> !done_generated@[q],
        decreases m - j,
    {
        done_generated.push(false);
        j = j + 1;
    }
    proof {
        lemma_count_false_all(done_input@);
        lemma_count_false_all(done_generated@);
    }
    let mut nodes: Vec<RawNode> = Vec::new();
    let mut roots: Vec<RawNodeId> = Vec::new();
    let mut stack: Vec<Pending> = Vec::new();
    let ghost mut origins: Seq<NodeOrigin> = Seq::empty();
    push_input_children(tree, &tree.roots, None, &mut stack, Ghost(m as int), Ghost(0));
    proof {
        assert(links_ok(nodes@, roots@));
        assert(parents_are_sections(stack@, nodes@)) by {
            assert forall|q: int| 0 <= q < stack@.len() implies (pending_parent(#[trigger] stack@[q]) matches Some(
                p,
            ) ==> p.0 < nodes@.len() && nodes@[p.0 as int].kind == RawNodeKind::Section) by {
                assert(pending_parent(stack@[q]) is None);
            }
        }
    }
    while stack.len() > 0
        invariant
            n == tree.nodes@.len(),
            m == f.nodes@.len(),
            n + m < u64::MAX,
            target_index < n,
            fragment_shape_error(*f) is None,
            replace_children ==> tree.nodes@[target_index as int].kind == RawNodeKind::Section,
            retained matches Some((ri, _)) ==> ri < m && f.nodes@[ri as int].kind == GeneratedRawNodeKind::Section,
            input_ok == links_ok(tree.nodes@, tree.roots@),
            dropped == (if replace_children {
                -1
            } else {
                target_index as int
            }),
            done_input@.len() == n,
            done_generated@.len() == m,
            nodes@.len() + count_false(done_input@) + count_false(done_generated@) <= n + m,
            stack_pending_ok(stack@, n as int, m as int, nodes@.len() as int),
            ids_match_indices(nodes@),
            origins.len() == nodes@.len(),
            forall|q: int|
                0 <= q < nodes@.len() ==> origin_ok(#[trigger] nodes@[q], origins[q], *tree, *f, span@, syntax_context),
            forall|q: int| 0 <= q < origins.len() ==> (#[trigger] origins[q] matches NodeOrigin::Input(x) ==> 0 <= x < n
                && done_input@[x]),
            forall|q: int| 0 <= q < origins.len() ==> (#[trigger] origins[q] matches NodeOrigin::Fragment(x) ==> 0 <= x
                < m && done_generated@[x]),
            forall|a: int, b: int| 0 <= a < b < origins.len() ==> #[trigger] origins[a] != #[trigger] origins[b],
            forall|q: int| 0 <= q < origins.len() ==> #[trigger] origins[q] != NodeOrigin::Input(dropped),
            input_ok ==> links_ok(nodes@, roots@) && parents_are_sections(stack@, nodes@),
        decreases count_false(done_input@) + count_false(done_generated@), stack@.len(),
    {
        let ghost s1 = stack@;
        let item = stack.pop().unwrap();
        proof {
            assert(s1.last() == item);
            assert(stack@ == s1.drop_last());
            lemma_pending_pop(s1, n as int, m as int, nodes@.len() as int);
            if input_ok {
                assert(parents_are_sections(stack@, nodes@)) by {
                    assert forall|q: int| 0 <= q < stack@.len() implies (pending_parent(#[trigger] stack@[q]) matches Some(
                        p,
                    ) ==> p.0 < nodes@.len() && nodes@[p.0 as int].kind == RawNodeKind::Section) by {
                        assert(stack@[q] == s1[q]);
                    }
                }
                assert(pending_parent(item) matches Some(p) ==> p.0 < nodes@.len() && nodes@[p.0 as int].kind
                    == RawNodeKind::Section) by {
                    assert(s1[s1.len() - 1] == item);
                }
            }
        }
        match item {
            Pending::Original { index, parent } => {
                if done_input[index] {
                    continue;
                }
                proof {
                    lemma_count_false_mark(done_input@, index as int);
                }
                done_input.set(index, true);
                let node = &tree.nodes[index];
                if index == target_index && !replace_children {
                    let ghost before = stack@;
                    push_generated_children(f, &f.roots, parent, &mut stack, Ghost(n as int), Ghost(nodes@.len() as int));
                    proof {
                        if input_ok {
                            lemma_sections_after_push(before, stack@, parent, nodes@);
                        }
                    }
                } else {
                    let copy = node.clone();
                    let ghost old_nodes = nodes@;
                    let p = place(&mut nodes, &mut roots, copy, parent);
                    proof {
                        lemma_pending_grow(stack@, n as int, m as int, nodes@.len() - 1, nodes@.len() as int);
                        origins = origins.push(NodeOrigin::Input(index as int));
                        assert forall|q: int| 0 <= q < nodes@.len() implies origin_ok(
                            #[trigger] nodes@[q],
                            origins[q],
                            *tree,
                            *f,
                            span@,
                            syntax_context,
                        ) by {
                            if q < old_nodes.len() {
                                assert(origin_ok(old_nodes[q], origins[q], *tree, *f, span@, syntax_context));
                                assert(same_content(nodes@[q], old_nodes[q]));
                            }
                        }
                        if input_ok {
                            lemma_sections_after_place(stack@, old_nodes, nodes@);
                        }
                    }
                    let ghost before = stack@;
                    if index == target_index {
                        push_generated_children(f, &f.roots, Some(p), &mut stack, Ghost(n as int), Ghost(nodes@.len() as int));
                    } else {
                        push_input_children(tree, &node.children, Some(p), &mut stack, Ghost(m as int), Ghost(nodes@.len() as int));
                    }
                    proof {
                        if input_ok {
                            if index != target_index && node.children@.len() > 0 {
                                let c = node.children@[0];
                                assert(children_ok(tree.nodes@, index as int));
                                assert(parent_ok(tree.nodes@, c.0 as int));
                            }
                            lemma_sections_after_push(before, stack@, Some(p), nodes@);
                        }
                    }
                }
            },
            Pending::Generated { index, parent } => {
                if done_generated[index] {
                    continue;
                }
                proof {
                    lemma_count_false_mark(done_generated@, index as int);
                }
                done_generated.set(index, true);
                let g = &f.nodes[index];
                let built = build_generated_node(g, span, point, line_number, syntax_context);
                let ghost old_nodes = nodes@;
                let p = place(&mut nodes, &mut roots, built, parent);
                proof {
                    lemma_pending_grow(stack@, n as int, m as int, nodes@.len() - 1, nodes@.len() as int);
                    origins = origins.push(NodeOrigin::Fragment(index as int));
                    assert forall|q: int| 0 <= q < nodes@.len() implies origin_ok(
                        #[trigger] nodes@[q],
                        origins[q],
                        *tree,
                        *f,
                        span@,
                        syntax_context,
                    ) by {
                        if q < old_nodes.len() {
                            assert(origin_ok(old_nodes[q], origins[q], *tree, *f, span@, syntax_context));
                            assert(same_content(nodes@[q], old_nodes[q]));
                        }
                    }
                    if input_ok {
                        lemma_sections_after_place(stack@, old_nodes, nodes@);
                    }
                    lemma_fragment_node_ok(f.nodes@, index as int);
                }
                let here = match retained {
                    Some((ri, _)) => ri == index,
                    None => false,
                };
                let ghost before = stack@;
                if here {
                    let append = match retained {
                        Some((_, RetainedChildrenPlacement::Append)) => true,
                        _ => false,
                    };
                    let kept = &tree.nodes[target_index].children;
                    if append {
                        push_input_children(tree, kept, Some(p), &mut stack, Ghost(m as int), Ghost(nodes@.len() as int));
                        let ghost middle = stack@;
                        push_generated_children(f, &g.children, Some(p), &mut stack, Ghost(n as int), Ghost(nodes@.len() as int));
                        proof {
                            if input_ok {
                                lemma_sections_after_push(before, middle, Some(p), nodes@);
                                lemma_sections_after_push(middle, stack@, Some(p), nodes@);
                            }
                        }
                    } else {
                        push_generated_children(f, &g.children, Some(p), &mut stack, Ghost(n as int), Ghost(nodes@.len() as int));
                        let ghost middle = stack@;
                        push_input_children(tree, kept, Some(p), &mut stack, Ghost(m as int), Ghost(nodes@.len() as int));
                        proof {
                            if input_ok {
                                lemma_sections_after_push(before, middle, Some(p), nodes@);
                                lemma_sections_after_push(middle, stack@, Some(p), nodes@);
                            }
                        }
                    }
                } else {
                    push_generated_children(f, &g.children, Some(p), &mut stack, Ghost(n as int), Ghost(nodes@.len() as int));
                    proof {
                        if input_ok {
                            lemma_sections_after_push(before, stack@, Some(p), nodes@);
                        }
                    }
                }
            },
        }
    }
    let rebuilt = RawTree {
        roots,
        nodes,
        diagnostics: clone_diagnostics(&tree.diagnostics),
        indentation: clone_indentation(&tree.indentation),
    };
    (rebuilt, Ghost(origins))
}

/// The generated fragment an edit carries.
pub open spec fn edit_fragment(edit: TreeEdit) -> GeneratedRawTree {
    match edit {
        TreeEdit::ReplaceNode { replacement, .. } => replacement,
        TreeEdit::ReplaceChildren { replacement } => replacement,
    }
}

/// The node `id` names, if the arena holds it at that index.
pub open spec fn node_at(tree: RawTree, id: RawNodeId) -> Option<RawNode> {
    if id.0 < tree.nodes@.len() && tree.nodes@[id.0 as int].id == id {
        Some(tree.nodes@[id.0 as int])
    } else {
        None
    }
}

/// What the retained-children policy of an edit rejects, if anything.
pub open spec fn retained_problem(edit: TreeEdit) -> Option<TreeEditError> {
    match edit {
        TreeEdit::ReplaceNode { replacement, retained_children: Some(rc) } => if !declared(
            replacement.nodes@,
            rc.parent,
        ) {
            Some(TreeEditError::UnknownRetainedChildrenParent { id: rc.parent })
        } else if exists|j: int|
            0 <= j < replacement.nodes@.len() && replacement.nodes@[j].id == rc.parent
                && replacement.nodes@[j].kind != GeneratedRawNodeKind::Section {
            Some(TreeEditError::RetainedChildrenParentNotSection { id: rc.parent })
        } else {
            None
        },
        _ => None,
    }
}

/// Expansion metadata of an edit.
pub open spec fn edit_metadata(metadata: TreeEditMetadata) -> MetadataView {
    MetadataView { component: metadata.component@, hook: metadata.hook@, definition_site: None }
}

/// The span generated nodes cover: the call site's range, with origins
/// attributed to the expansion.
pub open spec fn generated_span_view(call_site: SpanView, e: ExpansionId) -> SpanView {
    SpanView { virtual_range: call_site.virtual_range, origins: generated_origins(call_site.origins, e) }
}

/// The input node an edit removes: the target it replaces, or none (-1) when
/// only the target's children are replaced.
pub open spec fn dropped_input(edit: TreeEdit, target: RawNodeId) -> int {
    if edit is ReplaceChildren {
        -1
    } else {
        target.0 as int
    }
}

/// What an edit gives on a fragment that validated and an input tree that is a
/// proper forest: the target must exist (and be a Section to replace its
/// children), the expansion is registered at the target's span, then the
/// retained-children policy is checked; success carries the registration's
/// source, expansion and context, and the input's diagnostics and indentation.
pub open spec fn edit_outcome(
    s: MappedSourceView,
    tree: RawTree,
    target: RawNodeId,
    edit: TreeEdit,
    meta: MetadataView,
    r: Result<TreeEditApplication, TreeEditError>,
) -> bool {
    match node_at(tree, target) {
        None => r == Err::<TreeEditApplication, TreeEditError>(TreeEditError::UnknownTarget { target }),
        Some(node) => if edit is ReplaceChildren && node.kind != RawNodeKind::Section {
            r == Err::<TreeEditApplication, TreeEditError>(TreeEditError::ChildrenOfNonSection { target })
        } else {
            match r {
                Err(TreeEditError::Expansion(e)) => tree_registration(s, node.span@, meta, Err(e)),
                Err(e) => (exists|x: (MappedSourceView, ExpansionId, SyntaxContextId)|
                    tree_registration(s, node.span@, meta, Ok(x))) && retained_problem(edit) == Some(e),
                Ok(a) => {
                    &&& tree_registration(s, node.span@, meta, Ok((a.source@, a.expansion, a.syntax_context)))
                    &&& retained_problem(edit) is None
                    &&& a.replacement_roots == edit_fragment(edit).roots@.len()
                    &&& a.tree.diagnostics@.len() == tree.diagnostics@.len()
                    &&& forall|k: int|
                        0 <= k < tree.diagnostics@.len() ==> same_diagnostic(
                            #[trigger] a.tree.diagnostics@[k],
                            tree.diagnostics@[k],
                        )
                    &&& (a.tree.indentation is Some <==> tree.indentation is Some)
                    &&& exists|o: Seq<NodeOrigin>|
                        #[trigger] rebuilt_from(
                            a.tree.nodes@,
                            o,
                            tree,
                            edit_fragment(edit),
                            generated_span_view(node.span@, a.expansion),
                            a.syntax_context,
                            dropped_input(edit, target),
                        )
                    &&& links_ok(tree.nodes@, tree.roots@) ==> links_ok(a.tree.nodes@, a.tree.roots@)
                },
            }
        },
    }
}

/// Applies one structural edit at `target`: validates the generated fragment and
/// the input tree, registers the Tree expansion at the target's span, and
/// rebuilds the tree with the generated nodes in place. The inputs are left
/// unchanged; on error nothing is registered.
#[verifier::rlimit(80)]
#[verifier::spinoff_prover]
pub fn apply_tree_edit(
    source: &MappedSource,
    tree: &RawTree,
    target: RawNodeId,
    edit: TreeEdit,
    metadata: TreeEditMetadata,
) -> (r: Result<TreeEditApplication, TreeEditError>)
    requires
        tree.nodes@.len() + edit_fragment(edit).nodes@.len() < u64::MAX,
    ensures
        !fragment_outcome(edit_fragment(edit), Ok(())) ==> (r matches Err(e) && fragment_outcome(
            edit_fragment(edit),
            Err(e),
        )),
        fragment_outcome(edit_fragment(edit), Ok(())) ==> (r matches Err(e) && input_tree_error(e))
            || edit_outcome(source@, *tree, target, edit, edit_metadata(metadata), r),
        fragment_outcome(edit_fragment(edit), Ok(())) && proper_tree(*tree) ==> edit_outcome(
            source@,
            *tree,
            target,
            edit,
            edit_metadata(metadata),
            r,
        ),
{
    let fragment = match &edit {
        TreeEdit::ReplaceNode { replacement, .. } => replacement,
        TreeEdit::ReplaceChildren { replacement } => replacement,
    };
    if let Err(e) = validate_fragment(fragment) {
        return Err(e);
    }
    if let Err(e) = check_input_tree(tree) {
        return Err(e);
    }
    let target_node = match tree.get(target) {
        Some(node) => node,
        None => {
            return Err(TreeEditError::UnknownTarget { target });
        },
    };
    let replace_children = match &edit {
        TreeEdit::ReplaceChildren { .. } => true,
        TreeEdit::ReplaceNode { .. } => false,
    };
    if replace_children && target_node.kind != RawNodeKind::Section {
        return Err(TreeEditError::ChildrenOfNonSection { target });
    }
    let ghost meta = edit_metadata(metadata);
    let ghost f = edit_fragment(edit);
    proof {
        assert(node_at(*tree, target) == Some(*target_node));
        assert(fragment_shape_error(f) is None);
    }
    let expansion_metadata = TreeExpansion::new(metadata.component.as_str(), metadata.hook.as_str());
    proof {
        assert(expansion_metadata@ == meta);
    }
    let registration = source.register_tree_expansion(&target_node.span, expansion_metadata);
    let registered = match registration {
        Ok(a) => a,
        Err(e) => {
            return Err(TreeEditError::Expansion(e));
        },
    };
    proof {
        assert(tree_registration(source@, target_node.span@, meta, Ok((registered.source@, registered.expansion, registered.syntax_context))));
    }
    let retained = match &edit {
        TreeEdit::ReplaceNode { retained_children: Some(rc), .. } => {
            match find_generated(&fragment.nodes, rc.parent) {
                None => {
                    return Err(TreeEditError::UnknownRetainedChildrenParent { id: rc.parent });
                },
                Some(ri) => {
                    if fragment.nodes[ri].kind != GeneratedRawNodeKind::Section {
                        return Err(TreeEditError::RetainedChildrenParentNotSection { id: rc.parent });
                    }
                    proof {
                        assert forall|j: int|
                            0 <= j < f.nodes@.len() && f.nodes@[j].id == rc.parent implies f.nodes@[j].kind
                                == GeneratedRawNodeKind::Section by {
                            lemma_unique_index(f.nodes@, j, ri as int);
                        }
                    }
                    Some((ri, rc.placement))
                },
            }
        },
        _ => None,
    };
    let span = generated_span(&target_node.span, registered.expansion);
    let point = generated_point(&target_node.span, registered.expansion);
    let node_count = tree.nodes.len();
    proof {
        assert(tree.nodes@[target.0 as int] == *target_node);
        assert(target.0 < node_count);
        assert((target.0 as usize) as int == target.0 as int);
        assert(span@ == generated_span_view(target_node.span@, registered.expansion));
    }
    let (rebuilt, Ghost(origins)) = rebuild_tree(
        tree,
        target.0 as usize,
        fragment,
        replace_children,
        retained,
        &span,
        &point,
        target_node.line.number,
        registered.syntax_context,
    );
    proof {
        assert(rebuilt_from(
            rebuilt.nodes@,
            origins,
            *tree,
            edit_fragment(edit),
            generated_span_view(target_node.span@, registered.expansion),
            registered.syntax_context,
            dropped_input(edit, target),
        ));
    }
    let app = TreeEditApplication {
        source: registered.source,
        tree: rebuilt,
        expansion: registered.expansion,
        syntax_context: registered.syntax_context,
        replacement_roots: fragment.roots.len(),
    };
    proof {
        let o = origins;
        assert(rebuilt_from(
            app.tree.nodes@,
            o,
            *tree,
            edit_fragment(edit),
            generated_span_view(target_node.span@, app.expansion),
            app.syntax_context,
            dropped_input(edit, target),
        ));
        assert(links_ok(tree.nodes@, tree.roots@) ==> links_ok(app.tree.nodes@, app.tree.roots@));
        assert(app.tree.diagnostics@.len() == tree.diagnostics@.len());
        assert(retained_problem(edit) is None);
        assert(tree_registration(source@, target_node.span@, meta, Ok((app.source@, app.expansion, app.syntax_context))));
    }
    Ok(app)
}

/// A tree the raw parser returns, with one node per physical line and agreeing
/// links, is proper, so a valid edit of it never fails on the input tree.
pub proof fn lemma_parsed_tree_is_proper(vb: Seq<u8>, t: RawTree)
    requires
        t.nodes@.len() <= physical_lines_of(vb).len(),
        forall|i: int|
            0 <= i < t.nodes@.len() ==> #[trigger] node_line_ok(vb, physical_lines_of(vb)[i], t.nodes@[i], i),
        links_ok(t.nodes@, t.roots@),
    ensures
        proper_tree(t),
{
    assert forall|i: int| 0 <= i < t.nodes@.len() implies (#[trigger] t.nodes@[i]).id == RawNodeId(i as u64) by {
        assert(node_line_ok(vb, physical_lines_of(vb)[i], t.nodes@[i], i));
    }
}

/// A successful edit of a proper tree yields a proper tree.
pub proof fn lemma_edit_keeps_tree_proper(
    s: MappedSourceView,
    tree: RawTree,
    target: RawNodeId,
    edit: TreeEdit,
    meta: MetadataView,
    a: TreeEditApplication,
)
    requires
        proper_tree(tree),
        edit_outcome(s, tree, target, edit, meta, Ok(a)),
    ensures
        proper_tree(a.tree),
{
    let node = node_at(tree, target).unwrap();
    let o = choose|o: Seq<NodeOrigin>|
        #[trigger] rebuilt_from(
            a.tree.nodes@,
            o,
            tree,
            edit_fragment(edit),
            generated_span_view(node.span@, a.expansion),
            a.syntax_context,
            dropped_input(edit, target),
        );
    assert(ids_match_indices(a.tree.nodes@));
}

} // verus!
