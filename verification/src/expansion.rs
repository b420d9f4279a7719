//! Macro expansion identities, syntax contexts, sites, and provenance graph.
//!
//! The graph is a validated DAG: every call site points at an expansion of the
//! graph and no expansion is (transitively) its own call site. It supports both
//! a primary backtrace and every distinct parent path for text assembled from
//! multiple origins.
use crate::text::{blank, is_blank, TextRange};
use core::cmp::Ordering;
use vstd::prelude::*;
use vstd::std_specs::cmp::PartialOrdIs;
use vstd::std_specs::cmp::PartialOrdSpecImpl;
use vstd::string::StringSliceAdditionalSpecFns;
use vstd::utf8::*;

verus! {

broadcast use vstd::utf8::group_utf8_lib;

/// Stable numeric identity of one graph expansion.
#[derive(Debug, Clone, Copy, PartialEq, Eq, Structural, Ord, Hash)]
pub struct ExpansionId(pub u32);

impl PartialOrd for ExpansionId {
    fn partial_cmp(&self, other: &Self) -> (r: Option<Ordering>) {
        if self.0 < other.0 {
            Some(Ordering::Less)
        } else if self.0 == other.0 {
            Some(Ordering::Equal)
        } else {
            Some(Ordering::Greater)
        }
    }
}

impl PartialOrdSpecImpl for ExpansionId {
    open spec fn obeys_partial_cmp_spec() -> bool {
        true
    }

    open spec fn partial_cmp_spec(&self, other: &Self) -> Option<Ordering> {
        if self.0 < other.0 {
            Some(Ordering::Less)
        } else if self.0 == other.0 {
            Some(Ordering::Equal)
        } else {
            Some(Ordering::Greater)
        }
    }
}

/// Expansion identities order as the numbers they were made from.
pub proof fn lemma_expansion_id_order(a: u32, b: u32)
    ensures
        ExpansionId(a).is_lt(&ExpansionId(b)) <==> a < b,
        ExpansionId(a).is_le(&ExpansionId(b)) <==> a <= b,
        ExpansionId(a).is_gt(&ExpansionId(b)) <==> a > b,
        ExpansionId(a).is_ge(&ExpansionId(b)) <==> a >= b,
{
}

impl ExpansionId {
    pub fn new(value: u32) -> (r: Self)
        ensures
            r.0 == value,
    {
        ExpansionId(value)
    }

    pub fn get(self) -> (r: u32)
        ensures
            r == self.0,
    {
        self.0
    }
}

/// Hygiene context assigned to original or generated syntax.
#[derive(Debug, Clone, Copy, PartialEq, Eq, Structural, PartialOrd, Ord, Hash)]
pub struct SyntaxContextId(pub u32);

impl SyntaxContextId {
    /// The context of syntax written in the original document.
    pub fn root() -> (r: Self)
        ensures
            r.0 == 0,
    {
        SyntaxContextId(0)
    }

    pub fn new(value: u32) -> (r: Self)
        ensures
            r.0 == value,
    {
        SyntaxContextId(value)
    }

    pub fn get(self) -> (r: u32)
        ensures
            r == self.0,
    {
        self.0
    }
}

/// Validated owner identity copied from a WASM component manifest.
#[derive(Debug, PartialEq, Eq, PartialOrd, Ord, Hash)]
pub struct ComponentId(pub String);

impl View for ComponentId {
    type V = Seq<char>;

    open spec fn view(&self) -> Seq<char> {
        self.0@
    }
}

impl Clone for ComponentId {
    fn clone(&self) -> (r: Self)
        ensures
            r@ == self@,
    {
        ComponentId(self.0.clone())
    }
}

impl ComponentId {
    pub fn new(value: &str) -> (r: Self)
        ensures
            r@ == value@,
    {
        ComponentId(value.to_owned())
    }

    pub fn as_str(&self) -> (r: &str)
        ensures
            r@ == self@,
    {
        self.0.as_str()
    }
}

/// Stable subscription or macro hook identity.
#[derive(Debug, PartialEq, Eq, PartialOrd, Ord, Hash)]
pub struct HookId(pub String);

impl View for HookId {
    type V = Seq<char>;

    open spec fn view(&self) -> Seq<char> {
        self.0@
    }
}

impl Clone for HookId {
    fn clone(&self) -> (r: Self)
        ensures
            r@ == self@,
    {
        HookId(self.0.clone())
    }
}

impl HookId {
    pub fn new(value: &str) -> (r: Self)
        ensures
            r@ == value@,
    {
        HookId(value.to_owned())
    }

    pub fn as_str(&self) -> (r: &str)
        ensures
            r@ == self@,
    {
        self.0.as_str()
    }
}

/// Parser representation level transformed by a macro.
#[derive(Debug, Clone, Copy, PartialEq, Eq, Structural, Hash)]
pub enum ExpansionKind {
    Text,
    Tree,
    Ast,
}

/// A location in the original document, optionally produced by another expansion.
#[derive(Debug, Clone, Copy, PartialEq, Eq, Structural, Hash)]
pub struct ExpansionSite {
    pub original_range: TextRange,
    pub expansion: Option<ExpansionId>,
}

impl ExpansionSite {
    pub fn original(original_range: TextRange) -> (r: Self)
        ensures
            r == (ExpansionSite { original_range, expansion: None }),
    {
        ExpansionSite { original_range, expansion: None }
    }

    pub fn expanded(original_range: TextRange, expansion: ExpansionId) -> (r: Self)
        ensures
            r == (ExpansionSite { original_range, expansion: Some(expansion) }),
    {
        ExpansionSite { original_range, expansion: Some(expansion) }
    }
}

/// One accepted macro transformation and all provenance edges it introduced.
#[derive(Debug, PartialEq, Eq, Hash)]
pub struct Expansion {
    pub id: ExpansionId,
    pub kind: ExpansionKind,
    pub component: ComponentId,
    pub hook: HookId,
    pub call_sites: Vec<ExpansionSite>,
    pub definition_site: Option<ExpansionSite>,
    pub syntax_context: SyntaxContextId,
}

/// Mathematical value of an [`Expansion`].
pub struct ExpansionView {
    pub id: ExpansionId,
    pub kind: ExpansionKind,
    pub component: Seq<char>,
    pub hook: Seq<char>,
    pub call_sites: Seq<ExpansionSite>,
    pub definition_site: Option<ExpansionSite>,
    pub syntax_context: SyntaxContextId,
}

impl View for Expansion {
    type V = ExpansionView;

    open spec fn view(&self) -> ExpansionView {
        ExpansionView {
            id: self.id,
            kind: self.kind,
            component: self.component@,
            hook: self.hook@,
            call_sites: self.call_sites@,
            definition_site: self.definition_site,
            syntax_context: self.syntax_context,
        }
    }
}

impl Clone for Expansion {
    fn clone(&self) -> (r: Self)
        ensures
            r@ == self@,
    {
        Expansion {
            id: self.id,
            kind: self.kind,
            component: self.component.clone(),
            hook: self.hook.clone(),
            call_sites: self.call_sites.clone(),
            definition_site: self.definition_site,
            syntax_context: self.syntax_context,
        }
    }
}

/// Invalid identity, owner, reference, or cycle in an expansion graph.
#[derive(Debug, Clone, PartialEq, Eq)]
pub enum ExpansionGraphError {
    DuplicateId { id: ExpansionId },
    MissingCallSite { id: ExpansionId },
    BlankComponent { id: ExpansionId },
    BlankHook { id: ExpansionId },
    UnknownReference { id: ExpansionId, site: &'static str, referenced: ExpansionId },
    Cycle { id: ExpansionId },
    IdExhausted,
}

/// The text consists of Unicode whitespace only (it trims to nothing).
pub open spec fn text_blank(s: Seq<char>) -> bool {
    blank(encode_utf8(s))
}

/// The views of a vector of expansions.
pub open spec fn views(v: Seq<Expansion>) -> Seq<ExpansionView> {
    v.map_values(|e: Expansion| e@)
}

/// Expansion IDs strictly increase along the sequence.
pub open spec fn sorted_ids(es: Seq<ExpansionView>) -> bool {
    forall|i: int, j: int| 0 <= i < j < es.len() ==> es[i].id.0 < es[j].id.0
}

pub open spec fn contains_id(es: Seq<ExpansionView>, id: ExpansionId) -> bool {
    exists|i: int| 0 <= i < es.len() && es[i].id == id
}

/// A site either refers to original text or to an expansion of `es`.
pub open spec fn site_known(es: Seq<ExpansionView>, site: ExpansionSite) -> bool {
    site.expansion matches Some(r) ==> contains_id(es, r)
}

/// An expansion has call sites and all its sites refer to known expansions.
pub open spec fn references_known(es: Seq<ExpansionView>, e: ExpansionView) -> bool {
    &&& e.call_sites.len() > 0
    &&& forall|k: int| 0 <= k < e.call_sites.len() ==> site_known(es, #[trigger] e.call_sites[k])
    &&& e.definition_site matches Some(d) ==> site_known(es, d)
}

/// Expansion `b` is a call-site parent of expansion `a` (positions in `es`).
pub open spec fn parent_edge(es: Seq<ExpansionView>, a: int, b: int) -> bool {
    exists|k: int|
        0 <= k < es[a].call_sites.len() && #[trigger] es[a].call_sites[k].expansion == Some(
            es[b].id,
        )
}

/// `rank` strictly decreases from every expansion to each of its parents.
pub open spec fn ranked(es: Seq<ExpansionView>, rank: spec_fn(int) -> nat) -> bool {
    forall|a: int, b: int|
        0 <= a < es.len() && 0 <= b < es.len() && #[trigger] parent_edge(es, a, b) ==> rank(b)
            < rank(a)
}

/// No expansion is transitively its own call site.
pub open spec fn acyclic(es: Seq<ExpansionView>) -> bool {
    exists|rank: spec_fn(int) -> nat| ranked(es, rank)
}

/// A chain of parent edges visiting positions `path[0], path[1], ...`.
pub open spec fn is_parent_path(es: Seq<ExpansionView>, path: Seq<int>) -> bool {
    &&& path.len() >= 2
    &&& forall|t: int| 0 <= t < path.len() ==> 0 <= #[trigger] path[t] < es.len()
    &&& forall|t: int| 0 <= t < path.len() - 1 ==> parent_edge(es, #[trigger] path[t], path[t + 1])
}

/// Following call sites from position `a` leads to position `b` in one or more steps.
pub open spec fn reaches(es: Seq<ExpansionView>, a: int, b: int) -> bool {
    exists|path: Seq<int>| is_parent_path(es, path) && path[0] == a && path.last() == b
}

/// Component and hook are not blank.
pub open spec fn owner_ok(e: ExpansionView) -> bool {
    !text_blank(e.component) && !text_blank(e.hook)
}

/// The first `n` inputs have owners and pairwise distinct IDs.
pub open spec fn owners_ok_upto(inp: Seq<ExpansionView>, n: int) -> bool {
    forall|j: int|
        0 <= j < n ==> owner_ok(#[trigger] inp[j]) && forall|k: int|
            0 <= k < j ==> inp[k].id != inp[j].id
}

/// `r` holds exactly the inputs, ordered by strictly increasing ID.
pub open spec fn sorted_by_id(inp: Seq<ExpansionView>, r: Seq<ExpansionView>) -> bool {
    &&& r.len() == inp.len()
    &&& sorted_ids(r)
    &&& forall|e: ExpansionView| r.contains(e) <==> inp.contains(e)
}

/// The first `n` expansions of the ID-ordered sequence reference known expansions.
pub open spec fn references_ok_upto(r: Seq<ExpansionView>, n: int) -> bool {
    forall|j: int| 0 <= j < n ==> references_known(r, #[trigger] r[j])
}

/// Owner or identity failure found when scanning the inputs in order.
pub open spec fn owner_error(inp: Seq<ExpansionView>, e: ExpansionGraphError) -> bool {
    match e {
        ExpansionGraphError::BlankComponent { id } => exists|j: int|
            0 <= j < inp.len() && owners_ok_upto(inp, j) && text_blank(inp[j].component)
                && id == inp[j].id,
        ExpansionGraphError::BlankHook { id } => exists|j: int|
            0 <= j < inp.len() && owners_ok_upto(inp, j) && !text_blank(inp[j].component)
                && text_blank(inp[j].hook) && id == inp[j].id,
        ExpansionGraphError::DuplicateId { id } => exists|j: int, k: int|
            0 <= k < j < inp.len() && owners_ok_upto(inp, j) && owner_ok(inp[j]) && inp[k].id
                == inp[j].id && id == inp[j].id,
        _ => false,
    }
}

/// The first unknown site of the expansion at position `j` of the ID-ordered `s`.
pub open spec fn unknown_site_error(
    s: Seq<ExpansionView>,
    j: int,
    site: &'static str,
    referenced: ExpansionId,
) -> bool {
    ||| exists|k: int|
        0 <= k < s[j].call_sites.len() && (forall|q: int|
            0 <= q < k ==> site_known(s, #[trigger] s[j].call_sites[q]))
            && s[j].call_sites[k].expansion == Some(referenced) && site@ == "call site"@
    ||| {
        &&& forall|q: int|
            0 <= q < s[j].call_sites.len() ==> site_known(s, #[trigger] s[j].call_sites[q])
        &&& s[j].definition_site is Some
        &&& s[j].definition_site.unwrap().expansion == Some(referenced)
        &&& site@ == "definition site"@
    }
}

/// Reference failure found when scanning the ID-ordered expansions `s`.
pub open spec fn reference_error(s: Seq<ExpansionView>, e: ExpansionGraphError) -> bool {
    match e {
        ExpansionGraphError::MissingCallSite { id } => exists|j: int|
            0 <= j < s.len() && references_ok_upto(s, j) && s[j].call_sites.len() == 0 && id
                == s[j].id,
        ExpansionGraphError::UnknownReference { id, site, referenced } => exists|j: int|
            0 <= j < s.len() && references_ok_upto(s, j) && s[j].call_sites.len() > 0 && id
                == s[j].id && !contains_id(s, referenced) && unknown_site_error(
                s,
                j,
                site,
                referenced,
            ),
        _ => false,
    }
}

/// The outcome of validating `inp` into a graph, as [`ExpansionGraph::new`] decides it.
/// Owners and duplicate IDs are checked in input order, references in ID order,
/// and cycles last; a cycle is reported at one of the expansions on it.
pub open spec fn graph_outcome(
    inp: Seq<ExpansionView>,
    r: Result<Seq<ExpansionView>, ExpansionGraphError>,
) -> bool {
    match r {
        Err(e) => {
            ||| owner_error(inp, e)
            ||| owners_ok_upto(inp, inp.len() as int) && exists|s: Seq<ExpansionView>|
                sorted_by_id(inp, s) && reference_error(s, e)
            ||| owners_ok_upto(inp, inp.len() as int) && e is Cycle && exists|
                s: Seq<ExpansionView>,
            | sorted_by_id(inp, s) && references_ok_upto(s, s.len() as int) && !acyclic(s)
        },
        Ok(s) => owners_ok_upto(inp, inp.len() as int) && sorted_by_id(inp, s)
            && references_ok_upto(s, s.len() as int) && acyclic(s),
    }
}

/// The identity one past the largest of an ID-ordered graph (1 for an empty one).
pub open spec fn next_expansion_id(es: Seq<ExpansionView>) -> Result<ExpansionId, ExpansionGraphError> {
    if es.len() == 0 {
        Ok(ExpansionId(1))
    } else if es.last().id.0 == u32::MAX {
        Err(ExpansionGraphError::IdExhausted)
    } else {
        Ok(ExpansionId((es.last().id.0 + 1) as u32))
    }
}

/// Validated graphs: ID-ordered, owned, fully referenced and acyclic.
pub open spec fn graph_wf(es: Seq<ExpansionView>) -> bool {
    &&& sorted_ids(es)
    &&& forall|j: int| 0 <= j < es.len() ==> owner_ok(#[trigger] es[j])
    &&& references_ok_upto(es, es.len() as int)
    &&& acyclic(es)
}

/// Validated acyclic collection of macro expansions, ordered by ID.
#[derive(Debug, PartialEq, Eq)]
pub struct ExpansionGraph {
    expansions: Vec<Expansion>,
}

impl View for ExpansionGraph {
    type V = Seq<ExpansionView>;

    closed spec fn view(&self) -> Seq<ExpansionView> {
        views(self.expansions@)
    }
}

/// Ranks never increase along a chain of parent edges.
proof fn lemma_path_rank(es: Seq<ExpansionView>, rank: spec_fn(int) -> nat, path: Seq<int>)
    requires
        ranked(es, rank),
        is_parent_path(es, path),
    ensures
        rank(path.last()) < rank(path[0]),
    decreases path.len(),
{
    assert(parent_edge(es, path[0], path[1]));
    if path.len() > 2 {
        let rest = path.drop_first();
        assert forall|t: int| 0 <= t < rest.len() - 1 implies parent_edge(
            es,
            #[trigger] rest[t],
            rest[t + 1],
        ) by {
            assert(rest[t] == path[t + 1]);
            assert(rest[t + 1] == path[t + 2]);
        }
        assert forall|t: int| 0 <= t < rest.len() implies 0 <= #[trigger] rest[t] < es.len() by {
            assert(rest[t] == path[t + 1]);
        }
        lemma_path_rank(es, rank, rest);
        assert(rest.last() == path.last());
    }
}

/// A node that reaches itself rules out every ranking.
proof fn lemma_cycle_not_acyclic(es: Seq<ExpansionView>, a: int)
    requires
        reaches(es, a, a),
    ensures
        !acyclic(es),
{
    let path = choose|path: Seq<int>| is_parent_path(es, path) && path[0] == a && path.last() == a;
    if acyclic(es) {
        let rank = choose|rank: spec_fn(int) -> nat| ranked(es, rank);
        lemma_path_rank(es, rank, path);
    }
}

/// Extends a chain by one more parent edge.
proof fn lemma_reaches_extend(es: Seq<ExpansionView>, a: int, b: int, c: int)
    requires
        reaches(es, a, b),
        0 <= c < es.len(),
        parent_edge(es, b, c),
    ensures
        reaches(es, a, c),
{
    let path = choose|path: Seq<int>| is_parent_path(es, path) && path[0] == a && path.last() == b;
    let path2 = path.push(c);
    assert forall|t: int| 0 <= t < path2.len() - 1 implies parent_edge(
        es,
        #[trigger] path2[t],
        path2[t + 1],
    ) by {
        if t < path.len() - 1 {
            assert(path2[t] == path[t] && path2[t + 1] == path[t + 1]);
        } else {
            assert(path2[t] == b && path2[t + 1] == c);
        }
    }
    assert forall|t: int| 0 <= t < path2.len() implies 0 <= #[trigger] path2[t] < es.len() by {
        if t < path.len() {
            assert(path2[t] == path[t]);
        }
    }
    assert(is_parent_path(es, path2));
    assert(path2[0] == a && path2.last() == c);
}

/// One parent edge is a chain.
proof fn lemma_reaches_edge(es: Seq<ExpansionView>, a: int, b: int)
    requires
        0 <= a < es.len(),
        0 <= b < es.len(),
        parent_edge(es, a, b),
    ensures
        reaches(es, a, b),
{
    let path = seq![a, b];
    assert(path[0] == a && path[1] == b);
    assert forall|t: int| 0 <= t < path.len() implies 0 <= #[trigger] path[t] < es.len() by {
        assert(t == 0 || t == 1);
    }
    assert forall|t: int| 0 <= t < path.len() - 1 implies parent_edge(
        es,
        #[trigger] path[t],
        path[t + 1],
    ) by {
        assert(t == 0);
    }
    assert(is_parent_path(es, path));
    assert(path.last() == b);
}

/// A duplicate-free sequence of positions below `n` has at most `n` entries.
proof fn lemma_distinct_positions(stack: Seq<int>, n: int)
    requires
        stack.no_duplicates(),
        0 <= n,
        forall|t: int| 0 <= t < stack.len() ==> 0 <= #[trigger] stack[t] < n,
    ensures
        stack.len() <= n,
{
    stack.unique_seq_to_set();
    vstd::set_lib::lemma_int_range(0, n);
    assert(stack.to_set().subset_of(vstd::set_lib::set_int_range(0, n)));
    vstd::set_lib::lemma_len_subset(stack.to_set(), vstd::set_lib::set_int_range(0, n));
}

/// Completed DFS nodes carry ranks below `bound` that decrease toward parents.
pub open spec fn dfs_done(
    es: Seq<ExpansionView>,
    visited: Seq<bool>,
    rank: Map<int, nat>,
    bound: nat,
) -> bool {
    forall|x: int|
        0 <= x < es.len() && #[trigger] visited[x] ==> rank.contains_key(x) && rank[x] < bound
            && forall|p: int|
            0 <= p < es.len() && #[trigger] parent_edge(es, x, p) ==> visited[p] && rank[p]
                < rank[x]
}

/// Position of the expansion with ID `id`.
fn find_position(v: &Vec<Expansion>, id: ExpansionId) -> (r: Option<usize>)
    ensures
        r matches Some(i) ==> i < v@.len() && v@[i as int].id == id && contains_id(views(v@), id),
        r is None ==> !contains_id(views(v@), id),
{
    let mut i: usize = 0;
    while i < v.len()
        invariant
            i <= v@.len(),
            forall|j: int| 0 <= j < i ==> v@[j].id != id,
        decreases v@.len() - i,
    {
        if v[i].id.0 == id.0 {
            proof {
                assert(views(v@)[i as int] == v@[i as int]@);
            }
            return Some(i);
        }
        i = i + 1;
    }
    proof {
        if contains_id(views(v@), id) {
            let j = choose|j: int| 0 <= j < views(v@).len() && views(v@)[j].id == id;
            assert(views(v@)[j] == v@[j]@);
        }
    }
    None
}

/// Depth-first search from position `i` along call-site parents, rejecting cycles.
fn validate_acyclic(
    v: &Vec<Expansion>,
    i: usize,
    visiting: &mut Vec<bool>,
    visited: &mut Vec<bool>,
    rank: &mut Ghost<Map<int, nat>>,
    bound: &mut Ghost<nat>,
    Ghost(stack): Ghost<Seq<int>>,
) -> (r: Result<(), ExpansionGraphError>)
    requires
        sorted_ids(views(v@)),
        references_ok_upto(views(v@), v@.len() as int),
        i < v@.len(),
        old(visiting)@.len() == v@.len(),
        old(visited)@.len() == v@.len(),
        stack.no_duplicates(),
        forall|t: int| 0 <= t < stack.len() ==> 0 <= #[trigger] stack[t] < v@.len(),
        forall|x: int| 0 <= x < v@.len() ==> (old(visiting)@[x] <==> stack.contains(x)),
        forall|x: int| 0 <= x < v@.len() && #[trigger] old(visiting)@[x] ==> !old(visited)@[x],
        forall|t: int| 0 <= t < stack.len() ==> reaches(views(v@), #[trigger] stack[t], i as int),
        dfs_done(views(v@), old(visited)@, old(rank)@, old(bound)@),
    ensures
        r is Ok ==> {
            &&& final(visiting)@ == old(visiting)@
            &&& final(visited)@.len() == v@.len()
            &&& final(visited)@[i as int]
            &&& forall|x: int|
                0 <= x < v@.len() && #[trigger] old(visited)@[x] ==> final(visited)@[x]
                    && final(rank)@[x] == old(rank)@[x]
            &&& forall|x: int|
                0 <= x < v@.len() && #[trigger] final(visiting)@[x] ==> !final(visited)@[x]
            &&& dfs_done(views(v@), final(visited)@, final(rank)@, final(bound)@)
        },
        r matches Err(e) ==> e is Cycle && !acyclic(views(v@)),
    decreases v@.len() - stack.len(),
{
    let ghost es = views(v@);
    let n = v.len();
    if visited[i] {
        return Ok(());
    }
    if visiting[i] {
        proof {
            assert(stack.contains(i as int));
            let t = choose|t: int| 0 <= t < stack.len() && stack[t] == i as int;
            assert(reaches(es, stack[t], i as int));
            lemma_cycle_not_acyclic(es, i as int);
        }
        return Err(ExpansionGraphError::Cycle { id: v[i].id });
    }
    visiting.set(i, true);
    let ghost stack2 = stack.push(i as int);
    let ghost visiting1 = visiting@;
    let ghost visited0 = visited@;
    let ghost rank0 = rank@;
    proof {
        assert forall|x: int| 0 <= x < n implies (visiting@[x] <==> stack2.contains(x)) by {
            if x == i as int {
                assert(stack2[stack.len() as int] == x);
            } else {
                if stack2.contains(x) {
                    let t = choose|t: int| 0 <= t < stack2.len() && stack2[t] == x;
                    assert(stack[t] == x);
                }
                if stack.contains(x) {
                    let t = choose|t: int| 0 <= t < stack.len() && stack[t] == x;
                    assert(stack2[t] == x);
                }
            }
        }
        assert(!stack.contains(i as int));
        assert forall|a: int, b: int| 0 <= a < b < stack2.len() implies stack2[a] != stack2[b] by {
            if b == stack.len() {
                assert(stack2[a] == stack[a]);
                assert(stack.contains(stack[a]));
            }
        }
        assert(stack2.no_duplicates());
        lemma_distinct_positions(stack2, n as int);
    }
    let mut k: usize = 0;
    while k < v[i].call_sites.len()
        invariant
            es == views(v@),
            n == v@.len(),
            i < n,
            sorted_ids(es),
            references_ok_upto(es, n as int),
            stack2 == stack.push(i as int),
            stack2.no_duplicates(),
            stack2.len() <= n,
            forall|t: int| 0 <= t < stack2.len() ==> 0 <= #[trigger] stack2[t] < n,
            forall|t: int| 0 <= t < stack.len() ==> reaches(es, #[trigger] stack[t], i as int),
            visiting@ == visiting1,
            visiting1.len() == n,
            visiting1[i as int],
            forall|x: int| 0 <= x < n ==> (visiting@[x] <==> stack2.contains(x)),
            visited@.len() == n,
            !visited@[i as int],
            forall|x: int| 0 <= x < n && #[trigger] visiting@[x] ==> !visited@[x],
            forall|x: int| 0 <= x < n && #[trigger] visited0[x] ==> visited@[x] && rank@[x]
                == rank0[x],
            dfs_done(es, visited@, rank@, bound@),
            k <= v@[i as int].call_sites@.len(),
            forall|q: int, p: int|
                #![trigger v@[i as int].call_sites@[q], es[p]]
                0 <= q < k && 0 <= p < n && v@[i as int].call_sites@[q].expansion == Some(
                    es[p].id,
                ) ==> visited@[p],
        decreases v@[i as int].call_sites@.len() - k,
    {
        if let Some(pid) = v[i].call_sites[k].expansion {
            proof {
                assert(references_known(es, es[i as int]));
                assert(es[i as int].call_sites[k as int] == v@[i as int].call_sites@[k as int]);
                assert(site_known(es, es[i as int].call_sites[k as int]));
            }
            match find_position(v, pid) {
                Some(p) => {
                    proof {
                        assert(es[p as int].id == pid);
                        assert(v@[i as int]@.call_sites[k as int].expansion == Some(
                            es[p as int].id,
                        ));
                        assert(parent_edge(es, i as int, p as int));
                        assert forall|t: int| 0 <= t < stack2.len() implies reaches(
                            es,
                            #[trigger] stack2[t],
                            p as int,
                        ) by {
                            if t < stack.len() {
                                assert(stack2[t] == stack[t]);
                                lemma_reaches_extend(es, stack[t], i as int, p as int);
                            } else {
                                lemma_reaches_edge(es, i as int, p as int);
                            }
                        }
                    }
                    let res = validate_acyclic(
                        v,
                        p,
                        visiting,
                        visited,
                        rank,
                        bound,
                        Ghost(stack2),
                    );
                    if res.is_err() {
                        return res;
                    }
                    proof {
                        assert forall|q: int, p2: int|
                            #![trigger v@[i as int].call_sites@[q], es[p2]]
                            0 <= q < k + 1 && 0 <= p2 < n
                                && v@[i as int].call_sites@[q].expansion == Some(
                                es[p2].id,
                            ) implies visited@[p2] by {
                            if q == k {
                                if p2 != p {
                                    assert(es[p2].id == es[p as int].id);
                                    if p2 < p {
                                        assert(es[p2].id.0 < es[p as int].id.0);
                                    } else {
                                        assert(es[p as int].id.0 < es[p2].id.0);
                                    }
                                }
                            }
                        }
                    }
                },
                None => {
                    proof {
                        assert(false);
                    }
                },
            }
        }
        k = k + 1;
    }
    visiting.set(i, false);
    visited.set(i, true);
    proof {
        let b = bound@;
        rank@ = rank@.insert(i as int, b);
        bound@ = b + 1;
        assert(visiting@ =~= old(visiting)@);
        assert forall|x: int| 0 <= x < n && #[trigger] visited@[x] implies rank@.contains_key(x)
            && rank@[x] < bound@ && forall|p: int|
            0 <= p < n && parent_edge(es, x, p) ==> visited@[p] && rank@[p] < rank@[x] by {
            if x == i as int {
                assert forall|p: int| 0 <= p < n && parent_edge(es, x, p) implies visited@[p]
                    && rank@[p] < rank@[x] by {
                    let q = choose|q: int|
                        0 <= q < es[x].call_sites.len() && #[trigger] es[x].call_sites[q].expansion
                            == Some(es[p].id);
                    assert(v@[i as int].call_sites@[q].expansion == Some(es[p].id));
                }
            }
        }
    }
    Ok(())
}

/// Inserting `x` at `pos` adds exactly `x` to the elements of `s`.
proof fn lemma_insert_contains(s: Seq<ExpansionView>, pos: int, x: ExpansionView, y: ExpansionView)
    requires
        0 <= pos <= s.len(),
    ensures
        s.insert(pos, x).contains(y) <==> (s.contains(y) || y == x),
{
    let t = s.insert(pos, x);
    if t.contains(y) {
        let q = choose|q: int| 0 <= q < t.len() && t[q] == y;
        if q < pos {
            assert(s[q] == y);
        } else if q > pos {
            assert(s[q - 1] == y);
        }
    }
    if s.contains(y) {
        let w = choose|w: int| 0 <= w < s.len() && s[w] == y;
        if w < pos {
            assert(t[w] == y);
        } else {
            assert(t[w + 1] == y);
        }
    }
    if y == x {
        assert(t[pos] == y);
    }
}

/// Inserting between smaller and larger IDs keeps IDs strictly increasing.
proof fn lemma_insert_sorted(s: Seq<ExpansionView>, pos: int, x: ExpansionView)
    requires
        0 <= pos <= s.len(),
        sorted_ids(s),
        forall|q: int| 0 <= q < pos ==> s[q].id.0 < x.id.0,
        pos < s.len() ==> x.id.0 < s[pos].id.0,
    ensures
        sorted_ids(s.insert(pos, x)),
{
    let t = s.insert(pos, x);
    assert forall|a: int, b: int| 0 <= a < b < t.len() implies t[a].id.0 < t[b].id.0 by {
        if b < pos {
            assert(t[a] == s[a] && t[b] == s[b]);
        } else if b == pos {
            assert(t[a] == s[a]);
        } else if a < pos {
            assert(t[a] == s[a] && t[b] == s[b - 1]);
            if b - 1 > pos {
                assert(s[pos].id.0 < s[b - 1].id.0);
            }
        } else if a == pos {
            assert(t[b] == s[b - 1]);
            if b - 1 > pos {
                assert(s[pos].id.0 < s[b - 1].id.0);
            }
        } else {
            assert(t[a] == s[a - 1] && t[b] == s[b - 1]);
        }
    }
}

/// Sorts the inputs by ID, rejecting blank owners and duplicate IDs in input order.
fn sort_by_id(expansions: &Vec<Expansion>) -> (r: Result<Vec<Expansion>, ExpansionGraphError>)
    ensures
        r matches Ok(v) ==> owners_ok_upto(views(expansions@), expansions@.len() as int)
            && sorted_by_id(views(expansions@), views(v@)),
        r matches Err(e) ==> owner_error(views(expansions@), e),
{
    let ghost inp = views(expansions@);
    let n = expansions.len();
    let mut by_id: Vec<Expansion> = Vec::new();
    let mut j: usize = 0;
    while j < n
        invariant
            inp == views(expansions@),
            n == expansions@.len(),
            j <= n,
            owners_ok_upto(inp, j as int),
            sorted_ids(views(by_id@)),
            views(by_id@).len() == j,
            forall|e: ExpansionView| views(by_id@).contains(e) <==> inp.take(j as int).contains(e),
        decreases n - j,
    {
        let e = &expansions[j];
        proof {
            assert(inp[j as int] == e@);
        }
        if is_blank(e.component.as_str()) {
            return Err(ExpansionGraphError::BlankComponent { id: e.id });
        }
        if is_blank(e.hook.as_str()) {
            return Err(ExpansionGraphError::BlankHook { id: e.id });
        }
        let mut pos: usize = 0;
        while pos < by_id.len() && by_id[pos].id.0 < e.id.0
            invariant
                pos <= by_id@.len(),
                forall|q: int| 0 <= q < pos ==> by_id@[q].id.0 < e.id.0,
            decreases by_id@.len() - pos,
        {
            pos = pos + 1;
        }
        let ghost old_v = views(by_id@);
        proof {
            assert forall|q: int| 0 <= q < pos implies old_v[q].id.0 < e@.id.0 by {
                assert(old_v[q] == by_id@[q]@);
            }
            if pos < old_v.len() {
                assert(old_v[pos as int] == by_id@[pos as int]@);
            }
        }
        if pos < by_id.len() && by_id[pos].id.0 == e.id.0 {
            proof {
                assert(old_v.contains(old_v[pos as int]));
                let taken = inp.take(j as int);
                assert(taken.contains(old_v[pos as int]));
                let k = choose|k: int| 0 <= k < taken.len() && taken[k] == old_v[pos as int];
                assert(inp[k] == taken[k]);
                assert(inp[k].id == inp[j as int].id);
                assert(owner_ok(inp[j as int]));
            }
            return Err(ExpansionGraphError::DuplicateId { id: e.id });
        }
        let c = e.clone();
        by_id.insert(pos, c);
        proof {
            let new_v = views(by_id@);
            assert(new_v =~= old_v.insert(pos as int, e@));
            lemma_insert_sorted(old_v, pos as int, e@);
            let t2 = inp.take(j + 1);
            assert(t2 =~= inp.take(j as int).push(e@));
            assert forall|x: ExpansionView| new_v.contains(x) <==> t2.contains(x) by {
                lemma_insert_contains(old_v, pos as int, e@, x);
                if t2.contains(x) {
                    let q = choose|q: int| 0 <= q < t2.len() && t2[q] == x;
                    if q < j {
                        assert(inp.take(j as int)[q] == x);
                    }
                }
                if inp.take(j as int).contains(x) {
                    let q = choose|q: int| 0 <= q < j && inp.take(j as int)[q] == x;
                    assert(t2[q] == x);
                }
                if x == e@ {
                    assert(t2[j as int] == x);
                }
            }
            assert forall|q: int| 0 <= q < j + 1 implies owner_ok(#[trigger] inp[q])
                && forall|k: int| 0 <= k < q ==> inp[k].id != inp[q].id by {
                if q == j {
                    assert forall|k: int| 0 <= k < q implies inp[k].id != inp[q].id by {
                        let x = inp[k];
                        assert(inp.take(j as int)[k] == x);
                        assert(old_v.contains(x));
                        let w = choose|w: int| 0 <= w < old_v.len() && old_v[w] == x;
                        if w >= pos {
                            if w > pos {
                                assert(old_v[pos as int].id.0 < old_v[w].id.0);
                            }
                        }
                    }
                }
            }
        }
        j = j + 1;
    }
    proof {
        assert(inp.take(n as int) =~= inp);
    }
    Ok(by_id)
}

/// Checks that every expansion has call sites and only refers to known expansions.
fn check_references(by_id: &Vec<Expansion>) -> (r: Result<(), ExpansionGraphError>)
    ensures
        r is Ok ==> references_ok_upto(views(by_id@), by_id@.len() as int),
        r matches Err(e) ==> reference_error(views(by_id@), e),
{
    let ghost sv = views(by_id@);
    let mut j: usize = 0;
    while j < by_id.len()
        invariant
            sv == views(by_id@),
            j <= by_id@.len(),
            references_ok_upto(sv, j as int),
        decreases by_id@.len() - j,
    {
        let e = &by_id[j];
        proof {
            assert(sv[j as int] == e@);
        }
        if e.call_sites.len() == 0 {
            return Err(ExpansionGraphError::MissingCallSite { id: e.id });
        }
        let mut k: usize = 0;
        while k < e.call_sites.len()
            invariant
                sv == views(by_id@),
                j < by_id@.len(),
                references_ok_upto(sv, j as int),
                e == by_id@[j as int],
                sv[j as int] == e@,
                k <= e.call_sites@.len(),
                forall|q: int| 0 <= q < k ==> site_known(sv, #[trigger] e.call_sites@[q]),
            decreases e.call_sites@.len() - k,
        {
            if let Some(referenced) = e.call_sites[k].expansion {
                if find_position(by_id, referenced).is_none() {
                    let site = "call site";
                    proof {
                        assert(sv[j as int].call_sites[k as int].expansion == Some(referenced));
                        assert(unknown_site_error(sv, j as int, site, referenced));
                        assert(!contains_id(sv, referenced));
                        assert(references_ok_upto(sv, j as int));
                        assert(sv[j as int].call_sites.len() > 0);
                        assert(e.id == sv[j as int].id);
                        assert(reference_error(
                            sv,
                            ExpansionGraphError::UnknownReference { id: e.id, site, referenced },
                        ));
                    }
                    return Err(
                        ExpansionGraphError::UnknownReference { id: e.id, site, referenced },
                    );
                }
            }
            k = k + 1;
        }
        if let Some(definition_site) = e.definition_site {
            if let Some(referenced) = definition_site.expansion {
                if find_position(by_id, referenced).is_none() {
                    let site = "definition site";
                    proof {
                        assert(unknown_site_error(sv, j as int, site, referenced));
                    }
                    return Err(
                        ExpansionGraphError::UnknownReference { id: e.id, site, referenced },
                    );
                }
            }
        }
        proof {
            assert(references_known(sv, sv[j as int]));
        }
        j = j + 1;
    }
    Ok(())
}

/// Rejects graphs in which an expansion is transitively its own call site.
fn check_acyclic(by_id: &Vec<Expansion>) -> (r: Result<(), ExpansionGraphError>)
    requires
        sorted_ids(views(by_id@)),
        references_ok_upto(views(by_id@), by_id@.len() as int),
    ensures
        r is Ok ==> acyclic(views(by_id@)),
        r matches Err(e) ==> e is Cycle && !acyclic(views(by_id@)),
{
    let ghost sv = views(by_id@);
    let mut visiting: Vec<bool> = Vec::new();
    let mut visited: Vec<bool> = Vec::new();
    let mut q: usize = 0;
    while q < by_id.len()
        invariant
            q <= by_id@.len(),
            visiting@.len() == q,
            visited@.len() == q,
            forall|x: int| 0 <= x < q ==> !visiting@[x] && !visited@[x],
        decreases by_id@.len() - q,
    {
        visiting.push(false);
        visited.push(false);
        q = q + 1;
    }
    let mut rank: Ghost<Map<int, nat>> = Ghost(Map::empty());
    let mut bound: Ghost<nat> = Ghost(0);
    let mut start: usize = 0;
    while start < by_id.len()
        invariant
            sv == views(by_id@),
            sorted_ids(sv),
            references_ok_upto(sv, sv.len() as int),
            start <= by_id@.len(),
            visiting@.len() == by_id@.len(),
            visited@.len() == by_id@.len(),
            forall|x: int| 0 <= x < by_id@.len() ==> !visiting@[x],
            forall|x: int| 0 <= x < start ==> visited@[x],
            dfs_done(sv, visited@, rank@, bound@),
        decreases by_id@.len() - start,
    {
        let ghost before = visited@;
        let res = validate_acyclic(
            by_id,
            start,
            &mut visiting,
            &mut visited,
            &mut rank,
            &mut bound,
            Ghost(Seq::empty()),
        );
        if let Err(e) = res {
            return Err(e);
        }
        proof {
            assert forall|x: int| 0 <= x < start + 1 implies visited@[x] by {
                if x < start {
                    assert(before[x]);
                }
            }
        }
        start = start + 1;
    }
    proof {
        let rk = rank@;
        let f = |x: int| rk[x];
        assert forall|a: int, b: int|
            0 <= a < sv.len() && 0 <= b < sv.len() && #[trigger] parent_edge(sv, a, b) implies f(b)
            < f(a) by {
            assert(visited@[a]);
            assert(dfs_done(sv, visited@, rank@, bound@));
            assert(rank@[b] < rank@[a]);
        }
        assert(ranked(sv, f));
    }
    Ok(())
}

/// The mathematical outcome of a graph-producing operation.
pub open spec fn graph_result_view(r: Result<ExpansionGraph, ExpansionGraphError>) -> Result<
    Seq<ExpansionView>,
    ExpansionGraphError,
> {
    match r {
        Ok(g) => Ok(g@),
        Err(e) => Err(e),
    }
}

impl ExpansionGraph {
    /// Every graph is ID-ordered, owned, fully referenced and acyclic.
    #[verifier::type_invariant]
    pub open spec fn wf(&self) -> bool {
        graph_wf(self@)
    }

    /// Validates owners, identities, references and acyclicity of `expansions`.
    pub fn new(expansions: Vec<Expansion>) -> (r: Result<Self, ExpansionGraphError>)
        ensures
            graph_outcome(views(expansions@), graph_result_view(r)),
    {
        let ghost inp = views(expansions@);
        let by_id = match sort_by_id(&expansions) {
            Ok(v) => v,
            Err(e) => return Err(e),
        };
        let ghost sv = views(by_id@);
        if let Err(e) = check_references(&by_id) {
            return Err(e);
        }
        if let Err(e) = check_acyclic(&by_id) {
            return Err(e);
        }
        proof {
            assert forall|x: int| 0 <= x < sv.len() implies owner_ok(#[trigger] sv[x]) by {
                assert(sv.contains(sv[x]));
                assert(inp.contains(sv[x]));
                let w = choose|w: int| 0 <= w < inp.len() && inp[w] == sv[x];
                assert(owner_ok(inp[w]));
            }
            assert(graph_wf(sv));
        }
        Ok(ExpansionGraph { expansions: by_id })
    }
}

/// Some ranking of an acyclic graph (used to measure backtrace depth).
pub open spec fn graph_rank(es: Seq<ExpansionView>) -> spec_fn(int) -> nat {
    choose|rank: spec_fn(int) -> nat| ranked(es, rank)
}

/// Position of the expansion with ID `id`.
pub open spec fn position_of(es: Seq<ExpansionView>, id: ExpansionId) -> int {
    choose|i: int| 0 <= i < es.len() && es[i].id == id
}

/// The parent named by the first call site, if any.
pub open spec fn primary_parent(e: ExpansionView) -> Option<ExpansionId> {
    if e.call_sites.len() > 0 {
        e.call_sites[0].expansion
    } else {
        None
    }
}

/// Expansions met by following first call sites from position `i` to original text.
pub open spec fn primary_backtrace(es: Seq<ExpansionView>, i: int) -> Seq<ExpansionView>
    decreases graph_rank(es)(i),
{
    if !(0 <= i < es.len()) {
        Seq::empty()
    } else {
        match primary_parent(es[i]) {
            Some(p) => {
                let j = position_of(es, p);
                if graph_rank(es)(j) < graph_rank(es)(i) {
                    seq![es[i]] + primary_backtrace(es, j)
                } else {
                    seq![es[i]]
                }
            },
            None => seq![es[i]],
        }
    }
}

/// Parents of the call sites in first-occurrence order, without repetition.
pub open spec fn distinct_parents(sites: Seq<ExpansionSite>) -> Seq<Option<ExpansionId>>
    decreases sites.len(),
{
    if sites.len() == 0 {
        Seq::empty()
    } else {
        let d = distinct_parents(sites.drop_last());
        if d.contains(sites.last().expansion) {
            d
        } else {
            d.push(sites.last().expansion)
        }
    }
}

/// Every distinct call-site path from position `i`, innermost first, with the
/// paths through each distinct parent in call-site order.
pub open spec fn all_backtraces(es: Seq<ExpansionView>, i: int) -> Seq<Seq<ExpansionView>>
    decreases graph_rank(es)(i), 1int,
{
    if !(0 <= i < es.len()) {
        Seq::empty()
    } else {
        branches_through(es, i, distinct_parents(es[i].call_sites)).flatten()
    }
}

/// The paths from position `i` through each of the given parents, per parent.
pub open spec fn branches_through(
    es: Seq<ExpansionView>,
    i: int,
    parents: Seq<Option<ExpansionId>>,
) -> Seq<Seq<Seq<ExpansionView>>>
    decreases graph_rank(es)(i), 0int, parents.len(),
{
    if parents.len() == 0 {
        Seq::empty()
    } else {
        branches_through(es, i, parents.drop_last()).push(
            backtrace_branch(es, i, parents.last()),
        )
    }
}

/// The paths from position `i` that continue through `parent`.
pub open spec fn backtrace_branch(
    es: Seq<ExpansionView>,
    i: int,
    parent: Option<ExpansionId>,
) -> Seq<Seq<ExpansionView>>
    decreases graph_rank(es)(i), 0int, 0int,
{
    match parent {
        None => seq![seq![es[i]]],
        Some(pid) => {
            let j = position_of(es, pid);
            if graph_rank(es)(j) < graph_rank(es)(i) {
                prepend_all(es[i], all_backtraces(es, j))
            } else {
                Seq::empty()
            }
        },
    }
}

/// Each path with `e` placed in front.
pub open spec fn prepend_all(e: ExpansionView, paths: Seq<Seq<ExpansionView>>) -> Seq<
    Seq<ExpansionView>,
> {
    paths.map_values(|t: Seq<ExpansionView>| seq![e] + t)
}

/// In a valid graph each call-site parent is ranked below its child.
proof fn lemma_parent_rank(es: Seq<ExpansionView>, i: int, k: int, pid: ExpansionId)
    requires
        graph_wf(es),
        0 <= i < es.len(),
        0 <= k < es[i].call_sites.len(),
        es[i].call_sites[k].expansion == Some(pid),
    ensures
        0 <= position_of(es, pid) < es.len(),
        es[position_of(es, pid)].id == pid,
        graph_rank(es)(position_of(es, pid)) < graph_rank(es)(i),
{
    assert(references_known(es, es[i]));
    assert(site_known(es, es[i].call_sites[k]));
    let j = position_of(es, pid);
    assert(parent_edge(es, i, j));
    let rank = graph_rank(es);
    assert(ranked(es, rank));
}

/// Views of a path of borrowed expansions.
pub open spec fn path_view(p: Seq<&Expansion>) -> Seq<ExpansionView> {
    p.map_values(|e: &Expansion| e@)
}

/// Views of several paths.
pub open spec fn paths_view(ps: Seq<Vec<&Expansion>>) -> Seq<Seq<ExpansionView>> {
    ps.map_values(|p: Vec<&Expansion>| path_view(p@))
}

impl ExpansionGraph {
    /// Looks up one expansion by stable ID.
    pub fn get(&self, id: ExpansionId) -> (r: Option<&Expansion>)
        ensures
            r is Some <==> contains_id(self@, id),
            r matches Some(e) ==> e@ == self@[position_of(self@, id)] && e@.id == id,
    {
        proof {
            use_type_invariant(self);
        }
        match find_position(&self.expansions, id) {
            Some(i) => {
                proof {
                    assert(self@[i as int] == self.expansions@[i as int]@);
                    let j = position_of(self@, id);
                    if j != i {
                        if j < i {
                            assert(self@[j].id.0 < self@[i as int].id.0);
                        } else {
                            assert(self@[i as int].id.0 < self@[j].id.0);
                        }
                    }
                }
                Some(&self.expansions[i])
            },
            None => None,
        }
    }

    /// Returns whether an expansion ID exists.
    pub fn contains(&self, id: ExpansionId) -> (r: bool)
        ensures
            r == contains_id(self@, id),
    {
        find_position(&self.expansions, id).is_some()
    }

    /// The expansions in stable ID order.
    pub fn iter(&self) -> (r: &[Expansion])
        ensures
            views(r@) == self@,
    {
        self.expansions.as_slice()
    }

    /// Returns the number of accepted expansions.
    pub fn len(&self) -> (r: usize)
        ensures
            r == self@.len(),
    {
        self.expansions.len()
    }

    /// Returns whether the graph contains no macro expansions.
    pub fn is_empty(&self) -> (r: bool)
        ensures
            r == (self@.len() == 0),
    {
        self.expansions.len() == 0
    }

    /// Allocates the next representable expansion identity: one past the largest.
    pub fn next_id(&self) -> (r: Result<ExpansionId, ExpansionGraphError>)
        ensures
            r == next_expansion_id(self@),
            self@.len() == 0 ==> r == Ok::<ExpansionId, ExpansionGraphError>(ExpansionId(1)),
            self@.len() > 0 && self@.last().id.0 == u32::MAX ==> r == Err::<
                ExpansionId,
                ExpansionGraphError,
            >(ExpansionGraphError::IdExhausted),
            self@.len() > 0 && self@.last().id.0 < u32::MAX ==> r == Ok::<
                ExpansionId,
                ExpansionGraphError,
            >(ExpansionId((self@.last().id.0 + 1) as u32)),
    {
        let n = self.expansions.len();
        if n == 0 {
            return Ok(ExpansionId::new(1));
        }
        let last = self.expansions[n - 1].id.get();
        proof {
            assert(self@.last() == self.expansions@[n - 1]@);
        }
        if last == u32::MAX {
            Err(ExpansionGraphError::IdExhausted)
        } else {
            Ok(ExpansionId::new(last + 1))
        }
    }

    /// Clones the graph with one more expansion and validates the result.
    pub fn with_expansion(&self, expansion: Expansion) -> (r: Result<Self, ExpansionGraphError>)
        ensures
            graph_outcome(self@.push(expansion@), graph_result_view(r)),
    {
        let mut all: Vec<Expansion> = Vec::new();
        let mut i: usize = 0;
        while i < self.expansions.len()
            invariant
                i <= self.expansions@.len(),
                all@.len() == i,
                views(all@) == views(self.expansions@).take(i as int),
            decreases self.expansions@.len() - i,
        {
            let c = self.expansions[i].clone();
            assert(c@ == self.expansions@[i as int]@);
            let ghost before = all@;
            all.push(c);
            proof {
                assert(all@ == before.push(c));
                assert forall|k: int| 0 <= k < i + 1 implies views(all@)[k] == views(
                    self.expansions@,
                ).take(i + 1)[k] by {
                    if k < i {
                        assert(views(before)[k] == views(self.expansions@).take(i as int)[k]);
                    } else {
                        assert(all@[k] == c);
                    }
                }
                assert(views(all@) =~= views(self.expansions@).take(i + 1));
            }
            i = i + 1;
        }
        let ghost before = all@;
        let ghost ev = expansion@;
        all.push(expansion);
        proof {
            assert(views(self.expansions@).take(self.expansions@.len() as int) =~= self@);
            assert forall|k: int| 0 <= k < all@.len() implies views(all@)[k] == self@.push(ev)[k] by {
                if k < before.len() {
                    assert(views(before)[k] == self@[k]);
                }
            }
            assert(views(all@) =~= self@.push(ev));
        }
        Self::new(all)
    }

    /// Appends the primary path from position `i` to `out`.
    fn backtrace_from<'a>(&'a self, i: usize, out: &mut Vec<&'a Expansion>)
        requires
            i < self@.len(),
        ensures
            path_view(final(out)@) == path_view(old(out)@) + primary_backtrace(self@, i as int),
        decreases graph_rank(self@)(i as int),
    {
        proof {
            use_type_invariant(self);
        }
        let e = &self.expansions[i];
        proof {
            assert(self@[i as int] == e@);
        }
        let ghost before = out@;
        out.push(e);
        proof {
            assert(path_view(out@) =~= path_view(before) + seq![e@]);
        }
        if e.call_sites.len() > 0 {
            if let Some(pid) = e.call_sites[0].expansion {
                proof {
                    lemma_parent_rank(self@, i as int, 0, pid);
                }
                match find_position(&self.expansions, pid) {
                    Some(j) => {
                        proof {
                            let p = position_of(self@, pid);
                            if j as int != p {
                                assert(self@[j as int] == self.expansions@[j as int]@);
                                if (j as int) < p {
                                    assert(self@[j as int].id.0 < self@[p].id.0);
                                } else {
                                    assert(self@[p].id.0 < self@[j as int].id.0);
                                }
                            }
                        }
                        let ghost mid = out@;
                        self.backtrace_from(j, out);
                        proof {
                            assert(path_view(out@) =~= path_view(before) + primary_backtrace(
                                self@,
                                i as int,
                            ));
                        }
                    },
                    None => {
                        proof {
                            assert(false);
                        }
                    },
                }
            }
        }
    }

    /// Returns the primary call-site path, from the innermost expansion to the root.
    ///
    /// Follows the first call site at each expansion. Unknown IDs return `None`.
    pub fn backtrace(&self, id: ExpansionId) -> (r: Option<Vec<&Expansion>>)
        ensures
            r is Some <==> contains_id(self@, id),
            r matches Some(v) ==> path_view(v@) == primary_backtrace(
                self@,
                position_of(self@, id),
            ),
    {
        proof {
            use_type_invariant(self);
        }
        match find_position(&self.expansions, id) {
            Some(i) => {
                proof {
                    let p = position_of(self@, id);
                    if i as int != p {
                        assert(self@[i as int] == self.expansions@[i as int]@);
                        if (i as int) < p {
                            assert(self@[i as int].id.0 < self@[p].id.0);
                        } else {
                            assert(self@[p].id.0 < self@[i as int].id.0);
                        }
                    }
                }
                let mut out: Vec<&Expansion> = Vec::new();
                self.backtrace_from(i, &mut out);
                proof {
                    assert(path_view(Seq::<&Expansion>::empty()) =~= Seq::empty());
                }
                Some(out)
            },
            None => None,
        }
    }
}

/// Parents of `sites` in first-occurrence order, without repetition.
fn distinct_call_parents(sites: &Vec<ExpansionSite>) -> (r: Vec<Option<ExpansionId>>)
    ensures
        r@ == distinct_parents(sites@),
{
    let mut parents: Vec<Option<ExpansionId>> = Vec::new();
    let mut k: usize = 0;
    while k < sites.len()
        invariant
            k <= sites@.len(),
            parents@ == distinct_parents(sites@.take(k as int)),
        decreases sites@.len() - k,
    {
        let candidate = sites[k].expansion;
        let mut found = false;
        let mut q: usize = 0;
        while q < parents.len()
            invariant
                q <= parents@.len(),
                found == exists|w: int| 0 <= w < q && parents@[w] == candidate,
            decreases parents@.len() - q,
        {
            if parents[q] == candidate {
                found = true;
            }
            q = q + 1;
        }
        proof {
            let t = sites@.take(k + 1);
            assert(t.drop_last() =~= sites@.take(k as int));
            assert(t.last() == sites@[k as int]);
        }
        if !found {
            parents.push(candidate);
        }
        k = k + 1;
    }
    proof {
        assert(sites@.take(sites@.len() as int) =~= sites@);
    }
    parents
}

impl ExpansionGraph {
    /// All distinct call-site paths from position `i`.
    fn collect_backtraces<'a>(&'a self, i: usize) -> (r: Vec<Vec<&'a Expansion>>)
        requires
            i < self@.len(),
        ensures
            paths_view(r@) == all_backtraces(self@, i as int),
        decreases graph_rank(self@)(i as int),
    {
        proof {
            use_type_invariant(self);
        }
        let ghost es = self@;
        let e = &self.expansions[i];
        proof {
            assert(es[i as int] == e@);
        }
        let parents = distinct_call_parents(&e.call_sites);
        let ghost br = branches_through(es, i as int, parents@);
        let mut paths: Vec<Vec<&'a Expansion>> = Vec::new();
        let mut q: usize = 0;
        while q < parents.len()
            invariant
                es == self@,
                graph_wf(es),
                i < es.len(),
                es[i as int] == e@,
                e == self.expansions@[i as int],
                parents@ == distinct_parents(e@.call_sites),
                q <= parents@.len(),
                paths_view(paths@) == branches_through(es, i as int, parents@.take(q as int)).flatten(),
            decreases parents@.len() - q,
        {
            let ghost before = paths_view(paths@);
            let ghost tq = parents@.take(q + 1);
            proof {
                assert(tq.drop_last() =~= parents@.take(q as int));
                assert(tq.last() == parents@[q as int]);
                branches_through(es, i as int, parents@.take(q as int)).lemma_flatten_push(
                    backtrace_branch(es, i as int, parents@[q as int]),
                );
            }
            match parents[q] {
                None => {
                    let mut path: Vec<&'a Expansion> = Vec::new();
                    path.push(e);
                    let ghost pv = paths@;
                    paths.push(path);
                    proof {
                        assert(path_view(path@) =~= seq![e@]);
                        assert(paths_view(paths@) =~= paths_view(pv).push(seq![e@]));
                        assert(seq![seq![e@]].flatten() =~= seq![e@]) by {
                            seq![seq![e@]].lemma_flatten_singleton();
                        }
                        assert(paths_view(paths@) =~= before + backtrace_branch(
                            es,
                            i as int,
                            parents@[q as int],
                        ));
                    }
                },
                Some(pid) => {
                    proof {
                        lemma_distinct_parent_is_call_site(e@.call_sites, q as int);
                        let k = choose|k: int|
                            0 <= k < e@.call_sites.len() && e@.call_sites[k].expansion == Some(pid);
                        lemma_parent_rank(es, i as int, k, pid);
                    }
                    let j = match find_position(&self.expansions, pid) {
                        Some(j) => j,
                        None => {
                            proof {
                                assert(false);
                            }
                            0
                        },
                    };
                    proof {
                        let p = position_of(es, pid);
                        if j as int != p {
                            assert(es[j as int] == self.expansions@[j as int]@);
                            if (j as int) < p {
                                assert(es[j as int].id.0 < es[p].id.0);
                            } else {
                                assert(es[p].id.0 < es[j as int].id.0);
                            }
                        }
                    }
                    let tails = self.collect_backtraces(j);
                    let ghost tv = all_backtraces(es, j as int);
                    let mut t: usize = 0;
                    while t < tails.len()
                        invariant
                            paths_view(tails@) == tv,
                            t <= tails@.len(),
                            paths_view(paths@) == before + prepend_all(e@, tv.take(t as int)),
                        decreases tails@.len() - t,
                    {
                        let tail = &tails[t];
                        let mut path: Vec<&'a Expansion> = Vec::new();
                        path.push(e);
                        let mut w: usize = 0;
                        while w < tail.len()
                            invariant
                                w <= tail@.len(),
                                path_view(path@) == seq![e@] + path_view(tail@).take(w as int),
                            decreases tail@.len() - w,
                        {
                            let ghost pp = path@;
                            path.push(tail[w]);
                            proof {
                                assert(path_view(path@) =~= path_view(pp).push(tail@[w as int]@));
                                assert(path_view(tail@).take(w + 1) =~= path_view(tail@).take(
                                    w as int,
                                ).push(tail@[w as int]@));
                            }
                            w = w + 1;
                        }
                        let ghost pv = paths@;
                        paths.push(path);
                        proof {
                            assert(path_view(tail@).take(tail@.len() as int) =~= path_view(tail@));
                            assert(paths_view(tails@)[t as int] == path_view(tail@));
                            assert(paths_view(paths@) =~= paths_view(pv).push(path_view(path@)));
                            assert(prepend_all(e@, tv.take(t + 1)) =~= prepend_all(
                                e@,
                                tv.take(t as int),
                            ).push(seq![e@] + tv[t as int]));
                        }
                        t = t + 1;
                    }
                    proof {
                        assert(tv.take(tv.len() as int) =~= tv);
                        assert(paths_view(paths@) =~= before + backtrace_branch(
                            es,
                            i as int,
                            parents@[q as int],
                        ));
                    }
                },
            }
            q = q + 1;
        }
        proof {
            assert(parents@.take(parents@.len() as int) =~= parents@);
        }
        paths
    }

    /// Returns every distinct call-site path, each ordered innermost to root.
    ///
    /// Unlike [`Self::backtrace`], this visits every distinct parent expansion,
    /// including branches anchored directly to original text. Unknown IDs return `None`.
    pub fn backtraces(&self, id: ExpansionId) -> (r: Option<Vec<Vec<&Expansion>>>)
        ensures
            r is Some <==> contains_id(self@, id),
            r matches Some(v) ==> paths_view(v@) == all_backtraces(self@, position_of(self@, id)),
    {
        proof {
            use_type_invariant(self);
        }
        match find_position(&self.expansions, id) {
            Some(i) => {
                proof {
                    let p = position_of(self@, id);
                    if i as int != p {
                        assert(self@[i as int] == self.expansions@[i as int]@);
                        if (i as int) < p {
                            assert(self@[i as int].id.0 < self@[p].id.0);
                        } else {
                            assert(self@[p].id.0 < self@[i as int].id.0);
                        }
                    }
                }
                Some(self.collect_backtraces(i))
            },
            None => None,
        }
    }
}

/// Every parent listed by `distinct_parents` comes from some call site.
proof fn lemma_distinct_parent_is_call_site(sites: Seq<ExpansionSite>, q: int)
    requires
        0 <= q < distinct_parents(sites).len(),
    ensures
        exists|k: int|
            0 <= k < sites.len() && sites[k].expansion == distinct_parents(sites)[q],
    decreases sites.len(),
{
    let d = distinct_parents(sites.drop_last());
    if q < d.len() {
        lemma_distinct_parent_is_call_site(sites.drop_last(), q);
        let k = choose|k: int|
            0 <= k < sites.drop_last().len() && sites.drop_last()[k].expansion == d[q];
        assert(sites[k] == sites.drop_last()[k]);
    } else {
        assert(sites[sites.len() - 1].expansion == distinct_parents(sites)[q]);
    }
}

impl Clone for ExpansionGraph {
    fn clone(&self) -> (r: Self)
        ensures
            r@ == self@,
    {
        proof {
            use_type_invariant(self);
        }
        let mut all: Vec<Expansion> = Vec::new();
        let mut i: usize = 0;
        while i < self.expansions.len()
            invariant
                graph_wf(self@),
                i <= self.expansions@.len(),
                all@.len() == i,
                views(all@) == views(self.expansions@).take(i as int),
            decreases self.expansions@.len() - i,
        {
            let c = self.expansions[i].clone();
            let ghost before = all@;
            all.push(c);
            proof {
                assert forall|k: int| 0 <= k < i + 1 implies views(all@)[k] == views(
                    self.expansions@,
                ).take(i + 1)[k] by {
                    if k < i {
                        assert(views(before)[k] == views(self.expansions@).take(i as int)[k]);
                    } else {
                        assert(all@[k] == c);
                    }
                }
                assert(views(all@) =~= views(self.expansions@).take(i + 1));
            }
            i = i + 1;
        }
        proof {
            assert(views(self.expansions@).take(self.expansions@.len() as int) =~= self@);
        }
        ExpansionGraph { expansions: all }
    }
}

impl Default for ExpansionGraph {
    fn default() -> (r: Self)
        ensures
            r@ == Seq::<ExpansionView>::empty(),
    {
        let v: Vec<Expansion> = Vec::new();
        proof {
            let f = |x: int| 0nat;
            assert(views(v@) =~= Seq::<ExpansionView>::empty());
            assert(ranked(views(v@), f));
        }
        ExpansionGraph { expansions: v }
    }
}


/// The next identity a validated graph allocates is larger than every identity
/// Two ID-ordered sequences holding the same expansions are equal.
proof fn lemma_sorted_unique(a: Seq<ExpansionView>, b: Seq<ExpansionView>)
    requires
        a.len() == b.len(),
        sorted_ids(a),
        sorted_ids(b),
        forall|e: ExpansionView| a.contains(e) <==> b.contains(e),
    ensures
        a == b,
    decreases a.len(),
{
    if a.len() > 0 {
        assert(a.contains(a[0]));
        assert(b.contains(b[0]));
        let j = choose|j: int| 0 <= j < b.len() && b[j] == a[0];
        let k = choose|k: int| 0 <= k < a.len() && a[k] == b[0];
        if j > 0 {
            if k > 0 {
                assert(a[0].id.0 < a[k].id.0);
            }
            assert(b[0].id.0 < b[j].id.0);
        }
        assert(b[0] == a[0]);
        let ta = a.drop_first();
        let tb = b.drop_first();
        assert forall|e: ExpansionView| ta.contains(e) <==> tb.contains(e) by {
            if ta.contains(e) {
                let x = choose|x: int| 0 <= x < ta.len() && ta[x] == e;
                assert(a[x + 1] == e);
                assert(a.contains(e));
                let y = choose|y: int| 0 <= y < b.len() && b[y] == e;
                if y == 0 {
                    assert(a[0].id.0 < a[x + 1].id.0);
                }
                assert(tb[y - 1] == e);
            }
            if tb.contains(e) {
                let x = choose|x: int| 0 <= x < tb.len() && tb[x] == e;
                assert(b[x + 1] == e);
                assert(b.contains(e));
                let y = choose|y: int| 0 <= y < a.len() && a[y] == e;
                if y == 0 {
                    assert(b[0].id.0 < b[x + 1].id.0);
                }
                assert(ta[y - 1] == e);
            }
        }
        lemma_sorted_unique(ta, tb);
        assert(a =~= seq![a[0]] + ta);
        assert(b =~= seq![b[0]] + tb);
    }
}

/// A graph is built from `inp` exactly when every expansion names a non-blank
/// component and hook under an ID no earlier expansion used, every expansion
/// (in ID order) has call sites and refers only to known expansions, and
/// call-site parents form no cycle; the graph built is the ID-ordered input.
pub proof fn lemma_graph_built_iff(
    inp: Seq<ExpansionView>,
    s: Seq<ExpansionView>,
    r: Result<Seq<ExpansionView>, ExpansionGraphError>,
)
    requires
        sorted_by_id(inp, s),
        graph_outcome(inp, r),
    ensures
        r is Ok <==> (owners_ok_upto(inp, inp.len() as int) && references_ok_upto(s, s.len() as int)
            && acyclic(s)),
        r matches Ok(g) ==> g == s,
{
    match r {
        Ok(g) => {
            assert(owners_ok_upto(inp, inp.len() as int) && sorted_by_id(inp, g) && references_ok_upto(
                g,
                g.len() as int,
            ) && acyclic(g));
            lemma_sorted_unique(g, s);
            assert(g == s);
        },
        Err(e) => {
            if owners_ok_upto(inp, inp.len() as int) && references_ok_upto(s, s.len() as int) && acyclic(s) {
                if owner_error(inp, e) {
                    match e {
                        ExpansionGraphError::BlankComponent { id } => {
                            let j = choose|j: int|
                                0 <= j < inp.len() && owners_ok_upto(inp, j) && text_blank(inp[j].component)
                                    && id == inp[j].id;
                            assert(owner_ok(inp[j]));
                        },
                        ExpansionGraphError::BlankHook { id } => {
                            let j = choose|j: int|
                                0 <= j < inp.len() && owners_ok_upto(inp, j) && !text_blank(inp[j].component)
                                    && text_blank(inp[j].hook) && id == inp[j].id;
                            assert(owner_ok(inp[j]));
                        },
                        ExpansionGraphError::DuplicateId { id } => {
                            let (j, k) = choose|j: int, k: int|
                                0 <= k < j < inp.len() && owners_ok_upto(inp, j) && owner_ok(inp[j])
                                    && inp[k].id == inp[j].id && id == inp[j].id;
                            assert(owner_ok(inp[j]));
                        },
                        _ => {},
                    }
                } else if exists|s3: Seq<ExpansionView>|
                    sorted_by_id(inp, s3) && references_ok_upto(s3, s3.len() as int) && !acyclic(s3) {
                    let s3 = choose|s3: Seq<ExpansionView>|
                        sorted_by_id(inp, s3) && references_ok_upto(s3, s3.len() as int) && !acyclic(s3);
                    lemma_sorted_unique(s3, s);
                } else {
                    let s2 = choose|s2: Seq<ExpansionView>| sorted_by_id(inp, s2) && reference_error(s2, e);
                    lemma_sorted_unique(s2, s);
                    match e {
                        ExpansionGraphError::MissingCallSite { id } => {
                            {
                                let j = choose|j: int|
                                    0 <= j < s.len() && references_ok_upto(s, j) && s[j].call_sites.len() == 0
                                        && id == s[j].id;
                                assert(references_known(s, s[j]));
                            }
                        },
                        ExpansionGraphError::UnknownReference { id, site, referenced } => {
                            {
                                let j = choose|j: int|
                                    0 <= j < s.len() && references_ok_upto(s, j) && s[j].call_sites.len() > 0
                                        && id == s[j].id && !contains_id(s, referenced) && unknown_site_error(
                                        s,
                                        j,
                                        site,
                                        referenced,
                                    );
                                assert(references_known(s, s[j]));
                                if exists|k: int|
                                    0 <= k < s[j].call_sites.len() && (forall|q: int|
                                        0 <= q < k ==> site_known(s, #[trigger] s[j].call_sites[q]))
                                        && s[j].call_sites[k].expansion == Some(referenced) && site@
                                        == "call site"@ {
                                    let k = choose|k: int|
                                        0 <= k < s[j].call_sites.len() && (forall|q: int|
                                            0 <= q < k ==> site_known(s, #[trigger] s[j].call_sites[q]))
                                            && s[j].call_sites[k].expansion == Some(referenced) && site@
                                            == "call site"@;
                                    assert(site_known(s, s[j].call_sites[k]));
                                }
                            }
                        },
                        _ => {},
                    }
                }
            }
        },
    }
}

/// it holds, so a new expansion never reuses one.
pub proof fn lemma_next_id_is_fresh(es: Seq<ExpansionView>)
    requires
        graph_wf(es),
    ensures
        next_expansion_id(es) matches Ok(id) ==> forall|j: int| 0 <= j < es.len() ==> (#[trigger] es[j]).id.0 < id.0,
{
    if es.len() > 0 {
        assert forall|j: int| 0 <= j < es.len() implies (#[trigger] es[j]).id.0 <= es.last().id.0 by {
            if j < es.len() - 1 {
                assert(es[j].id.0 < es[es.len() - 1].id.0);
            }
        }
    }
}

/// A backtrace begins at the expansion it was asked for.
pub proof fn lemma_backtrace_starts_at_expansion(es: Seq<ExpansionView>, id: ExpansionId)
    requires
        contains_id(es, id),
    ensures
        primary_backtrace(es, position_of(es, id)).len() >= 1,
        primary_backtrace(es, position_of(es, id))[0].id == id,
{
    let i = position_of(es, id);
    assert(0 <= i < es.len() && es[i].id == id);
    match primary_parent(es[i]) {
        Some(p) => {
            let j = position_of(es, p);
            if graph_rank(es)(j) < graph_rank(es)(i) {
                assert((seq![es[i]] + primary_backtrace(es, j))[0] == es[i]);
            }
        },
        None => {},
    }
}

} // verus!
