//! Matching a set of syntax candidates against one input: the candidates run
//! in rank order, each tries its patterns in order, and the first pattern
//! whose match consumes the whole trimmed input makes the candidate a match.
//! The first match is selected; the later ones are kept as alternatives.
use crate::match_engine::{
    choice_run, cursor_ok, elem_run, env_of, env_ok, match_sequence, needs_tail, positions, seq_each, seq_run,
    state_view, state_views, EngineBudget, EngineEnv, EngineState, StateView, TypeAnswer,
};
use crate::matcher::{error_is, regex_scan, MatchErrorView, RegexBudget};
use crate::pattern_match::{
    java_trim, java_trim_range, leading_tail_prefixes, literal_match, match_literal_at, tail_leading,
    tail_views, MatchInput, MatchSyntaxKind, PatternMatchError, PatternMatcherConfig, TailPrefix,
};
use crate::pattern_syntax::{PatternElement, SpannedPatternElement};
use crate::text::{boundary, bytes_of, TextRange};
use vstd::prelude::*;
use vstd::utf8::*;

verus! {

broadcast use vstd::utf8::group_utf8_lib;

/// One registration pattern offered for matching.
#[derive(Debug)]
pub struct MatchPattern {
    /// Position of the pattern in its registration.
    pub pattern_index: usize,
    pub source: String,
    pub elements: Vec<SpannedPatternElement>,
}

/// One definition or registration and the patterns it offers.
#[derive(Debug)]
pub struct PatternCandidate {
    pub kind: MatchSyntaxKind,
    pub definition_id: String,
    pub registration_id: String,
    /// Lower values run first.
    pub priority: i32,
    pub registration_order: usize,
    /// Order after before/after constraints, when a registry resolved one.
    pub resolved_order: Option<usize>,
    pub patterns: Vec<MatchPattern>,
}

/// A candidate whose pattern consumed the whole trimmed input, with what the
/// match captured.
#[derive(Debug)]
pub struct CandidateMatch {
    pub kind: MatchSyntaxKind,
    pub definition_id: String,
    pub registration_id: String,
    pub priority: i32,
    pub registration_order: usize,
    /// One of the candidate's patterns begins with a literal found at the start of the input.
    pub literal_anchor: bool,
    pub pattern_index: usize,
    pub pattern: String,
    /// The trimmed input range the match covers.
    pub span: TextRange,
    pub matched: EngineState,
}

/// The selected candidate and the later ones that matched too.
#[derive(Debug)]
pub struct CandidateMatches {
    pub selected: Option<CandidateMatch>,
    pub alternatives: Vec<CandidateMatch>,
}

/// Candidate `i` runs before candidate `j`: unresolved candidates last, then
/// by resolved order, priority, registration order and declaration order.
pub open spec fn rank_lt(cs: Seq<PatternCandidate>, i: int, j: int) -> bool {
    let a = cs[i];
    let b = cs[j];
    let a0: int = if a.resolved_order is None { 1 } else { 0 };
    let b0: int = if b.resolved_order is None { 1 } else { 0 };
    let a1: int = match a.resolved_order { Some(o) => o as int, None => usize::MAX as int };
    let b1: int = match b.resolved_order { Some(o) => o as int, None => usize::MAX as int };
    ||| a0 < b0
    ||| a0 == b0 && a1 < b1
    ||| a0 == b0 && a1 == b1 && a.priority < b.priority
    ||| a0 == b0 && a1 == b1 && a.priority == b.priority && a.registration_order < b.registration_order
    ||| a0 == b0 && a1 == b1 && a.priority == b.priority && a.registration_order == b.registration_order && i < j
}

/// `order` with candidate `i` placed before the first candidate it runs before.
pub open spec fn rank_insert(cs: Seq<PatternCandidate>, order: Seq<int>, i: int) -> Seq<int>
    decreases order.len(),
{
    if order.len() == 0 {
        seq![i]
    } else if rank_lt(cs, i, order[0]) {
        seq![i] + order
    } else {
        seq![order[0]] + rank_insert(cs, order.drop_first(), i)
    }
}

/// The first `n` candidates in the order they run.
pub open spec fn rank_order(cs: Seq<PatternCandidate>, n: int) -> Seq<int>
    decreases n,
{
    if n <= 0 {
        Seq::empty()
    } else {
        rank_insert(cs, rank_order(cs, n - 1), n - 1)
    }
}

/// The state a pattern starts from: at the start of the trimmed input, with nothing captured.
pub open spec fn start_state(trim: TextRange) -> StateView {
    StateView {
        cursor: trim.start,
        captures: Seq::empty(),
        tags: Seq::empty(),
        mark: 0,
        marks: Seq::empty(),
        pending_tag: None,
    }
}

/// What may follow a whole pattern: its end.
pub open spec fn pattern_end() -> Seq<(Seq<char>, bool)> {
    seq![(Seq::<char>::empty(), false)]
}

/// The first of the states `v[k..]` that reached `end`.
pub open spec fn first_complete(v: Seq<StateView>, end: usize, k: int) -> Option<StateView>
    decreases v.len() - k,
{
    if k < 0 || k >= v.len() {
        None
    } else if v[k].cursor == end {
        Some(v[k])
    } else {
        first_complete(v, end, k + 1)
    }
}

/// The first of the patterns `ps[k..]` that consumes the whole trimmed input,
/// with its position and final state, or the first error.
pub open spec fn patterns_run(env: EngineEnv, ps: Seq<MatchPattern>, k: int, bud: EngineBudget) -> (
    Result<Option<(int, StateView)>, MatchErrorView>,
    EngineBudget,
)
    decreases ps.len() - k,
{
    if k < 0 || k >= ps.len() {
        (Ok(None), bud)
    } else {
        let (r, b2) = seq_run(env, ps[k].elements@, 0, start_state(env.trim), pattern_end(), bud);
        match r {
            Err(x) => (Err(x), b2),
            Ok(v) => match first_complete(v, env.trim.end, 0) {
                Some(s) => (Ok(Some((k, s))), b2),
                None => patterns_run(env, ps, k + 1, b2),
            },
        }
    }
}

/// The matches of the candidates `order[p..]`, in order, after `acc`: each as
/// the candidate, the position of its pattern and the final state.
pub open spec fn candidates_run(
    env: EngineEnv,
    cs: Seq<PatternCandidate>,
    order: Seq<int>,
    p: int,
    bud: EngineBudget,
    acc: Seq<(int, int, StateView)>,
) -> (Result<Seq<(int, int, StateView)>, MatchErrorView>, EngineBudget)
    decreases order.len() - p,
{
    if p < 0 || p >= order.len() {
        (Ok(acc), bud)
    } else {
        let (r, b2) = patterns_run(env, cs[order[p]].patterns@, 0, bud);
        match r {
            Err(x) => (Err(x), b2),
            Ok(None) => candidates_run(env, cs, order, p + 1, b2, acc),
            Ok(Some(found)) => candidates_run(env, cs, order, p + 1, b2, acc.push((order[p], found.0, found.1))),
        }
    }
}

/// A prefix that anchors a candidate: it holds more than spaces and matches at
/// the start of the trimmed input.
pub open spec fn anchor_prefix(b: Seq<u8>, trim: TextRange, p: (Seq<char>, bool)) -> bool {
    &&& exists|i: int| 0 <= i < p.0.len() && #[trigger] p.0[i] != ' '
    &&& literal_match(b, trim, trim.start as int, p.0) is Ok
}

/// One of the candidate's patterns can begin with an anchoring literal.
pub open spec fn literal_anchor(b: Seq<u8>, trim: TextRange, c: PatternCandidate) -> bool {
    exists|k: int, j: int|
        0 <= k < c.patterns@.len() && 0 <= j < tail_leading(c.patterns@[k].elements@).len() && #[trigger] anchor_prefix(
            b,
            trim,
            tail_leading(c.patterns@[k].elements@)[j],
        )
}

/// `m` is the match of candidate `t.0` by its pattern at position `t.1`, ending in state `t.2`.
pub open spec fn match_is(env: EngineEnv, cs: Seq<PatternCandidate>, m: CandidateMatch, t: (int, int, StateView)) -> bool {
    let c = cs[t.0];
    let pat = c.patterns@[t.1];
    &&& m.kind == c.kind
    &&& m.definition_id@ == c.definition_id@
    &&& m.registration_id@ == c.registration_id@
    &&& m.priority == c.priority
    &&& m.registration_order == c.registration_order
    &&& m.literal_anchor == literal_anchor(env.b, env.trim, c)
    &&& m.pattern_index == pat.pattern_index
    &&& m.pattern@ == pat.source@
    &&& m.span == env.trim
    &&& state_view(m.matched) == t.2
}

/// `m` selects the first of the matches `ms` and keeps the others as alternatives.
pub open spec fn matches_are(env: EngineEnv, cs: Seq<PatternCandidate>, m: CandidateMatches, ms: Seq<(int, int, StateView)>) -> bool {
    &&& (m.selected is Some <==> ms.len() > 0)
    &&& (ms.len() > 0 ==> match_is(env, cs, m.selected->0, ms[0]))
    &&& m.alternatives@.len() == (if ms.len() > 0 { ms.len() - 1 } else { 0 })
    &&& forall|i: int| 0 <= i < m.alternatives@.len() ==> match_is(env, cs, #[trigger] m.alternatives@[i], ms[i + 1])
}

/// The matcher's view of the input, its Java-trimmed range, the limits and the answers.
pub open spec fn candidate_env(input: MatchInput, config: PatternMatcherConfig, table: Seq<TypeAnswer>) -> EngineEnv {
    env_of(input, java_trim(encode_utf8(input.local_text())), config, table)
}

/// No work done yet.
pub open spec fn no_work() -> EngineBudget {
    EngineBudget { states: 0, backtracks: 0, regex: RegexBudget { executions: 0, evaluated_bytes: 0 } }
}

/// What matching the candidates gives: their matches in rank order, or the
/// first error, with the work it took.
pub open spec fn candidate_matches(input: MatchInput, cs: Seq<PatternCandidate>, config: PatternMatcherConfig, table: Seq<TypeAnswer>) -> (
    Result<Seq<(int, int, StateView)>, MatchErrorView>,
    EngineBudget,
) {
    candidates_run(candidate_env(input, config, table), cs, rank_order(cs, cs.len() as int), 0, no_work(), Seq::empty())
}

/// The result `r` is the outcome `s` describes.
pub open spec fn outcome_is(
    env: EngineEnv,
    cs: Seq<PatternCandidate>,
    r: Result<CandidateMatches, PatternMatchError>,
    s: Result<Seq<(int, int, StateView)>, MatchErrorView>,
) -> bool {
    match s {
        Ok(ms) => r matches Ok(m) && matches_are(env, cs, m, ms),
        Err(x) => r matches Err(e) && error_is(e, x),
    }
}

/// The Java trim of a text lies on character boundaries.
proof fn lemma_java_trim_valid(b: Seq<u8>)
    requires
        valid_utf8(b),
        b.len() <= usize::MAX,
    ensures
        java_trim(b).valid_for(b),
{
    crate::pattern_match::lemma_java_trim_bounds(b);
    lemma_first_visible_after(b, 0);
    lemma_last_visible_before(b, b.len() as int);
    let t = java_trim(b);
    let fv = crate::pattern_match::first_visible(b, 0);
    assert(t.start == fv);
    if 0 < t.start < b.len() {
        assert(b[fv - 1] <= 0x20);
        crate::text::lemma_after_ascii(b, t.start - 1);
    }
    if 0 < t.end < b.len() {
        if t.start >= b.len() {
        } else {
            crate::text::lemma_after_ascii(b, t.end as int);
        }
    }
}

/// The byte before the first visible byte after `i` is a space or control byte.
proof fn lemma_first_visible_after(b: Seq<u8>, i: int)
    requires
        0 <= i <= b.len(),
    ensures
        crate::pattern_match::first_visible(b, i) > i ==> b[crate::pattern_match::first_visible(b, i) - 1] <= 0x20,
        i <= crate::pattern_match::first_visible(b, i) <= b.len(),
    decreases b.len() - i,
{
    if i < b.len() && b[i] <= 0x20 {
        lemma_first_visible_after(b, i + 1);
    }
}

/// The byte after the end of the last visible byte before `j` is a space or control byte.
proof fn lemma_last_visible_before(b: Seq<u8>, j: int)
    requires
        0 <= j <= b.len(),
    ensures
        crate::pattern_match::last_visible_end(b, j) < j ==> b[crate::pattern_match::last_visible_end(b, j)] <= 0x20,
        0 <= crate::pattern_match::last_visible_end(b, j) <= j,
    decreases j,
{
    if j > 0 && b[j - 1] <= 0x20 {
        lemma_last_visible_before(b, j - 1);
    }
}

/// `rank_insert` places `i` at the first position whose candidate it runs before.
proof fn lemma_rank_insert(cs: Seq<PatternCandidate>, order: Seq<int>, i: int, p: int)
    requires
        0 <= p <= order.len(),
        forall|q: int| 0 <= q < p ==> !rank_lt(cs, i, #[trigger] order[q]),
        p < order.len() ==> rank_lt(cs, i, order[p]),
    ensures
        rank_insert(cs, order, i) == order.take(p) + seq![i] + order.skip(p),
    decreases p,
{
    if p == 0 {
        if order.len() == 0 {
            assert(order.take(0) + seq![i] + order.skip(0) =~= seq![i]);
        } else {
            assert(order.take(0) + seq![i] + order.skip(0) =~= seq![i] + order);
        }
    } else {
        assert(!rank_lt(cs, i, order[0]));
        let rest = order.drop_first();
        assert forall|q: int| 0 <= q < p - 1 implies !rank_lt(cs, i, #[trigger] rest[q]) by {
            assert(rest[q] == order[q + 1]);
        }
        if p - 1 < rest.len() {
            assert(rest[p - 1] == order[p]);
        }
        lemma_rank_insert(cs, rest, i, p - 1);
        assert(seq![order[0]] + (rest.take(p - 1) + seq![i] + rest.skip(p - 1)) =~= order.take(p) + seq![i] + order.skip(p));
    }
}

/// Whether candidate `i` runs before candidate `j`.
fn rank_before(candidates: &Vec<PatternCandidate>, i: usize, j: usize) -> (r: bool)
    requires
        i < candidates@.len(),
        j < candidates@.len(),
    ensures
        r == rank_lt(candidates@, i as int, j as int),
{
    let a = &candidates[i];
    let b = &candidates[j];
    let a0: u8 = if a.resolved_order.is_none() { 1 } else { 0 };
    let b0: u8 = if b.resolved_order.is_none() { 1 } else { 0 };
    let a1: usize = match a.resolved_order { Some(o) => o, None => usize::MAX };
    let b1: usize = match b.resolved_order { Some(o) => o, None => usize::MAX };
    if a0 != b0 {
        return a0 < b0;
    }
    if a1 != b1 {
        return a1 < b1;
    }
    if a.priority != b.priority {
        return a.priority < b.priority;
    }
    if a.registration_order != b.registration_order {
        return a.registration_order < b.registration_order;
    }
    i < j
}

/// The positions of the candidates in the order they run.
fn rank_candidates(candidates: &Vec<PatternCandidate>) -> (r: Vec<usize>)
    ensures
        positions(r@) == rank_order(candidates@, candidates@.len() as int),
        forall|q: int| 0 <= q < r@.len() ==> #[trigger] r@[q] < candidates@.len(),
{
    let ghost cs = candidates@;
    let mut order: Vec<usize> = Vec::new();
    let mut i: usize = 0;
    proof {
        assert(positions(order@) =~= rank_order(cs, 0));
    }
    while i < candidates.len()
        invariant
            cs == candidates@,
            i <= cs.len(),
            positions(order@) == rank_order(cs, i as int),
            forall|q: int| 0 <= q < order@.len() ==> #[trigger] order@[q] < i,
        decreases cs.len() - i,
    {
        let mut p: usize = 0;
        let mut done = false;
        while !done && p < order.len()
            invariant
                cs == candidates@,
                i < cs.len(),
                p <= order@.len(),
                forall|q: int| 0 <= q < order@.len() ==> #[trigger] order@[q] < i,
                forall|q: int| 0 <= q < p ==> !rank_lt(cs, i as int, #[trigger] positions(order@)[q]),
                done ==> p < order@.len() && rank_lt(cs, i as int, positions(order@)[p as int]),
            decreases order@.len() - p, if done { 0int } else { 1int },
        {
            let here = rank_before(candidates, i, order[p]);
            proof {
                assert(positions(order@)[p as int] == order@[p as int] as int);
            }
            if here {
                done = true;
            } else {
                p = p + 1;
            }
        }
        let ghost before = positions(order@);
        proof {
            lemma_rank_insert(cs, before, i as int, p as int);
        }
        order.insert(p, i);
        proof {
            assert(positions(order@) =~= before.take(p as int) + seq![i as int] + before.skip(p as int));
            assert forall|q: int| 0 <= q < order@.len() implies #[trigger] order@[q] < i + 1 by {
                if q < p {
                    assert(order@[q] == before[q]);
                } else if q > p {
                    assert(order@[q] == before[q - 1]);
                }
            }
        }
        i = i + 1;
    }
    order
}

/// The first complete state among `v[k..]` is the first among `v[q..]` when none between reaches `end`.
proof fn lemma_first_complete(v: Seq<StateView>, end: usize, k: int, q: int)
    requires
        0 <= k <= q <= v.len(),
        forall|i: int| k <= i < q ==> (#[trigger] v[i]).cursor != end,
    ensures
        first_complete(v, end, k) == first_complete(v, end, q),
    decreases q - k,
{
    if k < q {
        lemma_first_complete(v, end, k + 1, q);
    }
}

/// Whether the tail prefix `p` anchors a candidate at the start of the trimmed input.
fn prefix_anchors(text: &str, trim: TextRange, p: &TailPrefix) -> (r: bool)
    requires
        trim.start <= bytes_of(text).len(),
        boundary(bytes_of(text), trim.start as int),
    ensures
        r == anchor_prefix(bytes_of(text), trim, (p.text@, p.dynamic)),
{
    let chars = crate::expression::chars_of(p.text.as_str());
    let mut visible = false;
    let mut i: usize = 0;
    while !visible && i < chars.len()
        invariant
            i <= chars@.len(),
            chars@ == p.text@,
            forall|q: int| 0 <= q < i ==> #[trigger] chars@[q] == ' ',
            visible ==> i < chars@.len() && chars@[i as int] != ' ',
        decreases chars@.len() - i, if visible { 0int } else { 1int },
    {
        if chars[i] != ' ' {
            visible = true;
        } else {
            i = i + 1;
        }
    }
    if !visible {
        return false;
    }
    match match_literal_at(text, trim, trim.start, p.text.as_str()) {
        Ok(_) => true,
        Err(_) => false,
    }
}

/// Whether one of the candidate's patterns can begin with an anchoring literal.
fn has_literal_anchor(text: &str, trim: TextRange, c: &PatternCandidate) -> (r: bool)
    requires
        trim.start <= bytes_of(text).len(),
        boundary(bytes_of(text), trim.start as int),
    ensures
        r == literal_anchor(bytes_of(text), trim, *c),
{
    let ghost b = bytes_of(text);
    let mut k: usize = 0;
    while k < c.patterns.len()
        invariant
            k <= c.patterns@.len(),
            b == bytes_of(text),
            trim.start <= b.len(),
            boundary(b, trim.start as int),
            forall|k2: int, j: int|
                0 <= k2 < k && 0 <= j < tail_leading(c.patterns@[k2].elements@).len() ==> !#[trigger] anchor_prefix(
                    b,
                    trim,
                    tail_leading(c.patterns@[k2].elements@)[j],
                ),
        decreases c.patterns@.len() - k,
    {
        let els = c.patterns[k].elements.as_slice();
        let prefixes = leading_tail_prefixes(els);
        let ghost tl = tail_leading(c.patterns@[k as int].elements@);
        let mut j: usize = 0;
        while j < prefixes.len()
            invariant
                j <= prefixes@.len(),
                k < c.patterns@.len(),
                tl == tail_leading(c.patterns@[k as int].elements@),
                tl == tail_views(prefixes@),
                b == bytes_of(text),
                trim.start <= b.len(),
                boundary(b, trim.start as int),
                forall|j2: int| 0 <= j2 < j ==> !#[trigger] anchor_prefix(b, trim, tl[j2]),
            decreases prefixes@.len() - j,
        {
            let here = prefix_anchors(text, trim, &prefixes[j]);
            proof {
                assert(tl[j as int] == (prefixes@[j as int].text@, prefixes@[j as int].dynamic));
            }
            if here {
                return true;
            }
            j = j + 1;
        }
        k = k + 1;
    }
    false
}

/// The first of the candidate's patterns that consumes the whole trimmed
/// input, with its position and final state.
fn match_patterns(
    input: &MatchInput,
    trim: TextRange,
    config: &PatternMatcherConfig,
    table: &Vec<TypeAnswer>,
    c: &PatternCandidate,
    bud: &mut EngineBudget,
) -> (r: Result<Option<(usize, EngineState)>, PatternMatchError>)
    requires
        env_ok(env_of(*input, trim, *config, table@)),
        cursor_ok(env_of(*input, trim, *config, table@), trim.start as int),
    ensures
        ({
            let (res, after) = patterns_run(env_of(*input, trim, *config, table@), c.patterns@, 0, *old(bud));
            &&& *final(bud) == after
            &&& match res {
                Err(x) => r matches Err(e) && error_is(e, x),
                Ok(None) => r matches Ok(None),
                Ok(Some(t)) => r matches Ok(Some(u)) && u.0 == t.0 && state_view(u.1) == t.1,
            }
        }),
        r matches Ok(Some(u)) ==> u.0 < c.patterns@.len(),
{
    let ghost env = env_of(*input, trim, *config, table@);
    let ghost total = patterns_run(env, c.patterns@, 0, *bud);
    let mut end: Vec<TailPrefix> = Vec::new();
    end.push(TailPrefix { text: String::new(), dynamic: false });
    proof {
        assert(tail_views(end@) =~= pattern_end());
    }
    let mut k: usize = 0;
    while k < c.patterns.len()
        invariant
            k <= c.patterns@.len(),
            env == env_of(*input, trim, *config, table@),
            env_ok(env),
            cursor_ok(env, trim.start as int),
            tail_views(end@) == pattern_end(),
            total == patterns_run(env, c.patterns@, 0, *old(bud)),
            patterns_run(env, c.patterns@, k as int, *bud) == total,
        decreases c.patterns@.len() - k,
    {
        let st = EngineState {
            cursor: trim.start,
            captures: Vec::new(),
            tags: Vec::new(),
            mark: 0,
            marks: Vec::new(),
            pending_tag: None,
        };
        proof {
            assert(state_view(st).captures =~= Seq::<crate::match_engine::CaptureView>::empty());
            assert(state_view(st).tags =~= start_state(trim).tags);
            assert(state_view(st) == start_state(trim));
        }
        let ghost bud0 = *bud;
        let states = match match_sequence(input, trim, config, table, &c.patterns[k].elements, 0, st, &end, bud) {
            Ok(v) => v,
            Err(e) => {
                return Err(e);
            },
        };
        let ghost sv = state_views(states@);
        let mut q: usize = 0;
        let mut found = false;
        while !found && q < states.len()
            invariant
                q <= states@.len(),
                sv == state_views(states@),
                forall|i: int| 0 <= i < q ==> (#[trigger] sv[i]).cursor != trim.end,
                found ==> q < states@.len() && sv[q as int].cursor == trim.end,
            decreases states@.len() - q, if found { 0int } else { 1int },
        {
            proof {
                assert(sv[q as int] == state_view(states@[q as int]));
            }
            if states[q].cursor == trim.end {
                found = true;
            } else {
                q = q + 1;
            }
        }
        proof {
            lemma_first_complete(sv, trim.end, 0, q as int);
        }
        if found {
            let mut states = states;
            let ghost pre = states@;
            let s = states.remove(q);
            proof {
                assert(sv[q as int] == state_view(pre[q as int]));
            }
            return Ok(Some((k, s)));
        }
        k = k + 1;
    }
    Ok(None)
}

/// Matches the candidates against the input: the candidates run in rank order
/// (resolved order, then priority, registration order and declaration order),
/// each tries its patterns in order from the start of the Java-trimmed input,
/// and the first pattern that has a way of consuming the whole trimmed input
/// gives the candidate's match. The first match is selected and the later
/// ones are alternatives. All candidates share one budget of states,
/// backtracks and regex work; typed elements take their answers from `table`.
pub fn match_pattern_candidates_in_environment(
    input: &MatchInput,
    candidates: &Vec<PatternCandidate>,
    table: &Vec<TypeAnswer>,
    config: &PatternMatcherConfig,
) -> (r: Result<CandidateMatches, PatternMatchError>)
    ensures
        outcome_is(
            candidate_env(*input, *config, table@),
            candidates@,
            r,
            candidate_matches(*input, candidates@, *config, table@).0,
        ),
{
    let ghost cs = candidates@;
    let ghost env = candidate_env(*input, *config, table@);
    let text = input.text();
    let trim = java_trim_range(text);
    let bytes = text.as_bytes();
    let n = bytes.len();
    proof {
        assert(bytes@.len() == n);
        lemma_java_trim_valid(bytes_of(text));
    }
    let order = rank_candidates(candidates);
    let mut bud = EngineBudget { states: 0, backtracks: 0, regex: RegexBudget { executions: 0, evaluated_bytes: 0 } };
    let ghost ov = positions(order@);
    let ghost total = candidates_run(env, cs, ov, 0, bud, Seq::empty());
    proof {
        assert(total == candidate_matches(*input, cs, *config, table@));
    }
    let mut found: Vec<CandidateMatch> = Vec::new();
    let ghost mut fv: Seq<(int, int, StateView)> = Seq::empty();
    let mut p: usize = 0;
    while p < order.len()
        invariant
            p <= order@.len(),
            cs == candidates@,
            ov == positions(order@),
            forall|q: int| 0 <= q < order@.len() ==> #[trigger] order@[q] < cs.len(),
            env == candidate_env(*input, *config, table@),
            env == env_of(*input, trim, *config, table@),
            env_ok(env),
            cursor_ok(env, trim.start as int),
            bytes_of(text) == env.b,
            found@.len() == fv.len(),
            forall|i: int| 0 <= i < fv.len() ==> match_is(env, cs, #[trigger] found@[i], fv[i]),
            candidates_run(env, cs, ov, p as int, bud, fv) == total,
            total == candidate_matches(*input, cs, *config, table@),
        decreases order@.len() - p,
    {
        let c = &candidates[order[p]];
        proof {
            assert(ov[p as int] == order@[p as int] as int);
        }
        let ghost bud0 = bud;
        let ghost step = patterns_run(env, cs[ov[p as int]].patterns@, 0, bud0);
        match match_patterns(input, trim, config, table, c, &mut bud) {
            Err(e) => {
                proof {
                    assert(step.0 is Err);
                    assert(candidates_run(env, cs, ov, p as int, bud0, fv) == (
                        Err::<Seq<(int, int, StateView)>, MatchErrorView>(step.0->Err_0),
                        step.1,
                    ));
                }
                return Err(e);
            },
            Ok(None) => {
                proof {
                    assert(candidates_run(env, cs, ov, p as int, bud0, fv) == candidates_run(env, cs, ov, p + 1, bud, fv));
                }
            },
            Ok(Some((k, s))) => {
                let pat = &c.patterns[k];
                let anchor = has_literal_anchor(text, trim, c);
                let m = CandidateMatch {
                    kind: c.kind,
                    definition_id: c.definition_id.clone(),
                    registration_id: c.registration_id.clone(),
                    priority: c.priority,
                    registration_order: c.registration_order,
                    literal_anchor: anchor,
                    pattern_index: pat.pattern_index,
                    pattern: pat.source.clone(),
                    span: trim,
                    matched: s,
                };
                let ghost before = fv;
                found.push(m);
                proof {
                    fv = fv.push((order@[p as int] as int, k as int, state_view(s)));
                    assert(candidates_run(env, cs, ov, p as int, bud0, before) == candidates_run(env, cs, ov, p + 1, bud, fv));
                    assert forall|i: int| 0 <= i < fv.len() implies match_is(env, cs, #[trigger] found@[i], fv[i]) by {
                        if i < before.len() {
                            assert(fv[i] == before[i]);
                        }
                    }
                }
            },
        }
        p = p + 1;
    }
    if found.len() == 0 {
        return Ok(CandidateMatches { selected: None, alternatives: found });
    }
    let ghost all = found@;
    let first = found.remove(0);
    proof {
        assert forall|i: int| 0 <= i < found@.len() implies match_is(env, cs, #[trigger] found@[i], fv[i + 1]) by {
            assert(found@[i] == all[i + 1]);
        }
    }
    Ok(CandidateMatches { selected: Some(first), alternatives: found })
}

/// Checks the limits, then matches the candidates as
/// `match_pattern_candidates_in_environment` does.
pub fn match_pattern_candidates(
    input: &MatchInput,
    candidates: &Vec<PatternCandidate>,
    table: &Vec<TypeAnswer>,
    config: &PatternMatcherConfig,
) -> (r: Result<CandidateMatches, PatternMatchError>)
    ensures
        !crate::pattern_match::limits_positive(*config) ==> r == Err::<CandidateMatches, PatternMatchError>(
            PatternMatchError::InvalidConfiguration,
        ),
        crate::pattern_match::limits_positive(*config) ==> outcome_is(
            candidate_env(*input, *config, table@),
            candidates@,
            r,
            candidate_matches(*input, candidates@, *config, table@).0,
        ),
{
    match config.validate() {
        Err(e) => Err(e),
        Ok(()) => match_pattern_candidates_in_environment(input, candidates, table, config),
    }
}

/// The complete state `first_complete` finds has reached `end`.
proof fn lemma_first_complete_ends(v: Seq<StateView>, end: usize, k: int)
    ensures
        first_complete(v, end, k) matches Some(s) ==> s.cursor == end,
    decreases v.len() - k,
{
    if 0 <= k < v.len() && v[k].cursor != end {
        lemma_first_complete_ends(v, end, k + 1);
    }
}

/// The pattern `patterns_run` finds is one of `ps[k..]`, and its state has
/// consumed the trimmed input.
proof fn lemma_patterns_run_complete(env: EngineEnv, ps: Seq<MatchPattern>, k: int, bud: EngineBudget)
    ensures
        patterns_run(env, ps, k, bud).0 matches Ok(Some(t)) ==> k <= t.0 < ps.len() && t.1.cursor == env.trim.end,
    decreases ps.len() - k,
{
    if 0 <= k < ps.len() {
        let (r, b2) = seq_run(env, ps[k].elements@, 0, start_state(env.trim), pattern_end(), bud);
        if let Ok(v) = r {
            lemma_first_complete_ends(v, env.trim.end, 0);
            if first_complete(v, env.trim.end, 0) is None {
                lemma_patterns_run_complete(env, ps, k + 1, b2);
            }
        }
    }
}

/// Every match `candidates_run` collects names a candidate of `order`, one of
/// its patterns, and a state that consumed the trimmed input.
proof fn lemma_candidates_run_complete(
    env: EngineEnv,
    cs: Seq<PatternCandidate>,
    order: Seq<int>,
    p: int,
    bud: EngineBudget,
    acc: Seq<(int, int, StateView)>,
)
    requires
        forall|q: int| 0 <= q < order.len() ==> 0 <= #[trigger] order[q] < cs.len(),
        forall|i: int| 0 <= i < acc.len() ==> complete_match(env, cs, #[trigger] acc[i]),
    ensures
        candidates_run(env, cs, order, p, bud, acc).0 matches Ok(ms) ==> forall|i: int|
            0 <= i < ms.len() ==> complete_match(env, cs, #[trigger] ms[i]),
    decreases order.len() - p,
{
    if 0 <= p < order.len() {
        let (r, b2) = patterns_run(env, cs[order[p]].patterns@, 0, bud);
        lemma_patterns_run_complete(env, cs[order[p]].patterns@, 0, bud);
        match r {
            Err(_) => {},
            Ok(None) => {
                lemma_candidates_run_complete(env, cs, order, p + 1, b2, acc);
            },
            Ok(Some(found)) => {
                let acc2 = acc.push((order[p], found.0, found.1));
                assert forall|i: int| 0 <= i < acc2.len() implies complete_match(env, cs, #[trigger] acc2[i]) by {
                    if i < acc.len() {
                        assert(acc2[i] == acc[i]);
                    }
                }
                lemma_candidates_run_complete(env, cs, order, p + 1, b2, acc2);
            },
        }
    }
}

/// The match `t` names a candidate of `cs`, one of its patterns, and a state
/// that consumed the whole trimmed input.
pub open spec fn complete_match(env: EngineEnv, cs: Seq<PatternCandidate>, t: (int, int, StateView)) -> bool {
    &&& 0 <= t.0 < cs.len()
    &&& 0 <= t.1 < cs[t.0].patterns@.len()
    &&& t.2.cursor == env.trim.end
}

/// Every candidate match, the selected one and each alternative, comes from
/// a pattern of a given candidate whose match consumed the whole trimmed input.
pub proof fn lemma_matches_consume_input(
    input: MatchInput,
    cs: Seq<PatternCandidate>,
    config: PatternMatcherConfig,
    table: Seq<TypeAnswer>,
)
    ensures
        candidate_matches(input, cs, config, table).0 matches Ok(ms) ==> forall|i: int|
            0 <= i < ms.len() ==> complete_match(candidate_env(input, config, table), cs, #[trigger] ms[i]),
{
    lemma_rank_order_ranges(cs, cs.len() as int);
    lemma_candidates_run_complete(
        candidate_env(input, config, table),
        cs,
        rank_order(cs, cs.len() as int),
        0,
        no_work(),
        Seq::empty(),
    );
}

/// The ranked order holds positions of the candidates.
proof fn lemma_rank_order_ranges(cs: Seq<PatternCandidate>, n: int)
    requires
        0 <= n <= cs.len(),
    ensures
        rank_order(cs, n).len() == n,
        forall|q: int| 0 <= q < n ==> 0 <= #[trigger] rank_order(cs, n)[q] < n,
    decreases n,
{
    if n > 0 {
        lemma_rank_order_ranges(cs, n - 1);
        lemma_rank_insert_elements(cs, rank_order(cs, n - 1), n - 1);
    }
}

/// Inserting `i` into `order` adds `i` and keeps every other position.
proof fn lemma_rank_insert_elements(cs: Seq<PatternCandidate>, order: Seq<int>, i: int)
    ensures
        rank_insert(cs, order, i).len() == order.len() + 1,
        forall|q: int|
            0 <= q < rank_insert(cs, order, i).len() ==> #[trigger] rank_insert(cs, order, i)[q] == i || order.contains(
                rank_insert(cs, order, i)[q],
            ),
    decreases order.len(),
{
    if order.len() > 0 && !rank_lt(cs, i, order[0]) {
        let rest = order.drop_first();
        lemma_rank_insert_elements(cs, rest, i);
        let r = rank_insert(cs, order, i);
        assert forall|q: int| 0 <= q < r.len() implies #[trigger] r[q] == i || order.contains(r[q]) by {
            if q == 0 {
                assert(order[0] == r[0]);
            } else {
                let x = r[q];
                assert(x == rank_insert(cs, rest, i)[q - 1]);
                if x != i {
                    let w = choose|w: int| 0 <= w < rest.len() && rest[w] == x;
                    assert(order[w + 1] == x);
                }
            }
        }
    } else if order.len() > 0 {
        let r = rank_insert(cs, order, i);
        assert forall|q: int| 0 <= q < r.len() implies #[trigger] r[q] == i || order.contains(r[q]) by {
            if q > 0 {
                assert(r[q] == order[q - 1]);
            }
        }
    }
}

/// Each candidate of `o` runs before every later one.
pub open spec fn ranked(cs: Seq<PatternCandidate>, o: Seq<int>) -> bool {
    forall|x: int, y: int| 0 <= x < y < o.len() ==> rank_lt(cs, #[trigger] o[x], #[trigger] o[y])
}

/// Running before is transitive.
proof fn lemma_rank_lt_transitive(cs: Seq<PatternCandidate>, a: int, b: int, c: int)
    requires
        rank_lt(cs, a, b),
        rank_lt(cs, b, c),
    ensures
        rank_lt(cs, a, c),
{
}

/// Of two different candidates, one runs before the other.
proof fn lemma_rank_lt_total(cs: Seq<PatternCandidate>, a: int, b: int)
    requires
        a != b,
    ensures
        rank_lt(cs, a, b) || rank_lt(cs, b, a),
{
}

/// Inserting a new candidate into a ranked order keeps it ranked.
proof fn lemma_rank_insert_ranked(cs: Seq<PatternCandidate>, o: Seq<int>, i: int)
    requires
        ranked(cs, o),
        !o.contains(i),
    ensures
        ranked(cs, rank_insert(cs, o, i)),
    decreases o.len(),
{
    let r = rank_insert(cs, o, i);
    if o.len() == 0 {
    } else if rank_lt(cs, i, o[0]) {
        assert forall|x: int, y: int| 0 <= x < y < r.len() implies rank_lt(cs, #[trigger] r[x], #[trigger] r[y]) by {
            if x == 0 {
                assert(r[y] == o[y - 1]);
                if y - 1 > 0 {
                    assert(rank_lt(cs, o[0], o[y - 1]));
                    lemma_rank_lt_transitive(cs, i, o[0], o[y - 1]);
                }
            } else {
                assert(r[x] == o[x - 1]);
                assert(r[y] == o[y - 1]);
            }
        }
    } else {
        let rest = o.drop_first();
        assert forall|x: int, y: int| 0 <= x < y < rest.len() implies rank_lt(cs, #[trigger] rest[x], #[trigger] rest[y]) by {
            assert(rest[x] == o[x + 1]);
            assert(rest[y] == o[y + 1]);
        }
        if rest.contains(i) {
            let w = choose|w: int| 0 <= w < rest.len() && rest[w] == i;
            assert(o[w + 1] == i);
        }
        lemma_rank_insert_ranked(cs, rest, i);
        lemma_rank_insert_elements(cs, rest, i);
        let t = rank_insert(cs, rest, i);
        assert(o[0] != i);
        lemma_rank_lt_total(cs, i, o[0]);
        assert forall|x: int, y: int| 0 <= x < y < r.len() implies rank_lt(cs, #[trigger] r[x], #[trigger] r[y]) by {
            assert(r[y] == t[y - 1]);
            if x == 0 {
                assert(r[0] == o[0]);
                if t[y - 1] != i {
                    let w = choose|w: int| 0 <= w < rest.len() && rest[w] == t[y - 1];
                    assert(rest[w] == o[w + 1]);
                }
            } else {
                assert(r[x] == t[x - 1]);
            }
        }
    }
}

/// The candidates run in rank order: each of the first `n` candidates once,
/// and each before every candidate it ranks before.
pub proof fn lemma_rank_order_sorted(cs: Seq<PatternCandidate>, n: int)
    requires
        0 <= n <= cs.len(),
    ensures
        rank_order(cs, n).len() == n,
        forall|q: int| 0 <= q < n ==> 0 <= #[trigger] rank_order(cs, n)[q] < n,
        ranked(cs, rank_order(cs, n)),
    decreases n,
{
    lemma_rank_order_ranges(cs, n);
    if n > 0 {
        lemma_rank_order_sorted(cs, n - 1);
        let o = rank_order(cs, n - 1);
        if o.contains(n - 1) {
            let w = choose|w: int| 0 <= w < o.len() && o[w] == n - 1;
            assert(o[w] < n - 1);
        }
        lemma_rank_insert_ranked(cs, o, n - 1);
    }
}

/// The work done stays within every limit of the configuration.
pub open spec fn within_limits(cfg: PatternMatcherConfig, bud: EngineBudget) -> bool {
    &&& bud.states <= cfg.max_states
    &&& bud.backtracks <= cfg.max_backtracks
    &&& bud.regex.executions <= cfg.max_regex_executions
    &&& bud.regex.evaluated_bytes <= cfg.max_regex_evaluated_bytes
}

/// A regex scan that succeeds stays within the regex limits.
proof fn lemma_scan_within(
    b: Seq<u8>,
    pattern: Seq<char>,
    span: TextRange,
    cursor: int,
    ends: Seq<int>,
    k: int,
    cfg: PatternMatcherConfig,
    budget: RegexBudget,
    acc: Seq<(TextRange, Seq<Option<TextRange>>)>,
)
    requires
        budget.executions <= cfg.max_regex_executions,
        budget.evaluated_bytes <= cfg.max_regex_evaluated_bytes,
    ensures
        regex_scan(b, pattern, span, cursor, ends, k, cfg, budget, acc).0 is Ok ==> {
            let after = regex_scan(b, pattern, span, cursor, ends, k, cfg, budget, acc).1;
            after.executions <= cfg.max_regex_executions && after.evaluated_bytes <= cfg.max_regex_evaluated_bytes
        },
    decreases ends.len() - k,
{
    if 0 <= k < ends.len() {
        let e = ends[k];
        let executions = crate::matcher::sat_add(budget.executions, 1);
        let evaluated = crate::matcher::sat_add(budget.evaluated_bytes, e - cursor);
        let next = RegexBudget { executions, evaluated_bytes: evaluated };
        if executions <= cfg.max_regex_executions && evaluated <= cfg.max_regex_evaluated_bytes {
            let range = TextRange { start: cursor as usize, end: e as usize };
            if !range.valid_for(b) {
                lemma_scan_within(b, pattern, span, cursor, ends, k + 1, cfg, next, acc);
            } else {
                match crate::matcher::regex_captures(pattern, cfg.max_regex_backtracks, b.subrange(cursor, e)) {
                    Ok(Some(gs)) => {
                        lemma_scan_within(
                            b,
                            pattern,
                            span,
                            cursor,
                            ends,
                            k + 1,
                            cfg,
                            next,
                            acc.push((range, crate::matcher::shifted_groups(gs, cursor))),
                        );
                    },
                    Ok(None) => {
                        lemma_scan_within(b, pattern, span, cursor, ends, k + 1, cfg, next, acc);
                    },
                    _ => {},
                }
            }
        }
    }
}

/// A sequence run that succeeds stays within the limits.
proof fn lemma_seq_run_within(
    env: EngineEnv,
    elements: Seq<SpannedPatternElement>,
    index: int,
    st: StateView,
    tail: Seq<(Seq<char>, bool)>,
    bud: EngineBudget,
)
    requires
        within_limits(env.cfg, bud),
    ensures
        seq_run(env, elements, index, st, tail, bud).0 is Ok ==> within_limits(env.cfg, seq_run(env, elements, index, st, tail, bud).1),
    decreases elements, elements.len() - index, 0int,
{
    let b1 = EngineBudget { states: crate::match_engine::sat(bud.states, 1), ..bud };
    if b1.states <= env.cfg.max_states && 0 <= index < elements.len() {
        let e = elements[index];
        let inner = if needs_tail(e.value) {
            crate::pattern_match::join_tails(Seq::empty(), tail_leading(elements.skip(index + 1)), tail)
        } else {
            tail
        };
        assert(decreases_to!(elements => elements[index]));
        lemma_elem_run_within(env, e.value, e.span, st, inner, b1);
        let (r, b2) = elem_run(env, e.value, e.span, st, inner, b1);
        if let Ok(ts) = r {
            let b3 = EngineBudget {
                backtracks: crate::match_engine::sat(b2.backtracks, if ts.len() > 0 { ts.len() - 1 } else { 0 }),
                ..b2
            };
            if b3.backtracks <= env.cfg.max_backtracks {
                lemma_seq_each_within(env, elements, index + 1, ts, 0, tail, b3, Seq::empty());
            }
        }
    }
}

/// Running the rest of a sequence from each state stays within the limits when it succeeds.
proof fn lemma_seq_each_within(
    env: EngineEnv,
    elements: Seq<SpannedPatternElement>,
    index: int,
    ts: Seq<StateView>,
    k: int,
    tail: Seq<(Seq<char>, bool)>,
    bud: EngineBudget,
    acc: Seq<StateView>,
)
    requires
        within_limits(env.cfg, bud),
    ensures
        seq_each(env, elements, index, ts, k, tail, bud, acc).0 is Ok ==> within_limits(
            env.cfg,
            seq_each(env, elements, index, ts, k, tail, bud, acc).1,
        ),
    decreases elements, elements.len() - index, ts.len() - k + 1,
{
    if 0 <= k < ts.len() {
        lemma_seq_run_within(env, elements, index, ts[k], tail, bud);
        let (r, b2) = seq_run(env, elements, index, ts[k], tail, bud);
        if let Ok(m) = r {
            lemma_seq_each_within(env, elements, index, ts, k + 1, tail, b2, acc + m);
        }
    }
}

/// Running the branches of a choice stays within the limits when it succeeds.
proof fn lemma_choice_run_within(
    env: EngineEnv,
    bs: Seq<Vec<SpannedPatternElement>>,
    k: int,
    st: StateView,
    tail: Seq<(Seq<char>, bool)>,
    bud: EngineBudget,
    acc: Seq<StateView>,
)
    requires
        within_limits(env.cfg, bud),
    ensures
        choice_run(env, bs, k, st, tail, bud, acc).0 is Ok ==> within_limits(env.cfg, choice_run(env, bs, k, st, tail, bud, acc).1),
    decreases bs, bs.len() - k, 0int,
{
    if 0 <= k < bs.len() {
        assert(decreases_to!(bs => bs[k]));
        assert(decreases_to!(bs[k] => bs[k]@));
        lemma_seq_run_within(env, bs[k]@, 0, st, tail, bud);
        let (r, b2) = seq_run(env, bs[k]@, 0, st, tail, bud);
        if let Ok(m) = r {
            lemma_choice_run_within(env, bs, k + 1, st, tail, b2, acc + m);
        }
    }
}

/// Matching one element stays within the limits when it succeeds.
proof fn lemma_elem_run_within(
    env: EngineEnv,
    v: PatternElement,
    span: TextRange,
    st: StateView,
    tail: Seq<(Seq<char>, bool)>,
    bud: EngineBudget,
)
    requires
        within_limits(env.cfg, bud),
    ensures
        elem_run(env, v, span, st, tail, bud).0 is Ok ==> within_limits(env.cfg, elem_run(env, v, span, st, tail, bud).1),
    decreases v, 0int, 0int,
{
    match v {
        PatternElement::Regex(p) => {
            let anchored = crate::matcher::anchored(p@);
            if crate::matcher::regex_compile_error(anchored, env.cfg.max_regex_backtracks) is None {
                lemma_scan_within(
                    env.b,
                    anchored,
                    span,
                    st.cursor as int,
                    crate::pattern_match::skript_steps(env.b, st.cursor as int, env.trim.end as int),
                    0,
                    env.cfg,
                    bud.regex,
                    Seq::empty(),
                );
            }
        },
        PatternElement::Group(c) => {
            assert(decreases_to!(v => c));
            assert(decreases_to!(c => c@));
            lemma_seq_run_within(env, c@, 0, st, tail, bud);
        },
        PatternElement::Optional(c) => {
            assert(decreases_to!(v => c));
            assert(decreases_to!(c => c@));
            lemma_seq_run_within(env, c@, 0, st, tail, bud);
        },
        PatternElement::Choice(bs) => {
            let b1 = EngineBudget {
                backtracks: crate::match_engine::sat(bud.backtracks, if bs@.len() > 0 { bs@.len() - 1 } else { 0 }),
                ..bud
            };
            if b1.backtracks <= env.cfg.max_backtracks {
                assert(decreases_to!(v => bs));
                assert(decreases_to!(bs => bs@));
                lemma_choice_run_within(env, bs@, 0, st, tail, b1, Seq::empty());
            }
        },
        _ => {},
    }
}

/// Trying the patterns of a candidate stays within the limits when it succeeds.
proof fn lemma_patterns_run_within(env: EngineEnv, ps: Seq<MatchPattern>, k: int, bud: EngineBudget)
    requires
        within_limits(env.cfg, bud),
    ensures
        patterns_run(env, ps, k, bud).0 is Ok ==> within_limits(env.cfg, patterns_run(env, ps, k, bud).1),
    decreases ps.len() - k,
{
    if 0 <= k < ps.len() {
        lemma_seq_run_within(env, ps[k].elements@, 0, start_state(env.trim), pattern_end(), bud);
        let (r, b2) = seq_run(env, ps[k].elements@, 0, start_state(env.trim), pattern_end(), bud);
        if let Ok(v) = r {
            if first_complete(v, env.trim.end, 0) is None {
                lemma_patterns_run_within(env, ps, k + 1, b2);
            }
        }
    }
}

/// Running the candidates stays within the limits when it succeeds.
proof fn lemma_candidates_run_within(
    env: EngineEnv,
    cs: Seq<PatternCandidate>,
    order: Seq<int>,
    p: int,
    bud: EngineBudget,
    acc: Seq<(int, int, StateView)>,
)
    requires
        within_limits(env.cfg, bud),
    ensures
        candidates_run(env, cs, order, p, bud, acc).0 is Ok ==> within_limits(env.cfg, candidates_run(env, cs, order, p, bud, acc).1),
    decreases order.len() - p,
{
    if 0 <= p < order.len() {
        lemma_patterns_run_within(env, cs[order[p]].patterns@, 0, bud);
        let (r, b2) = patterns_run(env, cs[order[p]].patterns@, 0, bud);
        match r {
            Err(_) => {},
            Ok(None) => {
                lemma_candidates_run_within(env, cs, order, p + 1, b2, acc);
            },
            Ok(Some(found)) => {
                lemma_candidates_run_within(env, cs, order, p + 1, b2, acc.push((order[p], found.0, found.1)));
            },
        }
    }
}

/// The matcher's limits hold: when matching the candidates succeeds, the
/// states visited, the backtracks taken, the regex executions and the bytes
/// the regexes read all stay within the configured limits; going past any of
/// them ends the match with an error.
pub proof fn lemma_matching_respects_limits(
    input: MatchInput,
    cs: Seq<PatternCandidate>,
    config: PatternMatcherConfig,
    table: Seq<TypeAnswer>,
)
    ensures
        candidate_matches(input, cs, config, table).0 is Ok ==> within_limits(config, candidate_matches(input, cs, config, table).1),
{
    lemma_candidates_run_within(
        candidate_env(input, config, table),
        cs,
        rank_order(cs, cs.len() as int),
        0,
        no_work(),
        Seq::empty(),
    );
}

} // verus!
