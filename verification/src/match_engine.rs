//! The backtracking matcher for one registration pattern: every way the
//! pattern's elements can consume the input from a cursor, in depth-first
//! order, within the state and backtracking budgets. Typed expressions are
//! resolved from a table of answers given by the caller.
use crate::matcher::{
    error_is, match_regex, regex_transitions, transition_view, transition_views, MatchErrorView, RegexBudget, RegexTransition,
};
use crate::pattern_match::{
    join_tails, literal_match, match_literal_at, offset_result, sequence_tail_prefixes, skript_boundaries,
    skript_steps, tail_leading, tail_views, MatchInput, PatternMatchError, PatternMatchLimit,
    PatternMatcherConfig, TailPrefix, TypeExpressionResolution,
};
use crate::pattern_syntax::{PatternElement, PatternTypeExpr, SpannedPatternElement};
use crate::raw_tree::trimmed_bytes;
use crate::text::{boundary, bytes_of, TextRange};
use vstd::prelude::*;
use vstd::string::{StringExecFns, StringSliceAdditionalSpecFns};
use vstd::utf8::*;

verus! {

broadcast use vstd::utf8::group_utf8_lib;

/// A value captured by a regex or typed element, at its local input range.
#[derive(Debug)]
pub enum LocalCapture {
    Regex { pattern_span: TextRange, range: TextRange, groups: Vec<Option<TextRange>> },
    TypeExpression {
        pattern_span: TextRange,
        range: TextRange,
        alternative_index: Option<usize>,
        resolution_id: Option<String>,
    },
}

/// The mathematical value of a capture.
pub enum CaptureView {
    Regex(TextRange, TextRange, Seq<Option<TextRange>>),
    TypeExpression(TextRange, TextRange, Option<usize>, Option<Seq<char>>),
}

/// The view of an optional text.
pub open spec fn opt_chars(t: Option<String>) -> Option<Seq<char>> {
    match t {
        Some(s) => Some(s@),
        None => None,
    }
}

/// The view of a capture.
pub open spec fn capture_view(c: LocalCapture) -> CaptureView {
    match c {
        LocalCapture::Regex { pattern_span, range, groups } => CaptureView::Regex(pattern_span, range, groups@),
        LocalCapture::TypeExpression { pattern_span, range, alternative_index, resolution_id } => CaptureView::TypeExpression(
            pattern_span,
            range,
            alternative_index,
            opt_chars(resolution_id),
        ),
    }
}

/// A parse tag and the empty input range where it became active.
#[derive(Debug)]
pub struct LocalTag {
    pub value: String,
    pub pattern_span: TextRange,
    pub at: TextRange,
    pub implicit: bool,
}

/// A parse mark, where it was met, and the marks combined so far.
#[derive(Debug, Clone, Copy, PartialEq, Eq, Structural)]
pub struct LocalMark {
    pub value: i32,
    pub pattern_span: TextRange,
    pub at: TextRange,
    pub accumulated: i32,
}

/// One way of matching so far.
#[derive(Debug)]
pub struct EngineState {
    pub cursor: usize,
    pub captures: Vec<LocalCapture>,
    pub tags: Vec<LocalTag>,
    pub mark: i32,
    pub marks: Vec<LocalMark>,
    /// An empty parse tag waiting for the next literal, with its pattern span and cursor.
    pub pending_tag: Option<(TextRange, usize)>,
}

/// The mathematical value of a match state.
pub struct StateView {
    pub cursor: usize,
    pub captures: Seq<CaptureView>,
    pub tags: Seq<(Seq<u8>, TextRange, TextRange, bool)>,
    pub mark: i32,
    pub marks: Seq<LocalMark>,
    pub pending_tag: Option<(TextRange, usize)>,
}

/// The view of a match state.
pub open spec fn state_view(s: EngineState) -> StateView {
    StateView {
        cursor: s.cursor,
        captures: s.captures@.map_values(|c: LocalCapture| capture_view(c)),
        tags: s.tags@.map_values(|t: LocalTag| (encode_utf8(t.value@), t.pattern_span, t.at, t.implicit)),
        mark: s.mark,
        marks: s.marks@,
        pending_tag: s.pending_tag,
    }
}

/// The views of match states.
pub open spec fn state_views(v: Seq<EngineState>) -> Seq<StateView> {
    v.map_values(|s: EngineState| state_view(s))
}

/// The caller's answer for the typed element at `pattern_span` tried at `cursor`.
#[derive(Debug)]
pub struct TypeAnswer {
    pub pattern_span: TextRange,
    pub cursor: usize,
    pub resolutions: Vec<TypeExpressionResolution>,
}

/// The view of one resolution.
pub open spec fn resolution_view(r: TypeExpressionResolution) -> (TextRange, Option<usize>, Option<Seq<char>>) {
    (r.range, r.alternative_index, opt_chars(r.resolution_id))
}

/// The view of a table of answers.
pub open spec fn table_view(t: Seq<TypeAnswer>) -> Seq<(TextRange, usize, Seq<(TextRange, Option<usize>, Option<Seq<char>>)>)> {
    t.map_values(
        |a: TypeAnswer|
            (a.pattern_span, a.cursor, a.resolutions@.map_values(|r: TypeExpressionResolution| resolution_view(r))),
    )
}

/// What the matcher works on: the input bytes, its trimmed range, the limits
/// and the table of typed answers.
pub struct EngineEnv {
    pub b: Seq<u8>,
    pub trim: TextRange,
    pub cfg: PatternMatcherConfig,
    pub table: Seq<(TextRange, usize, Seq<(TextRange, Option<usize>, Option<Seq<char>>)>)>,
}

/// Work done so far.
#[derive(Debug, Clone, Copy, PartialEq, Eq, Structural)]
pub struct EngineBudget {
    pub states: usize,
    pub backtracks: usize,
    pub regex: RegexBudget,
}

/// `a + b`, or the largest `usize` when that overflows.
pub open spec fn sat(a: usize, b: int) -> usize {
    if a + b > usize::MAX {
        usize::MAX
    } else {
        (a + b) as usize
    }
}

/// The answers of the table for the typed element at `span` tried at `cursor`:
/// those of the first entry for them, or none.
pub open spec fn answers_from(
    table: Seq<(TextRange, usize, Seq<(TextRange, Option<usize>, Option<Seq<char>>)>)>,
    span: TextRange,
    cursor: usize,
    k: int,
) -> Seq<(TextRange, Option<usize>, Option<Seq<char>>)>
    decreases table.len() - k,
{
    if k < 0 || k >= table.len() {
        Seq::empty()
    } else if table[k].0 == span && table[k].1 == cursor {
        table[k].2
    } else {
        answers_from(table, span, cursor, k + 1)
    }
}

/// Boundary `x` lets the pattern go on with one of the tail prefixes: an empty
/// prefix where the pattern may end or continue dynamically, or a literal
/// prefix that matches there (one starting with a space not right after a space).
pub open spec fn tail_allows(b: Seq<u8>, trim: TextRange, x: int, tail: Seq<(Seq<char>, bool)>) -> bool {
    tail.len() == 0 || exists|i: int|
        0 <= i < tail.len() && #[trigger] prefix_allows(b, trim, x, tail[i])
}

/// Boundary `x` lets the pattern go on with the tail prefix `p`.
pub open spec fn prefix_allows(b: Seq<u8>, trim: TextRange, x: int, p: (Seq<char>, bool)) -> bool {
    if p.0.len() == 0 {
        p.1 || x == trim.end
    } else if p.0[0] == ' ' && x > trim.start && b[x - 1] == 0x20 {
        false
    } else {
        literal_match(b, trim, x, p.0) is Ok
    }
}

/// The ends a typed element may take from `cursor`: the Skript boundaries
/// that let the pattern go on, after the cursor itself when the element may
/// match nothing there.
pub open spec fn typed_ends(env: EngineEnv, x: PatternTypeExpr, cursor: int, tail: Seq<(Seq<char>, bool)>) -> Seq<int> {
    let steps = allowed_ends(env, skript_steps(env.b, cursor, env.trim.end as int), tail);
    if x.nullable && tail_allows(env.b, env.trim, cursor, tail) {
        seq![cursor] + steps
    } else {
        steps
    }
}

/// The ends among `s` on a character boundary that let the pattern go on with
/// the tail, in order.
pub open spec fn allowed_ends(env: EngineEnv, s: Seq<int>, tail: Seq<(Seq<char>, bool)>) -> Seq<int>
    decreases s.len(),
{
    if s.len() == 0 {
        Seq::empty()
    } else {
        allowed_ends(env, s.drop_last(), tail) + if boundary(env.b, s.last()) && s.last() <= env.b.len()
            && tail_allows(env.b, env.trim, s.last(), tail) {
            seq![s.last()]
        } else {
            Seq::empty()
        }
    }
}

/// A resolution the typed element at `cursor` may give: it starts at the
/// cursor, ends at an allowed end within the trimmed input on a character
/// boundary, and names an alternative the element has.
pub open spec fn resolution_ok(
    env: EngineEnv,
    x: PatternTypeExpr,
    cursor: int,
    ends: Seq<int>,
    r: (TextRange, Option<usize>, Option<Seq<char>>),
) -> bool {
    &&& r.0.start == cursor
    &&& r.0.end <= env.trim.end
    &&& r.0.valid_for(env.b)
    &&& ends.contains(r.0.end as int)
    &&& (r.1 matches Some(i) ==> i < x.alternatives@.len())
}

/// The state after a typed capture.
pub open spec fn typed_state(st: StateView, span: TextRange, r: (TextRange, Option<usize>, Option<Seq<char>>)) -> StateView {
    StateView {
        cursor: r.0.end,
        captures: st.captures.push(CaptureView::TypeExpression(span, r.0, r.1, r.2)),
        pending_tag: None,
        ..st
    }
}

/// The states the resolutions `rs[k..]` give, or the first resolution that is not allowed.
pub open spec fn typed_states(
    env: EngineEnv,
    x: PatternTypeExpr,
    span: TextRange,
    st: StateView,
    ends: Seq<int>,
    rs: Seq<(TextRange, Option<usize>, Option<Seq<char>>)>,
    k: int,
    acc: Seq<StateView>,
) -> Result<Seq<StateView>, MatchErrorView>
    decreases rs.len() - k,
{
    if k < 0 || k >= rs.len() {
        Ok(acc)
    } else if !resolution_ok(env, x, st.cursor as int, ends, rs[k]) {
        Err(MatchErrorView::TypeResolution { range: rs[k].0 })
    } else {
        typed_states(env, x, span, st, ends, rs, k + 1, acc.push(typed_state(st, span, rs[k])))
    }
}

/// The state after a regex transition.
pub open spec fn regex_state(st: StateView, span: TextRange, t: (TextRange, Seq<Option<TextRange>>)) -> StateView {
    StateView {
        cursor: t.0.end,
        captures: st.captures.push(CaptureView::Regex(span, t.0, t.1)),
        pending_tag: None,
        ..st
    }
}

/// The element needs to know what may follow it.
pub open spec fn needs_tail(v: PatternElement) -> bool {
    v is TypeExpr || v is Group || v is Optional || v is Choice
}

/// The state before a literal: an empty parse tag waiting for it takes the
/// literal's trimmed text, unless that is empty.
pub open spec fn before_literal(st: StateView, l: Seq<char>) -> StateView {
    match st.pending_tag {
        Some(p) => {
            let value = trimmed_bytes(encode_utf8(l));
            StateView {
                pending_tag: None,
                tags: if value.len() > 0 {
                    st.tags.push((value, p.0, TextRange { start: p.1, end: p.1 }, true))
                } else {
                    st.tags
                },
                ..st
            }
        },
        None => st,
    }
}

/// Every way the elements `index..` of a sequence can match from `st`, each
/// visit counting a state, or the first budget or extension error.
pub open spec fn seq_run(
    env: EngineEnv,
    elements: Seq<SpannedPatternElement>,
    index: int,
    st: StateView,
    tail: Seq<(Seq<char>, bool)>,
    bud: EngineBudget,
) -> (Result<Seq<StateView>, MatchErrorView>, EngineBudget)
    decreases elements, elements.len() - index, 0int,
{
    let b1 = EngineBudget { states: sat(bud.states, 1), ..bud };
    if b1.states > env.cfg.max_states {
        (Err(MatchErrorView::Limit { kind: PatternMatchLimit::States, limit: env.cfg.max_states }), b1)
    } else if index < 0 || index >= elements.len() {
        (Ok(seq![st]), b1)
    } else {
        let e = elements[index];
        let inner = if needs_tail(e.value) {
            join_tails(Seq::empty(), tail_leading(elements.skip(index + 1)), tail)
        } else {
            tail
        };
        proof {
            assert(decreases_to!(elements => elements[index]));
        }
        let (r, b2) = elem_run(env, e.value, e.span, st, inner, b1);
        match r {
            Err(x) => (Err(x), b2),
            Ok(ts) => {
                let b3 = EngineBudget {
                    backtracks: sat(b2.backtracks, if ts.len() > 0 { ts.len() - 1 } else { 0 }),
                    ..b2
                };
                if b3.backtracks > env.cfg.max_backtracks {
                    (Err(MatchErrorView::Limit { kind: PatternMatchLimit::Backtracks, limit: env.cfg.max_backtracks }), b3)
                } else {
                    seq_each(env, elements, index + 1, ts, 0, tail, b3, Seq::empty())
                }
            },
        }
    }
}

/// The matches of the rest of the sequence from each of the states `ts[k..]`, in order.
pub open spec fn seq_each(
    env: EngineEnv,
    elements: Seq<SpannedPatternElement>,
    index: int,
    ts: Seq<StateView>,
    k: int,
    tail: Seq<(Seq<char>, bool)>,
    bud: EngineBudget,
    acc: Seq<StateView>,
) -> (Result<Seq<StateView>, MatchErrorView>, EngineBudget)
    decreases elements, elements.len() - index, ts.len() - k + 1,
{
    if k < 0 || k >= ts.len() {
        (Ok(acc), bud)
    } else {
        let (r, b2) = seq_run(env, elements, index, ts[k], tail, bud);
        match r {
            Err(x) => (Err(x), b2),
            Ok(m) => seq_each(env, elements, index, ts, k + 1, tail, b2, acc + m),
        }
    }
}

/// The matches of the branches `bs[k..]` of a choice from `st`, in order.
pub open spec fn choice_run(
    env: EngineEnv,
    bs: Seq<Vec<SpannedPatternElement>>,
    k: int,
    st: StateView,
    tail: Seq<(Seq<char>, bool)>,
    bud: EngineBudget,
    acc: Seq<StateView>,
) -> (Result<Seq<StateView>, MatchErrorView>, EngineBudget)
    decreases bs, bs.len() - k, 0int,
{
    if k < 0 || k >= bs.len() {
        (Ok(acc), bud)
    } else {
        proof {
            assert(decreases_to!(bs => bs[k]));
            assert(decreases_to!(bs[k] => bs[k]@));
        }
        let (r, b2) = seq_run(env, bs[k]@, 0, st, tail, bud);
        match r {
            Err(x) => (Err(x), b2),
            Ok(m) => choice_run(env, bs, k + 1, st, tail, b2, acc + m),
        }
    }
}

/// Every way one element can match from `st`.
pub open spec fn elem_run(
    env: EngineEnv,
    v: PatternElement,
    span: TextRange,
    st: StateView,
    tail: Seq<(Seq<char>, bool)>,
    bud: EngineBudget,
) -> (Result<Seq<StateView>, MatchErrorView>, EngineBudget)
    decreases v, 0int, 0int,
{
    match v {
        PatternElement::Literal(l) => {
            let s1 = before_literal(st, l@);
            match literal_match(env.b, env.trim, s1.cursor as int, l@) {
                Ok(end) => (Ok(seq![StateView { cursor: end as usize, ..s1 }]), bud),
                Err(_) => (Ok(Seq::empty()), bud),
            }
        },
        PatternElement::Regex(p) => {
            let (r, rb) = regex_transitions(env.b, p@, span, st.cursor as int, env.trim.end as int, env.cfg, bud.regex);
            let b2 = EngineBudget { regex: rb, ..bud };
            match r {
                Err(x) => (Err(x), b2),
                Ok(ts) => (Ok(ts.map_values(|t: (TextRange, Seq<Option<TextRange>>)| regex_state(st, span, t))), b2),
            }
        },
        PatternElement::TypeExpr(x) => {
            let ends = typed_ends(env, x, st.cursor as int, tail);
            let rs = answers_from(env.table, span, st.cursor, 0);
            (typed_states(env, x, span, st, ends, rs, 0, Seq::empty()), bud)
        },
        PatternElement::Group(c) => {
            proof {
                assert(decreases_to!(v => c));
                assert(decreases_to!(c => c@));
            }
            seq_run(env, c@, 0, st, tail, bud)
        },
        PatternElement::Optional(c) => {
            proof {
                assert(decreases_to!(v => c));
                assert(decreases_to!(c => c@));
            }
            let (r, b2) = seq_run(env, c@, 0, st, tail, bud);
            match r {
                Err(x) => (Err(x), b2),
                Ok(m) => (Ok(m.push(StateView { pending_tag: None, ..st })), b2),
            }
        },
        PatternElement::Choice(bs) => {
            let b1 = EngineBudget {
                backtracks: sat(bud.backtracks, if bs@.len() > 0 { bs@.len() - 1 } else { 0 }),
                ..bud
            };
            if b1.backtracks > env.cfg.max_backtracks {
                (Err(MatchErrorView::Limit { kind: PatternMatchLimit::Backtracks, limit: env.cfg.max_backtracks }), b1)
            } else {
                proof {
                    assert(decreases_to!(v => bs));
                    assert(decreases_to!(bs => bs@));
                }
                choice_run(env, bs@, 0, st, tail, b1, Seq::empty())
            }
        },
        PatternElement::ParseTag(t) => {
            let at = TextRange { start: st.cursor, end: st.cursor };
            if t@.len() == 0 {
                (Ok(seq![StateView { pending_tag: Some((span, st.cursor)), ..st }]), bud)
            } else {
                (
                    Ok(seq![StateView { tags: st.tags.push((encode_utf8(t@), span, at, false)), pending_tag: None, ..st }]),
                    bud,
                )
            }
        },
        PatternElement::ParseMark(m) => {
            let at = TextRange { start: st.cursor, end: st.cursor };
            let mark = st.mark ^ m;
            (
                Ok(
                    seq![
                        StateView {
                            mark,
                            marks: st.marks.push(LocalMark { value: m, pattern_span: span, at, accumulated: mark }),
                            pending_tag: None,
                            ..st
                        },
                    ],
                ),
                bud,
            )
        },
        PatternElement::Empty => (Ok(seq![StateView { pending_tag: None, ..st }]), bud),
    }
}


/// The matcher's view of its input and limits.
pub open spec fn env_of(input: MatchInput, trim: TextRange, config: PatternMatcherConfig, table: Seq<TypeAnswer>) -> EngineEnv {
    EngineEnv { b: encode_utf8(input.local_text()), trim, cfg: config, table: table_view(table) }
}

/// The input is text and its trimmed range lies within it.
pub open spec fn env_ok(env: EngineEnv) -> bool {
    &&& valid_utf8(env.b)
    &&& env.trim.valid_for(env.b)
}

/// A cursor within the trimmed input, on a character boundary.
pub open spec fn cursor_ok(env: EngineEnv, c: int) -> bool {
    &&& env.trim.start <= c <= env.trim.end
    &&& boundary(env.b, c)
}

/// Every state's cursor is within the trimmed input.
pub open spec fn cursors_ok(env: EngineEnv, v: Seq<StateView>) -> bool {
    forall|i: int| 0 <= i < v.len() ==> cursor_ok(env, #[trigger] v[i].cursor as int)
}

/// The run's result is the one `s` describes.
pub open spec fn result_is(r: Result<Vec<EngineState>, PatternMatchError>, s: Result<Seq<StateView>, MatchErrorView>) -> bool {
    match r {
        Ok(v) => s == Ok::<Seq<StateView>, MatchErrorView>(state_views(v@)),
        Err(e) => s matches Err(x) && error_is(e, x),
    }
}

/// A literal that matches from a good cursor ends at a good cursor.
proof fn lemma_literal_end(env: EngineEnv, x: int, p: Seq<char>)
    requires
        env_ok(env),
        cursor_ok(env, x),
        literal_match(env.b, env.trim, x, p) is Ok,
    ensures
        cursor_ok(env, literal_match(env.b, env.trim, x, p)->Ok_0),
    decreases p.len(),
{
    if p.len() > 0 {
        if p[0] == ' ' {
            if x == env.trim.start || x == env.trim.end {
                lemma_literal_end(env, x, p.drop_first());
            } else if 0 <= x < env.b.len() && env.b[x] == 0x20 {
                crate::text::lemma_after_ascii(env.b, x);
                lemma_literal_end(env, x + 1, p.drop_first());
            } else {
                lemma_literal_end(env, x, p.drop_first());
            }
        } else {
            let w = crate::pattern_match::first_char_width(env.b, x, env.trim.end as int)->Some_0;
            crate::text::lemma_next_boundary(env.b, x);
            if env.trim.end < x + w {
                assert(!boundary(env.b, env.trim.end as int));
            }
            lemma_literal_end(env, x + w, p.drop_first());
        }
    }
}

/// The Skript boundaries after `cursor` lie within `end`.
proof fn lemma_steps_within(b: Seq<u8>, cursor: int, end: int)
    ensures
        forall|k: int| 0 <= k < skript_steps(b, cursor, end).len() ==> #[trigger] skript_steps(b, cursor, end)[k] <= end,
    decreases end - cursor,
{
    if cursor < end {
        if let Some(next) = crate::pattern_match::skript_step(b, cursor, end) {
            if cursor < next <= end {
                lemma_steps_within(b, next, end);
                let s = skript_steps(b, cursor, end);
                let rest = skript_steps(b, next, end);
                assert forall|k: int| 0 <= k < s.len() implies #[trigger] s[k] <= end by {
                    if k > 0 {
                        assert(s[k] == rest[k - 1]);
                    }
                }
            }
        }
    }
}

/// The transitions a regex scan collects cover valid ranges from the cursor to
/// an end no later than the ends it tries.
proof fn lemma_regex_scan_ranges(
    b: Seq<u8>,
    pattern: Seq<char>,
    span: TextRange,
    cursor: int,
    ends: Seq<int>,
    k: int,
    cfg: PatternMatcherConfig,
    budget: RegexBudget,
    acc: Seq<(TextRange, Seq<Option<TextRange>>)>,
    limit: int,
)
    requires
        forall|q: int| 0 <= q < ends.len() ==> 0 <= #[trigger] ends[q] <= limit,
        limit <= usize::MAX,
        0 <= cursor <= limit,
        forall|q: int|
            0 <= q < acc.len() ==> (#[trigger] acc[q]).0.valid_for(b) && acc[q].0.end <= limit && acc[q].0.start == cursor,
    ensures
        crate::matcher::regex_scan(b, pattern, span, cursor, ends, k, cfg, budget, acc).0 matches Ok(ts) ==> forall|q: int|
            0 <= q < ts.len() ==> (#[trigger] ts[q]).0.valid_for(b) && ts[q].0.end <= limit && ts[q].0.start == cursor,
    decreases ends.len() - k,
{
    if 0 <= k < ends.len() {
        let e = ends[k];
        let executions = crate::matcher::sat_add(budget.executions, 1);
        let evaluated = crate::matcher::sat_add(budget.evaluated_bytes, e - cursor);
        let next = RegexBudget { executions, evaluated_bytes: evaluated };
        let range = TextRange { start: cursor as usize, end: e as usize };
        if executions <= cfg.max_regex_executions && evaluated <= cfg.max_regex_evaluated_bytes {
            if !range.valid_for(b) {
                lemma_regex_scan_ranges(b, pattern, span, cursor, ends, k + 1, cfg, next, acc, limit);
            } else {
                match crate::matcher::regex_captures(pattern, cfg.max_regex_backtracks, b.subrange(cursor, e)) {
                    Ok(Some(gs)) => {
                        let acc2 = acc.push((range, crate::matcher::shifted_groups(gs, cursor)));
                        assert forall|q: int| 0 <= q < acc2.len() implies (#[trigger] acc2[q]).0.valid_for(b) && acc2[q].0.end
                            <= limit && acc2[q].0.start == cursor by {
                            if q < acc.len() {
                                assert(acc2[q] == acc[q]);
                            }
                        }
                        lemma_regex_scan_ranges(b, pattern, span, cursor, ends, k + 1, cfg, next, acc2, limit);
                    },
                    Ok(None) => {
                        lemma_regex_scan_ranges(b, pattern, span, cursor, ends, k + 1, cfg, next, acc, limit);
                    },
                    _ => {},
                }
            }
        }
    }
}

/// Copies a capture.
fn clone_capture(c: &LocalCapture) -> (r: LocalCapture)
    ensures
        capture_view(r) == capture_view(*c),
{
    match c {
        LocalCapture::Regex { pattern_span, range, groups } => {
            let mut g: Vec<Option<TextRange>> = Vec::new();
            let mut k: usize = 0;
            while k < groups.len()
                invariant
                    k <= groups@.len(),
                    g@ == groups@.take(k as int),
                decreases groups@.len() - k,
            {
                g.push(groups[k]);
                proof {
                    assert(groups@.take(k + 1) =~= groups@.take(k as int).push(groups@[k as int]));
                }
                k = k + 1;
            }
            proof {
                assert(groups@.take(groups@.len() as int) =~= groups@);
            }
            LocalCapture::Regex { pattern_span: *pattern_span, range: *range, groups: g }
        },
        LocalCapture::TypeExpression { pattern_span, range, alternative_index, resolution_id } => {
            let id = match resolution_id {
                Some(s) => Some(s.clone()),
                None => None,
            };
            LocalCapture::TypeExpression {
                pattern_span: *pattern_span,
                range: *range,
                alternative_index: *alternative_index,
                resolution_id: id,
            }
        },
    }
}

/// Copies a match state.
fn clone_state(s: &EngineState) -> (r: EngineState)
    ensures
        state_view(r) == state_view(*s),
{
    let mut captures: Vec<LocalCapture> = Vec::new();
    let mut k: usize = 0;
    while k < s.captures.len()
        invariant
            k <= s.captures@.len(),
            captures@.len() == k,
            forall|i: int| 0 <= i < k ==> capture_view(#[trigger] captures@[i]) == capture_view(s.captures@[i]),
        decreases s.captures@.len() - k,
    {
        captures.push(clone_capture(&s.captures[k]));
        k = k + 1;
    }
    let mut tags: Vec<LocalTag> = Vec::new();
    let mut j: usize = 0;
    while j < s.tags.len()
        invariant
            j <= s.tags@.len(),
            tags@.len() == j,
            forall|i: int|
                0 <= i < j ==> (#[trigger] tags@[i]).value@ == s.tags@[i].value@ && tags@[i].pattern_span
                    == s.tags@[i].pattern_span && tags@[i].at == s.tags@[i].at && tags@[i].implicit == s.tags@[i].implicit,
        decreases s.tags@.len() - j,
    {
        let t = &s.tags[j];
        tags.push(LocalTag { value: t.value.clone(), pattern_span: t.pattern_span, at: t.at, implicit: t.implicit });
        j = j + 1;
    }
    let mut marks: Vec<LocalMark> = Vec::new();
    let mut m: usize = 0;
    while m < s.marks.len()
        invariant
            m <= s.marks@.len(),
            marks@ == s.marks@.take(m as int),
        decreases s.marks@.len() - m,
    {
        marks.push(s.marks[m]);
        proof {
            assert(s.marks@.take(m + 1) =~= s.marks@.take(m as int).push(s.marks@[m as int]));
        }
        m = m + 1;
    }
    let r = EngineState { cursor: s.cursor, captures, tags, mark: s.mark, marks, pending_tag: s.pending_tag };
    proof {
        assert(s.marks@.take(s.marks@.len() as int) =~= s.marks@);
        assert(state_view(r).captures =~= state_view(*s).captures);
        assert(state_view(r).tags =~= state_view(*s).tags);
    }
    r
}

/// Whether boundary `x` lets the pattern go on with the tail prefix `p`.
fn prefix_allows_at(text: &str, trim: TextRange, x: usize, p: &TailPrefix) -> (r: bool)
    requires
        x <= bytes_of(text).len(),
        boundary(bytes_of(text), x as int),
    ensures
        r == prefix_allows(bytes_of(text), trim, x as int, (p.text@, p.dynamic)),
{
    let chars = crate::expression::chars_of(p.text.as_str());
    if chars.len() == 0 {
        return p.dynamic || x == trim.end;
    }
    let bytes = text.as_bytes();
    if chars[0] == ' ' && x > trim.start && bytes[x - 1] == 0x20 {
        return false;
    }
    match match_literal_at(text, trim, x, p.text.as_str()) {
        Ok(_) => true,
        Err(_) => false,
    }
}

/// Whether boundary `x` lets the pattern go on with one of the tail prefixes.
fn tail_allows_at(text: &str, trim: TextRange, x: usize, tail: &Vec<TailPrefix>) -> (r: bool)
    requires
        x <= bytes_of(text).len(),
        boundary(bytes_of(text), x as int),
    ensures
        r == tail_allows(bytes_of(text), trim, x as int, tail_views(tail@)),
{
    let ghost tv = tail_views(tail@);
    if tail.len() == 0 {
        return true;
    }
    let mut k: usize = 0;
    while k < tail.len()
        invariant
            k <= tail@.len(),
            tv == tail_views(tail@),
            x <= bytes_of(text).len(),
            boundary(bytes_of(text), x as int),
            forall|i: int| 0 <= i < k ==> !#[trigger] prefix_allows(bytes_of(text), trim, x as int, tv[i]),
        decreases tail@.len() - k,
    {
        if prefix_allows_at(text, trim, x, &tail[k]) {
            proof {
                assert(tv[k as int] == (tail@[k as int].text@, tail@[k as int].dynamic));
            }
            return true;
        }
        proof {
            assert(tv[k as int] == (tail@[k as int].text@, tail@[k as int].dynamic));
        }
        k = k + 1;
    }
    false
}

/// The answers the table gives for the typed element at `span` tried at `cursor`.
fn answers(table: &Vec<TypeAnswer>, span: TextRange, cursor: usize) -> (r: Option<&Vec<TypeExpressionResolution>>)
    ensures
        (match r {
            Some(v) => v@.map_values(|x: TypeExpressionResolution| resolution_view(x)),
            None => Seq::empty(),
        }) == answers_from(table_view(table@), span, cursor, 0),
{
    let ghost tv = table_view(table@);
    let mut k: usize = 0;
    while k < table.len()
        invariant
            k <= table@.len(),
            tv == table_view(table@),
            answers_from(tv, span, cursor, k as int) == answers_from(tv, span, cursor, 0),
        decreases table@.len() - k,
    {
        if table[k].pattern_span == span && table[k].cursor == cursor {
            return Some(&table[k].resolutions);
        }
        k = k + 1;
    }
    None
}



/// The positions `v` as integers.
pub open spec fn positions(v: Seq<usize>) -> Seq<int> {
    v.map_values(|e: usize| e as int)
}

/// Whether `e` is one of the positions `v`.
fn has_position(v: &Vec<usize>, e: usize) -> (r: bool)
    ensures
        r == positions(v@).contains(e as int),
{
    let mut k: usize = 0;
    while k < v.len()
        invariant
            k <= v@.len(),
            forall|i: int| 0 <= i < k ==> v@[i] != e,
        decreases v@.len() - k,
    {
        if v[k] == e {
            proof {
                assert(positions(v@)[k as int] == e as int);
            }
            return true;
        }
        k = k + 1;
    }
    proof {
        if positions(v@).contains(e as int) {
            let i = choose|i: int| 0 <= i < positions(v@).len() && positions(v@)[i] == e as int;
            assert(v@[i] == e);
        }
    }
    false
}

/// The ends a typed element may take from `cursor`, as `typed_ends` gives them.
fn typed_end_positions(
    text: &str,
    trim: TextRange,
    x: &PatternTypeExpr,
    cursor: usize,
    tail: &Vec<TailPrefix>,
    Ghost(env): Ghost<EngineEnv>,
) -> (r: Vec<usize>)
    requires
        env.b == bytes_of(text),
        env.trim == trim,
        env_ok(env),
        cursor_ok(env, cursor as int),
    ensures
        positions(r@) == typed_ends(env, *x, cursor as int, tail_views(tail@)),
{
    let ghost tv = tail_views(tail@);
    let steps = skript_boundaries(text, cursor, trim.end);
    let ghost sv = positions(steps@);
    let mut ends: Vec<usize> = Vec::new();
    let mut k: usize = 0;
    proof {
        assert(sv.take(0) =~= Seq::<int>::empty());
        assert(positions(ends@) =~= Seq::<int>::empty());
    }
    while k < steps.len()
        invariant
            k <= steps@.len(),
            sv == positions(steps@),
            sv == skript_steps(env.b, cursor as int, trim.end as int),
            env.b == bytes_of(text),
            env.trim == trim,
            tv == tail_views(tail@),
            positions(ends@) == allowed_ends(env, sv.take(k as int), tv),
        decreases steps@.len() - k,
    {
        let e = steps[k];
        let ghost before = positions(ends@);
        proof {
            assert(sv.take(k + 1).drop_last() =~= sv.take(k as int));
            assert(sv.take(k + 1).last() == e as int);
        }
        if TextRange::new(e, e).is_valid_for(text) {
            if tail_allows_at(text, trim, e, tail) {
                ends.push(e);
                proof {
                    assert(positions(ends@) =~= before + seq![e as int]);
                }
            } else {
                proof {
                    assert(before + Seq::<int>::empty() =~= before);
                }
            }
        } else {
            proof {
                assert(before + Seq::<int>::empty() =~= before);
            }
        }
        k = k + 1;
    }
    proof {
        assert(sv.take(steps@.len() as int) =~= sv);
    }
    let mut all: Vec<usize> = Vec::new();
    if x.nullable && tail_allows_at(text, trim, cursor, tail) {
        all.push(cursor);
    }
    let ghost front = positions(all@);
    all.append(&mut ends);
    proof {
        assert(positions(all@) =~= front + allowed_ends(env, sv, tv));
        if x.nullable && tail_allows(env.b, env.trim, cursor as int, tv) {
            assert(front =~= seq![cursor as int]);
        } else {
            assert(front =~= Seq::<int>::empty());
            assert(front + allowed_ends(env, sv, tv) =~= allowed_ends(env, sv, tv));
        }
    }
    all
}

/// The states a typed element gives from `st`: one for each answer of the
/// table for it, each checked against the ends the pattern allows there.
fn match_typed(
    input: &MatchInput,
    trim: TextRange,
    config: &PatternMatcherConfig,
    table: &Vec<TypeAnswer>,
    x: &PatternTypeExpr,
    span: TextRange,
    st: EngineState,
    tail: &Vec<TailPrefix>,
) -> (r: Result<Vec<EngineState>, PatternMatchError>)
    requires
        env_ok(env_of(*input, trim, *config, table@)),
        cursor_ok(env_of(*input, trim, *config, table@), st.cursor as int),
    ensures
        result_is(
            r,
            typed_states(
                env_of(*input, trim, *config, table@),
                *x,
                span,
                state_view(st),
                typed_ends(env_of(*input, trim, *config, table@), *x, st.cursor as int, tail_views(tail@)),
                answers_from(table_view(table@), span, st.cursor, 0),
                0,
                Seq::empty(),
            ),
        ),
        r matches Ok(v) ==> cursors_ok(env_of(*input, trim, *config, table@), state_views(v@)),
{
    let ghost env = env_of(*input, trim, *config, table@);
    let ghost stv = state_view(st);
    let text = input.text();
    let ends = typed_end_positions(text, trim, x, st.cursor, tail, Ghost(env));
    let ghost ev = positions(ends@);
    let rs = match answers(table, span, st.cursor) {
        Some(v) => v,
        None => {
            let v: Vec<EngineState> = Vec::new();
            proof {
                assert(state_views(v@) =~= Seq::<StateView>::empty());
            }
            return Ok(v);
        },
    };
    let ghost rsv = rs@.map_values(|q: TypeExpressionResolution| resolution_view(q));
    let ghost total = typed_states(env, *x, span, stv, ev, rsv, 0, Seq::empty());
    let mut out: Vec<EngineState> = Vec::new();
    let mut k: usize = 0;
    proof {
        assert(state_views(out@) =~= Seq::<StateView>::empty());
    }
    while k < rs.len()
        invariant
            k <= rs@.len(),
            rsv == rs@.map_values(|q: TypeExpressionResolution| resolution_view(q)),
            ev == positions(ends@),
            env == env_of(*input, trim, *config, table@),
            env_ok(env),
            cursor_ok(env, st.cursor as int),
            stv == state_view(st),
            cursors_ok(env, state_views(out@)),
            typed_states(env, *x, span, stv, ev, rsv, k as int, state_views(out@)) == total,
            total == typed_states(env, *x, span, stv, ev, rsv, 0, Seq::empty()),
            rsv == answers_from(table_view(table@), span, st.cursor, 0),
            ev == typed_ends(env, *x, st.cursor as int, tail_views(tail@)),
            bytes_of(text) == env.b,
        decreases rs@.len() - k,
    {
        let q = &rs[k];
        let range = q.range;
        proof {
            assert(rsv[k as int] == resolution_view(rs@[k as int]));
        }
        let alternative_ok = match q.alternative_index {
            Some(i) => i < x.alternatives.len(),
            None => true,
        };
        if range.start != st.cursor || range.end > trim.end || !range.is_valid_for(text) || !has_position(&ends, range.end)
            || !alternative_ok {
            return Err(PatternMatchError::InvalidTypeResolution { range });
        }
        let mut next = clone_state(&st);
        let id = match &q.resolution_id {
            Some(s) => Some(s.clone()),
            None => None,
        };
        next.cursor = range.end;
        next.captures.push(
            LocalCapture::TypeExpression {
                pattern_span: span,
                range,
                alternative_index: q.alternative_index,
                resolution_id: id,
            },
        );
        next.pending_tag = None;
        let ghost before = state_views(out@);
        out.push(next);
        proof {
            assert(cursor_ok(env, range.end as int));
            assert forall|i: int| 0 <= i < state_views(out@).len() implies cursor_ok(env, #[trigger] state_views(out@)[i].cursor as int) by {
                if i < before.len() {
                    assert(state_views(out@)[i] == before[i]);
                }
            }
            assert(state_view(next).captures =~= stv.captures.push(
                CaptureView::TypeExpression(span, range, q.alternative_index, opt_chars(q.resolution_id)),
            ));
            assert(state_view(next) == typed_state(stv, span, rsv[k as int]));
            assert(state_views(out@) =~= before.push(state_view(next)));
        }
        k = k + 1;
    }
    Ok(out)
}

/// Every way the elements `index..` of a pattern sequence can match from the
/// state `st`, in depth-first order, counting states and backtracks.
pub fn match_sequence(
    input: &MatchInput,
    trim: TextRange,
    config: &PatternMatcherConfig,
    table: &Vec<TypeAnswer>,
    elements: &Vec<SpannedPatternElement>,
    index: usize,
    st: EngineState,
    tail: &Vec<TailPrefix>,
    bud: &mut EngineBudget,
) -> (r: Result<Vec<EngineState>, PatternMatchError>)
    requires
        env_ok(env_of(*input, trim, *config, table@)),
        cursor_ok(env_of(*input, trim, *config, table@), st.cursor as int),
        index <= elements@.len(),
    ensures
        ({
            let (res, after) = seq_run(
                env_of(*input, trim, *config, table@),
                elements@,
                index as int,
                state_view(st),
                tail_views(tail@),
                *old(bud),
            );
            *final(bud) == after && result_is(r, res)
        }),
        r matches Ok(v) ==> cursors_ok(env_of(*input, trim, *config, table@), state_views(v@)),
    decreases elements@, elements@.len() - index, 0int,
{
    let ghost env = env_of(*input, trim, *config, table@);
    let ghost stv = state_view(st);
    let ghost tv = tail_views(tail@);
    bud.states = if bud.states == usize::MAX {
        usize::MAX
    } else {
        bud.states + 1
    };
    if bud.states > config.max_states {
        return Err(PatternMatchError::LimitExceeded { kind: PatternMatchLimit::States, limit: config.max_states });
    }
    if index == elements.len() {
        let mut v: Vec<EngineState> = Vec::new();
        v.push(st);
        proof {
            assert(state_views(v@) =~= seq![stv]);
        }
        return Ok(v);
    }
    let element = &elements[index];
    proof {
        assert(decreases_to!(elements@ => elements@[index as int]));
        assert(decreases_to!(elements@[index as int] => elements@[index as int].value));
    }
    let needs = match &element.value {
        PatternElement::TypeExpr(_) | PatternElement::Group(_) | PatternElement::Optional(_) | PatternElement::Choice(_) => true,
        _ => false,
    };
    let ghost b1 = *bud;
    let first = if needs {
        let rest = vstd::slice::slice_subrange(elements.as_slice(), index + 1, elements.len());
        let inner = sequence_tail_prefixes(rest, tail.as_slice());
        proof {
            assert(rest@ =~= elements@.skip(index + 1));
        }
        match_element(input, trim, config, table, &element.value, element.span, st, &inner, bud)
    } else {
        match_element(input, trim, config, table, &element.value, element.span, st, tail, bud)
    };
    let mut ts = match first {
        Ok(ts) => ts,
        Err(e) => return Err(e),
    };
    let n = ts.len();
    let extra = if n > 0 {
        n - 1
    } else {
        0
    };
    bud.backtracks = if bud.backtracks > usize::MAX - extra {
        usize::MAX
    } else {
        bud.backtracks + extra
    };
    if bud.backtracks > config.max_backtracks {
        return Err(PatternMatchError::LimitExceeded { kind: PatternMatchLimit::Backtracks, limit: config.max_backtracks });
    }
    let ghost tsv = state_views(ts@);
    let ghost total = seq_each(env, elements@, index + 1, tsv, 0, tv, *bud, Seq::empty());
    let next_index = index + 1;
    proof {
        assert(seq_run(env, elements@, index as int, stv, tv, *old(bud)) == total);
    }
    let mut out: Vec<EngineState> = Vec::new();
    let mut k: usize = 0;
    proof {
        assert(state_views(out@) =~= Seq::<StateView>::empty());
        assert(state_views(ts@) =~= tsv.subrange(0, tsv.len() as int));
    }
    while k < n
        invariant
            env == env_of(*input, trim, *config, table@),
            env_ok(env),
            tv == tail_views(tail@),
            index < elements@.len(),
            n == tsv.len(),
            k <= n,
            state_views(ts@) == tsv.subrange(k as int, n as int),
            cursors_ok(env, tsv),
            cursors_ok(env, state_views(out@)),
            seq_each(env, elements@, index + 1, tsv, k as int, tv, *bud, state_views(out@)) == total,
            seq_run(env, elements@, index as int, stv, tv, *old(bud)) == total,
            stv == state_view(st),
            next_index == index + 1,
        decreases n - k,
    {
        let ghost pre = ts@;
        proof {
            assert(state_views(pre).len() == n - k);
        }
        let next = ts.remove(0);
        proof {
            assert(state_views(pre)[0] == tsv[k as int]);
            assert(state_view(next) == tsv[k as int]);
            assert forall|i: int| 0 <= i < n - k - 1 implies #[trigger] state_views(ts@)[i] == tsv[k + 1 + i] by {
                assert(ts@[i] == pre[i + 1]);
                assert(state_views(pre)[i + 1] == tsv.subrange(k as int, n as int)[i + 1]);
            }
            assert(state_views(ts@) =~= tsv.subrange(k + 1, n as int));
            assert(cursor_ok(env, tsv[k as int].cursor as int));
        }
        let ghost before = state_views(out@);
        let ghost bud0 = *bud;
        match match_sequence(input, trim, config, table, elements, next_index, next, tail, bud) {
            Err(e) => {
                proof {
                    let (res, after) = seq_run(env, elements@, index + 1, tsv[k as int], tv, bud0);
                    assert(seq_each(env, elements@, index + 1, tsv, k as int, tv, bud0, before) == (res, after));
                }
                return Err(e);
            },
            Ok(mut m) => {
                let ghost mv = state_views(m@);
                out.append(&mut m);
                proof {
                    assert(state_views(out@) =~= before + mv);
                    assert forall|i: int| 0 <= i < state_views(out@).len() implies cursor_ok(env, #[trigger] state_views(out@)[i].cursor as int) by {
                        if i < before.len() {
                            assert(state_views(out@)[i] == before[i]);
                        } else {
                            assert(state_views(out@)[i] == mv[i - before.len()]);
                        }
                    }
                }
            },
        }
        k = k + 1;
    }
    Ok(out)
}

/// Every way one pattern element can match from the state `st`.
pub fn match_element(
    input: &MatchInput,
    trim: TextRange,
    config: &PatternMatcherConfig,
    table: &Vec<TypeAnswer>,
    element: &PatternElement,
    span: TextRange,
    st: EngineState,
    tail: &Vec<TailPrefix>,
    bud: &mut EngineBudget,
) -> (r: Result<Vec<EngineState>, PatternMatchError>)
    requires
        env_ok(env_of(*input, trim, *config, table@)),
        cursor_ok(env_of(*input, trim, *config, table@), st.cursor as int),
    ensures
        ({
            let (res, after) = elem_run(
                env_of(*input, trim, *config, table@),
                *element,
                span,
                state_view(st),
                tail_views(tail@),
                *old(bud),
            );
            *final(bud) == after && result_is(r, res)
        }),
        r matches Ok(v) ==> cursors_ok(env_of(*input, trim, *config, table@), state_views(v@)),
    decreases *element, 0int, 0int,
{
    let ghost env = env_of(*input, trim, *config, table@);
    let ghost stv = state_view(st);
    let ghost tv = tail_views(tail@);
    let text = input.text();
    match element {
        PatternElement::Literal(l) => {
            let mut st = st;
            match st.pending_tag {
                Some(p) => {
                    let value = crate::raw_tree::trim_str(l.as_str());
                    st.pending_tag = None;
                    proof {
                        if value@.len() > 0 {
                            crate::text::lemma_encode_nonempty(value@);
                        }
                    }
                    if !value.is_empty() {
                        let ghost tags0 = st.tags@;
                        st.tags.push(LocalTag { value: value.to_owned(), pattern_span: p.0, at: TextRange::empty(p.1), implicit: true });
                        proof {
                            assert(st.tags@ == tags0.push(st.tags@.last()));
                        }
                    }
                },
                None => {},
            }
            let ghost s1 = state_view(st);
            proof {
                assert(s1.tags =~= before_literal(stv, l@).tags);
                assert(s1 == before_literal(stv, l@));
            }
            match match_literal_at(text, trim, st.cursor, l.as_str()) {
                Ok(end) => {
                    proof {
                        lemma_literal_end(env, s1.cursor as int, l@);
                    }
                    st.cursor = end;
                    let mut v: Vec<EngineState> = Vec::new();
                    v.push(st);
                    proof {
                        assert(state_views(v@) =~= seq![StateView { cursor: end, ..s1 }]);
                    }
                    Ok(v)
                },
                Err(_) => {
                    let v: Vec<EngineState> = Vec::new();
                    proof {
                        assert(state_views(v@) =~= Seq::<StateView>::empty());
                    }
                    Ok(v)
                },
            }
        },
        PatternElement::Regex(p) => {
            let ts = match match_regex(input, p.as_str(), span, st.cursor, trim.end, config, &mut bud.regex) {
                Ok(ts) => ts,
                Err(e) => {
                    return Err(e);
                },
            };
            let ghost tsv = transition_views(ts@);
            proof {
                crate::matcher::lemma_steps_after(env.b, st.cursor as int, trim.end as int);
                lemma_steps_within(env.b, st.cursor as int, trim.end as int);
                lemma_regex_scan_ranges(
                    env.b,
                    crate::matcher::anchored(p@),
                    span,
                    st.cursor as int,
                    skript_steps(env.b, st.cursor as int, trim.end as int),
                    0,
                    *config,
                    old(bud).regex,
                    Seq::empty(),
                    trim.end as int,
                );
            }
            let mut ts = ts;
            let n = ts.len();
            let mut out: Vec<EngineState> = Vec::new();
            let mut k: usize = 0;
            proof {
                assert(transition_views(ts@) =~= tsv.subrange(0, n as int));
            }
            while k < n
                invariant
                    n == tsv.len(),
                    k <= n,
                    transition_views(ts@) == tsv.subrange(k as int, n as int),
                    forall|q: int| 0 <= q < tsv.len() ==> (#[trigger] tsv[q]).0.valid_for(env.b) && tsv[q].0.end <= trim.end
                        && tsv[q].0.start == st.cursor,
                    state_views(out@) == tsv.take(k as int).map_values(
                        |t: (TextRange, Seq<Option<TextRange>>)| regex_state(stv, span, t),
                    ),
                    stv == state_view(st),
                    env_ok(env),
                    cursor_ok(env, st.cursor as int),
                    env == env_of(*input, trim, *config, table@),
                decreases n - k,
            {
                let ghost pre = ts@;
                proof {
                    assert(transition_views(pre).len() == n - k);
                }
                let t = ts.remove(0);
                proof {
                    assert(transition_views(pre)[0] == tsv[k as int]);
                    assert(transition_view(t) == tsv[k as int]);
                    assert forall|i: int| 0 <= i < n - k - 1 implies #[trigger] transition_views(ts@)[i] == tsv[k + 1 + i] by {
                        assert(ts@[i] == pre[i + 1]);
                        assert(transition_views(pre)[i + 1] == tsv.subrange(k as int, n as int)[i + 1]);
                    }
                    assert(transition_views(ts@) =~= tsv.subrange(k + 1, n as int));
                }
                let mut next = clone_state(&st);
                let ghost caps0 = next.captures@;
                next.cursor = t.range.end;
                next.captures.push(LocalCapture::Regex { pattern_span: span, range: t.range, groups: t.groups });
                next.pending_tag = None;
                let ghost before = state_views(out@);
                out.push(next);
                proof {
                    assert(state_view(next).captures =~= stv.captures.push(CaptureView::Regex(span, tsv[k as int].0, tsv[k as int].1)));
                    assert(state_view(next) == regex_state(stv, span, tsv[k as int]));
                    assert(state_views(out@) =~= before.push(state_view(next)));
                    assert(tsv.take(k + 1) =~= tsv.take(k as int).push(tsv[k as int]));
                    assert(state_views(out@) =~= tsv.take(k + 1).map_values(
                        |t: (TextRange, Seq<Option<TextRange>>)| regex_state(stv, span, t),
                    ));
                }
                k = k + 1;
            }
            proof {
                assert(tsv.take(n as int) =~= tsv);
                assert forall|q: int| 0 <= q < state_views(out@).len() implies cursor_ok(env, #[trigger] state_views(out@)[q].cursor as int) by {
                    assert(state_views(out@)[q] == regex_state(stv, span, tsv[q]));
                }
            }
            Ok(out)
        },
        PatternElement::TypeExpr(x) => match_typed(input, trim, config, table, x, span, st, tail),
        PatternElement::Group(c) => {
            proof {
                assert(decreases_to!(*element => (*element)->Group_0));
                assert(decreases_to!(*c => c@));
            }
            match_sequence(input, trim, config, table, c, 0, st, tail, bud)
        },
        PatternElement::Optional(c) => {
            proof {
                assert(decreases_to!(*element => (*element)->Optional_0));
                assert(decreases_to!(*c => c@));
            }
            let copy = clone_state(&st);
            match match_sequence(input, trim, config, table, c, 0, copy, tail, bud) {
                Err(e) => Err(e),
                Ok(mut m) => {
                    let ghost mv = state_views(m@);
                    let mut s2 = st;
                    s2.pending_tag = None;
                    m.push(s2);
                    proof {
                        assert(state_views(m@) =~= mv.push(StateView { pending_tag: None, ..stv }));
                    }
                    Ok(m)
                },
            }
        },
        PatternElement::Choice(bs) => {
            let nb = bs.len();
            let extra = if nb > 0 {
                nb - 1
            } else {
                0
            };
            bud.backtracks = if bud.backtracks > usize::MAX - extra {
                usize::MAX
            } else {
                bud.backtracks + extra
            };
            if bud.backtracks > config.max_backtracks {
                return Err(PatternMatchError::LimitExceeded { kind: PatternMatchLimit::Backtracks, limit: config.max_backtracks });
            }
            let ghost total = choice_run(env, bs@, 0, stv, tv, *bud, Seq::empty());
            proof {
                assert(elem_run(env, *element, span, stv, tv, *old(bud)) == total);
            }
            let mut out: Vec<EngineState> = Vec::new();
            let mut k: usize = 0;
            proof {
                assert(state_views(out@) =~= Seq::<StateView>::empty());
            }
            while k < nb
                invariant
                    *element == PatternElement::Choice(*bs),
                    nb == bs@.len(),
                    k <= nb,
                    env == env_of(*input, trim, *config, table@),
                    env_ok(env),
                    cursor_ok(env, st.cursor as int),
                    stv == state_view(st),
                    tv == tail_views(tail@),
                    cursors_ok(env, state_views(out@)),
                    choice_run(env, bs@, k as int, stv, tv, *bud, state_views(out@)) == total,
                    elem_run(env, *element, span, stv, tv, *old(bud)) == total,
                decreases nb - k,
            {
                proof {
                    assert(decreases_to!(*element => (*element)->Choice_0));
                    assert(decreases_to!(*bs => bs@));
                    assert(decreases_to!(bs@ => bs@[k as int]));
                    assert(decreases_to!(bs@[k as int] => bs@[k as int]@));
                }
                let copy = clone_state(&st);
                let ghost before = state_views(out@);
                match match_sequence(input, trim, config, table, &bs[k], 0, copy, tail, bud) {
                    Err(e) => {
                        return Err(e);
                    },
                    Ok(mut m) => {
                        let ghost mv = state_views(m@);
                        out.append(&mut m);
                        proof {
                            assert(state_views(out@) =~= before + mv);
                        }
                    },
                }
                k = k + 1;
            }
            Ok(out)
        },
        PatternElement::ParseTag(t) => {
            let mut st = st;
            if t.as_str().is_empty() {
                st.pending_tag = Some((span, st.cursor));
            } else {
                let ghost tags0 = st.tags@;
                st.tags.push(LocalTag { value: t.clone(), pattern_span: span, at: TextRange::empty(st.cursor), implicit: false });
                st.pending_tag = None;
                proof {
                    assert(state_view(st).tags =~= tags0.map_values(
                        |x: LocalTag| (encode_utf8(x.value@), x.pattern_span, x.at, x.implicit),
                    ).push((encode_utf8(t@), span, TextRange { start: stv.cursor, end: stv.cursor }, false)));
                }
            }
            let mut v: Vec<EngineState> = Vec::new();
            let ghost s1 = state_view(st);
            v.push(st);
            proof {
                assert(state_views(v@) =~= seq![s1]);
            }
            Ok(v)
        },
        PatternElement::ParseMark(m) => {
            let mut st = st;
            let mark = st.mark ^ *m;
            st.mark = mark;
            st.marks.push(LocalMark { value: *m, pattern_span: span, at: TextRange::empty(st.cursor), accumulated: mark });
            st.pending_tag = None;
            let mut v: Vec<EngineState> = Vec::new();
            let ghost s1 = state_view(st);
            v.push(st);
            proof {
                assert(state_views(v@) =~= seq![s1]);
            }
            Ok(v)
        },
        PatternElement::Empty => {
            let mut st = st;
            st.pending_tag = None;
            let mut v: Vec<EngineState> = Vec::new();
            let ghost s1 = state_view(st);
            v.push(st);
            proof {
                assert(state_views(v@) =~= seq![s1]);
            }
            Ok(v)
        },
    }
}

} // verus!
