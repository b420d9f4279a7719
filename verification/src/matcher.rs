//! Running the regular expressions of registration patterns: each `<...>`
//! element is tried, anchored at both ends, on every Skript boundary of the
//! remaining input, within the matcher's regex budgets.
use crate::pattern_match::{
    skript_boundaries, skript_steps, MatchInput, PatternMatchError, PatternMatchLimit,
    PatternMatcherConfig,
};
use crate::text::{bytes_of, str_slice, TextRange};
use vstd::prelude::*;
use vstd::utf8::*;
use vstd::string::{StringExecFns, StringSliceAdditionalSpecFns};

verus! {

/// Why a regular expression could not be run.
#[derive(Debug)]
pub enum RegexFailure {
    /// The pattern does not compile, or running it failed; the engine's message.
    Invalid { message: String },
    /// Running it took more backtracking steps than allowed.
    BacktrackLimitExceeded,
}

/// The mathematical value of a [`RegexFailure`].
pub enum RegexFailureView {
    Invalid(Seq<char>),
    BacktrackLimitExceeded,
}

/// The view of a regex failure.
pub open spec fn failure_view(f: RegexFailure) -> RegexFailureView {
    match f {
        RegexFailure::Invalid { message } => RegexFailureView::Invalid(message@),
        RegexFailure::BacktrackLimitExceeded => RegexFailureView::BacktrackLimitExceeded,
    }
}

/// What fancy-regex reports when it compiles `pattern` under a backtracking
/// limit: the text of the compile error, or nothing when it compiles.
pub uninterp spec fn regex_compile_error(pattern: Seq<char>, backtrack_limit: usize) -> Option<Seq<char>>;

/// What fancy-regex's `captures` gives for the compiled `pattern` on the
/// subject bytes: no match, the byte spans of every group (group 0 first, an
/// unmatched group as `None`), or a failure.
pub uninterp spec fn regex_captures(pattern: Seq<char>, backtrack_limit: usize, subject: Seq<u8>) -> Result<
    Option<Seq<Option<(usize, usize)>>>,
    RegexFailureView,
>;

/// The view of an optional text.
pub open spec fn opt_text(t: Option<String>) -> Option<Seq<char>> {
    match t {
        Some(s) => Some(s@),
        None => None,
    }
}

/// The view of a captures result.
pub open spec fn captures_view(r: Result<Option<Vec<Option<(usize, usize)>>>, RegexFailure>) -> Result<
    Option<Seq<Option<(usize, usize)>>>,
    RegexFailureView,
> {
    match r {
        Ok(Some(g)) => Ok(Some(g@)),
        Ok(None) => Ok(None),
        Err(f) => Err(failure_view(f)),
    }
}

/// Compiles `pattern` with fancy-regex's `RegexBuilder` and its backtracking
/// limit. Claims only that the result is the text of the compile error, or
/// nothing, as named by `regex_compile_error`.
#[verifier::external_body]
fn regex_compile_message(pattern: &str, backtrack_limit: usize) -> (r: Option<String>)
    ensures
        opt_text(r) == regex_compile_error(pattern@, backtrack_limit),
{
    let mut builder = fancy_regex::RegexBuilder::new(pattern);
    builder.backtrack_limit(backtrack_limit);
    match builder.build() {
        Ok(_) => None,
        Err(error) => Some(error.to_string()),
    }
}

/// Compiles `pattern` as [`regex_compile_message`] does and runs fancy-regex's
/// `Regex::captures` on `subject`. Claims that the result is the one
/// `regex_captures` names, with the backtracking limit told apart from other
/// errors, and that every group span lies within the subject, as fancy-regex's
/// byte offsets into the searched text do.
#[verifier::external_body]
fn anchored_captures(pattern: &str, backtrack_limit: usize, subject: &str) -> (r: Result<
    Option<Vec<Option<(usize, usize)>>>,
    RegexFailure,
>)
    ensures
        captures_view(r) == regex_captures(pattern@, backtrack_limit, bytes_of(subject)),
        r matches Ok(Some(g)) ==> forall|k: int|
            0 <= k < g@.len() ==> (#[trigger] g@[k] matches Some(s) ==> s.0 <= s.1 <= bytes_of(subject).len()),
{
    let mut builder = fancy_regex::RegexBuilder::new(pattern);
    builder.backtrack_limit(backtrack_limit);
    let regex = match builder.build() {
        Ok(regex) => regex,
        Err(error) => return Err(RegexFailure::Invalid { message: error.to_string() }),
    };
    match regex.captures(subject) {
        Ok(Some(c)) => Ok(Some(c.iter().map(|g| g.map(|m| (m.start(), m.end()))).collect())),
        Ok(None) => Ok(None),
        Err(fancy_regex::Error::RuntimeError(fancy_regex::RuntimeError::BacktrackLimitExceeded)) => Err(
            RegexFailure::BacktrackLimitExceeded,
        ),
        Err(error) => Err(RegexFailure::Invalid { message: error.to_string() }),
    }
}

/// A pattern anchored at the start and the end of the subject.
pub open spec fn anchored(pattern: Seq<char>) -> Seq<char> {
    seq!['\\', 'A', '(', '?', ':'] + pattern + seq![')', '\\', 'z']
}

/// Anchors `pattern` at the start and the end of the subject.
pub fn anchored_pattern(pattern: &str) -> (r: String)
    ensures
        r@ == anchored(pattern@),
{
    let mut r = "\\A(?:".to_owned();
    r.append(pattern);
    r.append(")\\z");
    proof {
        reveal_strlit("\\A(?:");
        reveal_strlit(")\\z");
        assert(r@ =~= anchored(pattern@));
    }
    r
}

/// Regex work done so far in one matcher run.
#[derive(Debug, Clone, Copy, PartialEq, Eq, Structural)]
pub struct RegexBudget {
    pub executions: usize,
    pub evaluated_bytes: usize,
}

/// One way a regex element can match: the input range it covers and the
/// ranges of its groups after group 0.
#[derive(Debug)]
pub struct RegexTransition {
    pub range: TextRange,
    pub groups: Vec<Option<TextRange>>,
}

/// The view of a transition.
pub open spec fn transition_view(t: RegexTransition) -> (TextRange, Seq<Option<TextRange>>) {
    (t.range, t.groups@)
}

/// The views of transitions.
pub open spec fn transition_views(s: Seq<RegexTransition>) -> Seq<(TextRange, Seq<Option<TextRange>>)> {
    s.map_values(|t: RegexTransition| transition_view(t))
}

/// An error of the matcher, as a mathematical value: an exceeded budget, a
/// regex that cannot run, or a type resolution outside the allowed ends.
pub enum MatchErrorView {
    Limit { kind: PatternMatchLimit, limit: usize },
    Invalid { pattern_span: TextRange, message: Seq<char> },
    TypeResolution { range: TextRange },
}

/// The matcher error `e` is the one `v` describes.
pub open spec fn error_is(e: PatternMatchError, v: MatchErrorView) -> bool {
    match v {
        MatchErrorView::Limit { kind, limit } => e == PatternMatchError::LimitExceeded { kind, limit },
        MatchErrorView::Invalid { pattern_span, message } => e matches PatternMatchError::InvalidRegex {
            pattern_span: s,
            message: m,
        } && s == pattern_span && m@ == message,
        MatchErrorView::TypeResolution { range } => e == PatternMatchError::InvalidTypeResolution { range },
    }
}

/// `a + b`, or the largest `usize` when that overflows.
pub open spec fn sat_add(a: usize, b: int) -> usize {
    if a + b > usize::MAX {
        usize::MAX
    } else {
        (a + b) as usize
    }
}

/// A group span moved from the subject to the input at `cursor`.
pub open spec fn shift_group(g: Option<(usize, usize)>, cursor: int) -> Option<TextRange> {
    match g {
        Some(s) => Some(TextRange { start: (cursor + s.0) as usize, end: (cursor + s.1) as usize }),
        None => None,
    }
}

/// The groups after group 0, moved to the input at `cursor`.
pub open spec fn shifted_groups(gs: Seq<Option<(usize, usize)>>, cursor: int) -> Seq<Option<TextRange>> {
    if gs.len() == 0 {
        Seq::empty()
    } else {
        Seq::new((gs.len() - 1) as nat, |i: int| shift_group(gs[i + 1], cursor))
    }
}

/// The outcome of trying the anchored pattern on the subjects that end at
/// `ends[k..]`: each try counts one execution and the subject's bytes, and
/// stops with an error once a budget is passed or the engine fails; a subject
/// that does not end on a character boundary is skipped.
pub open spec fn regex_scan(
    b: Seq<u8>,
    pattern: Seq<char>,
    pattern_span: TextRange,
    cursor: int,
    ends: Seq<int>,
    k: int,
    cfg: PatternMatcherConfig,
    budget: RegexBudget,
    acc: Seq<(TextRange, Seq<Option<TextRange>>)>,
) -> (Result<Seq<(TextRange, Seq<Option<TextRange>>)>, MatchErrorView>, RegexBudget)
    decreases ends.len() - k,
{
    if k < 0 || k >= ends.len() {
        (Ok(acc), budget)
    } else {
        let e = ends[k];
        let executions = sat_add(budget.executions, 1);
        let evaluated = sat_add(budget.evaluated_bytes, e - cursor);
        if executions > cfg.max_regex_executions {
            (
                Err(MatchErrorView::Limit { kind: PatternMatchLimit::RegexExecutions, limit: cfg.max_regex_executions }),
                RegexBudget { executions, evaluated_bytes: budget.evaluated_bytes },
            )
        } else if evaluated > cfg.max_regex_evaluated_bytes {
            (
                Err(
                    MatchErrorView::Limit {
                        kind: PatternMatchLimit::RegexEvaluatedBytes,
                        limit: cfg.max_regex_evaluated_bytes,
                    },
                ),
                RegexBudget { executions, evaluated_bytes: evaluated },
            )
        } else {
            let next = RegexBudget { executions, evaluated_bytes: evaluated };
            let range = TextRange { start: cursor as usize, end: e as usize };
            if !range.valid_for(b) {
                regex_scan(b, pattern, pattern_span, cursor, ends, k + 1, cfg, next, acc)
            } else {
                match regex_captures(pattern, cfg.max_regex_backtracks, b.subrange(cursor, e)) {
                    Ok(Some(gs)) => regex_scan(
                        b,
                        pattern,
                        pattern_span,
                        cursor,
                        ends,
                        k + 1,
                        cfg,
                        next,
                        acc.push((range, shifted_groups(gs, cursor))),
                    ),
                    Ok(None) => regex_scan(b, pattern, pattern_span, cursor, ends, k + 1, cfg, next, acc),
                    Err(RegexFailureView::BacktrackLimitExceeded) => (
                        Err(
                            MatchErrorView::Limit {
                                kind: PatternMatchLimit::RegexBacktracks,
                                limit: cfg.max_regex_backtracks,
                            },
                        ),
                        next,
                    ),
                    Err(RegexFailureView::Invalid(message)) => (
                        Err(MatchErrorView::Invalid { pattern_span, message }),
                        next,
                    ),
                }
            }
        }
    }
}

/// How the regex element `pattern` can match the input bytes `b` from
/// `cursor`, with `end` the end of the trimmed input: a pattern that does not
/// compile is an error before any try; otherwise the anchored pattern is tried
/// on every Skript boundary after `cursor` up to `end`, in order.
pub open spec fn regex_transitions(
    b: Seq<u8>,
    pattern: Seq<char>,
    pattern_span: TextRange,
    cursor: int,
    end: int,
    cfg: PatternMatcherConfig,
    budget: RegexBudget,
) -> (Result<Seq<(TextRange, Seq<Option<TextRange>>)>, MatchErrorView>, RegexBudget) {
    match regex_compile_error(anchored(pattern), cfg.max_regex_backtracks) {
        Some(message) => (Err(MatchErrorView::Invalid { pattern_span, message }), budget),
        None => regex_scan(
            b,
            anchored(pattern),
            pattern_span,
            cursor,
            skript_steps(b, cursor, end),
            0,
            cfg,
            budget,
            Seq::empty(),
        ),
    }
}

/// Every Skript boundary after `cursor` lies after it.
pub proof fn lemma_steps_after(b: Seq<u8>, cursor: int, end: int)
    ensures
        forall|k: int| 0 <= k < skript_steps(b, cursor, end).len() ==> cursor < #[trigger] skript_steps(b, cursor, end)[k],
    decreases end - cursor,
{
    if cursor < end {
        if let Some(next) = crate::pattern_match::skript_step(b, cursor, end) {
            if cursor < next <= end {
                lemma_steps_after(b, next, end);
                let s = skript_steps(b, cursor, end);
                let rest = skript_steps(b, next, end);
                assert forall|k: int| 0 <= k < s.len() implies cursor < #[trigger] s[k] by {
                    if k > 0 {
                        assert(s[k] == rest[k - 1]);
                    }
                }
            }
        }
    }
}

/// Tries the regex element `pattern` from `cursor` on every Skript boundary up
/// to `end`, counting the work against the budgets of `config`.
pub fn match_regex(
    input: &MatchInput,
    pattern: &str,
    pattern_span: TextRange,
    cursor: usize,
    end: usize,
    config: &PatternMatcherConfig,
    budget: &mut RegexBudget,
) -> (r: Result<Vec<RegexTransition>, PatternMatchError>)
    ensures
        ({
            let (res, after) = regex_transitions(
                encode_utf8(input.local_text()),
                pattern@,
                pattern_span,
                cursor as int,
                end as int,
                *config,
                *old(budget),
            );
            &&& *final(budget) == after
            &&& match r {
                Ok(ts) => res == Ok::<Seq<(TextRange, Seq<Option<TextRange>>)>, MatchErrorView>(transition_views(ts@)),
                Err(e) => res matches Err(v) && error_is(e, v),
            }
        }),
{
    let ghost b = encode_utf8(input.local_text());
    let ghost budget0 = *budget;
    let anchored_source = anchored_pattern(pattern);
    match regex_compile_message(anchored_source.as_str(), config.max_regex_backtracks) {
        Some(message) => {
            return Err(PatternMatchError::InvalidRegex { pattern_span, message });
        },
        None => {},
    }
    let text = input.text();
    let ends = skript_boundaries(text, cursor, end);
    let ghost steps = skript_steps(b, cursor as int, end as int);
    let ghost total = regex_scan(b, anchored(pattern@), pattern_span, cursor as int, steps, 0, *config, budget0, Seq::empty());
    proof {
        lemma_steps_after(b, cursor as int, end as int);
        assert(ends@.len() == steps.len());
    }
    let mut out: Vec<RegexTransition> = Vec::new();
    proof {
        assert(transition_views(out@) =~= Seq::<(TextRange, Seq<Option<TextRange>>)>::empty());
    }
    let mut k: usize = 0;
    while k < ends.len()
        invariant
            b == encode_utf8(input.local_text()),
            budget0 == *old(budget),
            regex_compile_error(anchored(pattern@), config.max_regex_backtracks) is None,
            steps == skript_steps(b, cursor as int, end as int),
            b == encode_utf8(text@),
            b == bytes_of(text),
            anchored_source@ == anchored(pattern@),
            ends@.map_values(|v: usize| v as int) == steps,
            forall|q: int| 0 <= q < steps.len() ==> cursor < #[trigger] steps[q],
            k <= ends@.len(),
            total == regex_scan(b, anchored(pattern@), pattern_span, cursor as int, steps, 0, *config, budget0, Seq::empty()),
            regex_scan(b, anchored(pattern@), pattern_span, cursor as int, steps, k as int, *config, *budget, transition_views(out@))
                == total,
        decreases ends@.len() - k,
    {
        let e = ends[k];
        proof {
            assert(steps[k as int] == e as int);
        }
        let executions = if budget.executions == usize::MAX {
            usize::MAX
        } else {
            budget.executions + 1
        };
        if executions > config.max_regex_executions {
            budget.executions = executions;
            return Err(
                PatternMatchError::LimitExceeded {
                    kind: PatternMatchLimit::RegexExecutions,
                    limit: config.max_regex_executions,
                },
            );
        }
        let width = e - cursor;
        let evaluated = if budget.evaluated_bytes > usize::MAX - width {
            usize::MAX
        } else {
            budget.evaluated_bytes + width
        };
        budget.executions = executions;
        budget.evaluated_bytes = evaluated;
        if evaluated > config.max_regex_evaluated_bytes {
            return Err(
                PatternMatchError::LimitExceeded {
                    kind: PatternMatchLimit::RegexEvaluatedBytes,
                    limit: config.max_regex_evaluated_bytes,
                },
            );
        }
        let range = TextRange::new(cursor, e);
        if range.is_valid_for(text) {
            let subject = str_slice(text, cursor, e);
            match anchored_captures(anchored_source.as_str(), config.max_regex_backtracks, subject) {
                Ok(Some(gs)) => {
                    let mut groups: Vec<Option<TextRange>> = Vec::new();
                    let mut j: usize = 1;
                    while j < gs.len()
                        invariant
                            1 <= j <= gs@.len() || (j == 1 && gs@.len() == 0),
                            groups@.len() == j - 1,
                            forall|i: int| 0 <= i < groups@.len() ==> #[trigger] groups@[i] == shift_group(gs@[i + 1], cursor as int),
                            forall|q: int|
                                0 <= q < gs@.len() ==> (#[trigger] gs@[q] matches Some(s) ==> s.0 <= s.1 <= bytes_of(subject).len()),
                            bytes_of(subject).len() == e - cursor,
                            cursor < e,
                        decreases gs@.len() - j,
                    {
                        let g = match gs[j] {
                            Some((s, t)) => Some(TextRange::new(cursor + s, cursor + t)),
                            None => None,
                        };
                        groups.push(g);
                        j = j + 1;
                    }
                    proof {
                        assert(groups@ =~= shifted_groups(gs@, cursor as int));
                    }
                    let ghost before = transition_views(out@);
                    out.push(RegexTransition { range, groups });
                    proof {
                        assert(transition_views(out@) =~= before.push((range, shifted_groups(gs@, cursor as int))));
                    }
                },
                Ok(None) => {},
                Err(RegexFailure::BacktrackLimitExceeded) => {
                    return Err(
                        PatternMatchError::LimitExceeded {
                            kind: PatternMatchLimit::RegexBacktracks,
                            limit: config.max_regex_backtracks,
                        },
                    );
                },
                Err(RegexFailure::Invalid { message }) => {
                    return Err(PatternMatchError::InvalidRegex { pattern_span, message });
                },
            }
        }
        k = k + 1;
    }
    proof {
        assert(regex_scan(b, anchored(pattern@), pattern_span, cursor as int, steps, k as int, *config, *budget, transition_views(out@))
            == (Ok::<Seq<(TextRange, Seq<Option<TextRange>>)>, MatchErrorView>(transition_views(out@)), *budget));
    }
    Ok(out)
}

} // verus!
