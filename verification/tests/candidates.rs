use skript_parser::candidates::{
    match_pattern_candidates, match_pattern_candidates_in_environment, CandidateMatches, MatchPattern,
    PatternCandidate,
};
use skript_parser::match_engine::{LocalCapture, TypeAnswer};
use skript_parser::pattern_match::{
    MatchInput, MatchSyntaxKind, PatternMatchError, PatternMatchLimit, PatternMatcherConfig,
    TypeExpressionResolution,
};
use skript_parser::pattern_syntax::{PatternElement, PatternTypeExpr, SpannedPatternElement};
use skript_parser::source_map::MappedSource;
use skript_parser::text::TextRange;

fn element(value: PatternElement, start: usize, end: usize) -> SpannedPatternElement {
    SpannedPatternElement { value, span: TextRange::new(start, end) }
}

fn literal(text: &str, start: usize) -> SpannedPatternElement {
    element(PatternElement::Literal(text.to_owned()), start, start + text.len())
}

fn candidate(id: &str, priority: i32, order: usize, elements: Vec<SpannedPatternElement>) -> PatternCandidate {
    PatternCandidate {
        kind: MatchSyntaxKind::Effect,
        definition_id: format!("effect:{id}"),
        registration_id: format!("effect:{id}#0"),
        priority,
        registration_order: order,
        resolved_order: None,
        patterns: vec![MatchPattern { pattern_index: 0, source: id.to_owned(), elements }],
    }
}

fn run(source: &MappedSource, candidates: &Vec<PatternCandidate>, table: &Vec<TypeAnswer>) -> Result<CandidateMatches, PatternMatchError> {
    let input = MatchInput::from_source(source, TextRange::new(0, source.virtual_source().len())).unwrap();
    match_pattern_candidates(&input, candidates, table, &PatternMatcherConfig::default())
}

#[test]
fn regex_capture_keeps_multibyte_text() {
    let source = MappedSource::identity("announce 日本語");
    let pattern = vec![
        literal("announce ", 0),
        element(PatternElement::Regex("(.+)".to_owned()), 9, 15),
    ];
    let candidates = vec![candidate("announce", 0, 0, pattern)];
    let matches = run(&source, &candidates, &Vec::new()).unwrap();
    let selected = matches.selected.expect("the effect matches");
    assert_eq!(selected.registration_id, "effect:announce#0");
    assert_eq!(selected.span, TextRange::new(0, 18));
    assert_eq!(selected.matched.cursor, 18);
    let LocalCapture::Regex { range, groups, pattern_span } = &selected.matched.captures[0] else {
        panic!("regex capture expected");
    };
    assert_eq!(*pattern_span, TextRange::new(9, 15));
    assert_eq!(range.slice(source.virtual_source()), Some("日本語"));
    assert_eq!(groups[0], Some(TextRange::new(9, 18)));
    assert!(matches.alternatives.is_empty());
}

#[test]
fn regex_that_does_not_fit_gives_no_match() {
    let source = MappedSource::identity("count abc");
    let pattern = vec![literal("count ", 0), element(PatternElement::Regex("[0-9]+".to_owned()), 6, 14)];
    let candidates = vec![candidate("count", 0, 0, pattern)];
    let matches = run(&source, &candidates, &Vec::new()).unwrap();
    assert!(matches.selected.is_none());
}

#[test]
fn invalid_regex_is_reported_with_its_pattern_span() {
    let source = MappedSource::identity("x");
    let pattern = vec![element(PatternElement::Regex("(".to_owned()), 2, 5)];
    let candidates = vec![candidate("broken", 0, 0, pattern)];
    match run(&source, &candidates, &Vec::new()) {
        Err(PatternMatchError::InvalidRegex { pattern_span, message }) => {
            assert_eq!(pattern_span, TextRange::new(2, 5));
            assert!(!message.is_empty());
        },
        other => panic!("unexpected result {other:?}"),
    }
}

#[test]
fn candidates_run_by_priority_then_declaration() {
    let source = MappedSource::identity("  hello  ");
    let candidates = vec![
        candidate("late", 5, 0, vec![literal("hello", 0)]),
        candidate("early", 1, 1, vec![literal("hello", 0)]),
        candidate("other", 0, 2, vec![literal("goodbye", 0)]),
    ];
    let matches = run(&source, &candidates, &Vec::new()).unwrap();
    let selected = matches.selected.unwrap();
    assert_eq!(selected.definition_id, "effect:early");
    assert_eq!(selected.span, TextRange::new(2, 7));
    assert!(selected.literal_anchor);
    assert_eq!(matches.alternatives.len(), 1);
    assert_eq!(matches.alternatives[0].definition_id, "effect:late");
}

#[test]
fn resolved_order_runs_before_unresolved_candidates() {
    let source = MappedSource::identity("hello");
    let mut resolved = candidate("resolved", 9, 9, vec![literal("hello", 0)]);
    resolved.resolved_order = Some(3);
    let candidates = vec![candidate("plain", 0, 0, vec![literal("hello", 0)]), resolved];
    let matches = run(&source, &candidates, &Vec::new()).unwrap();
    assert_eq!(matches.selected.unwrap().definition_id, "effect:resolved");
    assert_eq!(matches.alternatives[0].definition_id, "effect:plain");
}

#[test]
fn typed_answers_from_the_table_are_captured() {
    let source = MappedSource::identity("x y now");
    let typed = PatternTypeExpr { alternatives: vec!["object".to_owned()], nullable: false };
    let pattern = vec![element(PatternElement::TypeExpr(typed), 0, 8), literal(" now", 8)];
    let candidates = vec![candidate("typed", 0, 0, pattern)];
    let table = vec![TypeAnswer {
        pattern_span: TextRange::new(0, 8),
        cursor: 0,
        resolutions: vec![TypeExpressionResolution {
            range: TextRange::new(0, 3),
            alternative_index: Some(0),
            resolution_id: Some("objects".to_owned()),
        }],
    }];
    let matches = run(&source, &candidates, &table).unwrap();
    let selected = matches.selected.unwrap();
    assert!(!selected.literal_anchor);
    match &selected.matched.captures[0] {
        LocalCapture::TypeExpression { range, alternative_index, resolution_id, .. } => {
            assert_eq!(*range, TextRange::new(0, 3));
            assert_eq!(*alternative_index, Some(0));
            assert_eq!(resolution_id.as_deref(), Some("objects"));
        },
        other => panic!("typed capture expected, got {other:?}"),
    }
}

#[test]
fn typed_answer_outside_the_allowed_ends_is_rejected() {
    let source = MappedSource::identity("x y now");
    let typed = PatternTypeExpr { alternatives: vec!["object".to_owned()], nullable: false };
    let pattern = vec![element(PatternElement::TypeExpr(typed), 0, 8), literal(" now", 8)];
    let candidates = vec![candidate("typed", 0, 0, pattern)];
    let table = vec![TypeAnswer {
        pattern_span: TextRange::new(0, 8),
        cursor: 0,
        resolutions: vec![TypeExpressionResolution {
            range: TextRange::new(0, 2),
            alternative_index: None,
            resolution_id: None,
        }],
    }];
    assert_eq!(
        run(&source, &candidates, &table).unwrap_err(),
        PatternMatchError::InvalidTypeResolution { range: TextRange::new(0, 2) }
    );
}

#[test]
fn typed_element_without_answers_does_not_match() {
    let source = MappedSource::identity("x y now");
    let typed = PatternTypeExpr { alternatives: vec!["object".to_owned()], nullable: false };
    let pattern = vec![element(PatternElement::TypeExpr(typed), 0, 8), literal(" now", 8)];
    let candidates = vec![candidate("typed", 0, 0, pattern)];
    let matches = run(&source, &candidates, &Vec::new()).unwrap();
    assert!(matches.selected.is_none());
}

#[test]
fn state_budget_is_enforced() {
    let source = MappedSource::identity("a b");
    let candidates = vec![candidate("ab", 0, 0, vec![literal("a", 0), literal(" b", 1)])];
    let input = MatchInput::from_source(&source, TextRange::new(0, 3)).unwrap();
    let config = PatternMatcherConfig { max_states: 1, ..PatternMatcherConfig::default() };
    assert_eq!(
        match_pattern_candidates_in_environment(&input, &candidates, &Vec::new(), &config).unwrap_err(),
        PatternMatchError::LimitExceeded { kind: PatternMatchLimit::States, limit: 1 }
    );
}

#[test]
fn zero_limits_are_rejected_before_matching() {
    let source = MappedSource::identity("hello");
    let candidates = vec![candidate("hello", 0, 0, vec![literal("hello", 0)])];
    let input = MatchInput::from_source(&source, TextRange::new(0, 5)).unwrap();
    let config = PatternMatcherConfig { max_backtracks: 0, ..PatternMatcherConfig::default() };
    assert_eq!(
        match_pattern_candidates(&input, &candidates, &Vec::new(), &config).unwrap_err(),
        PatternMatchError::InvalidConfiguration
    );
}

#[test]
fn tags_and_marks_are_recorded() {
    let source = MappedSource::identity("go");
    let pattern = vec![
        element(PatternElement::ParseMark(3), 0, 2),
        element(PatternElement::ParseTag(String::new()), 2, 3),
        literal("go", 3),
    ];
    let candidates = vec![candidate("go", 0, 0, pattern)];
    let matches = run(&source, &candidates, &Vec::new()).unwrap();
    let state = matches.selected.unwrap().matched;
    assert_eq!(state.mark, 3);
    assert_eq!(state.marks.len(), 1);
    assert_eq!(state.tags.len(), 1);
    assert_eq!(state.tags[0].value, "go");
    assert!(state.tags[0].implicit);
}

#[test]
fn ties_fall_back_to_registration_then_declaration_order() {
    let source = MappedSource::identity("hello");
    let candidates = vec![
        candidate("second", 0, 2, vec![literal("hello", 0)]),
        candidate("first", 0, 1, vec![literal("hello", 0)]),
        candidate("third", 0, 2, vec![literal("hello", 0)]),
    ];
    let matches = run(&source, &candidates, &Vec::new()).unwrap();
    assert_eq!(matches.selected.unwrap().definition_id, "effect:first");
    let rest: Vec<&str> = matches.alternatives.iter().map(|m| m.definition_id.as_str()).collect();
    assert_eq!(rest, vec!["effect:second", "effect:third"]);
}

#[test]
fn backtrack_budget_is_enforced() {
    let source = MappedSource::identity("b");
    let pattern = vec![element(
        PatternElement::Choice(vec![vec![literal("a", 1)], vec![literal("b", 3)], vec![literal("c", 5)]]),
        0,
        7,
    )];
    let candidates = vec![candidate("choice", 0, 0, pattern)];
    let input = MatchInput::from_source(&source, TextRange::new(0, 1)).unwrap();
    let config = PatternMatcherConfig { max_backtracks: 1, ..PatternMatcherConfig::default() };
    assert_eq!(
        match_pattern_candidates_in_environment(&input, &candidates, &Vec::new(), &config).unwrap_err(),
        PatternMatchError::LimitExceeded { kind: PatternMatchLimit::Backtracks, limit: 1 }
    );
    let roomy = PatternMatcherConfig { max_backtracks: 2, ..PatternMatcherConfig::default() };
    let matches = match_pattern_candidates_in_environment(&input, &candidates, &Vec::new(), &roomy).unwrap();
    assert!(matches.selected.is_some());
}
