use skript_parser::failure::{
    choose_failure_trace, compare_failure_trace_rank, FailureFrame, FailureFrameRole,
    FailureTrace, RankedFailures, SemanticDiagnostic, SemanticDiagnosticSeverity,
};
use skript_parser::pattern_match::{MatchSpan, MatchSyntaxKind, PatternFailure, PatternFailureReason};
use skript_parser::source_map::MappedSource;
use skript_parser::text::TextRange;
use std::cmp::Ordering;

fn trace(source: &MappedSource, root_range: TextRange, parent_ranges: &[TextRange]) -> FailureTrace {
    let span = MatchSpan {
        local_range: root_range,
        mapped: source.map_range(root_range).expect("range must map"),
    };
    parent_ranges.iter().copied().fold(
        FailureTrace::leaf(PatternFailure {
            span,
            reasons: vec![PatternFailureReason::Expression],
        }),
        |trace, input_range| {
            trace.with_parent(FailureFrame {
                kind: MatchSyntaxKind::Expression,
                definition_id: "definition".to_owned(),
                registration_id: "registration".to_owned(),
                pattern_index: 0,
                pattern: "%objects% if <.+>[,] (otherwise|else) %objects%".to_owned(),
                element_path: Vec::new(),
                pattern_span: None,
                input_span: MatchSpan {
                    local_range: input_range,
                    mapped: source.map_range(input_range).expect("range must map"),
                },
                role: FailureFrameRole::TypeExpressionCapture,
            })
        },
    )
}

#[test]
fn deeper_semantic_provenance_beats_a_later_shallow_failure() {
    let source = MappedSource::identity("send 1 if a < 5 else 2");
    let deeper = trace(
        &source,
        TextRange::new(10, 11),
        &[TextRange::new(7, 22), TextRange::new(0, 22)],
    );
    let later = trace(&source, TextRange::empty(22), &[]);

    assert_eq!(
        choose_failure_trace(Some(later), Some(deeper.clone())),
        Some(deeper)
    );
}

#[test]
fn later_root_range_wins_at_equal_specificity() {
    let source = MappedSource::identity("0123456789");
    let earlier = trace(&source, TextRange::new(2, 3), &[]);
    let later = trace(&source, TextRange::new(7, 8), &[]);

    assert_eq!(
        choose_failure_trace(Some(earlier), Some(later.clone())),
        Some(later)
    );
}

#[test]
fn later_concrete_failure_beats_earlier_deeper_concrete_failure() {
    let source = MappedSource::identity("send 1 and あ");
    let earlier = trace(
        &source,
        TextRange::new(5, 6),
        &[TextRange::new(5, 6), TextRange::new(0, 14)],
    );
    let later = trace(&source, TextRange::new(11, 14), &[TextRange::new(7, 14)]);

    assert_eq!(
        choose_failure_trace(Some(earlier), Some(later.clone())),
        Some(later)
    );
}

#[test]
fn equal_root_start_prefers_non_empty_then_shorter_ranges() {
    let source = MappedSource::identity("0123456789");
    let empty = trace(&source, TextRange::empty(2), &[]);
    let non_empty = trace(&source, TextRange::new(2, 6), &[]);
    assert_eq!(
        choose_failure_trace(Some(empty), Some(non_empty.clone())),
        Some(non_empty)
    );

    let broad = trace(&source, TextRange::new(2, 8), &[]);
    let narrow = trace(&source, TextRange::new(2, 4), &[]);
    assert_eq!(
        choose_failure_trace(Some(broad), Some(narrow.clone())),
        Some(narrow)
    );
}

#[test]
fn containing_event_restriction_wins_over_partial_syntax_failure() {
    let source = MappedSource::identity("final damage");
    let partial = trace(&source, TextRange::new(0, 5), &[]);
    let restricted = FailureTrace::leaf(PatternFailure {
        span: MatchSpan {
            local_range: TextRange::new(0, 12),
            mapped: source.map_range(TextRange::new(0, 12)).unwrap(),
        },
        reasons: vec![PatternFailureReason::EventRestricted {
            supported: vec!["EntityDamageEvent".to_owned()],
            current: Vec::new(),
        }],
    });

    assert_eq!(
        choose_failure_trace(Some(partial.clone()), Some(restricted.clone())),
        Some(restricted.clone())
    );
    assert_eq!(
        choose_failure_trace(Some(restricted.clone()), Some(partial)),
        Some(restricted)
    );
}

#[test]
fn failure_trace_ranking_is_transitive_around_event_restrictions() {
    let source = MappedSource::identity("012345678901");
    let event = FailureTrace::leaf(PatternFailure {
        span: MatchSpan {
            local_range: TextRange::new(0, 10),
            mapped: source.map_range(TextRange::new(0, 10)).unwrap(),
        },
        reasons: vec![PatternFailureReason::EventRestricted {
            supported: vec!["TestEvent".to_owned()],
            current: Vec::new(),
        }],
    });
    let inner = trace(&source, TextRange::new(5, 6), &[]);
    let overlapping = trace(&source, TextRange::new(4, 12), &[]);

    assert_eq!(compare_failure_trace_rank(&event, &inner), Ordering::Less);
    assert_eq!(
        compare_failure_trace_rank(&inner, &overlapping),
        Ordering::Less
    );
    assert_eq!(
        compare_failure_trace_rank(&event, &overlapping),
        Ordering::Less
    );
}

#[test]
fn semantic_diagnostics_follow_the_ranked_failure() {
    let source = MappedSource::identity("0123456789");
    let earlier = trace(&source, TextRange::new(2, 3), &[]).with_semantic_diagnostics(vec![
        SemanticDiagnostic {
            code: "earlier".to_owned(),
            message: "earlier candidate".to_owned(),
            severity: SemanticDiagnosticSeverity::Error,
            span: source.map_range(TextRange::new(2, 3)).unwrap(),
            related: Vec::new(),
        },
    ]);
    let later = trace(&source, TextRange::new(7, 8), &[]).with_semantic_diagnostics(vec![
        SemanticDiagnostic {
            code: "later".to_owned(),
            message: "later candidate".to_owned(),
            severity: SemanticDiagnosticSeverity::Warning,
            span: source.map_range(TextRange::new(7, 8)).unwrap(),
            related: Vec::new(),
        },
    ]);

    let selected = choose_failure_trace(Some(earlier), Some(later)).unwrap();
    let codes = selected
        .semantic_diagnostics()
        .into_iter()
        .map(|diagnostic| diagnostic.code.as_str())
        .collect::<Vec<_>>();
    assert_eq!(codes, ["later"]);
}

#[test]
fn semantic_rejection_breaks_an_otherwise_equal_rank() {
    let source = MappedSource::identity("0123456789");
    let structural = trace(&source, TextRange::new(0, 10), &[]);
    let semantic = FailureTrace::leaf(PatternFailure {
        span: MatchSpan {
            local_range: TextRange::new(0, 10),
            mapped: source.map_range(TextRange::new(0, 10)).unwrap(),
        },
        reasons: vec![PatternFailureReason::HookRejected {
            reason: "semantic rejection".to_owned(),
        }],
    })
    .with_parent(FailureFrame {
        kind: MatchSyntaxKind::Expression,
        definition_id: "semantic-definition".to_owned(),
        registration_id: "semantic-registration".to_owned(),
        pattern_index: 0,
        pattern: "%objects% parsed as %classinfo%".to_owned(),
        element_path: Vec::new(),
        pattern_span: None,
        input_span: MatchSpan {
            local_range: TextRange::new(0, 10),
            mapped: source.map_range(TextRange::new(0, 10)).unwrap(),
        },
        role: FailureFrameRole::SemanticCandidate,
    });

    assert_eq!(
        choose_failure_trace(Some(structural), Some(semantic.clone())),
        Some(semantic)
    );
}

#[test]
fn traces_report_root_causes_depth_and_nested_diagnostics() {
    let source = MappedSource::identity("send 1 if a < 5 else 2");
    let leaf = trace(&source, TextRange::new(10, 11), &[]).with_semantic_diagnostics(vec![
        SemanticDiagnostic {
            code: "inner".to_owned(),
            message: "inner".to_owned(),
            severity: SemanticDiagnosticSeverity::Hint,
            span: source.map_range(TextRange::new(10, 11)).unwrap(),
            related: Vec::new(),
        },
    ]);
    assert_eq!(leaf.specificity(), 1);
    let nested = leaf
        .clone()
        .with_parent(FailureFrame {
            kind: MatchSyntaxKind::Expression,
            definition_id: "d".to_owned(),
            registration_id: "r".to_owned(),
            pattern_index: 0,
            pattern: "%objects%".to_owned(),
            element_path: Vec::new(),
            pattern_span: Some(TextRange::new(0, 9)),
            input_span: MatchSpan {
                local_range: TextRange::new(7, 22),
                mapped: source.map_range(TextRange::new(7, 22)).unwrap(),
            },
            role: FailureFrameRole::ExpressionCapture { index: 1 },
        });
    assert_eq!(nested.root_cause(), &leaf);
    assert_eq!(nested.specificity(), 2);
    assert!(!nested.is_event_restriction());
    assert!(!nested.is_semantic_rejection());
    assert_eq!(nested.failure, leaf.failure);
    let codes: Vec<&str> = nested
        .semantic_diagnostics()
        .into_iter()
        .map(|diagnostic| diagnostic.code.as_str())
        .collect();
    assert_eq!(codes, ["inner"]);

    let ranked = RankedFailures {
        fallback: None,
        candidates: vec![nested.clone(), leaf.clone()],
    };
    assert_eq!(ranked.primary(), Some(&nested));
    assert_eq!(RankedFailures::<FailureTrace>::default().primary(), None);
}
