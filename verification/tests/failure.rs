use skript_parser::failure::{
    compare_failure_rank, compare_failure_rank_at_progress, semantic_failure_span,
    SemanticDiagnostic, SemanticDiagnosticSeverity,
};
use skript_parser::pattern_match::MatchSpan;
use skript_parser::source_map::MappedSource;
use skript_parser::text::TextRange;
use std::cmp::Ordering;

fn range(start: usize, end: usize) -> TextRange {
    TextRange::new(start, end)
}

#[test]
fn non_empty_failures_outrank_empty_ones() {
    assert_eq!(
        compare_failure_rank(range(3, 3), 5, range(1, 2), 1),
        Ordering::Greater
    );
    assert_eq!(
        compare_failure_rank(range(1, 2), 1, range(3, 3), 5),
        Ordering::Less
    );
}

#[test]
fn later_progress_then_depth_then_start_then_narrowness() {
    assert_eq!(
        compare_failure_rank(range(0, 4), 9, range(2, 4), 1),
        Ordering::Greater
    );
    assert_eq!(
        compare_failure_rank(range(2, 4), 1, range(2, 5), 3),
        Ordering::Greater
    );
    assert_eq!(
        compare_failure_rank(range(2, 4), 3, range(2, 3), 3),
        Ordering::Greater
    );
    assert_eq!(
        compare_failure_rank(range(2, 4), 3, range(2, 4), 3),
        Ordering::Equal
    );
    assert_eq!(
        compare_failure_rank_at_progress(range(0, 4), 4, 1, range(2, 3), 2, 1),
        Ordering::Less
    );
    assert_eq!(
        compare_failure_rank(range(5, 5), 2, range(4, 4), 2),
        Ordering::Less
    );
}

#[test]
fn semantic_span_prefers_the_first_error_inside_the_fallback() {
    let source = MappedSource::identity("send hello to player");
    let fallback = MatchSpan {
        local_range: range(0, 20),
        mapped: source.map_range(range(0, 20)).unwrap(),
    };
    let diagnostic = |severity, start, end| SemanticDiagnostic {
        code: "code".to_owned(),
        message: "message".to_owned(),
        severity,
        span: source.map_range(range(start, end)).unwrap(),
        related: Vec::new(),
    };
    let diagnostics = vec![
        diagnostic(SemanticDiagnosticSeverity::Warning, 0, 4),
        diagnostic(SemanticDiagnosticSeverity::Error, 5, 10),
    ];
    let span = semantic_failure_span(&fallback, &diagnostics);
    assert_eq!(span.local_range, range(5, 10));
    assert_eq!(span.mapped.virtual_range, range(5, 10));

    let inner = MatchSpan {
        local_range: range(0, 5),
        mapped: source.map_range(range(14, 19)).unwrap(),
    };
    let warnings = vec![diagnostic(SemanticDiagnosticSeverity::Hint, 14, 20)];
    let outside = semantic_failure_span(&inner, &warnings);
    assert_eq!(outside.local_range, range(0, 5));
    let shifted = semantic_failure_span(
        &inner,
        &[diagnostic(SemanticDiagnosticSeverity::Hint, 15, 17)],
    );
    assert_eq!(shifted.local_range, range(1, 3));
    assert_eq!(semantic_failure_span(&inner, &[]).local_range, range(0, 5));
}
