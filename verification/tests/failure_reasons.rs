use skript_parser::failure_tracker::{insert_reason, reason_before, reasons_equal};
use skript_parser::pattern_match::PatternFailureReason;

fn literal(text: &str) -> PatternFailureReason {
    PatternFailureReason::Literal {
        expected: text.to_owned(),
    }
}

#[test]
fn reasons_follow_their_derived_order() {
    let ordered = [
        literal("a"),
        literal("b"),
        PatternFailureReason::Regex {
            pattern: "x".to_owned(),
        },
        PatternFailureReason::Expression,
        PatternFailureReason::TypeExpression {
            expected: vec!["number".to_owned()],
        },
        PatternFailureReason::EventRestricted {
            supported: vec!["A".to_owned()],
            current: vec![],
        },
        PatternFailureReason::EventRestricted {
            supported: vec!["A".to_owned()],
            current: vec!["B".to_owned()],
        },
        PatternFailureReason::TrailingInput,
        PatternFailureReason::HookRejected {
            reason: "no".to_owned(),
        },
    ];
    for (i, a) in ordered.iter().enumerate() {
        for (j, b) in ordered.iter().enumerate() {
            assert_eq!(reason_before(a, b), i < j, "{a:?} {b:?}");
            assert_eq!(reason_before(a, b), a < b);
            assert_eq!(reasons_equal(a, b), i == j);
        }
    }
}

#[test]
fn reason_sets_stay_sorted_without_duplicates() {
    let mut reasons = Vec::new();
    insert_reason(&mut reasons, PatternFailureReason::TrailingInput);
    insert_reason(&mut reasons, literal("to"));
    insert_reason(&mut reasons, literal("at"));
    insert_reason(&mut reasons, literal("to"));
    insert_reason(&mut reasons, PatternFailureReason::Expression);
    assert_eq!(
        reasons,
        [
            literal("at"),
            literal("to"),
            PatternFailureReason::Expression,
            PatternFailureReason::TrailingInput
        ]
    );
}

fn reported(tracker: &skript_parser::failure_tracker::FailureTracker) -> (usize, usize, Vec<PatternFailureReason>) {
    let source = skript_parser::source_map::MappedSource::identity("abcdefgh");
    let call_site = source
        .map_range(skript_parser::text::TextRange::new(0, 8))
        .unwrap();
    let input = skript_parser::pattern_match::MatchInput::generated("abcdefgh", call_site);
    let failure = skript_parser::failure_tracker::tracker_failure(&input, tracker).unwrap();
    (
        failure.span.local_range.start,
        failure.span.local_range.end,
        failure.reasons,
    )
}

#[test]
fn the_tracker_keeps_the_best_ranked_failure_and_its_reasons() {
    let mut tracker = skript_parser::failure_tracker::FailureTracker::new();
    tracker.record(2, literal("a"));
    tracker.record(5, literal("b"));
    tracker.record(5, literal("a"));
    tracker.record(1, PatternFailureReason::Expression);
    assert_eq!(reported(&tracker), (5, 5, vec![literal("a"), literal("b")]));
    tracker.record_range(
        0,
        Some(skript_parser::text::TextRange::new(0, 3)),
        PatternFailureReason::TrailingInput,
    );
    assert_eq!(reported(&tracker), (0, 3, vec![PatternFailureReason::TrailingInput]));
}

#[test]
fn merging_trackers_joins_ties_and_keeps_the_better_one() {
    let mut first = skript_parser::failure_tracker::FailureTracker::new();
    first.record(5, literal("a"));
    let mut second = skript_parser::failure_tracker::FailureTracker::new();
    second.record(5, literal("b"));
    first.merge(second);
    assert_eq!(reported(&first), (5, 5, vec![literal("a"), literal("b")]));
    first.merge(skript_parser::failure_tracker::FailureTracker::new());
    assert_eq!(reported(&first), (5, 5, vec![literal("a"), literal("b")]));
    let mut later = skript_parser::failure_tracker::FailureTracker::new();
    later.record(7, literal("c"));
    first.merge(later);
    assert_eq!(reported(&first), (7, 7, vec![literal("c")]));
}
