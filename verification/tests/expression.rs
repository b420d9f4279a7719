use skript_parser::expression::{
    append_prefix_states, chars_equal_ignore_case, completely_parenthesized,
    contains_literal_ignore_case, ends_with_skript_literal, expression_failure_ranges,
    pattern_prefilter_matches, prefix_states_may_start_with, prepend_suffix_states,
    starts_with_skript_literal, suffix_states_may_end_with, ExpressionFailureKind,
    PatternPrefilter, PrefixState,
};
use skript_parser::text::TextRange;

fn state(text: &str, terminal: bool) -> PrefixState {
    PrefixState {
        text: text.to_owned(),
        terminal,
    }
}

#[test]
fn pattern_prefilter_matches_unicode_literals() {
    let prefilter = PatternPrefilter {
        left_recursive: false,
        minimum_input_len: 0,
        leading: vec![PrefixState {
            text: String::new(),
            terminal: false,
        }],
        trailing: vec![PrefixState {
            text: String::new(),
            terminal: false,
        }],
        required_literal_branches: vec![vec!["café".to_owned(), "über".to_owned()]],
    };

    assert!(pattern_prefilter_matches(&prefilter, "CAFÉ ÜBER"));
    assert!(!pattern_prefilter_matches(&prefilter, "CAFE ÜBER"));
}

#[test]
fn prefilter_checks_length_and_edges() {
    let prefilter = PatternPrefilter {
        left_recursive: false,
        minimum_input_len: 5,
        leading: vec![state("send ", true)],
        trailing: vec![state(" to player", false)],
        required_literal_branches: vec![vec![]],
    };
    assert!(pattern_prefilter_matches(&prefilter, "SEND hi to PLAYER"));
    assert!(!pattern_prefilter_matches(&prefilter, "send"));
    assert!(!pattern_prefilter_matches(&prefilter, "broadcast hi to player"));
    assert!(!pattern_prefilter_matches(&prefilter, "send hi to console"));
    let no_branch = PatternPrefilter {
        left_recursive: false,
        minimum_input_len: 0,
        leading: vec![state("", false)],
        trailing: vec![state("", false)],
        required_literal_branches: vec![],
    };
    assert!(!pattern_prefilter_matches(&no_branch, "anything"));
}

#[test]
fn skript_literals_treat_spaces_flexibly() {
    assert!(starts_with_skript_literal("Set x", "set "));
    assert!(starts_with_skript_literal("set", "set "));
    assert!(!starts_with_skript_literal("setx", "set y"));
    assert!(starts_with_skript_literal("ÉTÉ", "été"));
    assert!(ends_with_skript_literal("give it to Player", " to player"));
    assert!(ends_with_skript_literal("player", " player"));
    assert!(!ends_with_skript_literal("xplayer", "a player"));
    assert!(prefix_states_may_start_with(&[state("   ", false)], "anything"));
    assert!(!prefix_states_may_start_with(&[], "anything"));
    assert!(suffix_states_may_end_with(&[state("ing", false)], "anything"));
}

#[test]
fn literal_search_ignores_case() {
    assert!(contains_literal_ignore_case("Hello World", "hello world", "WORLD"));
    assert!(!contains_literal_ignore_case("Hello", "hello", "world"));
    assert!(contains_literal_ignore_case("x", "x", ""));
    assert!(contains_literal_ignore_case("Ärger", "ärger", "ärg"));
    assert!(!contains_literal_ignore_case("Ärger", "ärger", "ÄRG"));
    assert!(chars_equal_ignore_case('A', 'a'));
    assert!(chars_equal_ignore_case('Ü', 'ü'));
    assert!(!chars_equal_ignore_case('a', 'b'));
}

#[test]
fn prefix_states_combine_with_parent_text() {
    let parent = state("ab", false);
    let mut out = Vec::new();
    append_prefix_states(&parent, vec![state("c", true), state("", false)], &mut out);
    assert_eq!(out.len(), 2);
    assert_eq!(out[0].text, "abc");
    assert!(out[0].terminal);
    assert_eq!(out[1].text, "ab");
    let mut back = Vec::new();
    prepend_suffix_states(&parent, vec![state("x", false)], &mut back);
    assert_eq!(back[0].text, "xab");
    assert!(!back[0].terminal);
}

#[test]
fn failure_ranges_pick_the_most_specific_reason() {
    let input = "(  )";
    assert_eq!(
        expression_failure_ranges(input, TextRange::new(0, 4)),
        (
            ExpressionFailureKind::EmptyGroup,
            TextRange::new(3, 3),
            Some(TextRange::new(0, 1))
        )
    );
    assert_eq!(
        expression_failure_ranges("a) b", TextRange::new(0, 4)),
        (
            ExpressionFailureKind::UnexpectedClosingParenthesis,
            TextRange::new(1, 2),
            None
        )
    );
    assert_eq!(
        expression_failure_ranges("f((x)", TextRange::new(0, 5)),
        (
            ExpressionFailureKind::UnclosedParenthesis,
            TextRange::new(5, 5),
            Some(TextRange::new(1, 2))
        )
    );
    assert_eq!(
        expression_failure_ranges("\")\" x", TextRange::new(0, 5)),
        (
            ExpressionFailureKind::ExpectedExpression,
            TextRange::new(0, 0),
            None
        )
    );
    assert!(completely_parenthesized("(a (b))", TextRange::new(0, 7)));
    assert!(!completely_parenthesized("(a) (b)", TextRange::new(0, 7)));
    assert!(!completely_parenthesized("(a)", TextRange::new(0, 9)));
}
