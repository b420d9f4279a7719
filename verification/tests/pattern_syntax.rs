use skript_parser::expression::{
    leading_prefix_states, pattern_prefilter_matches, required_literal_branches,
    trailing_suffix_states, PatternPrefilter, PrefixState,
};
use skript_parser::pattern_match::{leading_tail_prefixes, sequence_tail_prefixes, TailPrefix};
use skript_parser::pattern_syntax::{
    element_start, minimum_pattern_input_len, pattern_contains_regex, pattern_is_left_recursive,
    sequence_start, PatternElement, PatternTypeExpr, SpannedPatternElement,
};
use skript_parser::text::TextRange;

fn spanned(value: PatternElement) -> SpannedPatternElement {
    SpannedPatternElement {
        value,
        span: TextRange::new(0, 0),
    }
}

fn literal(text: &str) -> SpannedPatternElement {
    spanned(PatternElement::Literal(text.to_owned()))
}

fn typed() -> SpannedPatternElement {
    spanned(PatternElement::TypeExpr(PatternTypeExpr { alternatives: vec!["object".to_owned()], nullable: false }))
}

fn optional(children: Vec<SpannedPatternElement>) -> SpannedPatternElement {
    spanned(PatternElement::Optional(children))
}

fn choice(branches: Vec<Vec<SpannedPatternElement>>) -> SpannedPatternElement {
    spanned(PatternElement::Choice(branches))
}

fn texts(states: &[PrefixState]) -> Vec<(String, bool)> {
    states
        .iter()
        .map(|state| (state.text.clone(), state.terminal))
        .collect()
}

/// `[:force] teleport %entities% (to|%direction%) %location% [[while] retaining %-teleportflags%]`
fn teleport_pattern() -> Vec<SpannedPatternElement> {
    vec![
        optional(vec![spanned(PatternElement::ParseTag("tag".to_owned()))]),
        literal(" teleport "),
        typed(),
        literal(" "),
        choice(vec![vec![literal("to")], vec![typed()]]),
        literal(" "),
        typed(),
        literal(" "),
        optional(vec![
            optional(vec![literal("while")]),
            literal(" retaining "),
            typed(),
        ]),
    ]
}

#[test]
fn tail_prefixes_keep_literals_beside_dynamic_choices() {
    let elements = teleport_pattern();
    let type_index = elements
        .iter()
        .position(|element| matches!(element.value, PatternElement::TypeExpr(_)))
        .unwrap();
    let prefixes = sequence_tail_prefixes(
        &elements[type_index + 1..],
        &[TailPrefix {
            text: String::new(),
            dynamic: false,
        }],
    );

    assert!(
        prefixes.iter().any(|prefix| prefix.text == " to "),
        "{prefixes:#?}"
    );
}

#[test]
fn leading_tail_prefixes_are_distinct() {
    let elements = vec![choice(vec![vec![literal("a")], vec![literal("a")], vec![typed()]]), literal("b")];
    let prefixes: Vec<(String, bool)> = leading_tail_prefixes(&elements)
        .into_iter()
        .map(|prefix| (prefix.text, prefix.dynamic))
        .collect();
    assert_eq!(prefixes, [("ab".to_owned(), false), ("".to_owned(), true)]);
}

#[test]
fn pattern_starts_and_regexes_are_found() {
    let elements = teleport_pattern();
    assert!(!pattern_contains_regex(&elements));
    assert!(pattern_contains_regex(&[optional(vec![choice(vec![
        vec![literal("x")],
        vec![spanned(PatternElement::Regex("\\d+".to_owned()))],
    ])])]));
    assert_eq!(sequence_start(&elements), (false, false));
    assert!(!pattern_is_left_recursive(&elements));
    let left = vec![optional(vec![literal("the")]), typed(), literal(" is set")];
    assert!(pattern_is_left_recursive(&left));
    assert_eq!(sequence_start(&[optional(vec![literal("a")])]), (false, true));
    assert_eq!(element_start(&PatternElement::Empty), (false, true));
    assert_eq!(
        element_start(&PatternElement::Choice(vec![vec![typed()], vec![]])),
        (true, true)
    );
}

#[test]
fn minimum_input_counts_required_non_space_characters() {
    let elements = teleport_pattern();
    // "teleport"; the shortest branch of the choice is the typed capture.
    assert_eq!(minimum_pattern_input_len(&elements), 8);
    let alternatives = vec![choice(vec![vec![literal("abc")], vec![literal("d e")]]), literal(" f ")];
    assert_eq!(minimum_pattern_input_len(&alternatives), 3);
    assert_eq!(minimum_pattern_input_len(&[]), 0);
}

#[test]
fn leading_and_trailing_states_follow_literals() {
    let elements = vec![
        optional(vec![literal("the ")]),
        literal("player"),
        choice(vec![vec![literal("'s")], vec![typed()]]),
    ];
    assert_eq!(
        texts(&leading_prefix_states(&elements)),
        [
            ("player's".to_owned(), false),
            ("player".to_owned(), true),
            ("the player's".to_owned(), false),
            ("the player".to_owned(), true),
        ]
    );
    assert_eq!(
        texts(&trailing_suffix_states(&elements)),
        [("player's".to_owned(), false), ("the player's".to_owned(), false), ("".to_owned(), true)]
    );
}

#[test]
fn state_lists_past_256_give_up() {
    let mut elements = Vec::new();
    for _ in 0..9 {
        elements.push(choice(vec![vec![literal("a")], vec![literal("b")]]));
    }
    assert_eq!(texts(&leading_prefix_states(&elements)), [("".to_owned(), true)]);
    assert_eq!(texts(&trailing_suffix_states(&elements)), [("".to_owned(), true)]);
    assert_eq!(required_literal_branches(&elements), vec![Vec::<String>::new()]);
    let prefixes: Vec<(String, bool)> = leading_tail_prefixes(&elements)
        .into_iter()
        .map(|prefix| (prefix.text, prefix.dynamic))
        .collect();
    assert_eq!(prefixes, [("".to_owned(), true)]);
}

#[test]
fn required_literals_are_trimmed_lowercase_alternatives() {
    let elements = vec![
        literal(" Set "),
        typed(),
        choice(vec![vec![literal(" TO ")], vec![literal("Into")]]),
        literal("   "),
    ];
    assert_eq!(
        required_literal_branches(&elements),
        vec![
            vec!["set".to_owned(), "to".to_owned()],
            vec!["set".to_owned(), "into".to_owned()],
        ]
    );
}

#[test]
fn prefilter_of_a_pattern_admits_matching_inputs() {
    let elements = vec![literal("set "), typed(), literal(" to "), typed()];
    let prefilter = PatternPrefilter::new(&elements);
    assert!(!prefilter.left_recursive);
    assert_eq!(prefilter.minimum_input_len, 5);
    assert!(pattern_prefilter_matches(&prefilter, "set {x} to 5"));
    assert!(!pattern_prefilter_matches(&prefilter, "send {x} to 5"));
    assert!(!pattern_prefilter_matches(&prefilter, "set {x} as 5"));
}
