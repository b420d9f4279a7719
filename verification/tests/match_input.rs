use skript_parser::pattern_match::{append_tail_prefixes, push_tail_prefix, TailPrefix};
use skript_parser::pattern_match::match_literal_at;
use skript_parser::pattern_match::{
    MatchInput, PatternMatchError, PatternMatcherConfig,
};
use skript_parser::source_map::{MappedSource, SourceMapError};
use skript_parser::text::TextRange;

#[test]
fn borrowed_input_maps_local_ranges_into_the_source() {
    let source = MappedSource::identity("on load:\n    send \"hi\"\n");
    let input = MatchInput::from_source(&source, TextRange::new(13, 22)).unwrap();
    assert_eq!(input.text(), "send \"hi\"");
    let span = input.map_range(TextRange::new(5, 9)).unwrap();
    assert_eq!(span.local_range, TextRange::new(5, 9));
    assert_eq!(span.mapped.virtual_range, TextRange::new(18, 22));
    assert_eq!(span.mapped.origins[0].original_range, TextRange::new(18, 22));
    assert_eq!(
        input.map_range(TextRange::new(5, 40)),
        Err(PatternMatchError::InvalidInputRange {
            range: TextRange::new(5, 40)
        })
    );
    let copy = input.clone();
    assert_eq!(copy.text(), input.text());
}

#[test]
fn invalid_source_ranges_are_rejected() {
    let source = MappedSource::identity("é");
    assert!(matches!(
        MatchInput::from_source(&source, TextRange::new(0, 1)),
        Err(PatternMatchError::InvalidInputRange { .. })
    ));
}

#[test]
fn generated_input_maps_every_range_to_its_call_site() {
    let source = MappedSource::identity("abc");
    let call_site = source.map_range(TextRange::new(1, 2)).unwrap();
    let input = MatchInput::generated("xyz", call_site.clone());
    let span = input.map_range(TextRange::new(0, 3)).unwrap();
    assert_eq!(span.local_range, TextRange::new(0, 3));
    assert_eq!(span.mapped, call_site);
}

#[test]
fn matcher_limits_must_be_positive() {
    let config = PatternMatcherConfig::default();
    assert_eq!(config.max_states, 100_000);
    assert_eq!(config.max_regex_evaluated_bytes, 8 * 1024 * 1024);
    assert_eq!(config.validate(), Ok(()));
    let zero = PatternMatcherConfig {
        max_candidate_failures: 0,
        ..PatternMatcherConfig::default()
    };
    assert_eq!(zero.validate(), Err(PatternMatchError::InvalidConfiguration));
}

#[test]
fn source_map_errors_read_as_sentences() {
    assert_eq!(
        SourceMapError::InvalidRange {
            input: "virtual source",
            range: TextRange::new(3, 12)
        }
        .message(),
        "invalid virtual source byte range 3..12"
    );
    assert_eq!(
        SourceMapError::Gap {
            expected_start: 4,
            actual_start: 107
        }
        .message(),
        "source map has a gap: expected byte 4, next starts at 107"
    );
}

#[test]
fn literals_match_with_flexible_spaces_and_case() {
    let input = "Send  ÉTÉ to all";
    let complete = TextRange::new(0, input.len());
    assert_eq!(match_literal_at(input, complete, 0, "send "), Ok(5));
    assert_eq!(match_literal_at(input, complete, 6, "été"), Ok(11));
    assert_eq!(match_literal_at(input, complete, 0, "sand"), Err(1));
    assert_eq!(match_literal_at(input, complete, 12, "to everyone"), Err(15));
    assert_eq!(match_literal_at("ab", TextRange::new(0, 2), 2, " "), Ok(2));
}

#[test]
fn tail_prefixes_are_kept_once() {
    let prefix = |text: &str, dynamic| TailPrefix {
        text: text.to_owned(),
        dynamic,
    };
    let mut output = vec![prefix("a", false)];
    push_tail_prefix(&mut output, prefix("a", false));
    push_tail_prefix(&mut output, prefix("a", true));
    assert_eq!(output.len(), 2);
    append_tail_prefixes(
        &prefix("x", false),
        vec![prefix("y", true), prefix("y", true), prefix("", false)],
        &mut output,
    );
    let texts: Vec<_> = output.iter().map(|p| (p.text.as_str(), p.dynamic)).collect();
    assert_eq!(texts, [("a", false), ("a", true), ("xy", true), ("x", false)]);
}
