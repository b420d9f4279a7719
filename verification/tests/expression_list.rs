use skript_parser::expression_list::{
    split_expression_list, ExpressionListConjunction, ExpressionListDelimiter, RawExpressionList,
};
use skript_parser::text::TextRange;

fn split(input: &str) -> RawExpressionList {
    split_expression_list(input, TextRange::new(0, input.len())).expect("list expected")
}

fn pieces<'a>(input: &'a str, list: &RawExpressionList) -> Vec<&'a str> {
    list.pieces
        .iter()
        .map(|range| range.slice(input).unwrap())
        .collect()
}

#[test]
fn scans_only_top_level_delimiters() {
    let input = "\"a,b\" and {value::%1,2%} and (3 or 4)";
    let list = split(input);
    assert_eq!(pieces(input, &list), ["\"a,b\"", "{value::%1,2%}", "(3 or 4)"]);
    assert_eq!(
        list.conjunction_for_children(&[0, 1, 2]),
        ExpressionListConjunction::And
    );
}

#[test]
fn preserves_comma_bearing_child_ranges_for_parser_growth() {
    let input = "spherical vector radius 1, yaw 45, pitch 90 and 2";
    let list = split(input);
    assert_eq!(
        pieces(input, &list),
        ["spherical vector radius 1", "yaw 45", "pitch 90", "2"]
    );
    assert_eq!(
        list.conjunction_for_children(&[0, 3]),
        ExpressionListConjunction::And
    );
}

#[test]
fn comma_is_neutral_and_mixed_explicit_modes_become_and() {
    let list = split("1, 2 or 3");
    assert_eq!(
        list.conjunction_for_children(&[0, 1, 2]),
        ExpressionListConjunction::Or
    );
    let list = split("1 nor 2 or 3");
    assert_eq!(
        list.conjunction_for_children(&[0, 1, 2]),
        ExpressionListConjunction::And
    );
}

#[test]
fn comma_requires_whitespace_before_absorbing_a_word_operator() {
    let input = "1,and 2";
    let list = split(input);
    assert_eq!(pieces(input, &list), ["1", "and 2"]);
    assert_eq!(list.delimiters, [ExpressionListDelimiter::Comma]);

    let input = "1, and 2";
    let list = split(input);
    assert_eq!(pieces(input, &list), ["1", "2"]);
    assert_eq!(list.delimiters, [ExpressionListDelimiter::And]);
}

#[test]
fn non_breaking_space_is_not_regex_whitespace_for_list_delimiters() {
    assert!(split_expression_list(
        "1\u{00A0}and\u{00A0}2",
        TextRange::new(0, "1\u{00A0}and\u{00A0}2".len()),
    )
    .is_none());
}

#[test]
fn ascii_tab_is_regex_whitespace_for_list_delimiters() {
    let input = "1\tand\t2";
    let list = split(input);
    assert_eq!(pieces(input, &list), ["1", "2"]);
    assert_eq!(list.delimiters, [ExpressionListDelimiter::And]);
}

#[test]
fn rejects_blank_pieces_and_lists_without_delimiters() {
    assert!(split_expression_list("a", TextRange::new(0, 1)).is_none());
    assert!(split_expression_list("a,", TextRange::new(0, 2)).is_none());
    assert!(split_expression_list(", b", TextRange::new(0, 3)).is_none());
    let list = split("A OR b");
    assert_eq!(list.delimiters, [ExpressionListDelimiter::Or]);
    assert_eq!(
        list.conjunction_for_children(&[0, 1]),
        ExpressionListConjunction::Or
    );
    assert_eq!(
        list.conjunction_for_children(&[0]),
        ExpressionListConjunction::And
    );
}
