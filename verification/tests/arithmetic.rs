use skript_parser::arithmetic::{operator_occurrences, OperatorOccurrence};
use skript_parser::text::TextRange;

fn signs(values: &[&str]) -> Vec<String> {
    values.iter().map(|value| (*value).to_owned()).collect()
}

fn found(input: &str, values: &[&str]) -> Vec<(usize, usize, usize)> {
    operator_occurrences(input, TextRange::new(0, input.len()), &signs(values))
        .into_iter()
        .map(|OperatorOccurrence { operator_index, start, end }| (operator_index, start, end))
        .collect()
}

#[test]
fn operators_outside_strings_variables_and_parentheses_are_found() {
    assert_eq!(
        found("2 ** 3 + \"a+b\" + (1+2) - {x+1}", &["+", "-", "*", "**"]),
        [(3, 2, 4), (0, 7, 8), (0, 15, 16), (1, 23, 24)]
    );
}

#[test]
fn every_operator_with_the_longest_sign_is_reported() {
    assert_eq!(found("1+2", &["+", "", "+"]), [(0, 1, 2), (2, 1, 2)]);
    assert_eq!(found("1 mod 2", &["mod", "m"]), [(0, 2, 5)]);
}

#[test]
fn an_unclosed_string_hides_every_operator() {
    assert_eq!(found("1 + \"abc", &["+"]), []);
    assert_eq!(found("1 + (2", &["+"]), []);
    let inner = operator_occurrences("x+y+z", TextRange::new(2, 5), &signs(&["+"]));
    assert_eq!(inner, [OperatorOccurrence { operator_index: 0, start: 3, end: 4 }]);
}
