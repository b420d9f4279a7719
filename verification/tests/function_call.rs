use skript_parser::function::trimmed_range;
use skript_parser::function::{
    conjunction_at, duplicate_named_argument, parse_call_syntax, parsed_argument, push_trimmed,
    split_arguments, split_expression_list, unwrapped_list_range, ArgumentKind,
};
use skript_parser::function::{ClassName, ExpressionParseContext, FunctionLookupRequest};
use skript_parser::string_map::StringMap;
use skript_parser::text::TextRange;

fn range(start: usize, end: usize) -> TextRange {
    TextRange::new(start, end)
}

#[test]
fn call_syntax_reads_name_and_arguments() {
    let input = "give(player, amount: 5)";
    let call = parse_call_syntax(input, range(0, input.len()), &[input.len()]).unwrap();
    assert_eq!(call.name, "give");
    assert_eq!(call.range, range(0, 23));
    assert_eq!(call.arguments.len(), 2);
    assert_eq!(call.arguments[0].kind, ArgumentKind::Unnamed);
    assert_eq!(call.arguments[0].value, range(5, 11));
    assert_eq!(call.arguments[1].kind, ArgumentKind::Named);
    assert_eq!(call.arguments[1].name.as_deref(), Some("amount"));
    assert_eq!(call.arguments[1].value, range(21, 22));
    assert_eq!(call.arguments[1].raw, range(13, 22));
    assert!(parse_call_syntax(input, range(0, input.len()), &[5]).is_none());
    assert!(parse_call_syntax("1f(x)", range(0, 5), &[5]).is_none());
    assert!(parse_call_syntax("f (x)", range(0, 5), &[5]).is_none());
    let unicode = "größe_2()";
    let call = parse_call_syntax(unicode, range(0, unicode.len()), &[unicode.len()]).unwrap();
    assert_eq!(call.name, "größe_2");
    assert!(call.arguments.is_empty());
}

#[test]
fn arguments_split_at_top_level_commas_only() {
    let input = "a, f(b, c), \"x, y\", {v::1,2}, ";
    let arguments = split_arguments(input, range(0, input.len())).unwrap();
    let values: Vec<_> = arguments.iter().map(|argument| argument.value).collect();
    assert_eq!(values, [range(0, 1), range(3, 10), range(12, 18), range(20, 28)]);
    assert!(split_arguments("\"open", range(0, 5)).is_none());
    assert_eq!(split_arguments("", range(0, 0)).unwrap().len(), 0);
}

#[test]
fn labels_need_a_value_after_the_colon() {
    let named = parsed_argument("  key:  value ", range(0, 14)).unwrap();
    assert_eq!(named.kind, ArgumentKind::Named);
    assert_eq!(named.name.as_deref(), Some("key"));
    assert_eq!(named.value, range(8, 13));
    let bare = parsed_argument("key:", range(0, 4)).unwrap();
    assert_eq!(bare.kind, ArgumentKind::Unnamed);
    assert_eq!(bare.value, range(0, 4));
    assert!(parsed_argument("   ", range(0, 3)).is_none());
    let arguments = vec![
        parsed_argument("a: 1", range(0, 4)).unwrap(),
        parsed_argument("b: 2", range(0, 4)).unwrap(),
    ];
    assert!(!duplicate_named_argument(&arguments));
    let repeated = vec![
        parsed_argument("a: 1", range(0, 4)).unwrap(),
        parsed_argument("2", range(0, 1)).unwrap(),
        parsed_argument("a: 3", range(0, 4)).unwrap(),
    ];
    assert!(duplicate_named_argument(&repeated));
}

#[test]
fn list_arguments_unwrap_and_split_at_and() {
    let input = "( 1, 2 and 3 )";
    let inner = unwrapped_list_range(input, range(0, input.len())).unwrap();
    assert_eq!(inner, range(2, 12));
    assert_eq!(
        split_expression_list(input, inner).unwrap(),
        vec![range(2, 3), range(5, 6), range(11, 12)]
    );
    assert!(split_expression_list("1 or 2", range(0, 6)).is_none());
    assert!(split_expression_list("1,,2", range(0, 4)).is_none());
    assert!(unwrapped_list_range("(a)(b)", range(0, 6)).is_none());
    assert_eq!(conjunction_at("x AND y", 2, 7), Some((2, 5, false)));
    assert_eq!(conjunction_at("x andy", 2, 6), None);
    assert_eq!(conjunction_at("x or y", 2, 6), Some((2, 4, true)));
    let mut parts = Vec::new();
    assert_eq!(push_trimmed(" a ", range(0, 3), &mut parts), Some(()));
    assert_eq!(parts, vec![range(1, 2)]);
    assert_eq!(push_trimmed("  ", range(0, 2), &mut parts), None);
}

#[test]
fn trimmed_ranges_skip_blank_text() {
    assert_eq!(trimmed_range("  ab c ", range(0, 7)), Some(range(2, 6)));
    assert_eq!(trimmed_range(" \t ", range(0, 3)), None);
    assert_eq!(trimmed_range("é", range(0, 1)), None);
}

fn parameter(name: &str, optional: bool) -> skript_parser::function::FunctionParameterDefinition {
    skript_parser::function::FunctionParameterDefinition {
        name: name.to_owned(),
        parameter_type: skript_parser::function::ClassName("java.lang.Object".to_owned()),
        single: true,
        optional,
    }
}

fn argument(name: Option<&str>, start: usize) -> skript_parser::function::ParsedArgument {
    skript_parser::function::ParsedArgument {
        kind: if name.is_some() {
            skript_parser::function::ArgumentKind::Named
        } else {
            skript_parser::function::ArgumentKind::Unnamed
        },
        name: name.map(str::to_owned),
        value: skript_parser::text::TextRange::new(start + 3, start + 4),
        raw: skript_parser::text::TextRange::new(start, start + 4),
    }
}

fn slots(
    mapped: Option<Vec<skript_parser::function::MappedArgument>>,
) -> Option<Vec<(Option<String>, Vec<usize>)>> {
    mapped.map(|mapped| {
        mapped
            .into_iter()
            .map(|slot| {
                (
                    slot.supplied_name,
                    slot.values.iter().map(|range| range.start).collect(),
                )
            })
            .collect()
    })
}

#[test]
fn exact_arguments_map_positionally_and_by_name() {
    let parameters = [parameter("a", false), parameter("b", true), parameter("c", false)];
    assert_eq!(
        slots(skript_parser::function::map_exact_arguments(
            &parameters,
            &[argument(None, 0), argument(None, 10), argument(None, 20)]
        )),
        Some(vec![(None, vec![3]), (None, vec![13]), (None, vec![23])])
    );
    assert_eq!(slots(skript_parser::function::map_exact_arguments(&parameters, &[argument(None, 0)])), None);
    assert_eq!(
        slots(skript_parser::function::map_exact_arguments(
            &parameters,
            &[argument(None, 0), argument(Some("c"), 10)]
        )),
        Some(vec![(None, vec![3]), (None, vec![]), (Some("c".to_owned()), vec![13])])
    );
    assert_eq!(
        slots(skript_parser::function::map_exact_arguments(
            &parameters,
            &[argument(Some("c"), 10), argument(None, 0)]
        )),
        None
    );
    let two = [parameter("a", false), parameter("b", false)];
    assert_eq!(
        slots(skript_parser::function::map_exact_arguments(
            &two,
            &[argument(None, 0), argument(Some("zz"), 10)]
        )),
        Some(vec![(None, vec![3]), (None, vec![10])])
    );
}

#[test]
fn lookup_requests_carry_the_name_and_context() {
    let mut values = StringMap::new();
    values.insert("event".to_owned(), "on load".to_owned());
    let context = ExpressionParseContext {
        syntax_context: 3,
        event_classes: vec![ClassName("org.bukkit.event.Event".to_owned())],
        values,
    };
    let request = FunctionLookupRequest { name: "greet", context: &context };
    assert_eq!(request.name, "greet");
    assert_eq!(request.context.syntax_context, 3);
    assert_eq!(request.context.event_classes.len(), 1);
}
