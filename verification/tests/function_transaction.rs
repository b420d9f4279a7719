use skript_parser::function::ClassName;
use skript_parser::function_registry::{
    FunctionDeclaration, FunctionParameterDeclaration, FunctionRegistryError,
    FunctionRegistryTransaction, FunctionReturnContract, FunctionScope, FunctionVersionPolicy,
    DOCUMENT_FUNCTION_PARSER_ID,
};
use skript_parser::string_map::{text_before, StringMap};
use skript_parser::text::TextRange;

fn class(name: &str) -> ClassName {
    ClassName(name.to_owned())
}

fn declaration(
    source: &str,
    scope: FunctionScope,
    name: &str,
    parameters: Vec<FunctionParameterDeclaration>,
) -> FunctionDeclaration {
    FunctionDeclaration::new(
        source,
        TextRange::new(0, source.len()),
        scope,
        name,
        parameters,
        FunctionReturnContract::single(class("java.lang.Number")),
    )
}

fn number(name: &str) -> FunctionParameterDeclaration {
    FunctionParameterDeclaration::required(name, class("java.lang.Number"), true)
}

fn transaction(policy: FunctionVersionPolicy) -> FunctionRegistryTransaction {
    FunctionRegistryTransaction::with_transaction_id("doc", 7, policy, 1)
}

#[test]
fn string_maps_keep_keys_sorted_and_replace_values() {
    let mut map = StringMap::new();
    map.insert("b".to_owned(), "2".to_owned());
    map.insert("a".to_owned(), "1".to_owned());
    map.insert("c".to_owned(), "3".to_owned());
    map.insert("b".to_owned(), "two".to_owned());
    let keys: Vec<&str> = map.entries().iter().map(|(k, _)| k.as_str()).collect();
    assert_eq!(keys, ["a", "b", "c"]);
    assert_eq!(map.get("b"), Some("two"));
    assert_eq!(map.get("d"), None);
    assert_eq!(map.len(), 3);

    let mut other = StringMap::new();
    other.insert("c".to_owned(), "3".to_owned());
    other.insert("b".to_owned(), "two".to_owned());
    other.insert("a".to_owned(), "1".to_owned());
    assert_eq!(map, other);
    assert!(text_before("ab", "b"));
    assert!(text_before("a", "ab"));
    assert!(!text_before("b", "ab"));
    assert!(!text_before("same", "same"));
}

#[test]
fn registration_projects_a_call_definition() {
    let mut registry = transaction(FunctionVersionPolicy::modern());
    let declaration = declaration(
        "function double(value: number, extra: number = 1) :: number",
        FunctionScope::Global,
        "double",
        vec![
            number("value"),
            FunctionParameterDeclaration::defaulted("extra", class("java.lang.Number"), true, "1"),
        ],
    )
    .with_metadata("function.return-syntax", "colons");
    let registration = registry.register(declaration).unwrap();
    let definition = &registration.definition;
    assert_eq!(definition.parser_id, DOCUMENT_FUNCTION_PARSER_ID);
    assert_eq!(definition.name, "double");
    assert_eq!(definition.definition_id, "function:document:doc:0");
    assert_eq!(definition.registration_id, "function:document:doc:0:0");
    assert_eq!(definition.registration_order, 0);
    assert_eq!(definition.return_type, Some(class("java.lang.Number")));
    assert_eq!(definition.parameters.len(), 2);
    assert!(!definition.parameters[0].optional);
    assert!(definition.parameters[1].optional);
    let metadata = &definition.metadata;
    assert_eq!(metadata.get("function.scope"), Some("global"));
    assert_eq!(metadata.get("function.document-id"), Some("doc"));
    assert_eq!(metadata.get("function.revision"), Some("7"));
    assert_eq!(metadata.get("function.named-arguments"), Some("true"));
    assert_eq!(metadata.get("function.named-argument-pattern"), Some("wide"));
    assert_eq!(metadata.get("function.parameter.0.name"), Some("value"));
    assert_eq!(metadata.get("function.parameter.0.default-source"), None);
    assert_eq!(metadata.get("function.parameter.1.name"), Some("extra"));
    assert_eq!(metadata.get("function.parameter.1.default-source"), Some("1"));
    assert_eq!(metadata.get("function.return-syntax"), Some("colons"));

    let second = registry
        .register(declaration_named("triple"))
        .unwrap();
    assert_eq!(second.definition.definition_id, "function:document:doc:1");
}

fn declaration_named(name: &str) -> FunctionDeclaration {
    declaration("function x()", FunctionScope::Global, name, vec![number("n")])
}

#[test]
fn validation_reports_the_first_problem() {
    let policy = FunctionVersionPolicy::legacy_2_6_4();
    let bad_name = declaration("f", FunctionScope::Global, "_hidden", vec![]);
    assert_eq!(bad_name.validate(policy), Err(FunctionRegistryError::InvalidFunctionName));
    let bad_span = FunctionDeclaration::new(
        "f",
        TextRange::new(0, 5),
        FunctionScope::Global,
        "f",
        vec![],
        FunctionReturnContract::none(),
    );
    assert_eq!(
        bad_span.validate(policy),
        Err(FunctionRegistryError::InvalidDeclarationSpan { span: TextRange::new(0, 5) })
    );
    let local = declaration("f", FunctionScope::Local, "f", vec![]);
    assert_eq!(
        local.validate(policy),
        Err(FunctionRegistryError::LocalFunctionsUnsupported { name: "f".to_owned() })
    );
    let returns = declaration("f", FunctionScope::Global, "f", vec![])
        .with_metadata("function.return-syntax", "returns");
    assert_eq!(
        returns.validate(policy),
        Err(FunctionRegistryError::ReturnsKeywordUnsupported { name: "f".to_owned() })
    );
    let arrow = declaration("f", FunctionScope::Global, "f", vec![])
        .with_metadata("function.return-syntax", "arrow");
    assert_eq!(
        arrow.validate(FunctionVersionPolicy::for_skript_version(2, 13, 0)),
        Err(FunctionRegistryError::ArrowReturnUnsupported { name: "f".to_owned() })
    );
    assert_eq!(arrow.validate(FunctionVersionPolicy::modern()), Ok(()));
    let blank = declaration("f", FunctionScope::Global, "f", vec![number(" \t")]);
    assert_eq!(
        blank.validate(policy),
        Err(FunctionRegistryError::InvalidParameterName { function: "f".to_owned() })
    );
    let duplicate = declaration("f", FunctionScope::Global, "f", vec![number("Value"), number("vALUE")]);
    assert_eq!(
        duplicate.validate(policy),
        Err(FunctionRegistryError::DuplicateParameter {
            function: "f".to_owned(),
            parameter: "vALUE".to_owned()
        })
    );
    let case_sensitive = FunctionVersionPolicy::for_skript_version_with_case_insensitive_variables(2, 15, 0, false);
    assert_eq!(duplicate.validate(case_sensitive), Ok(()));
    let mut no_plurals = FunctionVersionPolicy::modern();
    no_plurals.allow_plural_parameters = false;
    let plural = declaration(
        "f",
        FunctionScope::Global,
        "f",
        vec![FunctionParameterDeclaration::required("xs", class("java.lang.Number"), false)],
    );
    assert_eq!(
        plural.validate(no_plurals),
        Err(FunctionRegistryError::PluralParametersUnsupported {
            function: "f".to_owned(),
            parameter: "xs".to_owned()
        })
    );
    let mut no_defaults = FunctionVersionPolicy::modern();
    no_defaults.allow_default_values = false;
    let defaulted = declaration(
        "f",
        FunctionScope::Global,
        "f",
        vec![FunctionParameterDeclaration::defaulted("x", class("java.lang.Number"), true, "1")],
    );
    assert_eq!(
        defaulted.validate(no_defaults),
        Err(FunctionRegistryError::DefaultValuesUnsupported {
            function: "f".to_owned(),
            parameter: "x".to_owned()
        })
    );
}

#[test]
fn duplicate_signatures_and_overloads_are_refused() {
    let mut modern = transaction(FunctionVersionPolicy::modern());
    modern.register(declaration_named("f")).unwrap();
    assert_eq!(
        modern.register(declaration_named("f")),
        Err(FunctionRegistryError::DuplicateSignature {
            name: "f".to_owned(),
            scope: FunctionScope::Global
        })
    );
    let overload = declaration("function f()", FunctionScope::Global, "f", vec![]);
    assert!(modern.register(overload).is_ok());

    let mut legacy = transaction(FunctionVersionPolicy::legacy_2_6_4());
    legacy.register(declaration_named("f")).unwrap();
    let overload = declaration("function f()", FunctionScope::Global, "f", vec![]);
    assert_eq!(
        legacy.register(overload),
        Err(FunctionRegistryError::OverloadsUnsupported { name: "f".to_owned() })
    );
}

#[test]
fn rollback_restores_the_savepoint() {
    let mut registry = transaction(FunctionVersionPolicy::modern());
    registry.register(declaration_named("a")).unwrap();
    let savepoint = registry.savepoint();
    assert_eq!(savepoint.registration_count(), 1);
    registry.register(declaration_named("b")).unwrap();
    registry.register(declaration_named("c")).unwrap();
    registry.rollback(savepoint).unwrap();
    assert_eq!(registry.lookup_functions("b", FunctionScope::Global).len(), 0);
    assert_eq!(registry.lookup_functions("a", FunctionScope::Global).len(), 1);
    let again = registry.register(declaration_named("d")).unwrap();
    assert_eq!(again.definition.registration_order, 1);

    let other = FunctionRegistryTransaction::with_transaction_id("doc", 7, FunctionVersionPolicy::modern(), 2);
    assert_eq!(
        registry.rollback(other.savepoint()),
        Err(FunctionRegistryError::InvalidSavepoint)
    );
}

#[test]
fn removal_by_span_and_freezing() {
    let mut registry = transaction(FunctionVersionPolicy::modern());
    let mut spanned = declaration_named("a");
    spanned.span = TextRange::new(0, 3);
    registry.register(spanned).unwrap();
    registry.register(declaration_named("b")).unwrap();
    assert_eq!(registry.remove_declarations_in_span(TextRange::new(0, 3)), Ok(1));
    assert_eq!(registry.remove_declarations_in_span(TextRange::new(0, 3)), Ok(0));
    let snapshot = registry.freeze().unwrap();
    assert!(registry.is_frozen());
    assert_eq!(snapshot.len(), 1);
    assert_eq!(snapshot.document_id(), "doc");
    assert_eq!(snapshot.revision(), 7);
    assert_eq!(snapshot.definitions()[0].name, "b");
    assert_eq!(registry.freeze(), Err(FunctionRegistryError::Frozen));
    assert_eq!(
        registry.register(declaration_named("c")),
        Err(FunctionRegistryError::Frozen)
    );
    assert_eq!(
        registry.remove_declarations_in_span(TextRange::new(0, 3)),
        Err(FunctionRegistryError::Frozen)
    );
}

#[test]
fn local_lookup_prefers_local_signatures() {
    let mut registry = transaction(FunctionVersionPolicy::modern());
    registry.register(declaration("g1", FunctionScope::Global, "f", vec![number("n")])).unwrap();
    registry
        .register(declaration(
            "g2",
            FunctionScope::Global,
            "f",
            vec![FunctionParameterDeclaration::required("s", class("java.lang.String"), true)],
        ))
        .unwrap();
    registry.register(declaration("l1", FunctionScope::Local, "f", vec![number("m")])).unwrap();
    let snapshot = registry.freeze().unwrap();
    let global: Vec<String> = snapshot
        .lookup("f", FunctionScope::Global)
        .into_iter()
        .map(|d| d.definition_id)
        .collect();
    assert_eq!(global, ["function:document:doc:0", "function:document:doc:1"]);
    let local: Vec<String> = snapshot
        .lookup_local_then_global("f")
        .into_iter()
        .map(|d| d.definition_id)
        .collect();
    assert_eq!(local, ["function:document:doc:2", "function:document:doc:1"]);
    assert_eq!(snapshot.lookup_references("f", FunctionScope::Local).len(), 2);
    assert!(snapshot.lookup("g", FunctionScope::Local).is_empty());
}
