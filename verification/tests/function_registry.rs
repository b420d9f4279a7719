use skript_parser::function_registry::{
    is_at_least_skript_minor, is_valid_function_name, scope_name, FunctionScope,
    FunctionVersionPolicy,
};

#[test]
fn version_presets_match_their_releases() {
    assert_eq!(
        FunctionVersionPolicy::for_skript_version(2, 15, 4),
        FunctionVersionPolicy::modern()
    );
    assert_eq!(
        FunctionVersionPolicy::for_skript_version(2, 6, 4),
        FunctionVersionPolicy::legacy_2_6_4()
    );
    assert_eq!(
        FunctionVersionPolicy::default(),
        FunctionVersionPolicy::modern()
    );
}

#[test]
fn version_boundaries_enable_features_in_order() {
    let v2_7 = FunctionVersionPolicy::for_skript_version(2, 7, 0);
    assert!(v2_7.allow_local_functions);
    assert!(!v2_7.allow_overloads);
    assert!(!v2_7.allow_returns_keyword);
    let v2_8 = FunctionVersionPolicy::for_skript_version_with_case_insensitive_variables(
        2, 8, 0, false,
    );
    assert!(v2_8.allow_returns_keyword);
    assert!(!v2_8.case_insensitive_parameters);
    let v2_7_sensitive =
        FunctionVersionPolicy::for_skript_version_with_case_insensitive_variables(
            2, 7, 0, false,
        );
    assert!(v2_7_sensitive.case_insensitive_parameters);
    let v2_14 = FunctionVersionPolicy::for_skript_version(2, 14, 0);
    assert!(v2_14.allow_arrow_return && v2_14.allow_named_arguments);
    assert!(!v2_14.wide_named_argument_names);
    let v3 = FunctionVersionPolicy::for_skript_version(3, 0, 0);
    assert_eq!(v3, FunctionVersionPolicy::modern());
    assert!(is_at_least_skript_minor(3, 0, 15));
    assert!(!is_at_least_skript_minor(1, 99, 0));
    assert!(is_at_least_skript_minor(2, 12, 12));
}

#[test]
fn function_names_follow_the_identifier_rule() {
    assert!(is_valid_function_name("give_item2", false));
    assert!(is_valid_function_name("straße", false));
    assert!(!is_valid_function_name("_hidden", false));
    assert!(is_valid_function_name("_hidden", true));
    assert!(!is_valid_function_name("", true));
    assert!(!is_valid_function_name("2fast", true));
    assert!(!is_valid_function_name("a-b", true));
    assert_eq!(scope_name(FunctionScope::Global), "global");
    assert_eq!(scope_name(FunctionScope::Local), "local");
}
