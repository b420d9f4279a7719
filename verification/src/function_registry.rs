//! Owned, transactional Function declarations for document parsing.
//!
//! A policy records which Function features a Skript version accepts: local
//! Functions, overloads, default values, named arguments, plural parameters,
//! leading underscores in names, the `returns` and `->` spellings, the wide
//! named-argument grammar and case-insensitive parameter names.
//!
//! A transaction validates each declaration against its policy, projects it
//! to the call definition the Function call parser reads, can be rolled back
//! to a savepoint, and freezes into an immutable snapshot whose lookups list
//! local declarations before the global ones they do not shadow.
use crate::expression::{lowercase_str, str_lowercase};
use crate::function::{clone_class, same_definition, same_text, ClassName, FunctionDefinition, FunctionParameterDefinition};
use crate::raw_tree::{decimal, push_offset, push_u64};
use crate::string_map::StringMap;
use crate::text::{blank, is_blank, TextRange};
use vstd::prelude::*;
use vstd::string::StringExecFns;
use vstd::utf8::encode_utf8;

verus! {

/// Scope of a Function declaration and the corresponding lookup behavior.
#[derive(Debug, Clone, Copy, PartialEq, Eq, Structural, Hash)]
pub enum FunctionScope {
    /// A project/document-wide Function.
    Global,
    /// A Function local to the current document scope.
    Local,
}

/// The scope a Function lookup asks for.
pub type FunctionLookupScope = FunctionScope;

/// Version-dependent Function declaration and lookup capabilities.
#[derive(Debug, Clone, Copy, PartialEq, Eq, Structural)]
pub struct FunctionVersionPolicy {
    /// Whether declarations with [`FunctionScope::Local`] are accepted.
    pub allow_local_functions: bool,
    /// Whether more than one signature with the same name is accepted.
    pub allow_overloads: bool,
    /// Whether parameters may carry a default source string.
    pub allow_default_values: bool,
    /// Whether the projected call definition accepts `name: value` syntax.
    pub allow_named_arguments: bool,
    /// Whether a parameter may receive a list rather than one value.
    pub allow_plural_parameters: bool,
    /// Whether a Function name may begin with `_` (Skript 2.12+).
    pub allow_leading_underscore: bool,
    /// Whether `returns` may introduce the return type (Skript 2.8+).
    pub allow_returns_keyword: bool,
    /// Whether `->` may introduce the return type (Skript 2.14+).
    pub allow_arrow_return: bool,
    /// Whether named call arguments use the broad 2.15+ name grammar.
    pub wide_named_argument_names: bool,
    /// Whether parameter names are compared case-insensitively.
    pub case_insensitive_parameters: bool,
}

/// The modern Function model of Skript 2.15.4: every feature is on.
pub open spec fn modern_policy() -> FunctionVersionPolicy {
    FunctionVersionPolicy {
        allow_local_functions: true,
        allow_overloads: true,
        allow_default_values: true,
        allow_named_arguments: true,
        allow_plural_parameters: true,
        allow_leading_underscore: true,
        allow_returns_keyword: true,
        allow_arrow_return: true,
        wide_named_argument_names: true,
        case_insensitive_parameters: true,
    }
}

/// The Function loader of Skript 2.6.4: global, non-overloaded Functions with
/// defaults and plural parameters.
pub open spec fn legacy_policy() -> FunctionVersionPolicy {
    FunctionVersionPolicy {
        allow_local_functions: false,
        allow_overloads: false,
        allow_default_values: true,
        allow_named_arguments: false,
        allow_plural_parameters: true,
        allow_leading_underscore: false,
        allow_returns_keyword: false,
        allow_arrow_return: false,
        wide_named_argument_names: false,
        case_insensitive_parameters: true,
    }
}

/// Skript `major.minor` is at least `2.required_minor`.
pub open spec fn at_least_minor(major: u32, minor: u32, required_minor: u32) -> bool {
    major > 2 || major == 2 && minor >= required_minor
}

/// The capabilities of a Skript version with the given variable-name setting.
pub open spec fn version_policy(major: u32, minor: u32, case_insensitive_variables: bool) -> FunctionVersionPolicy {
    FunctionVersionPolicy {
        allow_local_functions: at_least_minor(major, minor, 7),
        allow_overloads: at_least_minor(major, minor, 12),
        allow_default_values: true,
        allow_named_arguments: at_least_minor(major, minor, 14),
        allow_plural_parameters: true,
        allow_leading_underscore: at_least_minor(major, minor, 12),
        allow_returns_keyword: at_least_minor(major, minor, 8),
        allow_arrow_return: at_least_minor(major, minor, 14),
        wide_named_argument_names: at_least_minor(major, minor, 15),
        case_insensitive_parameters: if at_least_minor(major, minor, 8) {
            case_insensitive_variables
        } else {
            true
        },
    }
}

/// Whether Skript `major.minor` is at least `2.required_minor`.
pub fn is_at_least_skript_minor(major: u32, minor: u32, required_minor: u32) -> (r: bool)
    ensures
        r == at_least_minor(major, minor, required_minor),
{
    major > 2 || major == 2 && minor >= required_minor
}

impl FunctionVersionPolicy {
    /// Returns the modern preset.
    pub fn modern() -> (r: Self)
        ensures
            r == modern_policy(),
    {
        FunctionVersionPolicy {
            allow_local_functions: true,
            allow_overloads: true,
            allow_default_values: true,
            allow_named_arguments: true,
            allow_plural_parameters: true,
            allow_leading_underscore: true,
            allow_returns_keyword: true,
            allow_arrow_return: true,
            wide_named_argument_names: true,
            case_insensitive_parameters: true,
        }
    }

    /// Returns the 2.6.4-compatible preset.
    pub fn legacy_2_6_4() -> (r: Self)
        ensures
            r == legacy_policy(),
    {
        FunctionVersionPolicy {
            allow_local_functions: false,
            allow_overloads: false,
            allow_default_values: true,
            allow_named_arguments: false,
            allow_plural_parameters: true,
            allow_leading_underscore: false,
            allow_returns_keyword: false,
            allow_arrow_return: false,
            wide_named_argument_names: false,
            case_insensitive_parameters: true,
        }
    }

    /// Selects the stable-release feature boundaries, with Skript's default
    /// case-insensitive variable names.
    pub fn for_skript_version(major: u32, minor: u32, patch: u32) -> (r: Self)
        ensures
            r == version_policy(major, minor, true),
    {
        Self::for_skript_version_with_case_insensitive_variables(major, minor, patch, true)
    }

    /// Selects version capabilities and the effective variable-name setting:
    /// before 2.8 parameter names are always compared case-insensitively.
    pub fn for_skript_version_with_case_insensitive_variables(
        major: u32,
        minor: u32,
        patch: u32,
        case_insensitive_variables: bool,
    ) -> (r: Self)
        ensures
            r == version_policy(major, minor, case_insensitive_variables),
    {
        let _ = patch;
        FunctionVersionPolicy {
            allow_local_functions: is_at_least_skript_minor(major, minor, 7),
            allow_overloads: is_at_least_skript_minor(major, minor, 12),
            allow_default_values: true,
            allow_named_arguments: is_at_least_skript_minor(major, minor, 14),
            allow_plural_parameters: true,
            allow_leading_underscore: is_at_least_skript_minor(major, minor, 12),
            allow_returns_keyword: is_at_least_skript_minor(major, minor, 8),
            allow_arrow_return: is_at_least_skript_minor(major, minor, 14),
            wide_named_argument_names: is_at_least_skript_minor(major, minor, 15),
            case_insensitive_parameters: if is_at_least_skript_minor(major, minor, 8) {
                case_insensitive_variables
            } else {
                true
            },
        }
    }
}

impl Default for FunctionVersionPolicy {
    fn default() -> (r: Self)
        ensures
            r == modern_policy(),
    {
        Self::modern()
    }
}

/// The presets are the policies of the versions they are named after: Skript
/// 2.15 (any patch) selects the modern preset and Skript 2.6 the legacy one.
pub proof fn lemma_presets_match_versions(patch: u32)
    ensures
        version_policy(2, 15, true) == modern_policy(),
        version_policy(2, 6, true) == legacy_policy(),
{
}

/// Every feature a version allows stays allowed in every later version, given
/// the same variable-name setting (parameter-name case aside).
pub proof fn lemma_versions_only_add_features(minor: u32, later: u32, ci: bool)
    requires
        minor <= later,
    ensures
        version_policy(2, minor, ci).allow_local_functions ==> version_policy(2, later, ci).allow_local_functions,
        version_policy(2, minor, ci).allow_overloads ==> version_policy(2, later, ci).allow_overloads,
        version_policy(2, minor, ci).allow_named_arguments ==> version_policy(2, later, ci).allow_named_arguments,
        version_policy(2, minor, ci).allow_leading_underscore ==> version_policy(2, later, ci).allow_leading_underscore,
        version_policy(2, minor, ci).allow_returns_keyword ==> version_policy(2, later, ci).allow_returns_keyword,
        version_policy(2, minor, ci).allow_arrow_return ==> version_policy(2, later, ci).allow_arrow_return,
        version_policy(2, minor, ci).wide_named_argument_names ==> version_policy(2, later, ci).wide_named_argument_names,
{
}

/// The metadata name of a scope.
pub open spec fn scope_text(scope: FunctionScope) -> Seq<char> {
    match scope {
        FunctionScope::Global => seq!['g', 'l', 'o', 'b', 'a', 'l'],
        FunctionScope::Local => seq!['l', 'o', 'c', 'a', 'l'],
    }
}

/// Returns the metadata name of a scope.
pub fn scope_name(scope: FunctionScope) -> (r: &'static str)
    ensures
        r@ == scope_text(scope),
{
    match scope {
        FunctionScope::Global => {
            let r = "global";
            proof {
                reveal_strlit("global");
            }
            r
        },
        FunctionScope::Local => {
            let r = "local";
            proof {
                reveal_strlit("local");
            }
            r
        },
    }
}

/// Whether `char::is_alphabetic` holds of a character (Unicode `Alphabetic`).
pub uninterp spec fn alphabetic(c: char) -> bool;

/// Whether `char::is_alphanumeric` holds of a character (Unicode `Alphabetic`
/// or `Numeric`).
pub uninterp spec fn alphanumeric(c: char) -> bool;

/// Tests a character with `char::is_alphabetic`.
#[verifier::external_body]
pub(crate) fn is_alphabetic_char(c: char) -> (r: bool)
    ensures
        r == alphabetic(c),
{
    c.is_alphabetic()
}

/// Tests a character with `char::is_alphanumeric`.
#[verifier::external_body]
fn is_alphanumeric_char(c: char) -> (r: bool)
    ensures
        r == alphanumeric(c),
{
    c.is_alphanumeric()
}

/// A Function name starts with a letter (or `_` where allowed) and continues
/// with letters, digits and underscores.
pub open spec fn valid_function_name(name: Seq<char>, allow_leading_underscore: bool) -> bool {
    &&& name.len() > 0
    &&& (alphabetic(name[0]) || allow_leading_underscore && name[0] == '_')
    &&& forall|i: int| 1 <= i < name.len() ==> #[trigger] name[i] == '_' || alphanumeric(name[i])
}

/// Whether `name` is a valid Function name under the policy's underscore rule.
pub fn is_valid_function_name(name: &str, allow_leading_underscore: bool) -> (r: bool)
    ensures
        r == valid_function_name(name@, allow_leading_underscore),
{
    let chars = crate::expression::chars_of(name);
    if chars.len() == 0 {
        return false;
    }
    let first = chars[0];
    if !(is_alphabetic_char(first) || allow_leading_underscore && first == '_') {
        return false;
    }
    let mut k: usize = 1;
    while k < chars.len()
        invariant
            chars@ == name@,
            1 <= k <= chars@.len(),
            forall|i: int| 1 <= i < k ==> #[trigger] chars@[i] == '_' || alphanumeric(chars@[i]),
        decreases chars@.len() - k,
    {
        let c = chars[k];
        if !(c == '_' || is_alphanumeric_char(c)) {
            return false;
        }
        k = k + 1;
    }
    true
}

/// A savepoint into one Function registry transaction.
#[derive(Debug, Clone, Copy, PartialEq, Eq, Structural)]
pub struct FunctionRegistrySavepoint {
    transaction_id: u64,
    registration_count: usize,
    next_registration_order: usize,
}

impl FunctionRegistrySavepoint {
    /// The number of registrations this savepoint retains.
    pub closed spec fn retained(self) -> usize {
        self.registration_count
    }

    /// Number of registrations retained by this savepoint.
    pub fn registration_count(self) -> (r: usize)
        ensures
            r == self.retained(),
    {
        self.registration_count
    }
}

/// Errors raised while registering or freezing Function declarations.
#[derive(Debug, Clone, PartialEq, Eq)]
pub enum FunctionRegistryError {
    /// The transaction no longer accepts mutations.
    Frozen,
    /// The savepoint was created by another transaction.
    InvalidSavepoint,
    /// The declaration has no usable name.
    InvalidFunctionName,
    /// The declaration span is not a valid UTF-8 range in its source.
    InvalidDeclarationSpan { span: TextRange },
    /// A parameter name is empty.
    InvalidParameterName { function: String },
    /// Two parameters have the same named-argument/local-binding name.
    DuplicateParameter { function: String, parameter: String },
    /// A local declaration is not available in the selected Skript policy.
    LocalFunctionsUnsupported { name: String },
    /// A plural/list parameter is not available in the selected policy.
    PluralParametersUnsupported { function: String, parameter: String },
    /// Default expressions are not available in the selected policy.
    DefaultValuesUnsupported { function: String, parameter: String },
    /// The `returns` spelling is not available before Skript 2.8.
    ReturnsKeywordUnsupported { name: String },
    /// The `->` spelling is not available before Skript 2.14.
    ArrowReturnUnsupported { name: String },
    /// A second declaration with the same name and scope is not allowed.
    OverloadsUnsupported { name: String },
    /// An identical signature was registered twice in one scope.
    DuplicateSignature { name: String, scope: FunctionScope },
}

/// Parser ID used by definitions projected from document declarations.
pub const DOCUMENT_FUNCTION_PARSER_ID: &'static str = "document.function";

/// Return contract kept by a Function declaration.
#[derive(Debug, PartialEq, Eq)]
pub struct FunctionReturnContract {
    /// The Java class returned by the Function, or `None` for no return value.
    pub return_type: Option<ClassName>,
    /// Whether the return value is one value instead of a list.
    pub single: bool,
}

impl Clone for FunctionReturnContract {
    fn clone(&self) -> (r: Self)
        ensures
            r == *self,
    {
        FunctionReturnContract { return_type: clone_class(&self.return_type), single: self.single }
    }
}

impl FunctionReturnContract {
    /// Creates a no-return contract.
    pub fn none() -> (r: Self)
        ensures
            r.return_type is None,
            r.single,
    {
        FunctionReturnContract { return_type: None, single: true }
    }

    /// Creates a single-value return contract.
    pub fn single(return_type: ClassName) -> (r: Self)
        ensures
            r.return_type == Some(return_type),
            r.single,
    {
        FunctionReturnContract { return_type: Some(return_type), single: true }
    }

    /// Creates a plural/list return contract.
    pub fn multiple(return_type: ClassName) -> (r: Self)
        ensures
            r.return_type == Some(return_type),
            !r.single,
    {
        FunctionReturnContract { return_type: Some(return_type), single: false }
    }
}

impl Default for FunctionReturnContract {
    fn default() -> (r: Self)
        ensures
            r.return_type is None,
            r.single,
    {
        FunctionReturnContract::none()
    }
}

/// Source-facing parameter information from a Function declaration.
///
/// Plurality is `single == false`; a default expression stays source text.
#[derive(Debug, PartialEq, Eq)]
pub struct FunctionParameterDeclaration {
    /// Parameter name used by named arguments and local bindings.
    pub name: String,
    /// Declared Java/Skript value class.
    pub parameter_type: ClassName,
    /// Whether the parameter accepts exactly one value.
    pub single: bool,
    /// Source of the default expression, if the declaration has one.
    pub default_source: Option<String>,
}

impl Clone for FunctionParameterDeclaration {
    fn clone(&self) -> (r: Self)
        ensures
            r == *self,
    {
        FunctionParameterDeclaration {
            name: self.name.clone(),
            parameter_type: self.parameter_type.clone(),
            single: self.single,
            default_source: match &self.default_source {
                Some(source) => Some(source.clone()),
                None => None,
            },
        }
    }
}

impl FunctionParameterDeclaration {
    /// Creates a required single or plural parameter.
    pub fn required(name: &str, parameter_type: ClassName, single: bool) -> (r: Self)
        ensures
            r.name@ == name@,
            r.parameter_type == parameter_type,
            r.single == single,
            r.default_source is None,
    {
        FunctionParameterDeclaration { name: name.to_owned(), parameter_type, single, default_source: None }
    }

    /// Creates an optional parameter with an owned default source string.
    pub fn defaulted(name: &str, parameter_type: ClassName, single: bool, default_source: &str) -> (r: Self)
        ensures
            r.name@ == name@,
            r.parameter_type == parameter_type,
            r.single == single,
            r.default_source matches Some(d) && d@ == default_source@,
    {
        FunctionParameterDeclaration {
            name: name.to_owned(),
            parameter_type,
            single,
            default_source: Some(default_source.to_owned()),
        }
    }

    /// Returns whether the parameter has a default expression.
    pub fn is_defaulted(&self) -> (r: bool)
        ensures
            r == self.default_source is Some,
    {
        self.default_source.is_some()
    }
}

/// Complete source-facing Function declaration; `span` is relative to `source`.
#[derive(Debug, PartialEq, Eq)]
pub struct FunctionDeclaration {
    /// Original declaration text.
    pub source: String,
    /// Declaration range within `source`.
    pub span: TextRange,
    /// Visibility of the declaration.
    pub scope: FunctionScope,
    /// Function name used by call lookup.
    pub name: String,
    /// Ordered source-facing parameter declarations.
    pub parameters: Vec<FunctionParameterDeclaration>,
    /// Return type and multiplicity contract.
    pub return_contract: FunctionReturnContract,
    /// Extensible metadata preserved across projection.
    pub metadata: StringMap,
}

/// The two declarations agree field by field, lists and metadata by contents.
pub open spec fn same_declaration(a: FunctionDeclaration, b: FunctionDeclaration) -> bool {
    &&& a.source == b.source
    &&& a.span == b.span
    &&& a.scope == b.scope
    &&& a.name == b.name
    &&& a.parameters@ == b.parameters@
    &&& a.return_contract == b.return_contract
    &&& a.metadata.entry_seq() == b.metadata.entry_seq()
}

impl Clone for FunctionDeclaration {
    fn clone(&self) -> (r: Self)
        ensures
            same_declaration(r, *self),
    {
        let parameters = self.parameters.clone();
        proof {
            assert(parameters@ =~= self.parameters@);
        }
        FunctionDeclaration {
            source: self.source.clone(),
            span: self.span,
            scope: self.scope,
            name: self.name.clone(),
            parameters,
            return_contract: self.return_contract.clone(),
            metadata: self.metadata.clone(),
        }
    }
}

/// The name a parameter is compared under for duplicates.
pub open spec fn comparison_name(policy: FunctionVersionPolicy, name: Seq<char>) -> Seq<char> {
    if policy.case_insensitive_parameters {
        str_lowercase(name)
    } else {
        name
    }
}

/// The problem of parameter `i`, given that the parameters before it passed.
pub open spec fn parameter_problem(d: FunctionDeclaration, policy: FunctionVersionPolicy, i: int) -> Option<
    FunctionRegistryError,
> {
    let p = d.parameters@[i];
    if blank(encode_utf8(p.name@)) {
        Some(FunctionRegistryError::InvalidParameterName { function: d.name })
    } else if exists|j: int|
        0 <= j < i && comparison_name(policy, #[trigger] d.parameters@[j].name@) == comparison_name(policy, p.name@) {
        Some(FunctionRegistryError::DuplicateParameter { function: d.name, parameter: p.name })
    } else if !p.single && !policy.allow_plural_parameters {
        Some(FunctionRegistryError::PluralParametersUnsupported { function: d.name, parameter: p.name })
    } else if p.default_source is Some && !policy.allow_default_values {
        Some(FunctionRegistryError::DefaultValuesUnsupported { function: d.name, parameter: p.name })
    } else {
        None
    }
}

/// The first problem among the first `k` parameters.
pub open spec fn parameters_problem(d: FunctionDeclaration, policy: FunctionVersionPolicy, k: int) -> Option<
    FunctionRegistryError,
>
    decreases k,
{
    if k <= 0 {
        None
    } else {
        match parameters_problem(d, policy, k - 1) {
            Some(e) => Some(e),
            None => parameter_problem(d, policy, k - 1),
        }
    }
}

/// The first problem of a declaration under a policy, in the order they are checked.
pub open spec fn declaration_problem(d: FunctionDeclaration, policy: FunctionVersionPolicy) -> Option<
    FunctionRegistryError,
> {
    let syntax = d.metadata.value("function.return-syntax"@);
    if !valid_function_name(d.name@, policy.allow_leading_underscore) {
        Some(FunctionRegistryError::InvalidFunctionName)
    } else if !d.span.valid_for(encode_utf8(d.source@)) {
        Some(FunctionRegistryError::InvalidDeclarationSpan { span: d.span })
    } else if d.scope == FunctionScope::Local && !policy.allow_local_functions {
        Some(FunctionRegistryError::LocalFunctionsUnsupported { name: d.name })
    } else if syntax == Some("returns"@) && !policy.allow_returns_keyword {
        Some(FunctionRegistryError::ReturnsKeywordUnsupported { name: d.name })
    } else if syntax == Some("arrow"@) && !policy.allow_arrow_return {
        Some(FunctionRegistryError::ArrowReturnUnsupported { name: d.name })
    } else {
        parameters_problem(d, policy, d.parameters@.len() as int)
    }
}

impl FunctionDeclaration {
    /// Creates an owned declaration with empty extension metadata.
    pub fn new(
        source: &str,
        span: TextRange,
        scope: FunctionScope,
        name: &str,
        parameters: Vec<FunctionParameterDeclaration>,
        return_contract: FunctionReturnContract,
    ) -> (r: Self)
        ensures
            r.source@ == source@,
            r.span == span,
            r.scope == scope,
            r.name@ == name@,
            r.parameters == parameters,
            r.return_contract == return_contract,
            r.metadata.spec_map() == Map::<Seq<char>, Seq<char>>::empty(),
    {
        FunctionDeclaration {
            source: source.to_owned(),
            span,
            scope,
            name: name.to_owned(),
            parameters,
            return_contract,
            metadata: StringMap::new(),
        }
    }

    /// Adds one metadata value and returns the declaration for chaining.
    pub fn with_metadata(self, key: &str, value: &str) -> (r: Self)
        ensures
            r.metadata.spec_map() == self.metadata.spec_map().insert(key@, value@),
            r.source == self.source,
            r.span == self.span,
            r.scope == self.scope,
            r.name == self.name,
            r.parameters == self.parameters,
            r.return_contract == self.return_contract,
    {
        let mut r = self;
        r.metadata.insert(key.to_owned(), value.to_owned());
        r
    }

    /// Validates source, parameters, and policy-specific capabilities before
    /// a declaration mutates a transaction.
    pub fn validate(&self, policy: FunctionVersionPolicy) -> (r: Result<(), FunctionRegistryError>)
        ensures
            r == match declaration_problem(*self, policy) {
                Some(e) => Err(e),
                None => Ok(()),
            },
    {
        if !is_valid_function_name(self.name.as_str(), policy.allow_leading_underscore) {
            return Err(FunctionRegistryError::InvalidFunctionName);
        }
        if !self.span.is_valid_for(self.source.as_str()) {
            return Err(FunctionRegistryError::InvalidDeclarationSpan { span: self.span });
        }
        if self.scope == FunctionScope::Local && !policy.allow_local_functions {
            return Err(FunctionRegistryError::LocalFunctionsUnsupported { name: self.name.clone() });
        }
        match self.metadata.get("function.return-syntax") {
            Some(syntax) => {
                if same_text(syntax, "returns") && !policy.allow_returns_keyword {
                    return Err(FunctionRegistryError::ReturnsKeywordUnsupported { name: self.name.clone() });
                }
                if same_text(syntax, "arrow") && !policy.allow_arrow_return {
                    return Err(FunctionRegistryError::ArrowReturnUnsupported { name: self.name.clone() });
                }
            },
            None => {},
        }
        let ghost d = *self;
        let mut names: Vec<String> = Vec::new();
        let mut k: usize = 0;
        while k < self.parameters.len()
            invariant
                d == *self,
                k <= d.parameters@.len(),
                names@.len() == k,
                forall|j: int| 0 <= j < k ==> (#[trigger] names@[j])@ == comparison_name(policy, d.parameters@[j].name@),
                parameters_problem(d, policy, k as int) is None,
                declaration_problem(d, policy) == parameters_problem(d, policy, d.parameters@.len() as int),
            decreases d.parameters@.len() - k,
        {
            let parameter = &self.parameters[k];
            proof {
                lemma_problem_is_first(d, policy, k as int);
            }
            if is_blank(parameter.name.as_str()) {
                return Err(FunctionRegistryError::InvalidParameterName { function: self.name.clone() });
            }
            let comparison = if policy.case_insensitive_parameters {
                lowercase_str(parameter.name.as_str())
            } else {
                parameter.name.clone()
            };
            let mut j: usize = 0;
            while j < names.len()
                invariant
                    d == *self,
                    k < d.parameters@.len(),
                    *parameter == d.parameters@[k as int],
                    names@.len() == k,
                    forall|q: int| 0 <= q < k ==> (#[trigger] names@[q])@ == comparison_name(policy, d.parameters@[q].name@),
                    comparison@ == comparison_name(policy, d.parameters@[k as int].name@),
                    !blank(encode_utf8(d.parameters@[k as int].name@)),
                    parameters_problem(d, policy, k as int) is None,
                    declaration_problem(d, policy) == parameters_problem(d, policy, d.parameters@.len() as int),
                    j <= names@.len(),
                    forall|q: int| 0 <= q < j ==> (#[trigger] names@[q])@ != comparison@,
                decreases names@.len() - j,
            {
                if same_text(names[j].as_str(), comparison.as_str()) {
                    proof {
                        assert(comparison_name(policy, d.parameters@[j as int].name@) == comparison_name(policy, d.parameters@[k as int].name@));
                        lemma_problem_is_first(d, policy, k as int);
                    }
                    return Err(FunctionRegistryError::DuplicateParameter {
                        function: self.name.clone(),
                        parameter: parameter.name.clone(),
                    });
                }
                j = j + 1;
            }
            proof {
                assert(!exists|q: int|
                    0 <= q < k && comparison_name(policy, #[trigger] d.parameters@[q].name@) == comparison_name(policy, d.parameters@[k as int].name@)) by {
                    assert forall|q: int| 0 <= q < k implies comparison_name(policy, #[trigger] d.parameters@[q].name@) != comparison_name(policy, d.parameters@[k as int].name@) by {
                        assert(names@[q]@ != comparison@);
                    }
                }
                lemma_problem_is_first(d, policy, k as int);
            }
            if !parameter.single && !policy.allow_plural_parameters {
                return Err(FunctionRegistryError::PluralParametersUnsupported {
                    function: self.name.clone(),
                    parameter: parameter.name.clone(),
                });
            }
            if parameter.default_source.is_some() && !policy.allow_default_values {
                return Err(FunctionRegistryError::DefaultValuesUnsupported {
                    function: self.name.clone(),
                    parameter: parameter.name.clone(),
                });
            }
            names.push(comparison);
            k = k + 1;
        }
        Ok(())
    }
}

/// When the first `k` parameters pass, the first problem of `k + 1` is that of
/// parameter `k`, and it is the declaration's first problem too.
proof fn lemma_problem_is_first(d: FunctionDeclaration, policy: FunctionVersionPolicy, k: int)
    requires
        0 <= k < d.parameters@.len(),
        parameters_problem(d, policy, k) is None,
    ensures
        parameters_problem(d, policy, k + 1) == parameter_problem(d, policy, k),
        parameter_problem(d, policy, k) is Some ==> parameters_problem(d, policy, d.parameters@.len() as int)
            == parameter_problem(d, policy, k),
{
    if parameter_problem(d, policy, k) is Some {
        lemma_problem_persists(d, policy, k + 1, d.parameters@.len() as int);
    }
}

/// A problem found among the first `k` parameters stays the first one.
proof fn lemma_problem_persists(d: FunctionDeclaration, policy: FunctionVersionPolicy, k: int, n: int)
    requires
        0 < k <= n,
        parameters_problem(d, policy, k) is Some,
    ensures
        parameters_problem(d, policy, n) == parameters_problem(d, policy, k),
    decreases n - k,
{
    if n > k {
        lemma_problem_persists(d, policy, k, n - 1);
    }
}

/// The text `bool::to_string` gives.
pub open spec fn bool_text(b: bool) -> Seq<char> {
    if b {
        "true"@
    } else {
        "false"@
    }
}

/// The metadata key of one field of parameter `index`.
pub open spec fn parameter_key_text(index: int, field: Seq<char>) -> Seq<char> {
    "function.parameter."@ + decimal(index as nat) + "."@ + field
}

/// The identity of the definition a document registers `order`-th.
pub open spec fn definition_id_text(document_id: Seq<char>, order: usize) -> Seq<char> {
    "function:document:"@ + document_id + ":"@ + decimal(order as nat)
}

/// The declaration's metadata with the document-wide projection entries.
pub open spec fn base_metadata(
    d: FunctionDeclaration,
    document_id: Seq<char>,
    revision: u64,
    policy: FunctionVersionPolicy,
) -> Map<Seq<char>, Seq<char>> {
    d.metadata.spec_map().insert("function.scope"@, scope_text(d.scope)).insert(
        "function.document-id"@,
        document_id,
    ).insert("function.revision"@, decimal(revision as nat)).insert(
        "function.named-arguments"@,
        bool_text(policy.allow_named_arguments),
    ).insert(
        "function.named-argument-pattern"@,
        if policy.wide_named_argument_names {
            "wide"@
        } else {
            "ascii"@
        },
    )
}

/// `m` with the name, and any default source, of the first `k` parameters.
pub open spec fn parameter_metadata(m: Map<Seq<char>, Seq<char>>, ps: Seq<FunctionParameterDeclaration>, k: int) -> Map<
    Seq<char>,
    Seq<char>,
>
    decreases k,
{
    if k <= 0 {
        m
    } else {
        let before = parameter_metadata(m, ps, k - 1);
        let p = ps[k - 1];
        let named = before.insert(parameter_key_text(k - 1, "name"@), p.name@);
        match p.default_source {
            Some(source) => named.insert(parameter_key_text(k - 1, "default-source"@), source@),
            None => named,
        }
    }
}

/// The call-parser view of one declared parameter.
pub open spec fn parameter_definition(p: FunctionParameterDeclaration) -> FunctionParameterDefinition {
    FunctionParameterDefinition {
        name: p.name,
        parameter_type: p.parameter_type,
        single: p.single,
        optional: p.default_source is Some,
    }
}

/// `def` is the projection of declaration `d`, registered `order`-th in a
/// document revision.
pub open spec fn projects(
    def: FunctionDefinition,
    d: FunctionDeclaration,
    document_id: Seq<char>,
    revision: u64,
    order: usize,
    policy: FunctionVersionPolicy,
) -> bool {
    &&& def.parser_id@ == DOCUMENT_FUNCTION_PARSER_ID@
    &&& def.name == d.name
    &&& def.definition_id@ == definition_id_text(document_id, order)
    &&& def.registration_id@ == definition_id_text(document_id, order) + ":0"@
    &&& def.registration_order == order
    &&& def.return_type == d.return_contract.return_type
    &&& def.return_type_is_single == d.return_contract.single
    &&& def.parameters@ == d.parameters@.map_values(|p: FunctionParameterDeclaration| parameter_definition(p))
    &&& def.metadata.spec_map() == parameter_metadata(
        base_metadata(d, document_id, revision, policy),
        d.parameters@,
        d.parameters@.len() as int,
    )
}

/// Builds the metadata key of one field of a parameter.
fn parameter_key(index: usize, field: &str) -> (r: String)
    ensures
        r@ == parameter_key_text(index as int, field@),
{
    let mut key = "function.parameter.".to_owned();
    push_offset(&mut key, index);
    key.append(".");
    key.append(field);
    key
}

/// Builds the call-parser definition of a declaration.
fn project_definition(
    declaration: &FunctionDeclaration,
    document_id: &str,
    revision: u64,
    registration_order: usize,
    definition_id: String,
    registration_id: String,
    policy: FunctionVersionPolicy,
) -> (r: FunctionDefinition)
    requires
        definition_id@ == definition_id_text(document_id@, registration_order),
        registration_id@ == definition_id_text(document_id@, registration_order) + ":0"@,
    ensures
        projects(r, *declaration, document_id@, revision, registration_order, policy),
{
    let mut metadata = declaration.metadata.clone();
    metadata.insert("function.scope".to_owned(), scope_name(declaration.scope).to_owned());
    metadata.insert("function.document-id".to_owned(), document_id.to_owned());
    let mut revision_text = String::new();
    push_u64(&mut revision_text, revision);
    proof {
        assert(revision_text@ =~= decimal(revision as nat));
    }
    metadata.insert("function.revision".to_owned(), revision_text);
    let named = if policy.allow_named_arguments {
        "true".to_owned()
    } else {
        "false".to_owned()
    };
    metadata.insert("function.named-arguments".to_owned(), named);
    let pattern = if policy.wide_named_argument_names {
        "wide".to_owned()
    } else {
        "ascii".to_owned()
    };
    metadata.insert("function.named-argument-pattern".to_owned(), pattern);
    let ghost base = base_metadata(*declaration, document_id@, revision, policy);
    let ghost ps = declaration.parameters@;
    proof {
        assert(metadata.spec_map() == parameter_metadata(base, ps, 0));
    }
    let mut parameters: Vec<FunctionParameterDefinition> = Vec::new();
    let mut k: usize = 0;
    while k < declaration.parameters.len()
        invariant
            ps == declaration.parameters@,
            k <= ps.len(),
            metadata.spec_map() == parameter_metadata(base, ps, k as int),
            parameters@ == ps.take(k as int).map_values(|p: FunctionParameterDeclaration| parameter_definition(p)),
        decreases ps.len() - k,
    {
        let p = &declaration.parameters[k];
        metadata.insert(parameter_key(k, "name"), p.name.clone());
        match &p.default_source {
            Some(source) => {
                metadata.insert(parameter_key(k, "default-source"), source.clone());
            },
            None => {},
        }
        parameters.push(
            FunctionParameterDefinition {
                name: p.name.clone(),
                parameter_type: p.parameter_type.clone(),
                single: p.single,
                optional: p.default_source.is_some(),
            },
        );
        proof {
            assert(ps.take(k + 1) =~= ps.take(k as int).push(ps[k as int]));
            assert(parameters@ =~= ps.take(k + 1).map_values(|p: FunctionParameterDeclaration| parameter_definition(p)));
        }
        k = k + 1;
    }
    proof {
        assert(ps.take(ps.len() as int) =~= ps);
    }
    FunctionDefinition {
        parser_id: DOCUMENT_FUNCTION_PARSER_ID.to_owned(),
        name: declaration.name.clone(),
        definition_id,
        registration_id,
        registration_order,
        return_type: clone_class(&declaration.return_contract.return_type),
        return_type_is_single: declaration.return_contract.single,
        parameters,
        metadata,
    }
}

/// One accepted declaration together with its immutable call projection.
#[derive(Debug, PartialEq, Eq)]
pub struct FunctionRegistration {
    /// Complete source-facing declaration.
    pub declaration: FunctionDeclaration,
    /// Call-parser projection derived from `declaration`.
    pub definition: FunctionDefinition,
}

/// The two registrations agree, lists and metadata by contents.
pub open spec fn same_registration(a: FunctionRegistration, b: FunctionRegistration) -> bool {
    same_declaration(a.declaration, b.declaration) && same_definition(a.definition, b.definition)
}

impl Clone for FunctionRegistration {
    fn clone(&self) -> (r: Self)
        ensures
            same_registration(r, *self),
    {
        FunctionRegistration { declaration: self.declaration.clone(), definition: self.definition.clone() }
    }
}

/// The shape overloads are told apart by: each parameter's class and plurality.
pub open spec fn signature_shape(d: FunctionDeclaration) -> Seq<(Seq<char>, bool)> {
    d.parameters@.map_values(|p: FunctionParameterDeclaration| (p.parameter_type.0@, p.single))
}

/// Two declarations have the same name and scope.
pub open spec fn same_name_and_scope(a: FunctionDeclaration, b: FunctionDeclaration) -> bool {
    a.name@ == b.name@ && a.scope == b.scope
}

/// Whether two declarations have the same signature shape.
fn same_shape(a: &FunctionDeclaration, b: &FunctionDeclaration) -> (r: bool)
    ensures
        r == (signature_shape(*a) == signature_shape(*b)),
{
    if a.parameters.len() != b.parameters.len() {
        proof {
            assert(signature_shape(*a).len() != signature_shape(*b).len());
        }
        return false;
    }
    let mut k: usize = 0;
    while k < a.parameters.len()
        invariant
            a.parameters@.len() == b.parameters@.len(),
            k <= a.parameters@.len(),
            forall|i: int| 0 <= i < k ==> #[trigger] signature_shape(*a)[i] == signature_shape(*b)[i],
        decreases a.parameters@.len() - k,
    {
        let p = &a.parameters[k];
        let q = &b.parameters[k];
        if !(p.parameter_type.0 == q.parameter_type.0 && p.single == q.single) {
            proof {
                assert(signature_shape(*a)[k as int] != signature_shape(*b)[k as int]);
            }
            return false;
        }
        k = k + 1;
    }
    proof {
        assert(signature_shape(*a) =~= signature_shape(*b));
    }
    true
}

/// Mutable, document/revision-bound Function registry.
///
/// Savepoints make speculative registration cheap to roll back. Rejected
/// Structure candidates may also remove their provisional declaration by span.
#[derive(Debug)]
pub struct FunctionRegistryTransaction {
    document_id: String,
    revision: u64,
    policy: FunctionVersionPolicy,
    transaction_id: u64,
    registrations: Vec<FunctionRegistration>,
    next_registration_order: usize,
    frozen: bool,
}

impl FunctionRegistrySavepoint {
    /// The transaction that made this savepoint.
    pub closed spec fn owner(self) -> u64 {
        self.transaction_id
    }

    /// The registration order the savepoint restores.
    pub closed spec fn order(self) -> usize {
        self.next_registration_order
    }
}

impl FunctionRegistryTransaction {
    /// The document identity.
    pub closed spec fn spec_document_id(self) -> Seq<char> {
        self.document_id@
    }

    /// The document revision.
    pub closed spec fn spec_revision(self) -> u64 {
        self.revision
    }

    /// The version policy.
    pub closed spec fn spec_policy(self) -> FunctionVersionPolicy {
        self.policy
    }

    /// The identity savepoints are checked against.
    pub closed spec fn spec_id(self) -> u64 {
        self.transaction_id
    }

    /// The accepted registrations, in registration order.
    pub closed spec fn spec_registrations(self) -> Seq<FunctionRegistration> {
        self.registrations@
    }

    /// The order the next registration gets.
    pub closed spec fn spec_next_order(self) -> usize {
        self.next_registration_order
    }

    /// Whether the transaction was frozen.
    pub closed spec fn spec_frozen(self) -> bool {
        self.frozen
    }

    /// Starts an owned registry transaction for one document revision, under
    /// an identity that no other live transaction shares.
    pub fn with_transaction_id(
        document_id: &str,
        revision: u64,
        policy: FunctionVersionPolicy,
        transaction_id: u64,
    ) -> (r: Self)
        ensures
            r.spec_document_id() == document_id@,
            r.spec_revision() == revision,
            r.spec_policy() == policy,
            r.spec_id() == transaction_id,
            r.spec_registrations().len() == 0,
            r.spec_next_order() == 0,
            !r.spec_frozen(),
    {
        FunctionRegistryTransaction {
            document_id: document_id.to_owned(),
            revision,
            policy,
            transaction_id,
            registrations: Vec::new(),
            next_registration_order: 0,
            frozen: false,
        }
    }

    /// Returns the canonical document identity bound to this transaction.
    pub fn document_id(&self) -> (r: &str)
        ensures
            r@ == self.spec_document_id(),
    {
        self.document_id.as_str()
    }

    /// Returns the document revision bound to this transaction.
    pub fn revision(&self) -> (r: u64)
        ensures
            r == self.spec_revision(),
    {
        self.revision
    }

    /// Returns the version policy used for registration validation.
    pub fn policy(&self) -> (r: FunctionVersionPolicy)
        ensures
            r == self.spec_policy(),
    {
        self.policy
    }

    /// Returns whether this transaction has been frozen.
    pub fn is_frozen(&self) -> (r: bool)
        ensures
            r == self.spec_frozen(),
    {
        self.frozen
    }
}

/// Why a transaction refuses to register `d`, checked in this order.
pub open spec fn registration_problem(t: FunctionRegistryTransaction, d: FunctionDeclaration) -> Option<
    FunctionRegistryError,
> {
    let regs = t.spec_registrations();
    if t.spec_frozen() {
        Some(FunctionRegistryError::Frozen)
    } else {
        match declaration_problem(d, t.spec_policy()) {
            Some(e) => Some(e),
            None => if exists|i: int|
                0 <= i < regs.len() && same_name_and_scope(#[trigger] regs[i].declaration, d) && signature_shape(
                    regs[i].declaration,
                ) == signature_shape(d) {
                Some(FunctionRegistryError::DuplicateSignature { name: d.name, scope: d.scope })
            } else if !t.spec_policy().allow_overloads && exists|i: int|
                0 <= i < regs.len() && same_name_and_scope(#[trigger] regs[i].declaration, d) {
                Some(FunctionRegistryError::OverloadsUnsupported { name: d.name })
            } else {
                None
            },
        }
    }
}

/// The transaction counter after one more registration.
pub open spec fn next_order(order: usize) -> usize {
    if order < usize::MAX {
        (order + 1) as usize
    } else {
        order
    }
}

/// `t1` is `t0` with registration `reg` of `d` appended.
pub open spec fn registered(
    t0: FunctionRegistryTransaction,
    t1: FunctionRegistryTransaction,
    d: FunctionDeclaration,
    reg: FunctionRegistration,
) -> bool {
    &&& t1.spec_registrations() == t0.spec_registrations().push(reg)
    &&& reg.declaration == d
    &&& projects(
        reg.definition,
        d,
        t0.spec_document_id(),
        t0.spec_revision(),
        t0.spec_next_order(),
        t0.spec_policy(),
    )
    &&& t1.spec_next_order() == next_order(t0.spec_next_order())
    &&& t1.spec_document_id() == t0.spec_document_id()
    &&& t1.spec_revision() == t0.spec_revision()
    &&& t1.spec_policy() == t0.spec_policy()
    &&& t1.spec_id() == t0.spec_id()
    &&& t1.spec_frozen() == t0.spec_frozen()
}

/// `t1` is `t0` with only its registrations and counter changed.
pub open spec fn same_header(t0: FunctionRegistryTransaction, t1: FunctionRegistryTransaction) -> bool {
    &&& t1.spec_document_id() == t0.spec_document_id()
    &&& t1.spec_revision() == t0.spec_revision()
    &&& t1.spec_policy() == t0.spec_policy()
    &&& t1.spec_id() == t0.spec_id()
    &&& t1.spec_frozen() == t0.spec_frozen()
}

impl FunctionRegistryTransaction {
    /// Registers one declaration and returns its owned projection.
    pub fn register(&mut self, declaration: FunctionDeclaration) -> (r: Result<
        FunctionRegistration,
        FunctionRegistryError,
    >)
        ensures
            registration_problem(*old(self), declaration) matches Some(e) ==> r == Err::<
                FunctionRegistration,
                FunctionRegistryError,
            >(e) && *final(self) == *old(self),
            registration_problem(*old(self), declaration) is None ==> (r matches Ok(reg) && registered(
                *old(self),
                *final(self),
                declaration,
                final(self).spec_registrations().last(),
            ) && same_registration(reg, final(self).spec_registrations().last())),
    {
        if self.frozen {
            return Err(FunctionRegistryError::Frozen);
        }
        match declaration.validate(self.policy) {
            Err(e) => {
                return Err(e);
            },
            Ok(()) => {},
        }
        let ghost regs = self.registrations@;
        let mut same_scope = false;
        let mut duplicate = false;
        let mut k: usize = 0;
        while k < self.registrations.len()
            invariant
                regs == self.registrations@,
                k <= regs.len(),
                same_scope == exists|i: int| 0 <= i < k && same_name_and_scope(#[trigger] regs[i].declaration, declaration),
                duplicate == exists|i: int|
                    0 <= i < k && same_name_and_scope(#[trigger] regs[i].declaration, declaration) && signature_shape(
                        regs[i].declaration,
                    ) == signature_shape(declaration),
            decreases regs.len() - k,
        {
            let existing = &self.registrations[k].declaration;
            if existing.name == declaration.name && existing.scope == declaration.scope {
                same_scope = true;
                if same_shape(existing, &declaration) {
                    duplicate = true;
                }
            }
            proof {
                assert(regs[k as int].declaration == *existing);
            }
            k = k + 1;
        }
        if duplicate {
            return Err(FunctionRegistryError::DuplicateSignature { name: declaration.name.clone(), scope: declaration.scope });
        }
        if !self.policy.allow_overloads && same_scope {
            return Err(FunctionRegistryError::OverloadsUnsupported { name: declaration.name.clone() });
        }
        let order = self.next_registration_order;
        self.next_registration_order = if order < usize::MAX {
            order + 1
        } else {
            order
        };
        let mut definition_id = "function:document:".to_owned();
        definition_id.append(self.document_id.as_str());
        definition_id.append(":");
        push_offset(&mut definition_id, order);
        let mut registration_id = definition_id.clone();
        registration_id.append(":0");
        let definition = project_definition(
            &declaration,
            self.document_id.as_str(),
            self.revision,
            order,
            definition_id,
            registration_id,
            self.policy,
        );
        let registration = FunctionRegistration { declaration, definition };
        let result = registration.clone();
        self.registrations.push(registration);
        Ok(result)
    }

    /// Removes provisional declarations emitted by one rejected Structure header.
    pub fn remove_declarations_in_span(&mut self, span: TextRange) -> (r: Result<usize, FunctionRegistryError>)
        ensures
            old(self).spec_frozen() ==> r == Err::<usize, FunctionRegistryError>(FunctionRegistryError::Frozen)
                && *final(self) == *old(self),
            !old(self).spec_frozen() ==> r == Ok::<usize, FunctionRegistryError>(
                (old(self).spec_registrations().len() - final(self).spec_registrations().len()) as usize,
            ) && final(self).spec_registrations() == outside_span(old(self).spec_registrations(), span)
                && final(self).spec_next_order() == old(self).spec_next_order() && same_header(*old(self), *final(self)),
    {
        if self.frozen {
            return Err(FunctionRegistryError::Frozen);
        }
        let ghost regs = self.registrations@;
        let n = self.registrations.len();
        let mut rest: Vec<FunctionRegistration> = Vec::new();
        std::mem::swap(&mut rest, &mut self.registrations);
        let mut kept: Vec<FunctionRegistration> = Vec::new();
        let mut k: usize = 0;
        while rest.len() > 0
            invariant
                n == regs.len(),
                k <= regs.len(),
                rest@ == regs.skip(k as int),
                kept@ == outside_span(regs.take(k as int), span),
                kept@.len() <= k,
            decreases rest@.len(),
        {
            let registration = rest.remove(0);
            proof {
                assert(regs.take(k + 1).drop_last() =~= regs.take(k as int));
                assert(regs.skip(k + 1) =~= regs.skip(k as int).remove(0));
                assert(regs.take(k + 1).last() == regs[k as int]);
            }
            if registration.declaration.span != span {
                kept.push(registration);
            }
            k = k + 1;
        }
        proof {
            assert(regs.take(regs.len() as int) =~= regs);
            lemma_outside_span_len(regs, span);
        }
        let removed = regs_len_difference(k, kept.len());
        self.registrations = kept;
        Ok(removed)
    }

    /// Looks up declarations already accepted in this live transaction.
    pub fn lookup_functions(&self, name: &str, scope: FunctionScope) -> (r: Vec<FunctionDefinition>)
        ensures
            r@.len() == lookup_result(self.spec_registrations(), name@, scope).len(),
            forall|i: int|
                0 <= i < r@.len() ==> same_definition(
                    #[trigger] r@[i],
                    lookup_result(self.spec_registrations(), name@, scope)[i].definition,
                ),
    {
        definitions_of(lookup_references(self.registrations.as_slice(), name, scope))
    }

    /// Creates a rollback point for the current append-only state.
    pub fn savepoint(&self) -> (r: FunctionRegistrySavepoint)
        ensures
            r.owner() == self.spec_id(),
            r.retained() == self.spec_registrations().len(),
            r.order() == self.spec_next_order(),
    {
        FunctionRegistrySavepoint {
            transaction_id: self.transaction_id,
            registration_count: self.registrations.len(),
            next_registration_order: self.next_registration_order,
        }
    }

    /// Rolls the transaction back to a savepoint created by this transaction.
    pub fn rollback(&mut self, savepoint: FunctionRegistrySavepoint) -> (r: Result<(), FunctionRegistryError>)
        ensures
            old(self).spec_frozen() ==> r == Err::<(), FunctionRegistryError>(FunctionRegistryError::Frozen)
                && *final(self) == *old(self),
            !old(self).spec_frozen() && (savepoint.owner() != old(self).spec_id() || savepoint.retained()
                > old(self).spec_registrations().len()) ==> r == Err::<(), FunctionRegistryError>(
                FunctionRegistryError::InvalidSavepoint,
            ) && *final(self) == *old(self),
            !old(self).spec_frozen() && savepoint.owner() == old(self).spec_id() && savepoint.retained()
                <= old(self).spec_registrations().len() ==> r is Ok && rolled_back(*old(self), *final(self), savepoint),
    {
        if self.frozen {
            return Err(FunctionRegistryError::Frozen);
        }
        if savepoint.transaction_id != self.transaction_id || savepoint.registration_count > self.registrations.len() {
            return Err(FunctionRegistryError::InvalidSavepoint);
        }
        self.registrations.truncate(savepoint.registration_count);
        self.next_registration_order = savepoint.next_registration_order;
        Ok(())
    }

    /// Freezes this revision into an immutable lookup snapshot.
    pub fn freeze(&mut self) -> (r: Result<FunctionRegistrySnapshot, FunctionRegistryError>)
        ensures
            old(self).spec_frozen() ==> r == Err::<FunctionRegistrySnapshot, FunctionRegistryError>(
                FunctionRegistryError::Frozen,
            ) && *final(self) == *old(self),
            !old(self).spec_frozen() ==> final(self).spec_frozen() && final(self).spec_registrations()
                == old(self).spec_registrations() && final(self).spec_next_order() == old(self).spec_next_order()
                && final(self).spec_document_id() == old(self).spec_document_id() && final(self).spec_revision()
                == old(self).spec_revision() && final(self).spec_policy() == old(self).spec_policy()
                && final(self).spec_id() == old(self).spec_id() && (r matches Ok(s) && snapshot_of(s, *old(self))),
    {
        if self.frozen {
            return Err(FunctionRegistryError::Frozen);
        }
        self.frozen = true;
        let registrations = self.registrations.clone();
        Ok(
            FunctionRegistrySnapshot {
                document_id: self.document_id.clone(),
                revision: self.revision,
                policy: self.policy,
                registrations,
            },
        )
    }
}

/// `t1` is `t0` rolled back to savepoint `sp`.
pub open spec fn rolled_back(
    t0: FunctionRegistryTransaction,
    t1: FunctionRegistryTransaction,
    sp: FunctionRegistrySavepoint,
) -> bool {
    &&& t1.spec_registrations() == t0.spec_registrations().take(sp.retained() as int)
    &&& t1.spec_next_order() == sp.order()
    &&& same_header(t0, t1)
}

/// The difference of two lengths, the second no larger.
fn regs_len_difference(a: usize, b: usize) -> (r: usize)
    requires
        b <= a,
    ensures
        r == a - b,
{
    a - b
}

/// The registrations whose declaration span differs from `span`.
pub open spec fn outside_span(regs: Seq<FunctionRegistration>, span: TextRange) -> Seq<FunctionRegistration>
    decreases regs.len(),
{
    if regs.len() == 0 {
        Seq::empty()
    } else {
        let rest = outside_span(regs.drop_last(), span);
        if regs.last().declaration.span != span {
            rest.push(regs.last())
        } else {
            rest
        }
    }
}

proof fn lemma_outside_span_len(regs: Seq<FunctionRegistration>, span: TextRange)
    ensures
        outside_span(regs, span).len() <= regs.len(),
    decreases regs.len(),
{
    if regs.len() > 0 {
        lemma_outside_span_len(regs.drop_last(), span);
    }
}

/// The registrations named `name` in `scope`, in registration order.
pub open spec fn named_in(regs: Seq<FunctionRegistration>, name: Seq<char>, scope: FunctionScope) -> Seq<
    FunctionRegistration,
>
    decreases regs.len(),
{
    if regs.len() == 0 {
        Seq::empty()
    } else {
        let rest = named_in(regs.drop_last(), name, scope);
        if regs.last().declaration.name@ == name && regs.last().declaration.scope == scope {
            rest.push(regs.last())
        } else {
            rest
        }
    }
}

/// Some registration of `locals` has the signature shape of `g`.
pub open spec fn shadowed(locals: Seq<FunctionRegistration>, g: FunctionRegistration) -> bool {
    exists|i: int| 0 <= i < locals.len() && signature_shape(#[trigger] locals[i].declaration) == signature_shape(g.declaration)
}

/// The registrations of `globals` that no local one shadows.
pub open spec fn unshadowed(globals: Seq<FunctionRegistration>, locals: Seq<FunctionRegistration>) -> Seq<
    FunctionRegistration,
>
    decreases globals.len(),
{
    if globals.len() == 0 {
        Seq::empty()
    } else {
        let rest = unshadowed(globals.drop_last(), locals);
        if shadowed(locals, globals.last()) {
            rest
        } else {
            rest.push(globals.last())
        }
    }
}

/// What a lookup of `name` returns: global declarations for a global lookup;
/// for a local one, local declarations first, then the global ones whose
/// signature no local declaration shares.
pub open spec fn lookup_result(regs: Seq<FunctionRegistration>, name: Seq<char>, scope: FunctionScope) -> Seq<
    FunctionRegistration,
> {
    let global = named_in(regs, name, FunctionScope::Global);
    let local = named_in(regs, name, FunctionScope::Local);
    if scope == FunctionScope::Global {
        global
    } else {
        local + unshadowed(global, local)
    }
}

/// The registrations behind a sequence of references.
pub open spec fn deref_all(s: Seq<&FunctionRegistration>) -> Seq<FunctionRegistration> {
    s.map_values(|x: &FunctionRegistration| *x)
}

/// Finds the registrations a lookup of `name` in `scope` returns.
fn lookup_references<'a>(registrations: &'a [FunctionRegistration], name: &str, scope: FunctionScope) -> (r: Vec<
    &'a FunctionRegistration,
>)
    ensures
        deref_all(r@) == lookup_result(registrations@, name@, scope),
{
    let ghost regs = registrations@;
    let mut local: Vec<&FunctionRegistration> = Vec::new();
    let mut global: Vec<&FunctionRegistration> = Vec::new();
    let mut k: usize = 0;
    proof {
        assert(deref_all(local@) =~= Seq::<FunctionRegistration>::empty());
        assert(deref_all(global@) =~= Seq::<FunctionRegistration>::empty());
    }
    while k < registrations.len()
        invariant
            regs == registrations@,
            k <= regs.len(),
            deref_all(local@) == named_in(regs.take(k as int), name@, FunctionScope::Local),
            deref_all(global@) == named_in(regs.take(k as int), name@, FunctionScope::Global),
        decreases regs.len() - k,
    {
        let registration = &registrations[k];
        proof {
            assert(regs.take(k + 1).drop_last() =~= regs.take(k as int));
            assert(regs.take(k + 1).last() == regs[k as int]);
        }
        let ghost l0 = local@;
        let ghost g0 = global@;
        if same_text(registration.declaration.name.as_str(), name) {
            match registration.declaration.scope {
                FunctionScope::Local => local.push(registration),
                FunctionScope::Global => global.push(registration),
            }
        }
        proof {
            assert(deref_all(l0.push(registration)) =~= deref_all(l0).push(*registration));
            assert(deref_all(g0.push(registration)) =~= deref_all(g0).push(*registration));
        }
        k = k + 1;
    }
    proof {
        assert(regs.take(regs.len() as int) =~= regs);
    }
    if scope == FunctionScope::Global {
        return global;
    }
    let ghost locals = deref_all(local@);
    let ghost globals = deref_all(global@);
    let local_count = local.len();
    let mut result = local;
    let mut g: usize = 0;
    proof {
        assert(globals.take(0) =~= Seq::<FunctionRegistration>::empty());
        assert(locals + Seq::<FunctionRegistration>::empty() =~= locals);
    }
    while g < global.len()
        invariant
            globals == deref_all(global@),
            local_count == locals.len(),
            g <= globals.len(),
            deref_all(result@) == locals + unshadowed(globals.take(g as int), locals),
        decreases globals.len() - g,
    {
        let candidate = global[g];
        let mut l: usize = 0;
        let mut hidden = false;
        while l < local_count
            invariant
                globals == deref_all(global@),
                g < globals.len(),
                *candidate == globals[g as int],
                local_count == locals.len(),
                deref_all(result@) == locals + unshadowed(globals.take(g as int), locals),
                l <= locals.len(),
                hidden == exists|i: int|
                    0 <= i < l && signature_shape(#[trigger] locals[i].declaration) == signature_shape(candidate.declaration),
            decreases locals.len() - l,
        {
            proof {
                assert(deref_all(result@).len() == result@.len());
                assert(deref_all(result@)[l as int] == locals[l as int]);
            }
            let existing = result[l];
            if same_shape(&existing.declaration, &candidate.declaration) {
                hidden = true;
            }
            l = l + 1;
        }
        proof {
            assert(globals.take(g + 1).drop_last() =~= globals.take(g as int));
            assert(globals.take(g + 1).last() == globals[g as int]);
        }
        let ghost r0 = result@;
        if !hidden {
            result.push(candidate);
            proof {
                assert(deref_all(r0.push(candidate)) =~= deref_all(r0).push(*candidate));
            }
        }
        proof {
            assert(deref_all(result@) =~= locals + unshadowed(globals.take(g + 1), locals));
        }
        g = g + 1;
    }
    proof {
        assert(globals.take(globals.len() as int) =~= globals);
    }
    result
}

/// Clones the definitions of registrations.
fn definitions_of(registrations: Vec<&FunctionRegistration>) -> (r: Vec<FunctionDefinition>)
    ensures
        r@.len() == registrations@.len(),
        forall|i: int| 0 <= i < r@.len() ==> same_definition(#[trigger] r@[i], registrations@[i].definition),
{
    let mut r: Vec<FunctionDefinition> = Vec::new();
    let mut k: usize = 0;
    while k < registrations.len()
        invariant
            k <= registrations@.len(),
            r@.len() == k,
            forall|i: int| 0 <= i < k ==> same_definition(#[trigger] r@[i], registrations@[i].definition),
        decreases registrations@.len() - k,
    {
        r.push(registrations[k].definition.clone());
        k = k + 1;
    }
    r
}

/// Immutable declarations and call definitions for one document revision.
#[derive(Debug, PartialEq, Eq)]
pub struct FunctionRegistrySnapshot {
    document_id: String,
    revision: u64,
    policy: FunctionVersionPolicy,
    registrations: Vec<FunctionRegistration>,
}

/// `s` freezes transaction `t`: the same identity, policy and registrations.
pub open spec fn snapshot_of(s: FunctionRegistrySnapshot, t: FunctionRegistryTransaction) -> bool {
    &&& s.spec_document_id() == t.spec_document_id()
    &&& s.spec_revision() == t.spec_revision()
    &&& s.spec_policy() == t.spec_policy()
    &&& s.spec_registrations().len() == t.spec_registrations().len()
    &&& forall|i: int|
        0 <= i < s.spec_registrations().len() ==> same_registration(
            #[trigger] s.spec_registrations()[i],
            t.spec_registrations()[i],
        )
}

impl FunctionRegistrySnapshot {
    /// The document identity.
    pub closed spec fn spec_document_id(self) -> Seq<char> {
        self.document_id@
    }

    /// The document revision.
    pub closed spec fn spec_revision(self) -> u64 {
        self.revision
    }

    /// The version policy.
    pub closed spec fn spec_policy(self) -> FunctionVersionPolicy {
        self.policy
    }

    /// The accepted registrations, in registration order.
    pub closed spec fn spec_registrations(self) -> Seq<FunctionRegistration> {
        self.registrations@
    }

    /// Returns the document identity used to create this snapshot.
    pub fn document_id(&self) -> (r: &str)
        ensures
            r@ == self.spec_document_id(),
    {
        self.document_id.as_str()
    }

    /// Returns the exact source revision represented by this snapshot.
    pub fn revision(&self) -> (r: u64)
        ensures
            r == self.spec_revision(),
    {
        self.revision
    }

    /// Returns the policy used to create this snapshot.
    pub fn policy(&self) -> (r: FunctionVersionPolicy)
        ensures
            r == self.spec_policy(),
    {
        self.policy
    }

    /// Returns all accepted declaration/projection pairs in registration order.
    pub fn registrations(&self) -> (r: &[FunctionRegistration])
        ensures
            r@ == self.spec_registrations(),
    {
        self.registrations.as_slice()
    }

    /// Returns all immutable call definitions in registration order.
    pub fn definitions(&self) -> (r: Vec<FunctionDefinition>)
        ensures
            r@.len() == self.spec_registrations().len(),
            forall|i: int| 0 <= i < r@.len() ==> same_definition(#[trigger] r@[i], self.spec_registrations()[i].definition),
    {
        let mut r: Vec<FunctionDefinition> = Vec::new();
        let mut k: usize = 0;
        while k < self.registrations.len()
            invariant
                k <= self.registrations@.len(),
                r@.len() == k,
                forall|i: int| 0 <= i < k ==> same_definition(#[trigger] r@[i], self.registrations@[i].definition),
            decreases self.registrations@.len() - k,
        {
            r.push(self.registrations[k].definition.clone());
            k = k + 1;
        }
        r
    }

    /// Looks up a name using the selected global or local-first scope.
    pub fn lookup(&self, name: &str, scope: FunctionScope) -> (r: Vec<FunctionDefinition>)
        ensures
            r@.len() == lookup_result(self.spec_registrations(), name@, scope).len(),
            forall|i: int|
                0 <= i < r@.len() ==> same_definition(
                    #[trigger] r@[i],
                    lookup_result(self.spec_registrations(), name@, scope)[i].definition,
                ),
    {
        definitions_of(lookup_references(self.registrations.as_slice(), name, scope))
    }

    /// The lookup an expression environment makes.
    pub fn lookup_functions(&self, name: &str, scope: FunctionScope) -> (r: Vec<FunctionDefinition>)
        ensures
            r@.len() == lookup_result(self.spec_registrations(), name@, scope).len(),
            forall|i: int|
                0 <= i < r@.len() ==> same_definition(
                    #[trigger] r@[i],
                    lookup_result(self.spec_registrations(), name@, scope)[i].definition,
                ),
    {
        self.lookup(name, scope)
    }

    /// Returns matching registrations without cloning their definitions.
    pub fn lookup_references(&self, name: &str, scope: FunctionScope) -> (r: Vec<&FunctionRegistration>)
        ensures
            deref_all(r@) == lookup_result(self.spec_registrations(), name@, scope),
    {
        lookup_references(self.registrations.as_slice(), name, scope)
    }

    /// Convenience lookup that makes the local-before-global rule explicit.
    pub fn lookup_local_then_global(&self, name: &str) -> (r: Vec<FunctionDefinition>)
        ensures
            r@.len() == lookup_result(self.spec_registrations(), name@, FunctionScope::Local).len(),
            forall|i: int|
                0 <= i < r@.len() ==> same_definition(
                    #[trigger] r@[i],
                    lookup_result(self.spec_registrations(), name@, FunctionScope::Local)[i].definition,
                ),
    {
        self.lookup(name, FunctionScope::Local)
    }

    /// Returns the number of accepted declarations in this revision.
    pub fn len(&self) -> (r: usize)
        ensures
            r == self.spec_registrations().len(),
    {
        self.registrations.len()
    }

    /// Returns whether this snapshot contains no Function declarations.
    pub fn is_empty(&self) -> (r: bool)
        ensures
            r == (self.spec_registrations().len() == 0),
    {
        self.registrations.len() == 0
    }
}

/// `t1` kept the header of `t0` and every registration `t0` had, in place.
pub open spec fn extends(t0: FunctionRegistryTransaction, t1: FunctionRegistryTransaction) -> bool {
    &&& same_header(t0, t1)
    &&& t0.spec_registrations().len() <= t1.spec_registrations().len()
    &&& t1.spec_registrations().take(t0.spec_registrations().len() as int) == t0.spec_registrations()
}

/// `sp` is the savepoint `t.savepoint()` returns.
pub open spec fn savepoint_of(sp: FunctionRegistrySavepoint, t: FunctionRegistryTransaction) -> bool {
    &&& sp.owner() == t.spec_id()
    &&& sp.retained() == t.spec_registrations().len()
    &&& sp.order() == t.spec_next_order()
}

/// A registration keeps every earlier registration: the transaction only grows.
pub proof fn lemma_register_extends(
    t0: FunctionRegistryTransaction,
    t1: FunctionRegistryTransaction,
    d: FunctionDeclaration,
    reg: FunctionRegistration,
)
    requires
        registered(t0, t1, d, reg),
    ensures
        extends(t0, t1),
{
    assert(t1.spec_registrations().take(t0.spec_registrations().len() as int) =~= t0.spec_registrations());
}

/// Growth composes.
pub proof fn lemma_extends_transitive(
    t0: FunctionRegistryTransaction,
    t1: FunctionRegistryTransaction,
    t2: FunctionRegistryTransaction,
)
    requires
        extends(t0, t1),
        extends(t1, t2),
    ensures
        extends(t0, t2),
{
    let n = t0.spec_registrations().len() as int;
    assert(t2.spec_registrations().take(n) =~= t2.spec_registrations().take(
        t1.spec_registrations().len() as int,
    ).take(n));
}

/// Rolling back to a savepoint after the transaction only grew restores the
/// registrations and the registration counter the savepoint saw.
pub proof fn lemma_rollback_restores(
    t0: FunctionRegistryTransaction,
    sp: FunctionRegistrySavepoint,
    t1: FunctionRegistryTransaction,
    t2: FunctionRegistryTransaction,
)
    requires
        savepoint_of(sp, t0),
        extends(t0, t1),
        rolled_back(t1, t2, sp),
    ensures
        t2.spec_registrations() == t0.spec_registrations(),
        t2.spec_next_order() == t0.spec_next_order(),
        same_header(t0, t2),
{
}

/// `t1` is what `register(d)` leaves of `t0`: `t0` itself when the declaration
/// is refused, else `t0` with the new registration appended.
pub open spec fn register_step(t0: FunctionRegistryTransaction, t1: FunctionRegistryTransaction, d: FunctionDeclaration) -> bool {
    if registration_problem(t0, d) is Some {
        t1 == t0
    } else {
        registered(t0, t1, d, t1.spec_registrations().last())
    }
}

/// After the first `k` steps of a run of `register` calls the transaction has only grown.
proof fn lemma_steps_extend(ts: Seq<FunctionRegistryTransaction>, ds: Seq<FunctionDeclaration>, k: int)
    requires
        ts.len() == ds.len() + 1,
        0 <= k <= ds.len(),
        forall|q: int| 0 <= q < ds.len() ==> register_step(#[trigger] ts[q], ts[q + 1], ds[q]),
    ensures
        extends(ts[0], ts[k]),
    decreases k,
{
    if k == 0 {
        assert(ts[0].spec_registrations().take(ts[0].spec_registrations().len() as int) =~= ts[0].spec_registrations());
    } else {
        lemma_steps_extend(ts, ds, k - 1);
        assert(register_step(ts[k - 1], ts[k], ds[k - 1]));
        if registration_problem(ts[k - 1], ds[k - 1]) is None {
            lemma_register_extends(ts[k - 1], ts[k], ds[k - 1], ts[k].spec_registrations().last());
            lemma_extends_transitive(ts[0], ts[k - 1], ts[k]);
        }
    }
}

/// Any run of `register` calls between a savepoint and a rollback, accepted
/// or refused, is undone by the rollback: the registrations, and with them
/// every lookup, and the next registration order are those the savepoint saw.
pub proof fn lemma_rollback_undoes_registrations(
    ts: Seq<FunctionRegistryTransaction>,
    ds: Seq<FunctionDeclaration>,
    sp: FunctionRegistrySavepoint,
    last: FunctionRegistryTransaction,
)
    requires
        ts.len() == ds.len() + 1,
        savepoint_of(sp, ts[0]),
        forall|q: int| 0 <= q < ds.len() ==> register_step(#[trigger] ts[q], ts[q + 1], ds[q]),
        rolled_back(ts[ds.len() as int], last, sp),
    ensures
        last.spec_registrations() == ts[0].spec_registrations(),
        forall|name: Seq<char>, scope: FunctionScope|
            lookup_result(#[trigger] last.spec_registrations(), name, scope) == lookup_result(
                ts[0].spec_registrations(),
                name,
                scope,
            ),
        last.spec_next_order() == ts[0].spec_next_order(),
        same_header(ts[0], last),
{
    lemma_steps_extend(ts, ds, ds.len() as int);
    lemma_rollback_restores(ts[0], sp, ts[ds.len() as int], last);
}

/// No two registrations of one name in one scope share a signature shape.
pub open spec fn distinct_signatures(regs: Seq<FunctionRegistration>) -> bool {
    forall|i: int, j: int|
        0 <= i < j < regs.len() && same_name_and_scope(#[trigger] regs[i].declaration, #[trigger] regs[j].declaration)
            ==> signature_shape(regs[i].declaration) != signature_shape(regs[j].declaration)
}

/// At most one registration per name and scope.
pub open spec fn no_overloads(regs: Seq<FunctionRegistration>) -> bool {
    forall|i: int, j: int|
        0 <= i < j < regs.len() ==> !same_name_and_scope(#[trigger] regs[i].declaration, #[trigger] regs[j].declaration)
}

/// An accepted registration keeps signatures distinct, and keeps a single
/// declaration per name and scope where the policy allows no overloads.
pub proof fn lemma_register_keeps_signatures_distinct(
    t0: FunctionRegistryTransaction,
    t1: FunctionRegistryTransaction,
    d: FunctionDeclaration,
    reg: FunctionRegistration,
)
    requires
        distinct_signatures(t0.spec_registrations()),
        registration_problem(t0, d) is None,
        registered(t0, t1, d, reg),
    ensures
        distinct_signatures(t1.spec_registrations()),
        !t0.spec_policy().allow_overloads && no_overloads(t0.spec_registrations()) ==> no_overloads(
            t1.spec_registrations(),
        ),
{
    let r0 = t0.spec_registrations();
    let r1 = t1.spec_registrations();
    assert forall|i: int, j: int|
        0 <= i < j < r1.len() && same_name_and_scope(#[trigger] r1[i].declaration, #[trigger] r1[j].declaration) implies signature_shape(
        r1[i].declaration) != signature_shape(r1[j].declaration) by {
        if j == r0.len() {
            assert(r1[i] == r0[i]);
            assert(r1[j].declaration == d);
            if signature_shape(r0[i].declaration) == signature_shape(d) {
                assert(same_name_and_scope(r0[i].declaration, d));
            }
        } else {
            assert(r1[i] == r0[i] && r1[j] == r0[j]);
        }
    }
    if !t0.spec_policy().allow_overloads && no_overloads(r0) {
        assert forall|i: int, j: int| 0 <= i < j < r1.len() implies !same_name_and_scope(
            #[trigger] r1[i].declaration,
            #[trigger] r1[j].declaration,
        ) by {
            if j == r0.len() {
                assert(r1[i] == r0[i]);
                assert(r1[j].declaration == d);
                if same_name_and_scope(r0[i].declaration, d) {
                    assert(same_name_and_scope(r0[i].declaration, d));
                }
            } else {
                assert(r1[i] == r0[i] && r1[j] == r0[j]);
            }
        }
    }
}

/// Rolling back keeps signatures distinct: it keeps a prefix.
pub proof fn lemma_rollback_keeps_signatures_distinct(
    t1: FunctionRegistryTransaction,
    t2: FunctionRegistryTransaction,
    sp: FunctionRegistrySavepoint,
)
    requires
        distinct_signatures(t1.spec_registrations()),
        sp.retained() <= t1.spec_registrations().len(),
        rolled_back(t1, t2, sp),
    ensures
        distinct_signatures(t2.spec_registrations()),
{
    let r1 = t1.spec_registrations();
    let r2 = t2.spec_registrations();
    assert forall|i: int, j: int|
        0 <= i < j < r2.len() && same_name_and_scope(#[trigger] r2[i].declaration, #[trigger] r2[j].declaration) implies signature_shape(
        r2[i].declaration) != signature_shape(r2[j].declaration) by {
        assert(r2[i] == r1[i] && r2[j] == r1[j]);
    }
}

/// The two lists agree registration by registration.
pub open spec fn same_registrations(a: Seq<FunctionRegistration>, b: Seq<FunctionRegistration>) -> bool {
    a.len() == b.len() && forall|i: int| 0 <= i < a.len() ==> same_registration(#[trigger] a[i], b[i])
}

proof fn lemma_named_in_same(a: Seq<FunctionRegistration>, b: Seq<FunctionRegistration>, name: Seq<char>, scope: FunctionScope)
    requires
        same_registrations(a, b),
    ensures
        same_registrations(named_in(a, name, scope), named_in(b, name, scope)),
    decreases a.len(),
{
    if a.len() > 0 {
        assert(same_registrations(a.drop_last(), b.drop_last())) by {
            assert forall|i: int| 0 <= i < a.drop_last().len() implies same_registration(
                #[trigger] a.drop_last()[i],
                b.drop_last()[i],
            ) by {
                assert(same_registration(a[i], b[i]));
            }
        }
        lemma_named_in_same(a.drop_last(), b.drop_last(), name, scope);
        assert(same_registration(a.last(), b.last()));
        let ra = named_in(a.drop_last(), name, scope);
        let rb = named_in(b.drop_last(), name, scope);
        if a.last().declaration.name@ == name && a.last().declaration.scope == scope {
            assert forall|i: int| 0 <= i < ra.push(a.last()).len() implies same_registration(
                #[trigger] ra.push(a.last())[i],
                rb.push(b.last())[i],
            ) by {
                if i < ra.len() {
                    assert(same_registration(ra[i], rb[i]));
                }
            }
        }
    }
}

proof fn lemma_shadowed_same(l1: Seq<FunctionRegistration>, l2: Seq<FunctionRegistration>, g1: FunctionRegistration, g2: FunctionRegistration)
    requires
        same_registrations(l1, l2),
        same_registration(g1, g2),
    ensures
        shadowed(l1, g1) == shadowed(l2, g2),
{
    if shadowed(l1, g1) {
        let i = choose|i: int| 0 <= i < l1.len() && signature_shape(#[trigger] l1[i].declaration) == signature_shape(g1.declaration);
        assert(same_registration(l1[i], l2[i]));
        assert(signature_shape(l2[i].declaration) == signature_shape(g2.declaration));
    }
    if shadowed(l2, g2) {
        let i = choose|i: int| 0 <= i < l2.len() && signature_shape(#[trigger] l2[i].declaration) == signature_shape(g2.declaration);
        assert(same_registration(l1[i], l2[i]));
        assert(signature_shape(l1[i].declaration) == signature_shape(g1.declaration));
    }
}

proof fn lemma_unshadowed_same(
    g1: Seq<FunctionRegistration>,
    g2: Seq<FunctionRegistration>,
    l1: Seq<FunctionRegistration>,
    l2: Seq<FunctionRegistration>,
)
    requires
        same_registrations(g1, g2),
        same_registrations(l1, l2),
    ensures
        same_registrations(unshadowed(g1, l1), unshadowed(g2, l2)),
    decreases g1.len(),
{
    if g1.len() > 0 {
        assert(same_registrations(g1.drop_last(), g2.drop_last())) by {
            assert forall|i: int| 0 <= i < g1.drop_last().len() implies same_registration(
                #[trigger] g1.drop_last()[i],
                g2.drop_last()[i],
            ) by {
                assert(same_registration(g1[i], g2[i]));
            }
        }
        lemma_unshadowed_same(g1.drop_last(), g2.drop_last(), l1, l2);
        assert(same_registration(g1.last(), g2.last()));
        lemma_shadowed_same(l1, l2, g1.last(), g2.last());
        let r1 = unshadowed(g1.drop_last(), l1);
        let r2 = unshadowed(g2.drop_last(), l2);
        if !shadowed(l1, g1.last()) {
            assert forall|i: int| 0 <= i < r1.push(g1.last()).len() implies same_registration(
                #[trigger] r1.push(g1.last())[i],
                r2.push(g2.last())[i],
            ) by {
                if i < r1.len() {
                    assert(same_registration(r1[i], r2[i]));
                }
            }
        }
    }
}

/// A frozen snapshot answers every lookup as its transaction did when it was
/// frozen: the same registrations, in the same order.
pub proof fn lemma_snapshot_lookups_match(
    t: FunctionRegistryTransaction,
    s: FunctionRegistrySnapshot,
    name: Seq<char>,
    scope: FunctionScope,
)
    requires
        snapshot_of(s, t),
    ensures
        same_registrations(
            lookup_result(s.spec_registrations(), name, scope),
            lookup_result(t.spec_registrations(), name, scope),
        ),
{
    let a = s.spec_registrations();
    let b = t.spec_registrations();
    lemma_named_in_same(a, b, name, FunctionScope::Global);
    lemma_named_in_same(a, b, name, FunctionScope::Local);
    if scope == FunctionScope::Local {
        let l1 = named_in(a, name, FunctionScope::Local);
        let l2 = named_in(b, name, FunctionScope::Local);
        let g1 = named_in(a, name, FunctionScope::Global);
        let g2 = named_in(b, name, FunctionScope::Global);
        lemma_unshadowed_same(g1, g2, l1, l2);
        let u1 = unshadowed(g1, l1);
        let u2 = unshadowed(g2, l2);
        assert forall|i: int| 0 <= i < (l1 + u1).len() implies same_registration(
            #[trigger] (l1 + u1)[i],
            (l2 + u2)[i],
        ) by {
            if i < l1.len() {
                assert(same_registration(l1[i], l2[i]));
            } else {
                assert(same_registration(u1[i - l1.len()], u2[i - l1.len()]));
            }
        }
    }
}

} // verus!
