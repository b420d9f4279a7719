//! Function call syntax: `name(arguments)`, its comma-separated arguments with
//! optional `name:` labels, and parenthesized argument lists.
use crate::function_registry::alphabetic;
use crate::pattern_match::{
    char_at, char_at_spec, find_parenthesis_end, find_quote_end, find_variable_end,
    first_char_width, java_trim, java_trim_range, lemma_java_trim_bounds, lemma_parenthesis_end_bounds,
    lemma_quote_end_bounds, lemma_variable_end_bounds, parenthesis_end, quote_end, variable_end,
};
use crate::expression::ascii_fold;
use crate::string_map::StringMap;
use crate::text::{
    boundary, bytes_of, lemma_after_ascii, str_slice, whitespace_len_at, whitespace_len_before, ws_len,
    ws_len_before, TextRange,
};
use vstd::prelude::*;
use vstd::string::{StringExecFns, StringSliceAdditionalSpecFns};
use vstd::utf8::*;

verus! {

broadcast use vstd::utf8::group_utf8_lib;

/// A Java value class as the catalog names it, such as `java.lang.Number`.
#[derive(Debug, PartialEq, Eq, Hash)]
pub struct ClassName(pub String);

impl Clone for ClassName {
    fn clone(&self) -> (r: Self)
        ensures
            r == *self,
    {
        ClassName(self.0.clone())
    }
}

/// Where an Expression is parsed: the syntax context, the event classes in
/// scope and the parse values.
#[derive(Debug)]
pub struct ExpressionParseContext {
    pub syntax_context: u64,
    pub event_classes: Vec<ClassName>,
    pub values: StringMap,
}

/// Request for the Function definitions outside the catalog that are visible
/// where a call is parsed.
pub struct FunctionLookupRequest<'a> {
    pub name: &'a str,
    pub context: &'a ExpressionParseContext,
}

/// Clones an optional class name.
pub fn clone_class(c: &Option<ClassName>) -> (r: Option<ClassName>)
    ensures
        r == *c,
{
    match c {
        Some(name) => Some(name.clone()),
        None => None,
    }
}

/// One parameter in a Function definition.
#[derive(Debug, PartialEq, Eq)]
pub struct FunctionParameterDefinition {
    pub name: String,
    pub parameter_type: ClassName,
    pub single: bool,
    pub optional: bool,
}

impl Clone for FunctionParameterDefinition {
    fn clone(&self) -> (r: Self)
        ensures
            r == *self,
    {
        FunctionParameterDefinition {
            name: self.name.clone(),
            parameter_type: self.parameter_type.clone(),
            single: self.single,
            optional: self.optional,
        }
    }
}

/// One Function signature consumable by the call parser.
#[derive(Debug, PartialEq, Eq)]
pub struct FunctionDefinition {
    pub parser_id: String,
    pub name: String,
    pub definition_id: String,
    pub registration_id: String,
    pub registration_order: usize,
    pub return_type: Option<ClassName>,
    pub return_type_is_single: bool,
    pub parameters: Vec<FunctionParameterDefinition>,
    pub metadata: StringMap,
}

/// The two definitions agree field by field, lists and metadata by contents.
pub open spec fn same_definition(a: FunctionDefinition, b: FunctionDefinition) -> bool {
    &&& a.parser_id == b.parser_id
    &&& a.name == b.name
    &&& a.definition_id == b.definition_id
    &&& a.registration_id == b.registration_id
    &&& a.registration_order == b.registration_order
    &&& a.return_type == b.return_type
    &&& a.return_type_is_single == b.return_type_is_single
    &&& a.parameters@ == b.parameters@
    &&& a.metadata.entry_seq() == b.metadata.entry_seq()
}

impl Clone for FunctionDefinition {
    fn clone(&self) -> (r: Self)
        ensures
            same_definition(r, *self),
    {
        let parameters = self.parameters.clone();
        proof {
            assert(parameters@ =~= self.parameters@);
        }
        FunctionDefinition {
            parser_id: self.parser_id.clone(),
            name: self.name.clone(),
            definition_id: self.definition_id.clone(),
            registration_id: self.registration_id.clone(),
            registration_order: self.registration_order,
            return_type: clone_class(&self.return_type),
            return_type_is_single: self.return_type_is_single,
            parameters,
            metadata: self.metadata.clone(),
        }
    }
}

/// Structured identity and argument mapping for one resolved Function call.
#[derive(Debug, Clone, PartialEq, Eq)]
pub struct FunctionCall {
    pub name: String,
    pub definition_id: String,
    pub registration_id: String,
    pub arguments: Vec<FunctionArgument>,
}

/// Mapping from a declared parameter to its parsed child Expressions.
#[derive(Debug, Clone, PartialEq, Eq)]
pub struct FunctionArgument {
    pub parameter_name: String,
    pub supplied_name: Option<String>,
    pub child_start: usize,
    pub child_count: usize,
    pub omitted: bool,
}

/// Whether an argument was written `name: value` or as a bare value.
#[derive(Debug, Clone, Copy, PartialEq, Eq, Structural)]
pub enum ArgumentKind {
    Named,
    Unnamed,
}

/// One argument of a call: its label, the range of its value and the range of
/// the whole trimmed argument.
#[derive(Debug)]
pub struct ParsedArgument {
    pub kind: ArgumentKind,
    pub name: Option<String>,
    pub value: TextRange,
    pub raw: TextRange,
}

/// Mathematical value of a parsed argument; the label is given by its bytes.
pub struct ArgumentView {
    pub named: bool,
    pub name: Option<Seq<u8>>,
    pub value: TextRange,
    pub raw: TextRange,
}

/// The view of a parsed argument.
pub open spec fn argument_view(a: ParsedArgument) -> ArgumentView {
    ArgumentView {
        named: a.kind == ArgumentKind::Named,
        name: match a.name {
            Some(n) => Some(encode_utf8(n@)),
            None => None,
        },
        value: a.value,
        raw: a.raw,
    }
}

/// The views of a sequence of parsed arguments.
pub open spec fn argument_views(v: Seq<ParsedArgument>) -> Seq<ArgumentView> {
    v.map_values(|a: ParsedArgument| argument_view(a))
}

/// A byte that may appear in an argument label: `_` or an ASCII letter or digit.
pub open spec fn label_byte(c: u8) -> bool {
    c == 0x5f || (0x30 <= c <= 0x39) || (0x41 <= c <= 0x5a) || (0x61 <= c <= 0x7a)
}

/// Length of the run of label bytes at the start of `b[from..to]`.
pub open spec fn label_len(b: Seq<u8>, from: int, to: int) -> int
    decreases to - from,
{
    if from < to && label_byte(b[from]) {
        1 + label_len(b, from + 1, to)
    } else {
        0
    }
}

/// The trimmed argument written in `b[range]`, if it is not blank: `label:
/// value` when a label is followed by a colon and a non-empty value, else a
/// bare value.
pub open spec fn argument_in(b: Seq<u8>, range: TextRange) -> Option<ArgumentView> {
    if !range.valid_for(b) {
        None
    } else {
        let local = java_trim(b.subrange(range.start as int, range.end as int));
        let trimmed = TextRange {
            start: (range.start + local.start) as usize,
            end: (range.start + local.end) as usize,
        };
        if local.start == local.end || !trimmed.valid_for(b) {
            None
        } else {
            let n = label_len(b, trimmed.start as int, trimmed.end as int);
            let colon = trimmed.start + n;
            if n > 0 && colon < trimmed.end && b[colon] == 0x3a && colon + 1 < trimmed.end {
                let lv = java_trim(b.subrange(colon + 1, trimmed.end as int));
                Some(
                    ArgumentView {
                        named: true,
                        name: Some(b.subrange(trimmed.start as int, colon)),
                        value: TextRange { start: (colon + 1 + lv.start) as usize, end: (colon + 1 + lv.end) as usize },
                        raw: trimmed,
                    },
                )
            } else {
                Some(ArgumentView { named: false, name: None, value: trimmed, raw: trimmed })
            }
        }
    }
}

/// The view of an optional parsed argument.
pub open spec fn opt_argument_view(a: Option<ParsedArgument>) -> Option<ArgumentView> {
    match a {
        Some(a) => Some(argument_view(a)),
        None => None,
    }
}

proof fn lemma_label_len_bounds(b: Seq<u8>, from: int, to: int)
    ensures
        0 <= label_len(b, from, to),
        from <= to ==> label_len(b, from, to) <= to - from,
        forall|k: int| from <= k < from + label_len(b, from, to) ==> label_byte(#[trigger] b[k]),
        from + label_len(b, from, to) < to ==> !label_byte(b[from + label_len(b, from, to)]),
    decreases to - from,
{
    if from < to && label_byte(b[from]) {
        lemma_label_len_bounds(b, from + 1, to);
    }
}

/// Parses one comma-separated argument; a blank argument gives `None`.
pub fn parsed_argument(input: &str, range: TextRange) -> (r: Option<ParsedArgument>)
    ensures
        opt_argument_view(r) == argument_in(bytes_of(input), range),
{
    let ghost b = bytes_of(input);
    let text = match range.slice(input) {
        Some(text) => text,
        None => {
            return None;
        },
    };
    let local = java_trim_range(text);
    proof {
        lemma_java_trim_bounds(bytes_of(text));
    }
    if local.start == local.end {
        return None;
    }
    let trimmed = TextRange::new(range.start + local.start, range.start + local.end);
    let value = match trimmed.slice(input) {
        Some(value) => value,
        None => {
            return None;
        },
    };
    let v = value.as_bytes();
    let mut cursor: usize = 0;
    proof {
        lemma_label_len_bounds(b, trimmed.start as int, trimmed.end as int);
    }
    while cursor < v.len() && (v[cursor] == 0x5f || (0x30 <= v[cursor] && v[cursor] <= 0x39) || (0x41
        <= v[cursor] && v[cursor] <= 0x5a) || (0x61 <= v[cursor] && v[cursor] <= 0x7a))
        invariant
            v@ == b.subrange(trimmed.start as int, trimmed.end as int),
            trimmed.start <= trimmed.end <= b.len(),
            cursor <= v@.len(),
            label_len(b, trimmed.start as int, trimmed.end as int) == cursor + label_len(
                b,
                trimmed.start + cursor,
                trimmed.end as int,
            ),
        decreases v@.len() - cursor,
    {
        assert(v@[cursor as int] == b[trimmed.start + cursor]);
        cursor = cursor + 1;
    }
    proof {
        if cursor < v@.len() {
            assert(v@[cursor as int] == b[trimmed.start + cursor]);
        }
        assert(label_len(b, trimmed.start as int, trimmed.end as int) == cursor);
    }
    if cursor > 0 && cursor < v.len() && v[cursor] == 0x3a && cursor + 1 < v.len() {
        let colon = trimmed.start + cursor;
        proof {
            lemma_label_len_bounds(b, trimmed.start as int, trimmed.end as int);
            assert(v@[cursor as int] == b[colon as int]);
            assert(b[colon - 1] == v@[cursor - 1]);
            lemma_after_ascii(b, colon - 1);
            lemma_after_ascii(b, colon as int);
        }
        let raw_text = str_slice(input, colon + 1, trimmed.end);
        let lv = java_trim_range(raw_text);
        proof {
            lemma_java_trim_bounds(bytes_of(raw_text));
        }
        let name = String::from_str(str_slice(input, trimmed.start, colon));
        return Some(
            ParsedArgument {
                kind: ArgumentKind::Named,
                name: Some(name),
                value: TextRange::new(colon + 1 + lv.start, colon + 1 + lv.end),
                raw: trimmed,
            },
        );
    }
    proof {
        if cursor > 0 && cursor < v@.len() {
            assert(v@[cursor as int] == b[trimmed.start + cursor]);
        }
    }
    Some(ParsedArgument { kind: ArgumentKind::Unnamed, name: None, value: trimmed, raw: trimmed })
}

/// Some labelled argument repeats the label of an earlier labelled argument.
pub open spec fn repeats_label(args: Seq<ParsedArgument>) -> bool {
    exists|i: int, j: int|
        0 <= i < j < args.len() && args[i].kind == ArgumentKind::Named && args[j].kind == ArgumentKind::Named
            && args[i].name is Some && args[j].name is Some && (#[trigger] args[i].name).unwrap()@ == (
        #[trigger] args[j].name).unwrap()@
}

/// Whether two strings hold the same characters.
pub(crate) fn same_text(a: &str, b: &str) -> (r: bool)
    ensures
        r == (a@ == b@),
{
    let x = crate::expression::chars_of(a);
    let y = crate::expression::chars_of(b);
    if x.len() != y.len() {
        return false;
    }
    let mut k: usize = 0;
    while k < x.len()
        invariant
            x@ == a@,
            y@ == b@,
            x@.len() == y@.len(),
            k <= x@.len(),
            forall|q: int| 0 <= q < k ==> x@[q] == y@[q],
        decreases x@.len() - k,
    {
        if x[k] != y[k] {
            proof {
                assert(x@[k as int] != y@[k as int]);
            }
            return false;
        }
        k = k + 1;
    }
    proof {
        assert(x@ =~= y@);
    }
    true
}

/// Whether two labelled arguments carry the same label.
pub fn duplicate_named_argument(arguments: &[ParsedArgument]) -> (r: bool)
    ensures
        r == repeats_label(arguments@),
{
    let mut j: usize = 0;
    while j < arguments.len()
        invariant
            j <= arguments@.len(),
            !exists|a: int, c: int|
                0 <= a < c < j && arguments@[a].kind == ArgumentKind::Named && arguments@[c].kind
                    == ArgumentKind::Named && arguments@[a].name is Some && arguments@[c].name is Some && (
                #[trigger] arguments@[a].name).unwrap()@ == (#[trigger] arguments@[c].name).unwrap()@,
        decreases arguments@.len() - j,
    {
        if arguments[j].kind == ArgumentKind::Named {
            if let Some(name) = &arguments[j].name {
                let mut i: usize = 0;
                while i < j
                    invariant
                        j < arguments@.len(),
                        i <= j,
                        arguments@[j as int].kind == ArgumentKind::Named,
                        arguments@[j as int].name == Some(*name),
                        forall|a: int|
                            0 <= a < i && arguments@[a].kind == ArgumentKind::Named && arguments@[a].name is Some
                                ==> (#[trigger] arguments@[a].name).unwrap()@ != name@,
                    decreases j - i,
                {
                    if arguments[i].kind == ArgumentKind::Named {
                        if let Some(other) = &arguments[i].name {
                            if same_text(other.as_str(), name.as_str()) {
                                proof {
                                    assert(arguments@[i as int].name.unwrap()@ == arguments@[j as int].name.unwrap()@);
                                }
                                return true;
                            }
                        }
                    }
                    i = i + 1;
                }
            }
        }
        j = j + 1;
    }
    false
}


/// `o` with the pieces `done` in front, or `None` when `o` is `None`.
pub open spec fn after(done: Seq<TextRange>, o: Option<Seq<TextRange>>) -> Option<Seq<TextRange>> {
    match o {
        Some(rest) => Some(done + rest),
        None => None,
    }
}

/// The argument pieces of `b[start..end]` when scanning from `cursor` with
/// `depth` open parentheses: split at top-level commas, skipping string
/// literals and variables; `None` when a literal or variable is unterminated
/// or the text is not valid there.
pub open spec fn comma_pieces(b: Seq<u8>, end: int, cursor: int, depth: nat, start: int) -> Option<Seq<TextRange>>
    decreases end - cursor,
{
    if cursor >= end {
        Some(seq![TextRange { start: start as usize, end: end as usize }])
    } else {
        match first_char_width(b, cursor, end) {
            None => None,
            Some(w) => if b[cursor] == 0x22 {
                match quote_end(b, cursor + 1, end, false) {
                    Some(q) => if cursor < q + 1 <= end {
                        comma_pieces(b, end, q + 1, depth, start)
                    } else {
                        None
                    },
                    None => None,
                }
            } else if b[cursor] == 0x7b {
                match variable_end(b, cursor + 1, end, 0) {
                    Some(q) => if cursor < q + 1 <= end {
                        comma_pieces(b, end, q + 1, depth, start)
                    } else {
                        None
                    },
                    None => None,
                }
            } else if !(1 <= w && cursor + w <= end) {
                None
            } else if b[cursor] == 0x28 {
                comma_pieces(b, end, cursor + w, depth + 1, start)
            } else if b[cursor] == 0x29 && depth > 0 {
                comma_pieces(b, end, cursor + w, (depth - 1) as nat, start)
            } else if b[cursor] == 0x2c && depth == 0 {
                after(
                    seq![TextRange { start: start as usize, end: cursor as usize }],
                    comma_pieces(b, end, cursor + w, depth, cursor + 1),
                )
            } else {
                comma_pieces(b, end, cursor + w, depth, start)
            },
        }
    }
}

/// The non-blank arguments among the pieces.
pub open spec fn arguments_of(b: Seq<u8>, pieces: Seq<TextRange>) -> Seq<ArgumentView>
    decreases pieces.len(),
{
    if pieces.len() == 0 {
        Seq::empty()
    } else {
        arguments_of(b, pieces.drop_last()) + match argument_in(b, pieces.last()) {
            Some(a) => seq![a],
            None => Seq::empty(),
        }
    }
}

/// The arguments written between the parentheses of a call.
pub open spec fn arguments_in(b: Seq<u8>, range: TextRange) -> Option<Seq<ArgumentView>> {
    if range.start == range.end {
        Some(Seq::empty())
    } else {
        match comma_pieces(b, range.end as int, range.start as int, 0, range.start as int) {
            Some(pieces) => Some(arguments_of(b, pieces)),
            None => None,
        }
    }
}

proof fn lemma_arguments_of_push(b: Seq<u8>, pieces: Seq<TextRange>, p: TextRange)
    ensures
        arguments_of(b, pieces.push(p)) == arguments_of(b, pieces) + match argument_in(b, p) {
            Some(a) => seq![a],
            None => Seq::empty(),
        },
{
    assert(pieces.push(p).drop_last() =~= pieces);
}

/// Appends the argument of a piece when it is not blank.
fn push_argument(input: &str, piece: TextRange, parts: &mut Vec<ParsedArgument>, Ghost(done): Ghost<Seq<TextRange>>)
    requires
        argument_views(old(parts)@) == arguments_of(bytes_of(input), done),
    ensures
        argument_views(final(parts)@) == arguments_of(bytes_of(input), done.push(piece)),
{
    proof {
        lemma_arguments_of_push(bytes_of(input), done, piece);
    }
    let ghost before = parts@;
    match parsed_argument(input, piece) {
        Some(a) => {
            parts.push(a);
            proof {
                assert(argument_views(parts@) =~= argument_views(before).push(argument_view(parts@.last())));
            }
        },
        None => {
            proof {
                assert(arguments_of(bytes_of(input), done.push(piece)) =~= arguments_of(bytes_of(input), done));
            }
        },
    }
}

/// Splits the text between a call's parentheses into its arguments.
pub fn split_arguments(input: &str, range: TextRange) -> (r: Option<Vec<ParsedArgument>>)
    ensures
        match r {
            Some(v) => arguments_in(bytes_of(input), range) == Some(argument_views(v@)),
            None => arguments_in(bytes_of(input), range) is None,
        },
{
    let ghost b = bytes_of(input);
    if range.start == range.end {
        let v: Vec<ParsedArgument> = Vec::new();
        proof {
            assert(argument_views(v@) =~= Seq::<ArgumentView>::empty());
        }
        return Some(v);
    }
    let bytes = input.as_bytes();
    let ghost goal = comma_pieces(b, range.end as int, range.start as int, 0, range.start as int);
    let ghost mut done: Seq<TextRange> = Seq::empty();
    let mut parts: Vec<ParsedArgument> = Vec::new();
    let mut start = range.start;
    let mut cursor = range.start;
    let mut depth: usize = 0;
    proof {
        assert(argument_views(parts@) =~= arguments_of(b, done));
        assert(after(done, goal) == goal) by {
            if goal is Some {
                assert(done + goal.unwrap() =~= goal.unwrap());
            }
        }
    }
    while cursor < range.end
        invariant
            b == bytes_of(input),
            bytes@ == b,
            range.start <= cursor,
            depth <= cursor,
            goal == comma_pieces(b, range.end as int, range.start as int, 0, range.start as int),
            goal == after(done, comma_pieces(b, range.end as int, cursor as int, depth as nat, start as int)),
            argument_views(parts@) == arguments_of(b, done),
        decreases range.end - cursor,
    {
        let w = match crate::pattern_match::first_char_len(input, cursor, range.end) {
            Some(w) => w,
            None => {
                return None;
            },
        };
        let ch = bytes[cursor];
        if ch == 0x22 {
            match find_quote_end(input, cursor + 1, range.end) {
                Some(q) => {
                    proof {
                        lemma_quote_end_bounds(b, cursor + 1, range.end as int, false);
                    }
                    cursor = q + 1;
                    continue;
                },
                None => {
                    return None;
                },
            }
        }
        if ch == 0x7b {
            match find_variable_end(input, cursor + 1, range.end) {
                Some(q) => {
                    proof {
                        lemma_variable_end_bounds(b, cursor + 1, range.end as int, 0);
                    }
                    cursor = q + 1;
                    continue;
                },
                None => {
                    return None;
                },
            }
        }
        if ch == 0x28 {
            depth = depth + 1;
        } else if ch == 0x29 && depth > 0 {
            depth = depth - 1;
        } else if ch == 0x2c && depth == 0 {
            let piece = TextRange::new(start, cursor);
            push_argument(input, piece, &mut parts, Ghost(done));
            proof {
                let rest = comma_pieces(b, range.end as int, cursor + w, 0, cursor + 1);
                if rest is Some {
                    assert(done + (seq![piece] + rest.unwrap()) =~= done.push(piece) + rest.unwrap());
                }
                done = done.push(piece);
            }
            start = cursor + 1;
        }
        cursor = cursor + w;
    }
    let piece = TextRange::new(start, range.end);
    push_argument(input, piece, &mut parts, Ghost(done));
    proof {
        assert(done + seq![piece] =~= done.push(piece));
    }
    Some(parts)
}

/// The trimmed inside of a range that is one parenthesized group.
pub open spec fn unwrapped_in(b: Seq<u8>, range: TextRange) -> Option<TextRange> {
    if !range.valid_for(b) || !(range.start < range.end && b[range.start as int] == 0x28) {
        None
    } else {
        match parenthesis_end(b, range.start + 1, range.end as int, 0) {
            Some(close) => if close + 1 != range.end {
                None
            } else {
                let l = java_trim(b.subrange(range.start + 1, close));
                Some(TextRange { start: (range.start + 1 + l.start) as usize, end: (range.start + 1 + l.end) as usize })
            },
            None => None,
        }
    }
}

/// The trimmed inside of a range that is one parenthesized group, if it is one.
pub fn unwrapped_list_range(input: &str, range: TextRange) -> (r: Option<TextRange>)
    ensures
        r == unwrapped_in(bytes_of(input), range),
{
    let ghost b = bytes_of(input);
    let text = match range.slice(input) {
        Some(text) => text,
        None => {
            return None;
        },
    };
    let t = text.as_bytes();
    if t.len() == 0 || t[0] != 0x28 {
        proof {
            if range.start < range.end {
                assert(t@[0] == b[range.start as int]);
            }
        }
        return None;
    }
    proof {
        assert(t@[0] == b[range.start as int]);
    }
    let close = match find_parenthesis_end(input, range.start + 1, range.end) {
        Some(close) => close,
        None => {
            return None;
        },
    };
    proof {
        lemma_parenthesis_end_bounds(b, range.start + 1, range.end as int, 0);
    }
    if close + 1 != range.end {
        return None;
    }
    proof {
        lemma_after_ascii(b, range.start as int);
        lemma_after_ascii(b, close as int);
    }
    let inner = str_slice(input, range.start + 1, close);
    let l = java_trim_range(inner);
    proof {
        lemma_java_trim_bounds(bytes_of(inner));
    }
    Some(TextRange::new(range.start + 1 + l.start, range.start + 1 + l.end))
}


/// The lowercase ASCII word `w` occurs at `cursor` of `b[..end]`, ignoring case,
/// ends on a character boundary, and stands between whitespace characters.
pub open spec fn word_at(b: Seq<u8>, cursor: int, end: int, w: Seq<u8>) -> bool {
    &&& cursor + w.len() <= end
    &&& boundary(b, cursor + w.len())
    &&& forall|k: int| 0 <= k < w.len() ==> ascii_fold(#[trigger] b[cursor + k]) == w[k]
    &&& cursor > 0
    &&& ws_len_before(b, cursor) > 0
    &&& cursor + w.len() < end
    &&& ws_len(b, cursor + w.len()) > 0
}

/// The word conjunction (`and`, then `or`) that begins at `cursor` of
/// `b[..end]`: its range and whether it is `or`.
pub open spec fn conjunction_in(b: Seq<u8>, cursor: int, end: int) -> Option<(usize, usize, bool)> {
    if !(TextRange { start: cursor as usize, end: end as usize }).valid_for(b) || cursor < 0 || end < 0 {
        None
    } else if word_at(b, cursor, end, seq![0x61u8, 0x6eu8, 0x64u8]) {
        Some((cursor as usize, (cursor + 3) as usize, false))
    } else if word_at(b, cursor, end, seq![0x6fu8, 0x72u8]) {
        Some((cursor as usize, (cursor + 2) as usize, true))
    } else {
        None
    }
}

/// Whether the lowercase ASCII word `w` stands at `cursor` as [`word_at`] says.
fn word_here(input: &str, cursor: usize, end: usize, w: &[u8]) -> (r: bool)
    requires
        (TextRange { start: cursor, end }).valid_for(bytes_of(input)),
        forall|k: int| 0 <= k < w@.len() ==> 0x61 <= #[trigger] w@[k] <= 0x7a,
        w@.len() <= 3,
    ensures
        r == word_at(bytes_of(input), cursor as int, end as int, w@),
{
    let b = input.as_bytes();
    if w.len() > end - cursor {
        return false;
    }
    if !input.is_char_boundary(cursor + w.len()) {
        proof {
            crate::text::lemma_boundary(b@, cursor + w@.len());
        }
        return false;
    }
    proof {
        crate::text::lemma_boundary(b@, cursor + w@.len());
    }
    let mut k: usize = 0;
    while k < w.len()
        invariant
            b@ == bytes_of(input),
            cursor + w@.len() <= end <= b@.len(),
            k <= w@.len(),
            forall|q: int| 0 <= q < k ==> ascii_fold(#[trigger] b@[cursor + q]) == w@[q],
        decreases w@.len() - k,
    {
        let c = b[cursor + k];
        let folded = if 0x41 <= c && c <= 0x5a {
            c + 0x20
        } else {
            c
        };
        if folded != w[k] {
            proof {
                assert(ascii_fold(b@[cursor + k]) != w@[k as int]);
            }
            return false;
        }
        k = k + 1;
    }
    cursor > 0 && whitespace_len_before(b, cursor) > 0 && cursor + w.len() < end && whitespace_len_at(
        b,
        cursor + w.len(),
    ) > 0
}

/// The `and` or `or` separator that begins at `cursor`, if one does.
pub fn conjunction_at(input: &str, cursor: usize, end: usize) -> (r: Option<(usize, usize, bool)>)
    ensures
        r == conjunction_in(bytes_of(input), cursor as int, end as int),
{
    if !TextRange::new(cursor, end).is_valid_for(input) {
        return None;
    }
    let and_word: [u8; 3] = [0x61, 0x6e, 0x64];
    let or_word: [u8; 2] = [0x6f, 0x72];
    proof {
        assert(and_word@ =~= seq![0x61u8, 0x6eu8, 0x64u8]);
        assert(or_word@ =~= seq![0x6fu8, 0x72u8]);
    }
    if word_here(input, cursor, end, and_word.as_slice()) {
        return Some((cursor, cursor + 3, false));
    }
    if word_here(input, cursor, end, or_word.as_slice()) {
        return Some((cursor, cursor + 2, true));
    }
    None
}

/// The trimmed piece `b[range]`, if the range is valid and not blank.
pub open spec fn trimmed_piece(b: Seq<u8>, range: TextRange) -> Option<TextRange> {
    if !range.valid_for(b) {
        None
    } else {
        let l = java_trim(b.subrange(range.start as int, range.end as int));
        if l.start == l.end {
            None
        } else {
            Some(TextRange { start: (range.start + l.start) as usize, end: (range.start + l.end) as usize })
        }
    }
}

/// The trimmed range `input[range]`, or `None` when it is blank or invalid.
pub fn trimmed_range(input: &str, range: TextRange) -> (r: Option<TextRange>)
    ensures
        r == trimmed_piece(bytes_of(input), range),
{
    let text = match range.slice(input) {
        Some(text) => text,
        None => {
            return None;
        },
    };
    let local = java_trim_range(text);
    proof {
        lemma_java_trim_bounds(bytes_of(text));
    }
    if local.start == local.end {
        return None;
    }
    Some(TextRange::new(range.start + local.start, range.start + local.end))
}

/// Appends the trimmed piece `input[range]`; `None` when it is blank or invalid.
pub fn push_trimmed(input: &str, range: TextRange, parts: &mut Vec<TextRange>) -> (r: Option<()>)
    ensures
        match trimmed_piece(bytes_of(input), range) {
            Some(t) => r is Some && final(parts)@ == old(parts)@.push(t),
            None => r is None && final(parts)@ == old(parts)@,
        },
{
    match trimmed_range(input, range) {
        Some(t) => {
            parts.push(t);
            Some(())
        },
        None => None,
    }
}

/// The list pieces of `b[start..end]` scanning from `cursor`: split at
/// top-level commas and at `and`; `None` at an `or`, an unterminated literal
/// or variable, or text that is not valid there.
pub open spec fn list_pieces(b: Seq<u8>, end: int, cursor: int, depth: nat, start: int) -> Option<Seq<TextRange>>
    decreases end - cursor,
{
    if cursor >= end {
        Some(seq![TextRange { start: start as usize, end: end as usize }])
    } else {
        match first_char_width(b, cursor, end) {
            None => None,
            Some(w) => if b[cursor] == 0x22 {
                match quote_end(b, cursor + 1, end, false) {
                    Some(q) => if cursor < q + 1 <= end {
                        list_pieces(b, end, q + 1, depth, start)
                    } else {
                        None
                    },
                    None => None,
                }
            } else if b[cursor] == 0x7b {
                match variable_end(b, cursor + 1, end, 0) {
                    Some(q) => if cursor < q + 1 <= end {
                        list_pieces(b, end, q + 1, depth, start)
                    } else {
                        None
                    },
                    None => None,
                }
            } else if !(1 <= w && cursor + w <= end) {
                None
            } else if b[cursor] == 0x28 {
                list_pieces(b, end, cursor + w, depth + 1, start)
            } else if b[cursor] == 0x29 && depth > 0 {
                list_pieces(b, end, cursor + w, (depth - 1) as nat, start)
            } else if b[cursor] == 0x2c && depth == 0 {
                after(
                    seq![TextRange { start: start as usize, end: cursor as usize }],
                    list_pieces(b, end, cursor + w, depth, cursor + 1),
                )
            } else if depth == 0 && conjunction_in(b, cursor, end) is Some {
                let (s, e, is_or) = conjunction_in(b, cursor, end).unwrap();
                if is_or {
                    None
                } else if cursor < e <= end {
                    after(seq![TextRange { start: start as usize, end: s }], list_pieces(b, end, e as int, 0, e as int))
                } else {
                    None
                }
            } else {
                list_pieces(b, end, cursor + w, depth, start)
            },
        }
    }
}

/// Every piece trimmed, or `None` when one is blank or invalid.
pub open spec fn trimmed_pieces(b: Seq<u8>, pieces: Seq<TextRange>) -> Option<Seq<TextRange>>
    decreases pieces.len(),
{
    if pieces.len() == 0 {
        Some(Seq::empty())
    } else {
        match (trimmed_pieces(b, pieces.drop_last()), trimmed_piece(b, pieces.last())) {
            (Some(ts), Some(t)) => Some(ts.push(t)),
            _ => None,
        }
    }
}

/// The items of a list argument: split at top-level commas and `and`, each
/// trimmed; `None` for `or` lists and blank items.
pub open spec fn list_items(b: Seq<u8>, range: TextRange) -> Option<Seq<TextRange>> {
    match list_pieces(b, range.end as int, range.start as int, 0, range.start as int) {
        Some(pieces) => trimmed_pieces(b, pieces),
        None => None,
    }
}

proof fn lemma_trimmed_pieces_push(b: Seq<u8>, pieces: Seq<TextRange>, p: TextRange)
    ensures
        trimmed_pieces(b, pieces.push(p)) == match (trimmed_pieces(b, pieces), trimmed_piece(b, p)) {
            (Some(ts), Some(t)) => Some(ts.push(t)),
            _ => None::<Seq<TextRange>>,
        },
{
    assert(pieces.push(p).drop_last() =~= pieces);
}

proof fn lemma_trimmed_pieces_fail(b: Seq<u8>, pieces: Seq<TextRange>, rest: Seq<TextRange>)
    requires
        trimmed_pieces(b, pieces) is None,
    ensures
        trimmed_pieces(b, pieces + rest) is None,
    decreases rest.len(),
{
    if rest.len() == 0 {
        assert(pieces + rest =~= pieces);
    } else {
        lemma_trimmed_pieces_fail(b, pieces, rest.drop_last());
        assert((pieces + rest).drop_last() =~= pieces + rest.drop_last());
    }
}

/// Splits a list argument into its trimmed items.
#[verifier::rlimit(100)]
#[verifier::spinoff_prover]
pub fn split_expression_list(input: &str, range: TextRange) -> (r: Option<Vec<TextRange>>)
    ensures
        match r {
            Some(v) => list_items(bytes_of(input), range) == Some(v@),
            None => list_items(bytes_of(input), range) is None,
        },
{
    let ghost b = bytes_of(input);
    let bytes = input.as_bytes();
    let ghost goal = list_pieces(b, range.end as int, range.start as int, 0, range.start as int);
    let ghost mut done: Seq<TextRange> = Seq::empty();
    let mut parts: Vec<TextRange> = Vec::new();
    let mut start = range.start;
    let mut cursor = range.start;
    let mut depth: usize = 0;
    proof {
        assert(after(done, goal) == goal) by {
            if goal is Some {
                assert(done + goal.unwrap() =~= goal.unwrap());
            }
        }
    }
    while cursor < range.end
        invariant
            b == bytes_of(input),
            bytes@ == b,
            range.start <= cursor,
            depth <= cursor,
            goal == list_pieces(b, range.end as int, range.start as int, 0, range.start as int),
            goal == after(done, list_pieces(b, range.end as int, cursor as int, depth as nat, start as int)),
            trimmed_pieces(b, done) == Some(parts@),
        decreases range.end - cursor,
    {
        let w = match crate::pattern_match::first_char_len(input, cursor, range.end) {
            Some(w) => w,
            None => {
                return None;
            },
        };
        let ch = bytes[cursor];
        if ch == 0x22 {
            match find_quote_end(input, cursor + 1, range.end) {
                Some(q) => {
                    proof {
                        lemma_quote_end_bounds(b, cursor + 1, range.end as int, false);
                    }
                    cursor = q + 1;
                    continue;
                },
                None => {
                    return None;
                },
            }
        }
        if ch == 0x7b {
            match find_variable_end(input, cursor + 1, range.end) {
                Some(q) => {
                    proof {
                        lemma_variable_end_bounds(b, cursor + 1, range.end as int, 0);
                    }
                    cursor = q + 1;
                    continue;
                },
                None => {
                    return None;
                },
            }
        }
        if ch == 0x28 {
            depth = depth + 1;
        } else if ch == 0x29 && depth > 0 {
            depth = depth - 1;
        } else if ch == 0x2c && depth == 0 {
            let piece = TextRange::new(start, cursor);
            proof {
                lemma_trimmed_pieces_push(b, done, piece);
            }
            if push_trimmed(input, piece, &mut parts).is_none() {
                proof {
                    let rest = list_pieces(b, range.end as int, cursor + w, 0, cursor + 1);
                    if rest is Some {
                        assert(done + (seq![piece] + rest.unwrap()) =~= done.push(piece) + rest.unwrap());
                        lemma_trimmed_pieces_fail(b, done.push(piece), rest.unwrap());
                    }
                }
                return None;
            }
            proof {
                let rest = list_pieces(b, range.end as int, cursor + w, 0, cursor + 1);
                if rest is Some {
                    assert(done + (seq![piece] + rest.unwrap()) =~= done.push(piece) + rest.unwrap());
                }
                done = done.push(piece);
            }
            start = cursor + 1;
        } else if depth == 0 {
            if let Some((s, e, is_or)) = conjunction_at(input, cursor, range.end) {
                if is_or {
                    return None;
                }
                let piece = TextRange::new(start, s);
                proof {
                    lemma_trimmed_pieces_push(b, done, piece);
                }
                if push_trimmed(input, piece, &mut parts).is_none() {
                    proof {
                        let rest = list_pieces(b, range.end as int, e as int, 0, e as int);
                        if rest is Some {
                            assert(done + (seq![piece] + rest.unwrap()) =~= done.push(piece) + rest.unwrap());
                            lemma_trimmed_pieces_fail(b, done.push(piece), rest.unwrap());
                        }
                    }
                    return None;
                }
                proof {
                    let rest = list_pieces(b, range.end as int, e as int, 0, e as int);
                    if rest is Some {
                        assert(done + (seq![piece] + rest.unwrap()) =~= done.push(piece) + rest.unwrap());
                    }
                    done = done.push(piece);
                }
                start = e;
                cursor = e;
                continue;
            }
        }
        cursor = cursor + w;
    }
    let piece = TextRange::new(start, range.end);
    proof {
        lemma_trimmed_pieces_push(b, done, piece);
        assert(done + seq![piece] =~= done.push(piece));
    }
    if push_trimmed(input, piece, &mut parts).is_none() {
        return None;
    }
    Some(parts)
}


/// Whether `char::is_numeric` holds of a character (Unicode `Numeric`).
pub uninterp spec fn numeric(c: char) -> bool;

/// Tests a character with `char::is_numeric`.
#[verifier::external_body]
fn is_numeric_char(c: char) -> (r: bool)
    ensures
        r == numeric(c),
{
    c.is_numeric()
}

/// Tests a character with `char::is_alphabetic`.
fn is_letter(c: char) -> (r: bool)
    ensures
        r == alphabetic(c),
{
    crate::function_registry::is_alphabetic_char(c)
}

/// A character that may continue a Function name.
pub open spec fn name_char(c: char) -> bool {
    c == '_' || alphabetic(c) || numeric(c)
}

/// Where the Function name that continues at `cursor` ends, or `None` when the
/// text is not valid there.
pub open spec fn name_end(b: Seq<u8>, cursor: int, end: int) -> Option<int>
    decreases end - cursor,
{
    if cursor >= end {
        Some(cursor)
    } else {
        match first_char_width(b, cursor, end) {
            None => None,
            Some(w) => if !name_char(char_at_spec(b, cursor)) {
                Some(cursor)
            } else if 1 <= w && cursor + w <= end {
                name_end(b, cursor + w, end)
            } else {
                None
            },
        }
    }
}

/// A call's name, its arguments and the range it covers.
#[derive(Debug)]
pub struct CallSyntax {
    pub name: String,
    pub arguments: Vec<ParsedArgument>,
    pub range: TextRange,
}

/// Mathematical value of call syntax; the name is given by its bytes.
pub struct CallView {
    pub name: Seq<u8>,
    pub arguments: Seq<ArgumentView>,
    pub range: TextRange,
}

/// The view of optional call syntax.
pub open spec fn call_view(c: Option<CallSyntax>) -> Option<CallView> {
    match c {
        Some(c) => Some(CallView { name: encode_utf8(c.name@), arguments: argument_views(c.arguments@), range: c.range }),
        None => None,
    }
}

/// The call written at the start of `b[range]`: a name that starts with a
/// letter or `_`, an opening parenthesis right after it, and a matching close
/// that ends at one of `ends`.
pub open spec fn call_in(b: Seq<u8>, range: TextRange, ends: Seq<usize>) -> Option<CallView> {
    match first_char_width(b, range.start as int, range.end as int) {
        None => None,
        Some(w) => {
            let first = char_at_spec(b, range.start as int);
            if first != '_' && !alphabetic(first) {
                None
            } else {
                match name_end(b, range.start + w, range.end as int) {
                    None => None,
                    Some(c) => if first_char_width(b, c, range.end as int) is None || b[c] != 0x28 {
                        None
                    } else {
                        match parenthesis_end(b, c + 1, range.end as int, 0) {
                            None => None,
                            Some(close) => if !ends.contains((close + 1) as usize) {
                                None
                            } else {
                                match arguments_in(b, TextRange { start: (c + 1) as usize, end: close as usize }) {
                                    None => None,
                                    Some(args) => Some(
                                        CallView {
                                            name: b.subrange(range.start as int, c),
                                            arguments: args,
                                            range: TextRange { start: range.start, end: (close + 1) as usize },
                                        },
                                    ),
                                }
                            },
                        }
                    },
                }
            }
        },
    }
}

/// Whether an offset is one of the candidate ends.
fn contains_end(ends: &[usize], e: usize) -> (r: bool)
    ensures
        r == ends@.contains(e),
{
    let mut k: usize = 0;
    while k < ends.len()
        invariant
            k <= ends@.len(),
            forall|q: int| 0 <= q < k ==> ends@[q] != e,
        decreases ends@.len() - k,
    {
        if ends[k] == e {
            proof {
                assert(ends@[k as int] == e);
            }
            return true;
        }
        k = k + 1;
    }
    false
}

/// Where the Function name continuing at `cursor` ends.
fn scan_name(input: &str, cursor: usize, end: usize) -> (r: Option<usize>)
    requires
        boundary(bytes_of(input), cursor as int),
        cursor <= bytes_of(input).len(),
    ensures
        opt_offset(r) == name_end(bytes_of(input), cursor as int, end as int),
        r matches Some(c) ==> cursor <= c && boundary(bytes_of(input), c as int) && c <= bytes_of(input).len(),
    decreases end - cursor,
{
    if cursor >= end {
        return Some(cursor);
    }
    let (ch, w) = match char_at(input, cursor, end) {
        Some(x) => x,
        None => {
            return None;
        },
    };
    if ch != '_' && !is_letter(ch) && !is_numeric_char(ch) {
        return Some(cursor);
    }
    scan_name(input, cursor + w, end)
}

/// An optional offset as a mathematical integer.
pub open spec fn opt_offset(r: Option<usize>) -> Option<int> {
    match r {
        Some(v) => Some(v as int),
        None => None,
    }
}

/// Recognizes `name(arguments)` at the start of `range`, ending at one of the
/// candidate ends.
pub fn parse_call_syntax(input: &str, range: TextRange, candidate_ends: &[usize]) -> (r: Option<CallSyntax>)
    ensures
        call_view(r) == call_in(bytes_of(input), range, candidate_ends@),
{
    let ghost b = bytes_of(input);
    let (first, w) = match char_at(input, range.start, range.end) {
        Some(x) => x,
        None => {
            return None;
        },
    };
    if first != '_' && !is_letter(first) {
        return None;
    }
    let cursor = match scan_name(input, range.start + w, range.end) {
        Some(c) => c,
        None => {
            return None;
        },
    };
    if crate::pattern_match::first_char_len(input, cursor, range.end).is_none() {
        return None;
    }
    if input.as_bytes()[cursor] != 0x28 {
        return None;
    }
    let close = match find_parenthesis_end(input, cursor + 1, range.end) {
        Some(close) => close,
        None => {
            return None;
        },
    };
    proof {
        lemma_parenthesis_end_bounds(b, cursor + 1, range.end as int, 0);
    }
    let end = close + 1;
    if !contains_end(candidate_ends, end) {
        return None;
    }
    let name = String::from_str(str_slice(input, range.start, cursor));
    let arguments = match split_arguments(input, TextRange::new(cursor + 1, close)) {
        Some(a) => a,
        None => {
            return None;
        },
    };
    Some(CallSyntax { name, arguments, range: TextRange::new(range.start, end) })
}

/// The values mapped to one parameter and the name it was supplied under.
#[derive(Debug)]
pub struct MappedArgument {
    pub supplied_name: Option<String>,
    pub values: Vec<TextRange>,
}

/// A slot's view: the supplied name's text and the value ranges.
pub open spec fn slot_view(m: MappedArgument) -> (Option<Seq<char>>, Seq<TextRange>) {
    (
        match m.supplied_name {
            Some(n) => Some(n@),
            None => None,
        },
        m.values@,
    )
}

/// The parameter a name selects: the last one with that name.
pub open spec fn parameter_index(ps: Seq<FunctionParameterDefinition>, name: Seq<char>) -> Option<int>
    decreases ps.len(),
{
    if ps.len() == 0 {
        None
    } else if ps.last().name@ == name {
        Some(ps.len() - 1)
    } else {
        parameter_index(ps.drop_last(), name)
    }
}

/// The parameter a named argument addresses, if it names one.
pub open spec fn named_target(ps: Seq<FunctionParameterDefinition>, a: ParsedArgument) -> Option<int> {
    if a.kind == ArgumentKind::Named {
        match a.name {
            Some(n) => parameter_index(ps, n@),
            None => None,
        }
    } else {
        None
    }
}

/// Some argument is named.
pub open spec fn has_named(args: Seq<ParsedArgument>) -> bool {
    exists|k: int| 0 <= k < args.len() && (#[trigger] args[k]).kind == ArgumentKind::Named
}

/// Slots with nothing mapped yet.
pub open spec fn empty_slots(n: nat) -> Seq<(Option<Seq<char>>, Seq<TextRange>)> {
    Seq::new(n, |i: int| (None::<Seq<char>>, Seq::<TextRange>::empty()))
}

/// The slots after the first `k` arguments that address a parameter by name
/// have been put there.
pub open spec fn named_slots(ps: Seq<FunctionParameterDefinition>, args: Seq<ParsedArgument>, k: int) -> Seq<
    (Option<Seq<char>>, Seq<TextRange>),
>
    decreases k,
{
    if k <= 0 {
        empty_slots(ps.len())
    } else {
        let before = named_slots(ps, args, k - 1);
        let a = args[k - 1];
        match named_target(ps, a) {
            Some(i) => before.update(i, (Some(a.name.unwrap()@), before[i].1.push(a.value))),
            None => before,
        }
    }
}

/// The target of the first argument from `from` on that addresses a parameter by name.
pub open spec fn next_named_target(ps: Seq<FunctionParameterDefinition>, args: Seq<ParsedArgument>, from: int) -> Option<
    int,
>
    decreases args.len() - from,
{
    if from < 0 || from >= args.len() {
        None
    } else {
        match named_target(ps, args[from]) {
            Some(i) => Some(i),
            None => next_named_target(ps, args, from + 1),
        }
    }
}

/// The first slot in `from..end` with no value.
pub open spec fn first_free(values: Seq<Seq<TextRange>>, from: int, end: int) -> Option<int>
    decreases end - from,
{
    if from >= end {
        None
    } else if values[from].len() == 0 {
        Some(from)
    } else {
        first_free(values, from + 1, end)
    }
}

/// The value ranges of each slot.
pub open spec fn slot_values(slots: Seq<(Option<Seq<char>>, Seq<TextRange>)>) -> Seq<Seq<TextRange>> {
    slots.map_values(|s: (Option<Seq<char>>, Seq<TextRange>)| s.1)
}

/// Places the remaining arguments from `k` on: each positional one in the
/// first free slot from the cursor up to the next named argument's
/// parameter; `None` where no slot is free.
pub open spec fn place_positional(
    ps: Seq<FunctionParameterDefinition>,
    args: Seq<ParsedArgument>,
    slots: Seq<(Option<Seq<char>>, Seq<TextRange>)>,
    cursor: int,
    k: int,
) -> Option<Seq<(Option<Seq<char>>, Seq<TextRange>)>>
    decreases args.len() - k,
{
    if k < 0 || k >= args.len() {
        Some(slots)
    } else {
        let a = args[k];
        match named_target(ps, a) {
            Some(i) => place_positional(ps, args, slots, if cursor < i + 1 {
                i + 1
            } else {
                cursor
            }, k + 1),
            None => {
                let end = match next_named_target(ps, args, k + 1) {
                    Some(j) => j,
                    None => ps.len() as int,
                };
                match first_free(slot_values(slots), cursor, end) {
                    None => None,
                    Some(slot) => place_positional(
                        ps,
                        args,
                        slots.update(
                            slot,
                            (
                                slots[slot].0,
                                slots[slot].1.push(
                                    if a.kind == ArgumentKind::Named {
                                        a.raw
                                    } else {
                                        a.value
                                    },
                                ),
                            ),
                        ),
                        slot + 1,
                        k + 1,
                    ),
                }
            },
        }
    }
}

/// Every parameter that is not optional received a value.
pub open spec fn required_present(ps: Seq<FunctionParameterDefinition>, slots: Seq<(Option<Seq<char>>, Seq<TextRange>)>) -> bool {
    forall|i: int| 0 <= i < ps.len() ==> (#[trigger] ps[i]).optional || slots[i].1.len() > 0
}

/// How the arguments of a call map to the parameters of an exact signature:
/// in order where none is named; else named ones to their parameters, and
/// positional ones into the free slots between; `None` where a value has no
/// slot or a required parameter gets none.
pub open spec fn exact_mapping(ps: Seq<FunctionParameterDefinition>, args: Seq<ParsedArgument>) -> Option<
    Seq<(Option<Seq<char>>, Seq<TextRange>)>,
> {
    let placed = if !has_named(args) {
        Some(
            Seq::new(
                ps.len(),
                |i: int|
                    if i < args.len() {
                        (None::<Seq<char>>, seq![args[i].value])
                    } else {
                        (None::<Seq<char>>, Seq::<TextRange>::empty())
                    },
            ),
        )
    } else {
        place_positional(ps, args, named_slots(ps, args, args.len() as int), 0, 0)
    };
    match placed {
        Some(m) => if required_present(ps, m) {
            Some(m)
        } else {
            None
        },
        None => None,
    }
}

/// Where some argument is named, the mapping is the placement from the
/// named slots, checked for required parameters.
proof fn lemma_named_mapping(ps: Seq<FunctionParameterDefinition>, args: Seq<ParsedArgument>)
    requires
        has_named(args),
    ensures
        exact_mapping(ps, args) == match place_positional(ps, args, named_slots(ps, args, args.len() as int), 0, 0) {
            Some(m) => if required_present(ps, m) {
                Some(m)
            } else {
                None
            },
            None => None,
        },
{
}

/// The last parameter named `name`.
fn find_parameter(parameters: &[FunctionParameterDefinition], name: &String) -> (r: Option<usize>)
    ensures
        opt_index(r) == parameter_index(parameters@, name@),
{
    let mut k: usize = parameters.len();
    proof {
        assert(parameters@.take(k as int) =~= parameters@);
    }
    while k > 0
        invariant
            k <= parameters@.len(),
            parameter_index(parameters@, name@) == parameter_index(parameters@.take(k as int), name@),
        decreases k,
    {
        proof {
            assert(parameters@.take(k as int).drop_last() =~= parameters@.take(k - 1));
            assert(parameters@.take(k as int).last() == parameters@[k - 1]);
        }
        if parameters[k - 1].name == *name {
            return Some(k - 1);
        }
        k = k - 1;
    }
    None
}

/// An exec index as a spec index.
pub open spec fn opt_index(r: Option<usize>) -> Option<int> {
    match r {
        Some(i) => Some(i as int),
        None => None,
    }
}

/// The parameter a named argument addresses.
fn argument_target(parameters: &[FunctionParameterDefinition], argument: &ParsedArgument) -> (r: Option<usize>)
    ensures
        opt_index(r) == named_target(parameters@, *argument),
        r matches Some(i) ==> i < parameters@.len(),
{
    match argument.kind {
        ArgumentKind::Named => match &argument.name {
            Some(name) => {
                let r = find_parameter(parameters, name);
                proof {
                    lemma_parameter_index_bounds(parameters@, name@);
                }
                r
            },
            None => None,
        },
        ArgumentKind::Unnamed => None,
    }
}

proof fn lemma_parameter_index_bounds(ps: Seq<FunctionParameterDefinition>, name: Seq<char>)
    ensures
        parameter_index(ps, name) matches Some(i) ==> 0 <= i < ps.len(),
    decreases ps.len(),
{
    if ps.len() > 0 {
        lemma_parameter_index_bounds(ps.drop_last(), name);
    }
}

/// Views of parallel name and value lists.
pub open spec fn slot_views(names: Seq<Option<String>>, values: Seq<Vec<TextRange>>) -> Seq<(Option<Seq<char>>, Seq<TextRange>)> {
    Seq::new(
        names.len(),
        |i: int|
            (
                match names[i] {
                    Some(n) => Some(n@),
                    None => None,
                },
                values[i]@,
            ),
    )
}

/// Appends a value range to slot `i`.
fn push_value(values: &mut Vec<Vec<TextRange>>, i: usize, value: TextRange)
    requires
        i < old(values)@.len(),
    ensures
        final(values)@.len() == old(values)@.len(),
        forall|j: int| 0 <= j < old(values)@.len() && j != i ==> final(values)@[j] == old(values)@[j],
        final(values)@[i as int]@ == old(values)@[i as int]@.push(value),
{
    let mut slot = Vec::new();
    let mut k: usize = 0;
    while k < values[i].len()
        invariant
            i < values@.len(),
            k <= values@[i as int]@.len(),
            slot@ == values@[i as int]@.take(k as int),
        decreases values@[i as int]@.len() - k,
    {
        slot.push(values[i][k]);
        proof {
            assert(values@[i as int]@.take(k + 1) =~= values@[i as int]@.take(k as int).push(values@[i as int]@[k as int]));
        }
        k = k + 1;
    }
    proof {
        assert(values@[i as int]@.take(values@[i as int]@.len() as int) =~= values@[i as int]@);
    }
    slot.push(value);
    values.set(i, slot);
}

/// The first slot in `from..end` with no value.
fn find_free(values: &Vec<Vec<TextRange>>, from: usize, end: usize) -> (r: Option<usize>)
    requires
        end <= values@.len(),
    ensures
        opt_index(r) == first_free(values@.map_values(|v: Vec<TextRange>| v@), from as int, end as int),
        r matches Some(i) ==> from <= i < end,
    decreases end - from,
{
    if from >= end {
        return None;
    }
    if values[from].len() == 0 {
        Some(from)
    } else {
        find_free(values, from + 1, end)
    }
}

/// The target of the first argument from `from` on that addresses a parameter by name.
fn next_named(parameters: &[FunctionParameterDefinition], arguments: &[ParsedArgument], from: usize) -> (r: Option<usize>)
    requires
        from <= arguments@.len(),
    ensures
        opt_index(r) == next_named_target(parameters@, arguments@, from as int),
        r matches Some(i) ==> i < parameters@.len(),
    decreases arguments@.len() - from,
{
    if from >= arguments.len() {
        return None;
    }
    match argument_target(parameters, &arguments[from]) {
        Some(i) => Some(i),
        None => next_named(parameters, arguments, from + 1),
    }
}

/// Every parameter that is not optional received a value; parameters and
/// mapped slots are paired in order.
pub fn required_parameters_are_present(parameters: &[FunctionParameterDefinition], mapped: &[MappedArgument]) -> (r: bool)
    ensures
        r == forall|i: int|
            0 <= i < parameters@.len() && i < mapped@.len() ==> (#[trigger] parameters@[i]).optional
                || mapped@[i].values@.len() > 0,
{
    let mut k: usize = 0;
    while k < parameters.len() && k < mapped.len()
        invariant
            k <= parameters@.len(),
            forall|i: int| 0 <= i < k && i < mapped@.len() ==> (#[trigger] parameters@[i]).optional || mapped@[i].values@.len() > 0,
        decreases parameters@.len() - k,
    {
        if !parameters[k].optional && mapped[k].values.len() == 0 {
            return false;
        }
        k = k + 1;
    }
    true
}

/// Maps the arguments of a call to the parameters of an exact signature;
/// `None` where some value finds no slot or a required parameter gets none.
pub fn map_exact_arguments(parameters: &[FunctionParameterDefinition], arguments: &[ParsedArgument]) -> (r: Option<
    Vec<MappedArgument>,
>)
    requires
        arguments@.len() <= parameters@.len(),
    ensures
        match r {
            Some(m) => exact_mapping(parameters@, arguments@) == Some(m@.map_values(|x: MappedArgument| slot_view(x))),
            None => exact_mapping(parameters@, arguments@) is None,
        },
{
    let ghost ps = parameters@;
    let ghost args = arguments@;
    let n = parameters.len();
    let mut has_names = false;
    let mut k: usize = 0;
    while k < arguments.len()
        invariant
            k <= args.len(),
            args == arguments@,
            has_names == exists|j: int| 0 <= j < k && (#[trigger] args[j]).kind == ArgumentKind::Named,
        decreases args.len() - k,
    {
        if arguments[k].kind == ArgumentKind::Named {
            has_names = true;
        }
        k = k + 1;
    }
    let mut names: Vec<Option<String>> = Vec::new();
    let mut values: Vec<Vec<TextRange>> = Vec::new();
    let mut i: usize = 0;
    while i < n
        invariant
            n == ps.len(),
            i <= n,
            names@.len() == i,
            values@.len() == i,
            slot_views(names@, values@) == empty_slots(i as nat),
        decreases n - i,
    {
        let ghost before = slot_views(names@, values@);
        names.push(None);
        values.push(Vec::new());
        proof {
            assert forall|j: int| 0 <= j < i implies #[trigger] slot_views(names@, values@)[j] == before[j] by {
            }
            assert(slot_views(names@, values@) =~= empty_slots((i + 1) as nat));
        }
        i = i + 1;
    }
    if !has_names {
        let mut index: usize = 0;
        while index < arguments.len()
            invariant
                n == ps.len(),
                args == arguments@,
                ps == parameters@,
                args.len() <= n,
                index <= args.len(),
                names@.len() == n,
                values@.len() == n,
                slot_views(names@, values@) == Seq::new(
                    n as nat,
                    |j: int|
                        if j < index {
                            (None::<Seq<char>>, seq![args[j].value])
                        } else {
                            (None::<Seq<char>>, Seq::<TextRange>::empty())
                        },
                ),
            decreases args.len() - index,
        {
            let ghost before = slot_views(names@, values@);
            push_value(&mut values, index, arguments[index].value);
            proof {
                assert forall|j: int| 0 <= j < n && j != index implies #[trigger] slot_views(names@, values@)[j] == before[j] by {}
                assert(slot_views(names@, values@)[index as int] == (None::<Seq<char>>, before[index as int].1.push(args[index as int].value)));
                assert(slot_views(names@, values@) =~= Seq::new(
                    n as nat,
                    |j: int|
                        if j < index + 1 {
                            (None::<Seq<char>>, seq![args[j].value])
                        } else {
                            (None::<Seq<char>>, Seq::<TextRange>::empty())
                        },
                ));
            }
            index = index + 1;
        }
        return finish_mapping(parameters, names, values);
    }
    let mut k: usize = 0;
    while k < arguments.len()
        invariant
            n == ps.len(),
            args == arguments@,
            ps == parameters@,
            k <= args.len(),
            names@.len() == n,
            values@.len() == n,
            slot_views(names@, values@) == named_slots(ps, args, k as int),
        decreases args.len() - k,
    {
        let argument = &arguments[k];
        match argument_target(parameters, argument) {
            Some(index) => {
                let ghost before = slot_views(names@, values@);
                let name = match &argument.name {
                    Some(name) => name.clone(),
                    None => String::new(),
                };
                names.set(index, Some(name));
                push_value(&mut values, index, argument.value);
                proof {
                    assert(slot_views(names@, values@) =~= before.update(
                        index as int,
                        (Some(argument.name.unwrap()@), before[index as int].1.push(argument.value)),
                    ));
                }
            },
            None => {},
        }
        k = k + 1;
    }
    let ghost goal = place_positional(ps, args, named_slots(ps, args, args.len() as int), 0, 0);
    let mut cursor: usize = 0;
    let mut k: usize = 0;
    while k < arguments.len()
        invariant
            n == ps.len(),
            args == arguments@,
            ps == parameters@,
            k <= args.len(),
            cursor <= n,
            has_named(args),
            goal == place_positional(ps, args, named_slots(ps, args, args.len() as int), 0, 0),
            names@.len() == n,
            values@.len() == n,
            place_positional(ps, args, slot_views(names@, values@), cursor as int, k as int) == goal,
        decreases args.len() - k,
    {
        let argument = &arguments[k];
        match argument_target(parameters, argument) {
            Some(index) => {
                if cursor < index + 1 {
                    cursor = index + 1;
                }
            },
            None => {
                let end = match next_named(parameters, arguments, k + 1) {
                    Some(j) => j,
                    None => n,
                };
                proof {
                    assert(slot_values(slot_views(names@, values@)) =~= values@.map_values(|v: Vec<TextRange>| v@));
                }
                proof {
                    assert(*argument == args[k as int]);
                    assert(named_target(ps, args[k as int]) is None);
                }
                let slot = match find_free(&values, cursor, end) {
                    Some(slot) => slot,
                    None => {
                        proof {
                            assert(place_positional(ps, args, slot_views(names@, values@), cursor as int, k as int) is None);
                            assert(goal is None);
                            lemma_named_mapping(ps, args);
                        }
                        return None;
                    },
                };
                let ghost before = slot_views(names@, values@);
                let value = match argument.kind {
                    ArgumentKind::Named => argument.raw,
                    ArgumentKind::Unnamed => argument.value,
                };
                push_value(&mut values, slot, value);
                proof {
                    assert(slot_views(names@, values@) =~= before.update(
                        slot as int,
                        (before[slot as int].0, before[slot as int].1.push(value)),
                    ));
                }
                cursor = slot + 1;
            },
        }
        k = k + 1;
    }
    proof {
        lemma_named_mapping(ps, args);
    }
    finish_mapping(parameters, names, values)
}

/// Pairs the names and values into slots and checks the required parameters.
fn finish_mapping(
    parameters: &[FunctionParameterDefinition],
    names: Vec<Option<String>>,
    values: Vec<Vec<TextRange>>,
) -> (r: Option<Vec<MappedArgument>>)
    requires
        names@.len() == parameters@.len(),
        values@.len() == parameters@.len(),
    ensures
        match r {
            Some(m) => required_present(parameters@, slot_views(names@, values@)) && m@.map_values(
                |x: MappedArgument| slot_view(x),
            ) == slot_views(names@, values@),
            None => !required_present(parameters@, slot_views(names@, values@)),
        },
{
    let ghost views = slot_views(names@, values@);
    let mut mapped: Vec<MappedArgument> = Vec::new();
    let mut names = names;
    let mut values = values;
    let mut k: usize = 0;
    let n = parameters.len();
    proof {
        assert(names@.skip(0) =~= names@);
        assert(values@.skip(0) =~= values@);
    }
    while k < n
        invariant
            n == parameters@.len(),
            views.len() == n,
            k <= n,
            names@.len() == n - k,
            values@.len() == n - k,
            mapped@.len() == k,
            forall|j: int| 0 <= j < k ==> slot_view(#[trigger] mapped@[j]) == views[j],
            forall|j: int| 0 <= j < n - k ==> #[trigger] slot_views(names@, values@)[j] == views[j + k],
        decreases n - k,
    {
        let ghost before = slot_views(names@, values@);
        let ghost names0 = names@;
        let ghost values0 = values@;
        let name = names.remove(0);
        let slot_values = values.remove(0);
        let ghost m0 = mapped@;
        mapped.push(MappedArgument { supplied_name: name, values: slot_values });
        proof {
            assert(names@ == names0.remove(0));
            assert(values@ == values0.remove(0));
            assert(slot_view(mapped@[k as int]) == before[0]);
            assert forall|j: int| 0 <= j < n - (k + 1) implies #[trigger] slot_views(names@, values@)[j] == views[j + k + 1] by {
                assert(slot_views(names@, values@)[j] == before[j + 1]);
            }
            assert forall|j: int| 0 <= j < k + 1 implies slot_view(#[trigger] mapped@[j]) == views[j] by {
                if j < k {
                    assert(mapped@[j] == m0[j]);
                }
            }
        }
        k = k + 1;
    }
    proof {
        assert(mapped@.map_values(|x: MappedArgument| slot_view(x)) =~= views);
    }
    if required_parameters_are_present(parameters, mapped.as_slice()) {
        proof {
            assert forall|i: int| 0 <= i < parameters@.len() implies (#[trigger] parameters@[i]).optional || views[i].1.len() > 0 by {
                assert(slot_view(mapped@[i]) == views[i]);
            }
        }
        Some(mapped)
    } else {
        proof {
            let i = choose|i: int|
                !(0 <= i < parameters@.len() && i < mapped@.len() ==> (#[trigger] parameters@[i]).optional
                    || mapped@[i].values@.len() > 0);
            assert(slot_view(mapped@[i]) == views[i]);
        }
        None
    }
}

} // verus!
