//! Textual checks around Expression matching: the literal prefilter that rules a
//! pattern out before it is tried, and the syntactic reason reported when no
//! Expression matches a range.
use crate::pattern_match::{
    find_parenthesis_end, find_quote_end, find_variable_end, first_char_len, first_char_width,
    java_trim, java_trim_range, lemma_first_char, lemma_parenthesis_end_bounds,
    lemma_quote_end_bounds, lemma_variable_end_bounds, opt_int, parenthesis_end, quote_end,
    variable_end,
};
use crate::text::{boundary, bytes_of, lemma_after_ascii, str_len, ws_end, ws_start_before, TextRange};
use crate::raw_tree::trim_str;
use crate::expression_list::ExpressionListConjunction;
use crate::pattern_match::MatchSpan;
use crate::pattern_syntax::{PatternElement, SpannedPatternElement};
use std::collections::BTreeMap;
use vstd::prelude::*;
use vstd::string::StringSliceAdditionalSpecFns;
use vstd::utf8::*;

verus! {

broadcast use vstd::utf8::group_utf8_lib;

/// The characters of a string slice, in order.
pub fn chars_of(s: &str) -> (r: Vec<char>)
    ensures
        r@ == s@,
{
    broadcast use vstd::string::axiom_spec_iter;

    let mut r: Vec<char> = Vec::new();
    for c in it: s.chars()
        invariant
            r@ == it.seq().take(it.index() as int),
    {
        r.push(c);
    }
    r
}

/// What `char::to_lowercase` yields for a character: one or more characters.
pub uninterp spec fn char_lowercase(c: char) -> Seq<char>;

/// Lowercases one character with `char::to_lowercase`.
#[verifier::external_body]
fn lowercase_char(c: char) -> (r: Vec<char>)
    ensures
        r@ == char_lowercase(c),
{
    c.to_lowercase().collect()
}

/// What `str::to_lowercase` yields for a string.
pub uninterp spec fn str_lowercase(s: Seq<char>) -> Seq<char>;

/// Lowercases a string with `str::to_lowercase`.
#[verifier::external_body]
pub(crate) fn lowercase_str(s: &str) -> (r: String)
    ensures
        r@ == str_lowercase(s@),
{
    s.to_lowercase()
}

/// Two characters are equal, or lowercase to the same characters.
pub open spec fn chars_match(a: char, b: char) -> bool {
    a == b || char_lowercase(a) == char_lowercase(b)
}

/// Compares two characters, ignoring case.
pub fn chars_equal_ignore_case(left: char, right: char) -> (r: bool)
    ensures
        r == chars_match(left, right),
{
    if left == right {
        return true;
    }
    let a = lowercase_char(left);
    let b = lowercase_char(right);
    if a.len() != b.len() {
        proof {
            assert(a@ != b@);
        }
        return false;
    }
    let mut k: usize = 0;
    while k < a.len()
        invariant
            a@ == char_lowercase(left),
            b@ == char_lowercase(right),
            a@.len() == b@.len(),
            k <= a@.len(),
            forall|q: int| 0 <= q < k ==> a@[q] == b@[q],
        decreases a@.len() - k,
    {
        if a[k] != b[k] {
            proof {
                assert(a@[k as int] != b@[k as int]);
                assert(a@ != b@);
            }
            return false;
        }
        k = k + 1;
    }
    proof {
        assert(a@ =~= b@);
    }
    true
}

/// `s`, read from character `c`, begins with the Skript literal `p`.
///
/// A space of the literal matches at either end of `s`, consumes a space of `s`,
/// or matches just after one; any other character must match the next character
/// of `s`, ignoring case.
pub open spec fn starts_lit(s: Seq<char>, p: Seq<char>, c: int) -> bool
    decreases p.len(),
{
    if p.len() == 0 {
        true
    } else if p[0] == ' ' {
        if c == 0 || c == s.len() {
            starts_lit(s, p.drop_first(), c)
        } else if 0 < c < s.len() && s[c] == ' ' {
            starts_lit(s, p.drop_first(), c + 1)
        } else if 0 < c < s.len() && s[c - 1] == ' ' {
            starts_lit(s, p.drop_first(), c)
        } else {
            false
        }
    } else if 0 <= c < s.len() {
        chars_match(p[0], s[c]) && starts_lit(s, p.drop_first(), c + 1)
    } else {
        false
    }
}

/// `s`, read backwards from character `c`, ends with the Skript literal `p`
/// (the mirror image of [`starts_lit`]).
pub open spec fn ends_lit(s: Seq<char>, p: Seq<char>, c: int) -> bool
    decreases p.len(),
{
    if p.len() == 0 {
        true
    } else if p.last() == ' ' {
        if c == 0 || c == s.len() {
            ends_lit(s, p.drop_last(), c)
        } else if 0 < c < s.len() && s[c - 1] == ' ' {
            ends_lit(s, p.drop_last(), c - 1)
        } else if 0 < c < s.len() && s[c] == ' ' {
            ends_lit(s, p.drop_last(), c)
        } else {
            false
        }
    } else if 0 < c <= s.len() {
        chars_match(p.last(), s[c - 1]) && ends_lit(s, p.drop_last(), c - 1)
    } else {
        false
    }
}

/// Whether `input` begins with the Skript literal `prefix`, ignoring case.
pub fn starts_with_skript_literal(input: &str, prefix: &str) -> (r: bool)
    ensures
        r == starts_lit(input@, prefix@, 0),
{
    let s = chars_of(input);
    let p = chars_of(prefix);
    let ghost goal = starts_lit(s@, p@, 0);
    let mut k: usize = 0;
    let mut cursor: usize = 0;
    proof {
        assert(p@.skip(0) =~= p@);
    }
    while k < p.len()
        invariant
            s@ == input@,
            p@ == prefix@,
            goal == starts_lit(input@, prefix@, 0),
            k <= p@.len(),
            cursor <= s@.len(),
            goal == starts_lit(s@, p@.skip(k as int), cursor as int),
        decreases p@.len() - k,
    {
        proof {
            assert(p@.skip(k as int).drop_first() =~= p@.skip(k + 1));
            assert(p@.skip(k as int)[0] == p@[k as int]);
        }
        let expected = p[k];
        if expected == ' ' {
            if cursor == 0 || cursor == s.len() {
                k = k + 1;
                continue;
            }
            if s[cursor] == ' ' {
                cursor = cursor + 1;
                k = k + 1;
                continue;
            }
            if s[cursor - 1] == ' ' {
                k = k + 1;
                continue;
            }
            proof {
                assert(!starts_lit(s@, p@.skip(k as int), cursor as int));
            }
            return false;
        }
        if cursor >= s.len() {
            proof {
                assert(!starts_lit(s@, p@.skip(k as int), cursor as int));
            }
            return false;
        }
        if !chars_equal_ignore_case(expected, s[cursor]) {
            proof {
                assert(!starts_lit(s@, p@.skip(k as int), cursor as int));
            }
            return false;
        }
        cursor = cursor + 1;
        k = k + 1;
    }
    proof {
        assert(p@.skip(k as int).len() == 0);
    }
    true
}

/// Whether `input` ends with the Skript literal `suffix`, ignoring case.
pub fn ends_with_skript_literal(input: &str, suffix: &str) -> (r: bool)
    ensures
        r == ends_lit(input@, suffix@, input@.len() as int),
{
    let s = chars_of(input);
    let p = chars_of(suffix);
    let ghost goal = ends_lit(s@, p@, s@.len() as int);
    let mut k: usize = p.len();
    let mut cursor: usize = s.len();
    proof {
        assert(p@.take(p@.len() as int) =~= p@);
    }
    while k > 0
        invariant
            s@ == input@,
            p@ == suffix@,
            goal == ends_lit(input@, suffix@, input@.len() as int),
            k <= p@.len(),
            cursor <= s@.len(),
            goal == ends_lit(s@, p@.take(k as int), cursor as int),
        decreases k,
    {
        proof {
            assert(p@.take(k as int).drop_last() =~= p@.take(k - 1));
            assert(p@.take(k as int).last() == p@[k - 1]);
        }
        let expected = p[k - 1];
        if expected == ' ' {
            if cursor == 0 || cursor == s.len() {
                k = k - 1;
                continue;
            }
            if s[cursor - 1] == ' ' {
                cursor = cursor - 1;
                k = k - 1;
                continue;
            }
            if s[cursor] == ' ' {
                k = k - 1;
                continue;
            }
            proof {
                assert(!ends_lit(s@, p@.take(k as int), cursor as int));
            }
            return false;
        }
        if cursor == 0 {
            proof {
                assert(!ends_lit(s@, p@.take(k as int), cursor as int));
            }
            return false;
        }
        if !chars_equal_ignore_case(expected, s[cursor - 1]) {
            proof {
                assert(!ends_lit(s@, p@.take(k as int), cursor as int));
            }
            return false;
        }
        cursor = cursor - 1;
        k = k - 1;
    }
    proof {
        assert(p@.take(0) =~= Seq::<char>::empty());
        assert(p@.take(p@.len() as int) =~= p@);
    }
    true
}

/// One partial literal a pattern can start (or end) with, and whether a
/// non-literal element follows it.
#[derive(Debug)]
pub struct PrefixState {
    pub text: String,
    pub terminal: bool,
}

impl Clone for PrefixState {
    fn clone(&self) -> (r: Self)
        ensures
            r.text@ == self.text@,
            r.terminal == self.terminal,
    {
        PrefixState { text: self.text.clone(), terminal: self.terminal }
    }
}

/// Textual facts about a pattern that any input it matches must satisfy.
pub struct PatternPrefilter {
    pub left_recursive: bool,
    pub minimum_input_len: usize,
    pub leading: Vec<PrefixState>,
    pub trailing: Vec<PrefixState>,
    pub required_literal_branches: Vec<Vec<String>>,
}

/// Every character is a space.
pub open spec fn all_spaces(t: Seq<char>) -> bool {
    forall|i: int| 0 <= i < t.len() ==> t[i] == ' '
}

/// Whether the text is made of spaces only.
fn is_all_spaces(t: &str) -> (r: bool)
    ensures
        r == all_spaces(t@),
{
    let c = chars_of(t);
    let mut k: usize = 0;
    while k < c.len()
        invariant
            c@ == t@,
            k <= c@.len(),
            forall|i: int| 0 <= i < k ==> c@[i] == ' ',
        decreases c@.len() - k,
    {
        if c[k] != ' ' {
            return false;
        }
        k = k + 1;
    }
    true
}

/// Some state is blank or a literal prefix of `s`.
pub open spec fn states_may_start(states: Seq<PrefixState>, s: Seq<char>) -> bool {
    exists|k: int|
        0 <= k < states.len() && (all_spaces(#[trigger] states[k].text@) || starts_lit(s, states[k].text@, 0))
}

/// Some state is blank or a literal suffix of `s`.
pub open spec fn states_may_end(states: Seq<PrefixState>, s: Seq<char>) -> bool {
    exists|k: int|
        0 <= k < states.len() && (all_spaces(#[trigger] states[k].text@) || ends_lit(
            s,
            states[k].text@,
            s.len() as int,
        ))
}

/// Whether `input` may begin with one of the leading states.
pub fn prefix_states_may_start_with(states: &[PrefixState], input: &str) -> (r: bool)
    ensures
        r == states_may_start(states@, input@),
{
    let mut k: usize = 0;
    while k < states.len()
        invariant
            k <= states@.len(),
            forall|q: int|
                0 <= q < k ==> !(all_spaces(#[trigger] states@[q].text@) || starts_lit(input@, states@[q].text@, 0)),
        decreases states@.len() - k,
    {
        let text = states[k].text.as_str();
        if is_all_spaces(text) || starts_with_skript_literal(input, text) {
            return true;
        }
        k = k + 1;
    }
    false
}

/// Whether `input` may end with one of the trailing states.
pub fn suffix_states_may_end_with(states: &[PrefixState], input: &str) -> (r: bool)
    ensures
        r == states_may_end(states@, input@),
{
    let mut k: usize = 0;
    while k < states.len()
        invariant
            k <= states@.len(),
            forall|q: int|
                0 <= q < k ==> !(all_spaces(#[trigger] states@[q].text@) || ends_lit(
                    input@,
                    states@[q].text@,
                    input@.len() as int,
                )),
        decreases states@.len() - k,
    {
        let text = states[k].text.as_str();
        if is_all_spaces(text) || ends_with_skript_literal(input, text) {
            return true;
        }
        k = k + 1;
    }
    false
}

/// The window of `b` at `i` equals `l`, ignoring ASCII case.
pub open spec fn window_at(b: Seq<u8>, l: Seq<u8>, i: int) -> bool {
    forall|k: int| 0 <= k < l.len() ==> ascii_fold(#[trigger] b[i + k]) == ascii_fold(l[k])
}

/// Some window of `b` equals `l`, ignoring ASCII case.
pub open spec fn ascii_window(b: Seq<u8>, l: Seq<u8>) -> bool {
    exists|i: int| 0 <= i && i + l.len() <= b.len() && #[trigger] window_at(b, l, i)
}

/// A byte with ASCII upper case folded to lower case.
pub open spec fn ascii_fold(c: u8) -> u8 {
    if 0x41 <= c <= 0x5a {
        (c + 0x20) as u8
    } else {
        c
    }
}

/// `n` occurs in `h` as a run of bytes.
pub open spec fn byte_substring(h: Seq<u8>, n: Seq<u8>) -> bool {
    exists|i: int| 0 <= i && i + n.len() <= h.len() && #[trigger] run_at(h, n, i)
}

/// The bytes of `h` at `i` are those of `n`.
pub open spec fn run_at(h: Seq<u8>, n: Seq<u8>, i: int) -> bool {
    h.subrange(i, i + n.len()) == n
}

/// The literal occurs in the input, ignoring case: by ASCII folding when both
/// are ASCII, else as a substring of the lowercased input.
pub open spec fn contains_literal(input: Seq<char>, lowered: Seq<char>, literal: Seq<char>) -> bool {
    if literal.len() == 0 {
        true
    } else if is_ascii_chars(input) && is_ascii_chars(literal) {
        ascii_window(encode_utf8(input), encode_utf8(literal))
    } else {
        byte_substring(encode_utf8(lowered), encode_utf8(literal))
    }
}

/// ASCII lower case of a byte.
fn fold_byte(c: u8) -> (r: u8)
    ensures
        r == ascii_fold(c),
{
    if 0x41 <= c && c <= 0x5a {
        c + 0x20
    } else {
        c
    }
}

/// Whether the bytes of `l` occur in `b` at `i`, ignoring ASCII case.
fn window_matches(b: &[u8], l: &[u8], i: usize) -> (r: bool)
    requires
        i + l@.len() <= b@.len(),
    ensures
        r == window_at(b@, l@, i as int),
{
    let blen = b.len();
    let mut k: usize = 0;
    while k < l.len()
        invariant
            i + l@.len() <= b@.len(),
            blen == b@.len(),
            k <= l@.len(),
            forall|q: int| 0 <= q < k ==> ascii_fold(#[trigger] b@[i + q]) == ascii_fold(l@[q]),
        decreases l@.len() - k,
    {
        if fold_byte(b[i + k]) != fold_byte(l[k]) {
            proof {
                assert(ascii_fold(b@[i + k as int]) != ascii_fold(l@[k as int]));
            }
            return false;
        }
        k = k + 1;
    }
    true
}

/// Whether the bytes of `n` occur at `i` in `h`.
fn run_matches(h: &[u8], n: &[u8], i: usize) -> (r: bool)
    requires
        i + n@.len() <= h@.len(),
    ensures
        r == run_at(h@, n@, i as int),
{
    let hlen = h.len();
    let mut k: usize = 0;
    while k < n.len()
        invariant
            i + n@.len() <= h@.len(),
            hlen == h@.len(),
            k <= n@.len(),
            forall|q: int| 0 <= q < k ==> h@[i + q] == n@[q],
        decreases n@.len() - k,
    {
        if h[i + k] != n[k] {
            proof {
                assert(h@.subrange(i as int, i + n@.len())[k as int] != n@[k as int]);
            }
            return false;
        }
        k = k + 1;
    }
    proof {
        assert(h@.subrange(i as int, i + n@.len()) =~= n@);
    }
    true
}

/// Whether `literal` occurs in `input` ignoring case; `lowercase_input` is the
/// input already lowercased for the non-ASCII comparison.
pub fn contains_literal_ignore_case(input: &str, lowercase_input: &str, literal: &str) -> (r: bool)
    ensures
        r == contains_literal(input@, lowercase_input@, literal@),
{
    let lit = literal.as_bytes();
    if lit.len() == 0 {
        proof {
            assert(literal@.len() == 0) by {
                if literal@.len() > 0 {
                    lemma_encode_nonempty(literal@);
                }
            }
        }
        return true;
    }
    proof {
        if literal@.len() == 0 {
            assert(encode_utf8(literal@) =~= Seq::<u8>::empty());
        }
    }
    if input.is_ascii() && literal.is_ascii() {
        let b = input.as_bytes();
        if lit.len() > b.len() {
            return false;
        }
        let last = b.len() - lit.len();
        let mut i: usize = 0;
        while i <= last
            invariant
                b@ == encode_utf8(input@),
                lit@ == encode_utf8(literal@),
                literal@.len() > 0,
                lit@.len() > 0,
                b@.len() <= usize::MAX,
                is_ascii_chars(input@) && is_ascii_chars(literal@),
                lit@.len() <= b@.len(),
                last == b@.len() - lit@.len(),
                i <= last + 1,
                forall|j: int| 0 <= j < i ==> !#[trigger] window_at(b@, lit@, j),
            decreases b@.len() - i,
        {
            if window_matches(b, lit, i) {
                proof {
                    assert(window_at(b@, lit@, i as int));
                }
                return true;
            }
            i = i + 1;
        }
        return false;
    }
    let h = lowercase_input.as_bytes();
    if lit.len() > h.len() {
        return false;
    }
    let last = h.len() - lit.len();
    let mut i: usize = 0;
    while i <= last
        invariant
            h@ == encode_utf8(lowercase_input@),
            lit@ == encode_utf8(literal@),
            literal@.len() > 0,
            lit@.len() > 0,
            h@.len() <= usize::MAX,
            !(is_ascii_chars(input@) && is_ascii_chars(literal@)),
            lit@.len() <= h@.len(),
            last == h@.len() - lit@.len(),
            i <= last + 1,
            forall|j: int| 0 <= j < i ==> !#[trigger] run_at(h@, lit@, j),
        decreases h@.len() - i,
    {
        if run_matches(h, lit, i) {
            proof {
                assert(run_at(h@, lit@, i as int));
            }
            return true;
        }
        i = i + 1;
    }
    false
}

/// A non-empty text has a non-empty encoding.
proof fn lemma_encode_nonempty(s: Seq<char>)
    requires
        s.len() > 0,
    ensures
        encode_utf8(s).len() > 0,
{
    assert(s =~= seq![s[0]] + s.drop_first());
    crate::text::lemma_encode_concat(seq![s[0]], s.drop_first());
    assert(encode_utf8(seq![s[0]]).len() > 0) by {
        assert(seq![s[0]].drop_first() =~= Seq::<char>::empty());
    }
}

/// Every literal of the branch occurs in the input.
pub open spec fn branch_present(input: Seq<char>, lowered: Seq<char>, branch: Seq<String>) -> bool {
    forall|k: int| 0 <= k < branch.len() ==> contains_literal(input, lowered, #[trigger] branch[k]@)
}

/// The input text a prefilter compares literals against.
pub open spec fn lowered_input(input: Seq<char>) -> Seq<char> {
    if is_ascii_chars(input) {
        input
    } else {
        str_lowercase(input)
    }
}

/// A prefilter admits an input that is long enough, may start with a leading
/// state and end with a trailing one, and contains every literal of some branch.
pub open spec fn prefilter_admits(p: PatternPrefilter, input: Seq<char>) -> bool {
    &&& encode_utf8(input).len() >= p.minimum_input_len
    &&& states_may_start(p.leading@, input)
    &&& states_may_end(p.trailing@, input)
    &&& exists|j: int|
        0 <= j < p.required_literal_branches@.len() && branch_present(
            input,
            lowered_input(input),
            #[trigger] p.required_literal_branches@[j]@,
        )
}

/// Whether a branch's literals all occur in the input.
fn branch_matches(input: &str, lowered: &str, branch: &Vec<String>) -> (r: bool)
    ensures
        r == branch_present(input@, lowered@, branch@),
{
    let mut k: usize = 0;
    while k < branch.len()
        invariant
            k <= branch@.len(),
            forall|q: int| 0 <= q < k ==> contains_literal(input@, lowered@, #[trigger] branch@[q]@),
        decreases branch@.len() - k,
    {
        if !contains_literal_ignore_case(input, lowered, branch[k].as_str()) {
            return false;
        }
        k = k + 1;
    }
    true
}

/// Whether the prefilter admits `input`; a pattern it rejects cannot match.
pub fn pattern_prefilter_matches(prefilter: &PatternPrefilter, input: &str) -> (r: bool)
    ensures
        r == prefilter_admits(*prefilter, input@),
{
    if str_len(input) < prefilter.minimum_input_len || !prefix_states_may_start_with(
        prefilter.leading.as_slice(),
        input,
    ) || !suffix_states_may_end_with(prefilter.trailing.as_slice(), input) {
        return false;
    }
    let lowered_owned: String;
    let lowered: &str = if input.is_ascii() {
        input
    } else {
        lowered_owned = lowercase_str(input);
        lowered_owned.as_str()
    };
    let branches = &prefilter.required_literal_branches;
    let mut j: usize = 0;
    while j < branches.len()
        invariant
            branches@ == prefilter.required_literal_branches@,
            encode_utf8(input@).len() >= prefilter.minimum_input_len,
            states_may_start(prefilter.leading@, input@),
            states_may_end(prefilter.trailing@, input@),
            j <= branches@.len(),
            lowered@ == lowered_input(input@),
            forall|q: int| 0 <= q < j ==> !branch_present(input@, lowered@, #[trigger] branches@[q]@),
        decreases branches@.len() - j,
    {
        if branch_matches(input, lowered, &branches[j]) {
            proof {
                assert(branch_present(input@, lowered@, branches@[j as int]@));
            }
            return true;
        }
        j = j + 1;
    }
    false
}

/// The states `children`, each followed by the parent's text.
pub open spec fn suffixed(parent: Seq<char>, children: Seq<PrefixState>) -> Seq<(Seq<char>, bool)> {
    children.map_values(|c: PrefixState| (c.text@ + parent, c.terminal))
}

/// The states `children`, each preceded by the parent's text.
pub open spec fn prefixed(parent: Seq<char>, children: Seq<PrefixState>) -> Seq<(Seq<char>, bool)> {
    children.map_values(|c: PrefixState| (parent + c.text@, c.terminal))
}

/// The text and terminal flag of each state.
pub open spec fn state_views(v: Seq<PrefixState>) -> Seq<(Seq<char>, bool)> {
    v.map_values(|c: PrefixState| (c.text@, c.terminal))
}

/// Appends each child state with the parent's text after it.
pub fn prepend_suffix_states(parent: &PrefixState, children: Vec<PrefixState>, output: &mut Vec<PrefixState>)
    ensures
        state_views(final(output)@) == state_views(old(output)@) + suffixed(parent.text@, children@),
{
    let ghost start = state_views(output@);
    let mut k: usize = 0;
    while k < children.len()
        invariant
            k <= children@.len(),
            state_views(output@) == start + suffixed(parent.text@, children@.take(k as int)),
        decreases children@.len() - k,
    {
        let text = children[k].text.clone().concat(parent.text.as_str());
        let ghost before = output@;
        output.push(PrefixState { text, terminal: children[k].terminal });
        proof {
            assert(children@.take(k + 1) =~= children@.take(k as int).push(children@[k as int]));
            assert(state_views(output@) =~= state_views(before).push(
                (children@[k as int].text@ + parent.text@, children@[k as int].terminal),
            ));
            assert(suffixed(parent.text@, children@.take(k + 1)) =~= suffixed(parent.text@, children@.take(k as int)).push(
                (children@[k as int].text@ + parent.text@, children@[k as int].terminal),
            ));
        }
        k = k + 1;
    }
    proof {
        assert(children@.take(children@.len() as int) =~= children@);
    }
}

/// Appends each child state with the parent's text before it.
pub fn append_prefix_states(parent: &PrefixState, children: Vec<PrefixState>, output: &mut Vec<PrefixState>)
    ensures
        state_views(final(output)@) == state_views(old(output)@) + prefixed(parent.text@, children@),
{
    let ghost start = state_views(output@);
    let mut k: usize = 0;
    while k < children.len()
        invariant
            k <= children@.len(),
            state_views(output@) == start + prefixed(parent.text@, children@.take(k as int)),
        decreases children@.len() - k,
    {
        let text = parent.text.clone().concat(children[k].text.as_str());
        let ghost before = output@;
        output.push(PrefixState { text, terminal: children[k].terminal });
        proof {
            assert(children@.take(k + 1) =~= children@.take(k as int).push(children@[k as int]));
            assert(state_views(output@) =~= state_views(before).push(
                (parent.text@ + children@[k as int].text@, children@[k as int].terminal),
            ));
            assert(prefixed(parent.text@, children@.take(k + 1)) =~= prefixed(parent.text@, children@.take(k as int)).push(
                (parent.text@ + children@[k as int].text@, children@[k as int].terminal),
            ));
        }
        k = k + 1;
    }
    proof {
        assert(children@.take(children@.len() as int) =~= children@);
    }
}


/// Views of states, each preceded by the parent's text.
pub open spec fn prefix_views(parent: Seq<char>, children: Seq<(Seq<char>, bool)>) -> Seq<(Seq<char>, bool)> {
    children.map_values(|c: (Seq<char>, bool)| (parent + c.0, c.1))
}

/// Views of states, each followed by the parent's text.
pub open spec fn suffix_views(parent: Seq<char>, children: Seq<(Seq<char>, bool)>) -> Seq<(Seq<char>, bool)> {
    children.map_values(|c: (Seq<char>, bool)| (c.0 + parent, c.1))
}

/// What a state list becomes when it grows too large: one terminal state
/// with no text, which rules nothing out.
pub open spec fn overflow_states() -> Seq<(Seq<char>, bool)> {
    seq![(Seq::<char>::empty(), true)]
}

/// `v`, or [`overflow_states`] where `v` has more than 256 states.
pub open spec fn capped_states(v: Seq<(Seq<char>, bool)>) -> Seq<(Seq<char>, bool)> {
    if v.len() > 256 {
        overflow_states()
    } else {
        v
    }
}

/// The literal texts a match of the sequence can begin with: each state is
/// the literal text read so far and whether a non-literal element follows it.
pub open spec fn leading_states(s: Seq<SpannedPatternElement>) -> Seq<(Seq<char>, bool)>
    decreases s, 0nat,
{
    if s.len() == 0 {
        seq![(Seq::<char>::empty(), false)]
    } else {
        capped_states(lead_all(leading_states(s.drop_last()), s.last().value))
    }
}

/// Every state extended by one more element, in order.
pub open spec fn lead_all(states: Seq<(Seq<char>, bool)>, e: PatternElement) -> Seq<(Seq<char>, bool)>
    decreases e, states.len(),
{
    if states.len() == 0 {
        Seq::empty()
    } else {
        lead_all(states.drop_last(), e) + lead_one(states.last(), e)
    }
}

/// One state extended by one element: terminal states stay, literals extend
/// the text, typed and regular expressions end it.
pub open spec fn lead_one(st: (Seq<char>, bool), e: PatternElement) -> Seq<(Seq<char>, bool)>
    decreases e, 0nat,
{
    if st.1 {
        seq![st]
    } else {
        match e {
            PatternElement::Literal(v) => seq![(st.0 + v@, false)],
            PatternElement::Regex(_) => seq![(st.0, true)],
            PatternElement::TypeExpr(_) => seq![(st.0, true)],
            PatternElement::Group(c) => prefix_views(st.0, leading_states(c@)),
            PatternElement::Optional(c) => seq![st] + prefix_views(st.0, leading_states(c@)),
            PatternElement::Choice(bs) => lead_choices(st.0, bs@),
            _ => seq![st],
        }
    }
}

/// The leading states of each branch, behind `text`, branch after branch.
pub open spec fn lead_choices(text: Seq<char>, bs: Seq<Vec<SpannedPatternElement>>) -> Seq<(Seq<char>, bool)>
    decreases bs, 0nat,
{
    if bs.len() == 0 {
        Seq::empty()
    } else {
        lead_choices(text, bs.drop_last()) + prefix_views(text, leading_states(bs.last()@))
    }
}

proof fn lemma_prefixed_views(p: Seq<char>, v: Seq<PrefixState>)
    ensures
        prefixed(p, v) == prefix_views(p, state_views(v)),
{
    assert(prefixed(p, v) =~= prefix_views(p, state_views(v)));
}

proof fn lemma_suffixed_views(p: Seq<char>, v: Seq<PrefixState>)
    ensures
        suffixed(p, v) == suffix_views(p, state_views(v)),
{
    assert(suffixed(p, v) =~= suffix_views(p, state_views(v)));
}

/// Once the leading states overflow, later elements keep them so.
proof fn lemma_leading_overflow(s: Seq<SpannedPatternElement>, k: int)
    requires
        0 <= k <= s.len(),
        leading_states(s.take(k)) == overflow_states(),
    ensures
        leading_states(s) == overflow_states(),
    decreases s.len() - k,
{
    if k < s.len() {
        let e = s[k].value;
        assert(s.take(k + 1).drop_last() =~= s.take(k));
        assert(s.take(k + 1).last() == s[k]);
        assert(overflow_states().drop_last() =~= Seq::<(Seq<char>, bool)>::empty());
        assert(lead_all(Seq::<(Seq<char>, bool)>::empty(), e) =~= Seq::<(Seq<char>, bool)>::empty());
        assert(lead_one(overflow_states().last(), e) =~= overflow_states());
        assert(lead_all(overflow_states(), e) =~= overflow_states());
        lemma_leading_overflow(s, k + 1);
    } else {
        assert(s.take(k) =~= s);
    }
}

/// Extends one state by one element, appending the results to `next`.
fn lead_state(state: &PrefixState, element: &PatternElement, next: &mut Vec<PrefixState>)
    ensures
        state_views(final(next)@) == state_views(old(next)@) + lead_one((state.text@, state.terminal), *element),
    decreases *element,
{
    let ghost st = (state.text@, state.terminal);
    let ghost before = state_views(next@);
    if state.terminal {
        next.push(state.clone());
        proof {
            assert(state_views(next@) =~= before + lead_one(st, *element));
        }
        return;
    }
    match element {
        PatternElement::Literal(v) => {
            let text = state.text.clone().concat(v.as_str());
            next.push(PrefixState { text, terminal: false });
            proof {
                assert(state_views(next@) =~= before + lead_one(st, *element));
            }
        },
        PatternElement::Regex(_) | PatternElement::TypeExpr(_) => {
            next.push(PrefixState { text: state.text.clone(), terminal: true });
            proof {
                assert(state_views(next@) =~= before + lead_one(st, *element));
            }
        },
        PatternElement::Group(children) => {
            let c = leading_prefix_states(children.as_slice());
            proof {
                lemma_prefixed_views(state.text@, c@);
            }
            append_prefix_states(state, c, next);
        },
        PatternElement::Optional(children) => {
            next.push(state.clone());
            let c = leading_prefix_states(children.as_slice());
            proof {
                lemma_prefixed_views(state.text@, c@);
            }
            append_prefix_states(state, c, next);
            proof {
                assert(state_views(next@) =~= before + lead_one(st, *element));
            }
        },
        PatternElement::Choice(branches) => {
            let mut k: usize = 0;
            while k < branches.len()
                invariant
                    *element == PatternElement::Choice(*branches),
                    !state.terminal,
                    st == (state.text@, state.terminal),
                    k <= branches@.len(),
                    state_views(next@) == before + lead_choices(state.text@, branches@.take(k as int)),
                decreases branches@.len() - k,
            {
                proof {
                    assert(decreases_to!(*element => (*element)->Choice_0));
                    assert(decreases_to!(*branches => branches@));
                    assert(decreases_to!(branches@ => branches@[k as int]));
                    assert(decreases_to!(branches@[k as int] => branches@[k as int]@));
                    assert(branches@.take(k + 1).drop_last() =~= branches@.take(k as int));
                    assert(branches@.take(k + 1).last() == branches@[k as int]);
                }
                let c = leading_prefix_states(branches[k].as_slice());
                proof {
                    lemma_prefixed_views(state.text@, c@);
                }
                append_prefix_states(state, c, next);
                k = k + 1;
            }
            proof {
                assert(branches@.take(branches@.len() as int) =~= branches@);
            }
        },
        _ => {
            next.push(state.clone());
            proof {
                assert(state_views(next@) =~= before + lead_one(st, *element));
            }
        },
    }
}

/// The literal texts a match of the pattern can begin with, each with whether
/// a non-literal element follows it.
pub fn leading_prefix_states(elements: &[SpannedPatternElement]) -> (r: Vec<PrefixState>)
    ensures
        state_views(r@) == leading_states(elements@),
    decreases elements@,
{
    let mut states: Vec<PrefixState> = Vec::new();
    states.push(PrefixState { text: String::new(), terminal: false });
    proof {
        assert(elements@.take(0) =~= Seq::<SpannedPatternElement>::empty());
        assert(state_views(states@) =~= leading_states(elements@.take(0)));
    }
    let mut k: usize = 0;
    while k < elements.len()
        invariant
            k <= elements@.len(),
            state_views(states@) == leading_states(elements@.take(k as int)),
        decreases elements@.len() - k,
    {
        let element = &elements[k].value;
        let ghost views = state_views(states@);
        let mut next: Vec<PrefixState> = Vec::new();
        let mut j: usize = 0;
        proof {
            assert(views.take(0) =~= Seq::<(Seq<char>, bool)>::empty());
            assert(state_views(next@) =~= Seq::<(Seq<char>, bool)>::empty());
        }
        while j < states.len()
            invariant
                k < elements@.len(),
                *element == elements@[k as int].value,
                views == state_views(states@),
                j <= states@.len(),
                state_views(next@) == lead_all(views.take(j as int), *element),
            decreases states@.len() - j,
        {
            proof {
                assert(decreases_to!(elements@ => elements@[k as int]));
                assert(decreases_to!(elements@[k as int] => elements@[k as int].value));
                assert(views.take(j + 1).drop_last() =~= views.take(j as int));
                assert(views.take(j + 1).last() == views[j as int]);
            }
            lead_state(&states[j], element, &mut next);
            j = j + 1;
        }
        proof {
            assert(views.take(views.len() as int) =~= views);
            assert(elements@.take(k + 1).drop_last() =~= elements@.take(k as int));
            assert(elements@.take(k + 1).last() == elements@[k as int]);
        }
        if next.len() > 256 {
            proof {
                lemma_leading_overflow(elements@, k + 1);
            }
            let mut overflow: Vec<PrefixState> = Vec::new();
            overflow.push(PrefixState { text: String::new(), terminal: true });
            proof {
                assert(state_views(overflow@) =~= overflow_states());
            }
            return overflow;
        }
        states = next;
        k = k + 1;
    }
    proof {
        assert(elements@.take(elements@.len() as int) =~= elements@);
    }
    states
}

/// The literal texts a match of the sequence can end with: each state is the
/// literal text read backwards so far and whether a non-literal element
/// precedes it.
pub open spec fn trailing_states(s: Seq<SpannedPatternElement>) -> Seq<(Seq<char>, bool)>
    decreases s, 0nat,
{
    if s.len() == 0 {
        seq![(Seq::<char>::empty(), false)]
    } else {
        capped_states(trail_all(trailing_states(s.drop_first()), s[0].value))
    }
}

/// Every state extended backwards by one more element, in order.
pub open spec fn trail_all(states: Seq<(Seq<char>, bool)>, e: PatternElement) -> Seq<(Seq<char>, bool)>
    decreases e, states.len(),
{
    if states.len() == 0 {
        Seq::empty()
    } else {
        trail_all(states.drop_last(), e) + trail_one(states.last(), e)
    }
}

/// One state extended backwards by one element.
pub open spec fn trail_one(st: (Seq<char>, bool), e: PatternElement) -> Seq<(Seq<char>, bool)>
    decreases e, 0nat,
{
    if st.1 {
        seq![st]
    } else {
        match e {
            PatternElement::Literal(v) => seq![(v@ + st.0, false)],
            PatternElement::Regex(_) => seq![(st.0, true)],
            PatternElement::TypeExpr(_) => seq![(st.0, true)],
            PatternElement::Group(c) => suffix_views(st.0, trailing_states(c@)),
            PatternElement::Optional(c) => seq![st] + suffix_views(st.0, trailing_states(c@)),
            PatternElement::Choice(bs) => trail_choices(st.0, bs@),
            _ => seq![st],
        }
    }
}

/// The trailing states of each branch, before `text`, branch after branch.
pub open spec fn trail_choices(text: Seq<char>, bs: Seq<Vec<SpannedPatternElement>>) -> Seq<(Seq<char>, bool)>
    decreases bs, 0nat,
{
    if bs.len() == 0 {
        Seq::empty()
    } else {
        trail_choices(text, bs.drop_last()) + suffix_views(text, trailing_states(bs.last()@))
    }
}

/// Once the trailing states overflow, earlier elements keep them so.
proof fn lemma_trailing_overflow(s: Seq<SpannedPatternElement>, k: int)
    requires
        0 <= k <= s.len(),
        trailing_states(s.skip(k)) == overflow_states(),
    ensures
        trailing_states(s) == overflow_states(),
    decreases k,
{
    if k > 0 {
        let e = s[k - 1].value;
        assert(s.skip(k - 1).drop_first() =~= s.skip(k));
        assert(s.skip(k - 1)[0] == s[k - 1]);
        assert(overflow_states().drop_last() =~= Seq::<(Seq<char>, bool)>::empty());
        assert(trail_all(Seq::<(Seq<char>, bool)>::empty(), e) =~= Seq::<(Seq<char>, bool)>::empty());
        assert(trail_one(overflow_states().last(), e) =~= overflow_states());
        assert(trail_all(overflow_states(), e) =~= overflow_states());
        lemma_trailing_overflow(s, k - 1);
    } else {
        assert(s.skip(0) =~= s);
    }
}

/// Extends one state backwards by one element, appending the results to `next`.
fn trail_state(state: &PrefixState, element: &PatternElement, next: &mut Vec<PrefixState>)
    ensures
        state_views(final(next)@) == state_views(old(next)@) + trail_one((state.text@, state.terminal), *element),
    decreases *element,
{
    let ghost st = (state.text@, state.terminal);
    let ghost before = state_views(next@);
    if state.terminal {
        next.push(state.clone());
        proof {
            assert(state_views(next@) =~= before + trail_one(st, *element));
        }
        return;
    }
    match element {
        PatternElement::Literal(v) => {
            let text = v.clone().concat(state.text.as_str());
            next.push(PrefixState { text, terminal: false });
            proof {
                assert(state_views(next@) =~= before + trail_one(st, *element));
            }
        },
        PatternElement::Regex(_) | PatternElement::TypeExpr(_) => {
            next.push(PrefixState { text: state.text.clone(), terminal: true });
            proof {
                assert(state_views(next@) =~= before + trail_one(st, *element));
            }
        },
        PatternElement::Group(children) => {
            let c = trailing_suffix_states(children.as_slice());
            proof {
                lemma_suffixed_views(state.text@, c@);
            }
            prepend_suffix_states(state, c, next);
        },
        PatternElement::Optional(children) => {
            next.push(state.clone());
            let c = trailing_suffix_states(children.as_slice());
            proof {
                lemma_suffixed_views(state.text@, c@);
            }
            prepend_suffix_states(state, c, next);
            proof {
                assert(state_views(next@) =~= before + trail_one(st, *element));
            }
        },
        PatternElement::Choice(branches) => {
            let mut k: usize = 0;
            while k < branches.len()
                invariant
                    *element == PatternElement::Choice(*branches),
                    !state.terminal,
                    st == (state.text@, state.terminal),
                    k <= branches@.len(),
                    state_views(next@) == before + trail_choices(state.text@, branches@.take(k as int)),
                decreases branches@.len() - k,
            {
                proof {
                    assert(decreases_to!(*element => (*element)->Choice_0));
                    assert(decreases_to!(*branches => branches@));
                    assert(decreases_to!(branches@ => branches@[k as int]));
                    assert(decreases_to!(branches@[k as int] => branches@[k as int]@));
                    assert(branches@.take(k + 1).drop_last() =~= branches@.take(k as int));
                    assert(branches@.take(k + 1).last() == branches@[k as int]);
                }
                let c = trailing_suffix_states(branches[k].as_slice());
                proof {
                    lemma_suffixed_views(state.text@, c@);
                }
                prepend_suffix_states(state, c, next);
                k = k + 1;
            }
            proof {
                assert(branches@.take(branches@.len() as int) =~= branches@);
            }
        },
        _ => {
            next.push(state.clone());
            proof {
                assert(state_views(next@) =~= before + trail_one(st, *element));
            }
        },
    }
}

/// The literal texts a match of the pattern can end with, each with whether
/// a non-literal element precedes it.
pub fn trailing_suffix_states(elements: &[SpannedPatternElement]) -> (r: Vec<PrefixState>)
    ensures
        state_views(r@) == trailing_states(elements@),
    decreases elements@,
{
    let mut states: Vec<PrefixState> = Vec::new();
    states.push(PrefixState { text: String::new(), terminal: false });
    let mut k: usize = elements.len();
    proof {
        assert(elements@.skip(k as int) =~= Seq::<SpannedPatternElement>::empty());
        assert(state_views(states@) =~= trailing_states(elements@.skip(k as int)));
    }
    while k > 0
        invariant
            k <= elements@.len(),
            state_views(states@) == trailing_states(elements@.skip(k as int)),
        decreases k,
    {
        k = k - 1;
        let element = &elements[k].value;
        let ghost views = state_views(states@);
        let mut next: Vec<PrefixState> = Vec::new();
        let mut j: usize = 0;
        proof {
            assert(views.take(0) =~= Seq::<(Seq<char>, bool)>::empty());
            assert(state_views(next@) =~= Seq::<(Seq<char>, bool)>::empty());
        }
        while j < states.len()
            invariant
                k < elements@.len(),
                *element == elements@[k as int].value,
                views == state_views(states@),
                j <= states@.len(),
                state_views(next@) == trail_all(views.take(j as int), *element),
            decreases states@.len() - j,
        {
            proof {
                assert(decreases_to!(elements@ => elements@[k as int]));
                assert(decreases_to!(elements@[k as int] => elements@[k as int].value));
                assert(views.take(j + 1).drop_last() =~= views.take(j as int));
                assert(views.take(j + 1).last() == views[j as int]);
            }
            trail_state(&states[j], element, &mut next);
            j = j + 1;
        }
        proof {
            assert(views.take(views.len() as int) =~= views);
            assert(elements@.skip(k as int).drop_first() =~= elements@.skip(k + 1));
            assert(elements@.skip(k as int)[0] == elements@[k as int]);
        }
        if next.len() > 256 {
            proof {
                lemma_trailing_overflow(elements@, k as int);
            }
            let mut overflow: Vec<PrefixState> = Vec::new();
            overflow.push(PrefixState { text: String::new(), terminal: true });
            proof {
                assert(state_views(overflow@) =~= overflow_states());
            }
            return overflow;
        }
        states = next;
    }
    proof {
        assert(elements@.skip(0) =~= elements@);
    }
    states
}

/// The text `str::trim` leaves of `v`.
pub open spec fn trimmed_text(v: Seq<char>) -> Seq<char> {
    let b = encode_utf8(v);
    decode_utf8(
        if ws_end(b, 0) < ws_start_before(b, b.len() as int) {
            b.subrange(ws_end(b, 0), ws_start_before(b, b.len() as int))
        } else {
            Seq::empty()
        },
    )
}

/// Every branch of `b` followed by every branch of `e`, in that order.
pub open spec fn branch_product(b: Seq<Seq<Seq<char>>>, e: Seq<Seq<Seq<char>>>) -> Seq<Seq<Seq<char>>>
    decreases b.len(),
{
    if b.len() == 0 {
        Seq::empty()
    } else {
        branch_product(b.drop_last(), e) + e.map_values(|x: Seq<Seq<char>>| b.last() + x)
    }
}

/// Alternative lists of lowercase literals: every match of the sequence
/// contains all literals of at least one list. Past 256 lists the analysis
/// gives up with one empty list.
pub open spec fn required_branches(s: Seq<SpannedPatternElement>) -> Seq<Seq<Seq<char>>>
    decreases s, 1nat,
{
    match branch_fold(s) {
        Some(b) => b,
        None => seq![Seq::<Seq<char>>::empty()],
    }
}

/// The lists for the sequence, or `None` once they number more than 256.
pub open spec fn branch_fold(s: Seq<SpannedPatternElement>) -> Option<Seq<Seq<Seq<char>>>>
    decreases s, 0nat,
{
    if s.len() == 0 {
        Some(seq![Seq::<Seq<char>>::empty()])
    } else {
        match branch_fold(s.drop_last()) {
            None => None,
            Some(b) => {
                let p = branch_product(b, element_branches(s.last().value));
                if p.len() > 256 {
                    None
                } else {
                    Some(p)
                }
            },
        }
    }
}

/// The lists one element requires: a literal's trimmed, lowercased text, a
/// group's lists, the lists of every branch of a choice, and nothing else.
pub open spec fn element_branches(e: PatternElement) -> Seq<Seq<Seq<char>>>
    decreases e, 0nat,
{
    match e {
        PatternElement::Literal(v) => if trimmed_text(v@).len() == 0 {
            seq![Seq::<Seq<char>>::empty()]
        } else {
            seq![seq![str_lowercase(trimmed_text(v@))]]
        },
        PatternElement::Group(c) => required_branches(c@),
        PatternElement::Choice(bs) => choice_branches(bs@),
        _ => seq![Seq::<Seq<char>>::empty()],
    }
}

/// The lists of each branch, one branch after another.
pub open spec fn choice_branches(bs: Seq<Vec<SpannedPatternElement>>) -> Seq<Seq<Seq<char>>>
    decreases bs, 0nat,
{
    if bs.len() == 0 {
        Seq::empty()
    } else {
        choice_branches(bs.drop_last()) + required_branches(bs.last()@)
    }
}

/// The texts of each list.
pub open spec fn branch_views(v: Seq<Vec<String>>) -> Seq<Seq<Seq<char>>> {
    v.map_values(|b: Vec<String>| b@.map_values(|x: String| x@))
}

proof fn lemma_fold_none(s: Seq<SpannedPatternElement>, k: int)
    requires
        0 <= k <= s.len(),
        branch_fold(s.take(k)) is None,
    ensures
        branch_fold(s) is None,
    decreases s.len() - k,
{
    if k < s.len() {
        assert(s.take(k + 1).drop_last() =~= s.take(k));
        lemma_fold_none(s, k + 1);
    } else {
        assert(s.take(k) =~= s);
    }
}

proof fn lemma_product_grows(b: Seq<Seq<Seq<char>>>, e: Seq<Seq<Seq<char>>>, i: int)
    requires
        0 <= i <= b.len(),
    ensures
        branch_product(b.take(i), e).len() <= branch_product(b, e).len(),
    decreases b.len() - i,
{
    if i < b.len() {
        assert(b.take(i + 1).drop_last() =~= b.take(i));
        lemma_product_grows(b, e, i + 1);
    } else {
        assert(b.take(i) =~= b);
    }
}

/// Copies a list of texts, then appends copies of another.
fn joined(a: &Vec<String>, b: &Vec<String>) -> (r: Vec<String>)
    ensures
        r@.map_values(|x: String| x@) == a@.map_values(|x: String| x@) + b@.map_values(|x: String| x@),
{
    let mut r: Vec<String> = Vec::new();
    let mut k: usize = 0;
    while k < a.len()
        invariant
            k <= a@.len(),
            r@.map_values(|x: String| x@) == a@.take(k as int).map_values(|x: String| x@),
        decreases a@.len() - k,
    {
        let ghost before = r@;
        r.push(a[k].clone());
        proof {
            assert(r@ == before.push(a@[k as int]));
            assert(a@.take(k + 1) =~= a@.take(k as int).push(a@[k as int]));
            assert(r@.map_values(|x: String| x@) =~= before.map_values(|x: String| x@).push(a@[k as int]@));
            assert(a@.take(k + 1).map_values(|x: String| x@) =~= a@.take(k as int).map_values(|x: String| x@).push(
                a@[k as int]@,
            ));
        }
        k = k + 1;
    }
    let mut j: usize = 0;
    proof {
        assert(a@.take(a@.len() as int) =~= a@);
        assert(b@.take(0).map_values(|x: String| x@) =~= Seq::<Seq<char>>::empty());
    }
    while j < b.len()
        invariant
            j <= b@.len(),
            r@.map_values(|x: String| x@) == a@.map_values(|x: String| x@) + b@.take(j as int).map_values(|x: String| x@),
        decreases b@.len() - j,
    {
        let ghost before = r@;
        r.push(b[j].clone());
        proof {
            assert(r@ == before.push(b@[j as int]));
            assert(b@.take(j + 1) =~= b@.take(j as int).push(b@[j as int]));
            assert(r@.map_values(|x: String| x@) =~= before.map_values(|x: String| x@).push(b@[j as int]@));
            assert(b@.take(j + 1).map_values(|x: String| x@) =~= b@.take(j as int).map_values(|x: String| x@).push(
                b@[j as int]@,
            ));
            assert(r@.map_values(|x: String| x@) =~= a@.map_values(|x: String| x@) + b@.take(j + 1).map_values(|x: String| x@));
        }
        j = j + 1;
    }
    proof {
        assert(b@.take(b@.len() as int) =~= b@);
    }
    r
}

/// The one empty list.
fn no_requirement() -> (r: Vec<Vec<String>>)
    ensures
        branch_views(r@) == seq![Seq::<Seq<char>>::empty()],
{
    let mut r: Vec<Vec<String>> = Vec::new();
    r.push(Vec::new());
    proof {
        assert(r@[0]@.map_values(|x: String| x@) =~= Seq::<Seq<char>>::empty());
        assert(branch_views(r@) =~= seq![Seq::<Seq<char>>::empty()]);
    }
    r
}

/// The lists one element requires.
fn element_required(element: &PatternElement) -> (r: Vec<Vec<String>>)
    ensures
        branch_views(r@) == element_branches(*element),
    decreases *element,
{
    match element {
        PatternElement::Literal(v) => {
            let t = trim_str(v.as_str());
            proof {
                vstd::utf8::encode_utf8_decode_utf8(t@);
                assert(t@ == trimmed_text(v@));
            }
            if str_len(t) == 0 {
                proof {
                    assert(t@.len() == 0) by {
                        if t@.len() > 0 {
                            vstd::utf8::encode_utf8_first_scalar(t@);
                        }
                    }
                }
                no_requirement()
            } else {
                let lowered = crate::expression::lowercase_str(t);
                let mut one: Vec<String> = Vec::new();
                one.push(lowered);
                let mut r: Vec<Vec<String>> = Vec::new();
                r.push(one);
                proof {
                    assert(t@.len() > 0);
                    assert(r@[0]@.map_values(|x: String| x@) =~= seq![str_lowercase(trimmed_text(v@))]);
                    assert(branch_views(r@) =~= element_branches(*element));
                }
                r
            }
        },
        PatternElement::Group(children) => required_literal_branches(children.as_slice()),
        PatternElement::Choice(branches) => {
            let mut r: Vec<Vec<String>> = Vec::new();
            let mut k: usize = 0;
            proof {
                assert(branch_views(r@) =~= choice_branches(branches@.take(0)));
            }
            while k < branches.len()
                invariant
                    *element == PatternElement::Choice(*branches),
                    k <= branches@.len(),
                    branch_views(r@) == choice_branches(branches@.take(k as int)),
                decreases branches@.len() - k,
            {
                proof {
                    assert(decreases_to!(*element => (*element)->Choice_0));
                    assert(decreases_to!(*branches => branches@));
                    assert(decreases_to!(branches@ => branches@[k as int]));
                    assert(decreases_to!(branches@[k as int] => branches@[k as int]@));
                    assert(branches@.take(k + 1).drop_last() =~= branches@.take(k as int));
                    assert(branches@.take(k + 1).last() == branches@[k as int]);
                }
                let c = required_literal_branches(branches[k].as_slice());
                let ghost before = branch_views(r@);
                let mut c = c;
                r.append(&mut c);
                proof {
                    assert(branch_views(r@) =~= before + required_branches(branches@[k as int]@));
                }
                k = k + 1;
            }
            proof {
                assert(branches@.take(branches@.len() as int) =~= branches@);
            }
            r
        },
        _ => no_requirement(),
    }
}

/// Alternative lists of lowercase literals, one list of which every match of
/// the pattern contains in full.
pub fn required_literal_branches(elements: &[SpannedPatternElement]) -> (r: Vec<Vec<String>>)
    ensures
        branch_views(r@) == required_branches(elements@),
    decreases elements@,
{
    let mut branches = no_requirement();
    let mut k: usize = 0;
    proof {
        assert(elements@.take(0) =~= Seq::<SpannedPatternElement>::empty());
    }
    while k < elements.len()
        invariant
            k <= elements@.len(),
            branch_fold(elements@.take(k as int)) == Some(branch_views(branches@)),
        decreases elements@.len() - k,
    {
        proof {
            assert(decreases_to!(elements@ => elements@[k as int]));
            assert(decreases_to!(elements@[k as int] => elements@[k as int].value));
            assert(elements@.take(k + 1).drop_last() =~= elements@.take(k as int));
            assert(elements@.take(k + 1).last() == elements@[k as int]);
        }
        let element_branches_k = element_required(&elements[k].value);
        let ghost b = branch_views(branches@);
        let ghost eb = branch_views(element_branches_k@);
        let mut combined: Vec<Vec<String>> = Vec::new();
        let mut i: usize = 0;
        proof {
            assert(b.take(0) =~= Seq::<Seq<Seq<char>>>::empty());
            assert(branch_views(combined@) =~= branch_product(b.take(0), eb));
        }
        while i < branches.len()
            invariant
                k < elements@.len(),
                b == branch_views(branches@),
                eb == branch_views(element_branches_k@),
                eb == element_branches(elements@[k as int].value),
                branch_fold(elements@.take(k as int)) == Some(b),
                elements@.take(k + 1).drop_last() == elements@.take(k as int),
                elements@.take(k + 1).last() == elements@[k as int],
                i <= branches@.len(),
                combined@.len() <= 256,
                branch_views(combined@) == branch_product(b.take(i as int), eb),
            decreases branches@.len() - i,
        {
            let ghost row = branch_views(combined@);
            let mut j: usize = 0;
            proof {
                assert(eb.take(0).map_values(|x: Seq<Seq<char>>| b[i as int] + x) =~= Seq::<Seq<Seq<char>>>::empty());
            }
            while j < element_branches_k.len()
                invariant
                    k < elements@.len(),
                    b == branch_views(branches@),
                    eb == branch_views(element_branches_k@),
                    eb == element_branches(elements@[k as int].value),
                    branch_fold(elements@.take(k as int)) == Some(b),
                    elements@.take(k + 1).drop_last() == elements@.take(k as int),
                    elements@.take(k + 1).last() == elements@[k as int],
                    i < branches@.len(),
                    row == branch_product(b.take(i as int), eb),
                    j <= element_branches_k@.len(),
                    combined@.len() <= 256,
                    branch_views(combined@) == row + eb.take(j as int).map_values(|x: Seq<Seq<char>>| b[i as int] + x),
                decreases element_branches_k@.len() - j,
            {
                let value = joined(&branches[i], &element_branches_k[j]);
                let ghost before = branch_views(combined@);
                combined.push(value);
                proof {
                    assert(eb.take(j + 1).map_values(|x: Seq<Seq<char>>| b[i as int] + x) =~= eb.take(j as int).map_values(
                        |x: Seq<Seq<char>>| b[i as int] + x,
                    ).push(b[i as int] + eb[j as int]));
                    assert(branch_views(combined@) =~= before.push(b[i as int] + eb[j as int]));
                    assert(b.take(i + 1).drop_last() =~= b.take(i as int));
                    assert(b.take(i + 1).last() == b[i as int]);
                    assert(branch_product(b.take(i + 1), eb) == row + eb.map_values(|x: Seq<Seq<char>>| b[i as int] + x));
                }
                if combined.len() > 256 {
                    proof {
                        assert(branch_views(combined@).len() <= branch_product(b.take(i + 1), eb).len());
                        lemma_product_grows(b, eb, i + 1);
                        assert(branch_fold(elements@.take(k + 1)) is None);
                        lemma_fold_none(elements@, k + 1);
                    }
                    return no_requirement();
                }
                j = j + 1;
            }
            proof {
                assert(eb.take(eb.len() as int) =~= eb);
                assert(b.take(i + 1).drop_last() =~= b.take(i as int));
                assert(b.take(i + 1).last() == b[i as int]);
            }
            i = i + 1;
        }
        proof {
            assert(b.take(b.len() as int) =~= b);
        }
        branches = combined;
        k = k + 1;
    }
    proof {
        assert(elements@.take(elements@.len() as int) =~= elements@);
    }
    branches
}

impl PatternPrefilter {
    /// The prefilter of a parsed pattern: whether it is left-recursive, its
    /// shortest input, its leading and trailing literal states, and the
    /// literal lists a match must contain.
    pub fn new(elements: &[SpannedPatternElement]) -> (r: Self)
        ensures
            r.left_recursive == crate::pattern_syntax::start_of(elements@).0,
            r.minimum_input_len == crate::pattern_syntax::capped(crate::pattern_syntax::shortest_input(elements@)),
            state_views(r.leading@) == leading_states(elements@),
            state_views(r.trailing@) == trailing_states(elements@),
            branch_views(r.required_literal_branches@) == required_branches(elements@),
    {
        PatternPrefilter {
            left_recursive: crate::pattern_syntax::pattern_is_left_recursive(elements),
            minimum_input_len: crate::pattern_syntax::minimum_pattern_input_len(elements),
            leading: leading_prefix_states(elements),
            trailing: trailing_suffix_states(elements),
            required_literal_branches: required_literal_branches(elements),
        }
    }
}

/// Syntactic reason selected for an unsuccessful complete Expression parse.
#[derive(Debug, Clone, Copy, PartialEq, Eq, Structural)]
pub enum ExpressionFailureKind {
    /// No candidate matched and no more specific parenthesis error was found.
    ExpectedExpression,
    /// A complete parenthesized group contained no Expression.
    EmptyGroup,
    /// An opening parenthesis had no corresponding closing parenthesis.
    UnclosedParenthesis,
    /// A closing parenthesis had no corresponding opening parenthesis.
    UnexpectedClosingParenthesis,
}

/// `b[range]` is one group, closed by its own last byte.
pub open spec fn parenthesized(b: Seq<u8>, range: TextRange) -> bool {
    &&& range.valid_for(b)
    &&& range.start < range.end
    &&& b[range.start as int] == 0x28
    &&& parenthesis_end(b, range.start + 1, range.end as int, 0) == Some(range.end - 1)
}

/// Whether the whole range is one parenthesized group.
pub fn completely_parenthesized(input: &str, range: TextRange) -> (r: bool)
    ensures
        r == parenthesized(bytes_of(input), range),
{
    match range.slice(input) {
        None => false,
        Some(text) => {
            let t = text.as_bytes();
            if t.len() == 0 || t[0] != 0x28 {
                proof {
                    if range.start < range.end {
                        assert(t@[0] == bytes_of(input)[range.start as int]);
                    }
                }
                return false;
            }
            proof {
                assert(t@[0] == bytes_of(input)[range.start as int]);
            }
            match find_parenthesis_end(input, range.start + 1, range.end) {
                Some(close) => {
                    proof {
                        lemma_parenthesis_end_bounds(bytes_of(input), range.start + 1, range.end as int, 0);
                    }
                    close + 1 == range.end
                },
                None => false,
            }
        },
    }
}

/// What a scan reports when it reaches the end of the range: the innermost
/// unclosed parenthesis, else that an Expression was expected.
pub open spec fn scan_finish(range: TextRange, open: Seq<usize>) -> (ExpressionFailureKind, TextRange, Option<TextRange>) {
    if open.len() > 0 {
        (
            ExpressionFailureKind::UnclosedParenthesis,
            TextRange { start: range.end, end: range.end },
            Some(TextRange { start: open.last(), end: (open.last() + 1) as usize }),
        )
    } else {
        (ExpressionFailureKind::ExpectedExpression, TextRange { start: range.start, end: range.start }, None)
    }
}

/// Scans `b[cursor..range.end]` for unbalanced parentheses, skipping string
/// literals and variables; `open` holds the offsets of unclosed parentheses.
pub open spec fn failure_scan(b: Seq<u8>, range: TextRange, cursor: int, open: Seq<usize>) -> (
    ExpressionFailureKind,
    TextRange,
    Option<TextRange>,
)
    decreases range.end - cursor,
{
    match first_char_width(b, cursor, range.end as int) {
        None => scan_finish(range, open),
        Some(w) => if b[cursor] == 0x22 {
            match quote_end(b, cursor + 1, range.end as int, false) {
                Some(q) => if cursor < q + 1 <= range.end {
                    failure_scan(b, range, q + 1, open)
                } else {
                    scan_finish(range, open)
                },
                None => scan_finish(range, open),
            }
        } else if b[cursor] == 0x7b {
            match variable_end(b, cursor + 1, range.end as int, 0) {
                Some(q) => if cursor < q + 1 <= range.end {
                    failure_scan(b, range, q + 1, open)
                } else {
                    scan_finish(range, open)
                },
                None => scan_finish(range, open),
            }
        } else if b[cursor] == 0x29 && open.len() == 0 {
            (
                ExpressionFailureKind::UnexpectedClosingParenthesis,
                TextRange { start: cursor as usize, end: (cursor + 1) as usize },
                None,
            )
        } else if 1 <= w && cursor + w <= range.end {
            let next = if b[cursor] == 0x28 {
                open.push(cursor as usize)
            } else if b[cursor] == 0x29 {
                open.drop_last()
            } else {
                open
            };
            failure_scan(b, range, cursor + w, next)
        } else {
            scan_finish(range, open)
        },
    }
}

/// The reason and ranges reported when no Expression matches `range`: an empty
/// parenthesized group, else the first unexpected `)`, else the innermost
/// unclosed `(`, else an expected Expression at the start.
pub open spec fn failure_ranges(b: Seq<u8>, range: TextRange) -> (ExpressionFailureKind, TextRange, Option<TextRange>) {
    let t = java_trim(b.subrange(range.start + 1, range.end - 1));
    if parenthesized(b, range) && t.start == t.end {
        (
            ExpressionFailureKind::EmptyGroup,
            TextRange { start: (range.start + 1 + t.start) as usize, end: (range.start + 1 + t.start) as usize },
            Some(TextRange { start: range.start, end: (range.start + 1) as usize }),
        )
    } else {
        failure_scan(b, range, range.start as int, Seq::empty())
    }
}

/// The end-of-scan result for a stack of unclosed parentheses.
fn finish_scan(range: TextRange, stack: &Vec<usize>) -> (r: (ExpressionFailureKind, TextRange, Option<TextRange>))
    requires
        forall|q: int| 0 <= q < stack@.len() ==> #[trigger] stack@[q] < range.end,
    ensures
        r == scan_finish(range, stack@),
{
    if stack.len() > 0 {
        let open = stack[stack.len() - 1];
        (
            ExpressionFailureKind::UnclosedParenthesis,
            TextRange { start: range.end, end: range.end },
            Some(TextRange { start: open, end: open + 1 }),
        )
    } else {
        (ExpressionFailureKind::ExpectedExpression, TextRange { start: range.start, end: range.start }, None)
    }
}

/// Chooses the syntactic failure reported for `range` when no Expression matches it.
pub fn expression_failure_ranges(input: &str, range: TextRange) -> (r: (ExpressionFailureKind, TextRange, Option<TextRange>))
    ensures
        r == failure_ranges(bytes_of(input), range),
{
    let ghost b = bytes_of(input);
    let ghost t = java_trim(b.subrange(range.start + 1, range.end - 1));
    if completely_parenthesized(input, range) {
        let close = range.end - 1;
        proof {
            lemma_parenthesis_end_bounds(b, range.start + 1, range.end as int, 0);
            lemma_after_ascii(b, range.start as int);
            lemma_after_ascii(b, close as int);
        }
        let raw_inner = TextRange { start: range.start + 1, end: close };
        let inner_text = raw_inner.slice(input).unwrap();
        let inner = java_trim_range(inner_text);
        proof {
            crate::pattern_match::lemma_java_trim_bounds(bytes_of(inner_text));
            assert(inner == t);
        }
        if inner.start == inner.end {
            let at = raw_inner.start + inner.start;
            return (
                ExpressionFailureKind::EmptyGroup,
                TextRange { start: at, end: at },
                Some(TextRange { start: range.start, end: range.start + 1 }),
            );
        }
    }
    let bytes = input.as_bytes();
    let ghost goal = failure_scan(b, range, range.start as int, Seq::empty());
    proof {
        assert(failure_ranges(b, range) == goal);
    }
    let mut stack: Vec<usize> = Vec::new();
    let mut cursor = range.start;
    while cursor < range.end
        invariant
            b == bytes_of(input),
            bytes@ == b,
            goal == failure_ranges(b, range),
            goal == failure_scan(b, range, cursor as int, stack@),
            forall|q: int| 0 <= q < stack@.len() ==> #[trigger] stack@[q] < cursor,
            forall|q: int| 0 <= q < stack@.len() ==> #[trigger] stack@[q] < range.end,
        decreases range.end - cursor,
    {
        let w = match first_char_len(input, cursor, range.end) {
            Some(w) => w,
            None => {
                return finish_scan(range, &stack);
            },
        };
        let ch = bytes[cursor];
        if ch == 0x22 {
            match find_quote_end(input, cursor + 1, range.end) {
                Some(q) => {
                    proof {
                        lemma_quote_end_bounds(b, cursor + 1, range.end as int, false);
                    }
                    cursor = q + 1;
                    continue;
                },
                None => {
                    return finish_scan(range, &stack);
                },
            }
        }
        if ch == 0x7b {
            match find_variable_end(input, cursor + 1, range.end) {
                Some(q) => {
                    proof {
                        lemma_variable_end_bounds(b, cursor + 1, range.end as int, 0);
                    }
                    cursor = q + 1;
                    continue;
                },
                None => {
                    return finish_scan(range, &stack);
                },
            }
        }
        if ch == 0x28 {
            stack.push(cursor);
        } else if ch == 0x29 {
            if stack.len() == 0 {
                return (
                    ExpressionFailureKind::UnexpectedClosingParenthesis,
                    TextRange { start: cursor, end: cursor + 1 },
                    None,
                );
            }
            stack.pop();
        }
        cursor = cursor + w;
    }
    finish_scan(range, &stack)
}


/// Resource budgets applied across one complete recursive parse.
#[derive(Debug, Clone, PartialEq, Eq, Structural)]
pub struct ExpressionParserConfig {
    pub matcher: crate::pattern_match::PatternMatcherConfig,
    pub max_depth: usize,
    pub max_candidates: usize,
    pub max_memo_entries: usize,
}

impl Default for ExpressionParserConfig {
    fn default() -> (r: Self)
        ensures
            r.matcher.max_states == 100_000,
            r.matcher.max_candidate_failures == 256,
            r.max_depth == 64,
            r.max_candidates == 10_000,
            r.max_memo_entries == 20_000,
    {
        ExpressionParserConfig {
            matcher: crate::pattern_match::PatternMatcherConfig::default(),
            max_depth: 64,
            max_candidates: 10_000,
            max_memo_entries: 20_000,
        }
    }
}


/// Source of an Expression node.
#[derive(Debug, Clone, PartialEq, Eq)]
pub enum ExpressionNodeKind {
    /// A complete child Expression wrapped in one pair of parentheses.
    Grouped,
    /// A top-level Skript Expression list joined by commas, `and`, `or`, or `nor`.
    List { conjunction: ExpressionListConjunction },
    Registered { definition_id: String, registration_id: String, pattern_index: usize },
    Variable { parser_id: String },
    Literal { parser_id: String },
    Function { parser_id: String },
    Arithmetic { operator: String, operation_registration_id: String },
    Custom { parser_id: String },
}

/// A parser binding for one registration capture.
#[derive(Debug, Clone, PartialEq, Eq)]
pub struct RegisteredCaptureBinding {
    pub capture_index: usize,
    pub parser_id: String,
    pub required: bool,
    pub options: BTreeMap<String, String>,
}

/// Completeness of one generic capture result.
#[derive(Debug, Clone, PartialEq, Eq, Structural)]
pub enum ParsedCaptureStatus {
    Success,
    Partial,
    Failed,
}

/// Open diagnostic payload returned by a native parser or an addon.
#[derive(Debug, Clone, PartialEq, Eq)]
pub struct ParsedCaptureDiagnostic {
    pub message: String,
    pub span: Option<MatchSpan>,
    pub metadata: BTreeMap<String, String>,
}

/// Opaque addon-owned data attached to a generic parse result.
#[derive(Debug, Clone, PartialEq, Eq)]
pub struct ParsedCaptureAttachment {
    pub owner_component_id: String,
    pub schema_id: String,
    pub schema_version: u32,
    pub encoding: String,
    pub bytes: Vec<u8>,
}

/// Kind assigned to one leaf parser result.
#[derive(Debug, Clone, Copy, PartialEq, Eq, Structural)]
pub enum ExpressionLeafKind {
    Variable,
    Literal,
    Function,
    Custom,
}

/// Environment that contributes no leaves and never changes matching.
#[derive(Debug, Default)]
pub struct NoopExpressionEnvironment;

} // verus!
