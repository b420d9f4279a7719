//! Shared lexical structure and conjunction rules for Skript Expression lists.
//!
//! A list is split at top-level commas and at the words `and`, `or` and `nor`
//! surrounded by Java-regex whitespace; string literals, variables and
//! parenthesised groups are skipped whole.
use crate::pattern_match::{
    find_parenthesis_end, find_quote_end, find_variable_end, first_char_len, first_char_width,
    java_trim, java_trim_range, lemma_parenthesis_end_bounds, lemma_quote_end_bounds,
    lemma_variable_end_bounds, parenthesis_end, quote_end, variable_end,
};
use crate::text::{boundary, bytes_of, str_slice, TextRange};
use vstd::prelude::*;
use vstd::string::StringSliceAdditionalSpecFns;
use vstd::utf8::*;

verus! {

broadcast use vstd::utf8::group_utf8_lib;

/// Runtime selection semantics of a Skript Expression list.
#[derive(Debug, Clone, Copy, PartialEq, Eq, Structural)]
pub enum ExpressionListConjunction {
    /// Every child contributes values. Comma-only and `nor` lists use this mode.
    And,
    /// One child is selected at runtime.
    Or,
}

/// Delimiter between two pieces of a list.
#[derive(Debug, Clone, Copy, PartialEq, Eq, Structural)]
pub enum ExpressionListDelimiter {
    Comma,
    And,
    Or,
    Nor,
}

/// Trimmed pieces of a list and the delimiters between them.
#[derive(Debug)]
pub struct RawExpressionList {
    pub pieces: Vec<TextRange>,
    pub delimiters: Vec<ExpressionListDelimiter>,
}

/// The conjunction an explicit delimiter asks for, or `None` for a comma.
pub open spec fn delimiter_conjunction(d: ExpressionListDelimiter) -> Option<ExpressionListConjunction> {
    match d {
        ExpressionListDelimiter::Comma => None,
        ExpressionListDelimiter::Or => Some(ExpressionListConjunction::Or),
        _ => Some(ExpressionListConjunction::And),
    }
}

/// The mode after the delimiters before the children `starts[1..n]`: the first
/// explicit conjunction, turned into `And` by any disagreeing one.
pub open spec fn conjunction_mode(
    delimiters: Seq<ExpressionListDelimiter>,
    starts: Seq<usize>,
    n: int,
) -> Option<ExpressionListConjunction>
    decreases n,
{
    if n <= 1 {
        None
    } else {
        let mode = conjunction_mode(delimiters, starts, n - 1);
        match delimiter_conjunction(delimiters[starts[n - 1] - 1]) {
            None => mode,
            Some(incoming) => match mode {
                None => Some(incoming),
                Some(current) => if current == incoming {
                    Some(current)
                } else {
                    Some(ExpressionListConjunction::And)
                },
            },
        }
    }
}

/// The delimiter right before child `k`.
pub open spec fn delimiter_before(delimiters: Seq<ExpressionListDelimiter>, starts: Seq<usize>, k: int) -> ExpressionListDelimiter {
    delimiters[starts[k] - 1]
}

/// The conjunction the delimiters before the children `1..n` give: none while
/// every one is a comma; `Or` when some is `or` and every other is `or` or a
/// comma; `And` as soon as one is `and` or `nor`, whatever the others are.
pub proof fn lemma_conjunction_mode(delimiters: Seq<ExpressionListDelimiter>, starts: Seq<usize>, n: int)
    ensures
        conjunction_mode(delimiters, starts, n) is None <==> (forall|k: int|
            1 <= k < n ==> #[trigger] delimiter_before(delimiters, starts, k) == ExpressionListDelimiter::Comma),
        conjunction_mode(delimiters, starts, n) == Some(ExpressionListConjunction::Or) <==> ((exists|k: int|
            1 <= k < n && #[trigger] delimiter_before(delimiters, starts, k) == ExpressionListDelimiter::Or) && (forall|
            k: int,
        |
            1 <= k < n ==> (#[trigger] delimiter_before(delimiters, starts, k) == ExpressionListDelimiter::Or
                || delimiter_before(delimiters, starts, k) == ExpressionListDelimiter::Comma))),
        conjunction_mode(delimiters, starts, n) == Some(ExpressionListConjunction::And) <==> (exists|k: int|
            1 <= k < n && (#[trigger] delimiter_before(delimiters, starts, k) == ExpressionListDelimiter::And
                || delimiter_before(delimiters, starts, k) == ExpressionListDelimiter::Nor)),
    decreases n,
{
    if n > 1 {
        lemma_conjunction_mode(delimiters, starts, n - 1);
        let d = delimiter_before(delimiters, starts, n - 1);
        assert(delimiters[starts[n - 1] - 1] == d);
        if conjunction_mode(delimiters, starts, n - 1) == Some(ExpressionListConjunction::And) {
            let w = choose|k: int|
                1 <= k < n - 1 && (#[trigger] delimiter_before(delimiters, starts, k) == ExpressionListDelimiter::And
                    || delimiter_before(delimiters, starts, k) == ExpressionListDelimiter::Nor);
            assert(1 <= w < n);
        }
        if conjunction_mode(delimiters, starts, n - 1) == Some(ExpressionListConjunction::Or) {
            let w = choose|k: int|
                1 <= k < n - 1 && #[trigger] delimiter_before(delimiters, starts, k) == ExpressionListDelimiter::Or;
            assert(1 <= w < n);
        }
    }
}

impl RawExpressionList {
    /// Selection mode of the children that start at the pieces `child_starts`.
    ///
    /// Only the delimiters right before the second and later children count;
    /// commas are neutral, and conflicting explicit delimiters give `And`.
    pub fn conjunction_for_children(&self, child_starts: &[usize]) -> (r: ExpressionListConjunction)
        requires
            forall|k: int|
                1 <= k < child_starts@.len() ==> 1 <= #[trigger] child_starts@[k]
                    <= self.delimiters@.len(),
        ensures
            r == (match conjunction_mode(self.delimiters@, child_starts@, child_starts@.len() as int) {
                Some(c) => c,
                None => ExpressionListConjunction::And,
            }),
            r == ExpressionListConjunction::Or <==> ((exists|k: int|
                1 <= k < child_starts@.len() && #[trigger] delimiter_before(self.delimiters@, child_starts@, k)
                    == ExpressionListDelimiter::Or) && (forall|k: int|
                1 <= k < child_starts@.len() ==> (#[trigger] delimiter_before(self.delimiters@, child_starts@, k)
                    == ExpressionListDelimiter::Or || delimiter_before(self.delimiters@, child_starts@, k)
                    == ExpressionListDelimiter::Comma))),
    {
        proof {
            lemma_conjunction_mode(self.delimiters@, child_starts@, child_starts@.len() as int);
        }
        let mut mode: Option<ExpressionListConjunction> = None;
        let mut k: usize = 1;
        while k < child_starts.len()
            invariant
                forall|q: int|
                    1 <= q < child_starts@.len() ==> 1 <= #[trigger] child_starts@[q]
                        <= self.delimiters@.len(),
                1 <= k,
                k <= child_starts@.len() || (child_starts@.len() == 0 && k == 1),
                mode == conjunction_mode(self.delimiters@, child_starts@, k as int),
            decreases child_starts@.len() - k,
        {
            let first_piece = child_starts[k];
            let incoming = match self.delimiters[first_piece - 1] {
                ExpressionListDelimiter::Comma => {
                    k = k + 1;
                    continue;
                },
                ExpressionListDelimiter::And | ExpressionListDelimiter::Nor => ExpressionListConjunction::And,
                ExpressionListDelimiter::Or => ExpressionListConjunction::Or,
            };
            mode = Some(
                match mode {
                    None => incoming,
                    Some(current) => if current == incoming {
                        current
                    } else {
                        ExpressionListConjunction::And
                    },
                },
            );
            k = k + 1;
        }
        proof {
            if child_starts@.len() == 0 {
                assert(conjunction_mode(self.delimiters@, child_starts@, 0) is None);
            } else {
                assert(k == child_starts@.len());
                assert(mode == conjunction_mode(self.delimiters@, child_starts@, child_starts@.len() as int));
            }
        }
        match mode {
            Some(c) => c,
            None => ExpressionListConjunction::And,
        }
    }
}

/// Whitespace as Java regular expressions' `\s` understands it (all ASCII).
pub open spec fn regex_ws(c: u8) -> bool {
    c == 0x20 || c == 0x09 || c == 0x0a || c == 0x0b || c == 0x0c || c == 0x0d
}

/// End of the Java-regex whitespace run starting at `cursor`, within `end`.
pub open spec fn skip_ws(b: Seq<u8>, cursor: int, end: int) -> int
    decreases end - cursor,
{
    match first_char_width(b, cursor, end) {
        Some(_) => if regex_ws(b[cursor]) && cursor + 1 <= end {
            skip_ws(b, cursor + 1, end)
        } else {
            cursor
        },
        None => cursor,
    }
}

/// ASCII lower case of a byte.
pub open spec fn ascii_lower(c: u8) -> u8 {
    if 0x41 <= c <= 0x5a {
        (c + 0x20) as u8
    } else {
        c
    }
}

/// `b[start..]` begins with the ASCII word `w`, ignoring ASCII case, and the
/// word ends on a character boundary.
pub open spec fn word_at(b: Seq<u8>, start: int, w: Seq<u8>) -> bool {
    &&& start + w.len() <= b.len()
    &&& boundary(b, start + w.len())
    &&& forall|i: int| 0 <= i < w.len() ==> ascii_lower(#[trigger] b[start + i]) == w[i]
}

/// The list operator word at `start` (checked as `and`, then `nor`, then `or`),
/// with the offset after it.
pub open spec fn list_operator(b: Seq<u8>, start: int, end: int) -> Option<(int, ExpressionListDelimiter)> {
    if !(0 <= start <= end <= b.len() && boundary(b, start) && boundary(b, end)) {
        None
    } else if start + 3 <= end && word_at(b, start, seq![0x61u8, 0x6eu8, 0x64u8]) {
        Some((start + 3, ExpressionListDelimiter::And))
    } else if start + 3 <= end && word_at(b, start, seq![0x6eu8, 0x6fu8, 0x72u8]) {
        Some((start + 3, ExpressionListDelimiter::Nor))
    } else if start + 2 <= end && word_at(b, start, seq![0x6fu8, 0x72u8]) {
        Some((start + 2, ExpressionListDelimiter::Or))
    } else {
        None
    }
}

/// A Java-regex whitespace character starts at `at` within `end`.
pub open spec fn ws_char_at(b: Seq<u8>, at: int, end: int) -> bool {
    first_char_width(b, at, end) is Some && regex_ws(b[at])
}

/// The delimiter that a comma at `comma` starts, and where the next piece begins.
pub open spec fn comma_delimiter(b: Seq<u8>, comma: int, end: int) -> (int, ExpressionListDelimiter) {
    let after = comma + 1;
    let word_start = skip_ws(b, after, end);
    match list_operator(b, word_start, end) {
        Some((word_end, d)) => if word_start > after && word_end < end && ws_char_at(b, word_end, end) {
            (skip_ws(b, word_end, end), d)
        } else {
            (word_start, ExpressionListDelimiter::Comma)
        },
        None => (word_start, ExpressionListDelimiter::Comma),
    }
}

/// The word delimiter that whitespace at `at` starts, and where the next piece begins.
pub open spec fn word_delimiter(b: Seq<u8>, at: int, end: int) -> Option<(int, ExpressionListDelimiter)> {
    let word_start = skip_ws(b, at, end);
    match list_operator(b, word_start, end) {
        Some((word_end, d)) => if word_end < end && ws_char_at(b, word_end, end) {
            Some((skip_ws(b, word_end, end), d))
        } else {
            None
        },
        None => None,
    }
}

/// The trimmed piece `b[start..end]`, or `None` when that slice does not exist or is blank.
pub open spec fn piece(b: Seq<u8>, start: int, end: int) -> Option<TextRange> {
    if !(0 <= start <= end <= b.len() && boundary(b, start) && boundary(b, end)) {
        None
    } else {
        let t = java_trim(b.subrange(start, end));
        if t.start == t.end {
            None
        } else {
            Some(TextRange { start: (start + t.start) as usize, end: (start + t.end) as usize })
        }
    }
}

/// The list that scanning from `cursor` (current piece from `part_start`) completes.
pub open spec fn scan_list(
    b: Seq<u8>,
    end: int,
    cursor: int,
    part_start: int,
    pieces: Seq<TextRange>,
    delimiters: Seq<ExpressionListDelimiter>,
) -> Option<(Seq<TextRange>, Seq<ExpressionListDelimiter>)>
    decreases end - cursor,
{
    if cursor >= end {
        if delimiters.len() == 0 {
            None
        } else {
            match piece(b, part_start, end) {
                Some(p) => Some((pieces.push(p), delimiters)),
                None => None,
            }
        }
    } else {
        match first_char_width(b, cursor, end) {
            None => None,
            Some(w) => {
                let c = b[cursor];
                let next = cursor + w;
                let skipped = if c == 0x22 {
                    match quote_end(b, next, end, false) {
                        Some(q) => Some(q + 1),
                        None => Some(end),
                    }
                } else if c == 0x7b {
                    match variable_end(b, next, end, 0) {
                        Some(q) => Some(q + 1),
                        None => Some(end),
                    }
                } else if c == 0x28 {
                    match parenthesis_end(b, next, end, 0) {
                        Some(q) => Some(q + 1),
                        None => Some(end),
                    }
                } else {
                    None
                };
                match skipped {
                    Some(n) => if cursor < n <= end {
                        scan_list(b, end, n, part_start, pieces, delimiters)
                    } else {
                        None
                    },
                    None => {
                        let split = if c == 0x2c {
                            Some(comma_delimiter(b, cursor, end))
                        } else if regex_ws(c) {
                            word_delimiter(b, cursor, end)
                        } else {
                            None
                        };
                        match split {
                            Some((resume, d)) => match piece(b, part_start, cursor) {
                                Some(p) => if cursor < resume <= end {
                                    scan_list(b, end, resume, resume, pieces.push(p), delimiters.push(d))
                                } else {
                                    None
                                },
                                None => None,
                            },
                            None => if cursor < next <= end {
                                scan_list(b, end, next, part_start, pieces, delimiters)
                            } else {
                                None
                            },
                        }
                    },
                }
            },
        }
    }
}

/// What [`split_expression_list`] gives for `range` of text `b`.
pub open spec fn split_list(b: Seq<u8>, range: TextRange) -> Option<(Seq<TextRange>, Seq<ExpressionListDelimiter>)> {
    scan_list(b, range.end as int, range.start as int, range.start as int, Seq::empty(), Seq::empty())
}

/// The value of a split result.
pub open spec fn list_view(r: Option<RawExpressionList>) -> Option<(Seq<TextRange>, Seq<ExpressionListDelimiter>)> {
    match r {
        Some(l) => Some((l.pieces@, l.delimiters@)),
        None => None,
    }
}

proof fn lemma_skip_ws_bounds(b: Seq<u8>, cursor: int, end: int)
    requires
        cursor <= end,
    ensures
        cursor <= skip_ws(b, cursor, end) <= end,
    decreases end - cursor,
{
    if first_char_width(b, cursor, end) is Some && regex_ws(b[cursor]) && cursor + 1 <= end {
        lemma_skip_ws_bounds(b, cursor + 1, end);
    }
}

fn skip_whitespace(input: &str, from: usize, end: usize) -> (r: usize)
    requires
        from <= end,
    ensures
        r == skip_ws(bytes_of(input), from as int, end as int),
        from <= r <= end,
{
    let ghost b = bytes_of(input);
    let mut cursor = from;
    proof {
        lemma_skip_ws_bounds(b, from as int, end as int);
    }
    while cursor < end
        invariant
            b == bytes_of(input),
            from <= cursor <= end,
            skip_ws(b, cursor as int, end as int) == skip_ws(b, from as int, end as int),
        decreases end - cursor,
    {
        match first_char_len(input, cursor, end) {
            Some(_) => {},
            None => return cursor,
        }
        let c = input.as_bytes()[cursor];
        if !is_java_regex_whitespace(c) {
            return cursor;
        }
        cursor = cursor + 1;
    }
    cursor
}

fn is_java_regex_whitespace(c: u8) -> (r: bool)
    ensures
        r == regex_ws(c),
{
    c == 0x20 || c == 0x09 || c == 0x0a || c == 0x0b || c == 0x0c || c == 0x0d
}

/// Whether `bytes[start..start + word.len()]` equals the lower-case ASCII `word`, ignoring case.
fn word_matches(bytes: &[u8], start: usize, word: &[u8]) -> (r: bool)
    requires
        start + word@.len() <= bytes@.len(),
    ensures
        r == forall|i: int| 0 <= i < word@.len() ==> ascii_lower(#[trigger] bytes@[start + i]) == word@[i],
{
    let n = bytes.len();
    let mut i: usize = 0;
    while i < word.len()
        invariant
            n == bytes@.len(),
            start + word@.len() <= bytes@.len(),
            i <= word@.len(),
            forall|k: int| 0 <= k < i ==> ascii_lower(#[trigger] bytes@[start + k]) == word@[k],
        decreases word@.len() - i,
    {
        let c = bytes[start + i];
        let lower = if 0x41 <= c && c <= 0x5a {
            c + 0x20
        } else {
            c
        };
        if lower != word[i] {
            return false;
        }
        i = i + 1;
    }
    true
}

fn list_operator_at(input: &str, start: usize, end: usize) -> (r: Option<(usize, ExpressionListDelimiter)>)
    ensures
        match r {
            Some((e, d)) => list_operator(bytes_of(input), start as int, end as int) == Some((e as int, d)),
            None => list_operator(bytes_of(input), start as int, end as int) is None,
        },
{
    let ghost b = bytes_of(input);
    if !(start <= end && TextRange::new(start, end).is_valid_for(input)) {
        return None;
    }
    let bytes = input.as_bytes();
    let and_word: [u8; 3] = [0x61, 0x6e, 0x64];
    let nor_word: [u8; 3] = [0x6e, 0x6f, 0x72];
    let or_word: [u8; 2] = [0x6f, 0x72];
    proof {
        assert(and_word@ =~= seq![0x61u8, 0x6eu8, 0x64u8]);
        assert(nor_word@ =~= seq![0x6eu8, 0x6fu8, 0x72u8]);
        assert(or_word@ =~= seq![0x6fu8, 0x72u8]);
    }
    if end - start >= 3 && input.is_char_boundary(start + 3) && word_matches(bytes, start, and_word.as_slice()) {
        proof {
            crate::text::lemma_boundary(b, start + 3);
        }
        return Some((start + 3, ExpressionListDelimiter::And));
    }
    proof {
        if end - start >= 3 {
            crate::text::lemma_boundary(b, start + 3);
        }
    }
    if end - start >= 3 && input.is_char_boundary(start + 3) && word_matches(bytes, start, nor_word.as_slice()) {
        return Some((start + 3, ExpressionListDelimiter::Nor));
    }
    proof {
        if end - start >= 2 {
            crate::text::lemma_boundary(b, start + 2);
        }
    }
    if end - start >= 2 && input.is_char_boundary(start + 2) && word_matches(bytes, start, or_word.as_slice()) {
        return Some((start + 2, ExpressionListDelimiter::Or));
    }
    None
}

/// Whether a Java-regex whitespace character starts at `at` within `end`.
fn ws_char(input: &str, at: usize, end: usize) -> (r: bool)
    ensures
        r == ws_char_at(bytes_of(input), at as int, end as int),
{
    match first_char_len(input, at, end) {
        Some(_) => is_java_regex_whitespace(input.as_bytes()[at]),
        None => false,
    }
}

fn comma_delimiter_at(input: &str, comma: usize, end: usize) -> (r: (usize, ExpressionListDelimiter))
    requires
        comma < end,
    ensures
        (r.0 as int, r.1) == comma_delimiter(bytes_of(input), comma as int, end as int),
        comma < r.0 <= end,
{
    let ghost b = bytes_of(input);
    let after_comma = comma + 1;
    let word_start = skip_whitespace(input, after_comma, end);
    let had_whitespace = word_start > after_comma;
    if let Some((word_end, delimiter)) = list_operator_at(input, word_start, end) {
        if had_whitespace && word_end < end && ws_char(input, word_end, end) {
            let resume = skip_whitespace(input, word_end, end);
            return (resume, delimiter);
        }
    }
    (word_start, ExpressionListDelimiter::Comma)
}

fn word_delimiter_at(input: &str, whitespace: usize, end: usize) -> (r: Option<(usize, ExpressionListDelimiter)>)
    requires
        whitespace <= end,
    ensures
        opt_split(r) == word_delimiter(bytes_of(input), whitespace as int, end as int),
        r matches Some((e, _)) ==> whitespace < e <= end,
{
    let word_start = skip_whitespace(input, whitespace, end);
    let (word_end, delimiter) = match list_operator_at(input, word_start, end) {
        Some(found) => found,
        None => return None,
    };
    if word_end >= end || !ws_char(input, word_end, end) {
        return None;
    }
    Some((skip_whitespace(input, word_end, end), delimiter))
}

/// An optional split point as mathematical values.
pub open spec fn opt_split(r: Option<(usize, ExpressionListDelimiter)>) -> Option<(int, ExpressionListDelimiter)> {
    match r {
        Some((e, d)) => Some((e as int, d)),
        None => None,
    }
}

fn push_piece(input: &str, start: usize, end: usize, pieces: &mut Vec<TextRange>) -> (r: bool)
    ensures
        r == piece(bytes_of(input), start as int, end as int) is Some,
        r ==> final(pieces)@ == old(pieces)@.push(piece(bytes_of(input), start as int, end as int).unwrap()),
        !r ==> final(pieces)@ == old(pieces)@,
{
    let ghost b = bytes_of(input);
    if !(start <= end && TextRange::new(start, end).is_valid_for(input)) {
        return false;
    }
    let source = str_slice(input, start, end);
    let trimmed = java_trim_range(source);
    if trimmed.start == trimmed.end {
        return false;
    }
    proof {
        crate::pattern_match::lemma_java_trim_bounds(b.subrange(start as int, end as int));
    }
    pieces.push(TextRange::new(start + trimmed.start, start + trimmed.end));
    true
}

/// Splits `range` of `input` into trimmed pieces at top-level delimiters.
///
/// Returns `None` when there is no delimiter, a piece is blank, or the range
/// does not fall on character boundaries of `input`.
pub fn split_expression_list(input: &str, range: TextRange) -> (r: Option<RawExpressionList>)
    ensures
        list_view(r) == split_list(bytes_of(input), range),
{
    let ghost b = bytes_of(input);
    let bytes = input.as_bytes();
    let mut pieces: Vec<TextRange> = Vec::new();
    let mut delimiters: Vec<ExpressionListDelimiter> = Vec::new();
    let mut part_start = range.start;
    let mut cursor = range.start;
    let ghost goal = split_list(b, range);
    while cursor < range.end
        invariant
            b == bytes_of(input),
            bytes@ == b,
            goal == split_list(b, range),
            goal == scan_list(b, range.end as int, cursor as int, part_start as int, pieces@, delimiters@),
        decreases range.end - cursor,
    {
        let w = match first_char_len(input, cursor, range.end) {
            Some(w) => w,
            None => return None,
        };
        let c = bytes[cursor];
        let next = cursor + w;
        if c == 0x22 {
            cursor = match find_quote_end(input, next, range.end) {
                Some(close) => {
                    proof {
                        lemma_quote_end_bounds(b, next as int, range.end as int, false);
                    }
                    close + 1
                },
                None => range.end,
            };
        } else if c == 0x7b {
            cursor = match find_variable_end(input, next, range.end) {
                Some(close) => {
                    proof {
                        lemma_variable_end_bounds(b, next as int, range.end as int, 0);
                    }
                    close + 1
                },
                None => range.end,
            };
        } else if c == 0x28 {
            cursor = match find_parenthesis_end(input, next, range.end) {
                Some(close) => {
                    proof {
                        lemma_parenthesis_end_bounds(b, next as int, range.end as int, 0);
                    }
                    close + 1
                },
                None => range.end,
            };
        } else if c == 0x2c {
            let (delimiter_end, delimiter) = comma_delimiter_at(input, cursor, range.end);
            if !push_piece(input, part_start, cursor, &mut pieces) {
                return None;
            }
            delimiters.push(delimiter);
            part_start = delimiter_end;
            cursor = delimiter_end;
        } else if is_java_regex_whitespace(c) {
            match word_delimiter_at(input, cursor, range.end) {
                Some((delimiter_end, delimiter)) => {
                    if !push_piece(input, part_start, cursor, &mut pieces) {
                        return None;
                    }
                    delimiters.push(delimiter);
                    part_start = delimiter_end;
                    cursor = delimiter_end;
                },
                None => {
                    cursor = next;
                },
            }
        } else {
            cursor = next;
        }
    }
    if delimiters.len() == 0 {
        return None;
    }
    if !push_piece(input, part_start, range.end, &mut pieces) {
        return None;
    }
    Some(RawExpressionList { pieces, delimiters })
}

} // verus!
