//! The parsed shape of a Skript registration pattern, and the analyses that
//! read it before any input is matched: whether it holds a regular
//! expression, whether it starts with a typed expression, and the shortest
//! input it can match.
use crate::expression::chars_of;
use crate::text::TextRange;
use vstd::prelude::*;

verus! {

/// One element of a parsed pattern.
///
/// Type expressions, parse tags and parse marks carry their details for the
/// matcher; the analyses here read only which kind of element they are.
#[derive(Debug)]
pub enum PatternElement {
    /// Literal text, matched case-insensitively.
    Literal(String),
    /// A regular expression, `<...>`.
    Regex(String),
    /// A typed expression, `%...%`.
    TypeExpr(PatternTypeExpr),
    /// A group, `(...)` with one branch.
    Group(Vec<SpannedPatternElement>),
    /// An optional part, `[...]`.
    Optional(Vec<SpannedPatternElement>),
    /// Alternatives, `(a|b)`.
    Choice(Vec<Vec<SpannedPatternElement>>),
    /// A parse tag, `tag:`; empty for an implicit tag.
    ParseTag(String),
    /// A parse mark, `1¦`.
    ParseMark(i32),
    /// Nothing, as in an empty branch.
    Empty,
}

/// The type alternatives of a typed expression, and whether it may match nothing.
#[derive(Debug)]
pub struct PatternTypeExpr {
    pub alternatives: Vec<String>,
    pub nullable: bool,
}

/// A pattern element with its place in the pattern source.
#[derive(Debug)]
pub struct SpannedPatternElement {
    pub value: PatternElement,
    pub span: TextRange,
}

/// Some element of the sequence holds a regular expression.
pub open spec fn regex_in(s: Seq<SpannedPatternElement>) -> bool
    decreases s,
{
    if s.len() == 0 {
        false
    } else {
        regex_in(s.drop_last()) || regex_in_element(s.last().value)
    }
}

/// The element is or holds a regular expression.
pub open spec fn regex_in_element(e: PatternElement) -> bool
    decreases e,
{
    match e {
        PatternElement::Regex(_) => true,
        PatternElement::Group(c) => regex_in(c@),
        PatternElement::Optional(c) => regex_in(c@),
        PatternElement::Choice(bs) => regex_in_branches(bs@),
        _ => false,
    }
}

/// Some branch holds a regular expression.
pub open spec fn regex_in_branches(bs: Seq<Vec<SpannedPatternElement>>) -> bool
    decreases bs,
{
    if bs.len() == 0 {
        false
    } else {
        regex_in_branches(bs.drop_last()) || regex_in(bs.last()@)
    }
}

/// Returns whether the pattern holds a regular expression anywhere.
pub fn pattern_contains_regex(elements: &[SpannedPatternElement]) -> (r: bool)
    ensures
        r == regex_in(elements@),
    decreases elements@,
{
    let mut k: usize = 0;
    while k < elements.len()
        invariant
            k <= elements@.len(),
            !regex_in(elements@.take(k as int)),
        decreases elements@.len() - k,
    {
        proof {
            assert(elements@.take(k + 1).drop_last() =~= elements@.take(k as int));
            assert(elements@.take(k + 1).last() == elements@[k as int]);
        }
        if element_contains_regex(&elements[k].value) {
            proof {
                lemma_regex_in_prefix(elements@, k + 1);
            }
            return true;
        }
        k = k + 1;
    }
    proof {
        assert(elements@.take(elements@.len() as int) =~= elements@);
    }
    false
}

/// Once a prefix holds a regular expression, so does the whole sequence.
proof fn lemma_regex_in_prefix(s: Seq<SpannedPatternElement>, k: int)
    requires
        0 <= k <= s.len(),
        regex_in(s.take(k)),
    ensures
        regex_in(s),
    decreases s.len() - k,
{
    if k < s.len() {
        assert(s.take(k + 1).drop_last() =~= s.take(k));
        lemma_regex_in_prefix(s, k + 1);
    } else {
        assert(s.take(k) =~= s);
    }
}

fn element_contains_regex(element: &PatternElement) -> (r: bool)
    ensures
        r == regex_in_element(*element),
    decreases *element,
{
    match element {
        PatternElement::Regex(_) => true,
        PatternElement::Group(children) => pattern_contains_regex(children.as_slice()),
        PatternElement::Optional(children) => pattern_contains_regex(children.as_slice()),
        PatternElement::Choice(branches) => {
            let mut k: usize = 0;
            while k < branches.len()
                invariant
                    *element == PatternElement::Choice(*branches),
                    k <= branches@.len(),
                    !regex_in_branches(branches@.take(k as int)),
                decreases branches@.len() - k,
            {
                proof {
                    assert(branches@.take(k + 1).drop_last() =~= branches@.take(k as int));
                    assert(branches@.take(k + 1).last() == branches@[k as int]);
                }
                proof {
                    assert(decreases_to!(*element => (*element)->Choice_0));
                    assert(decreases_to!(*branches => branches@));
                    assert(decreases_to!(branches@ => branches@[k as int]));
                    assert(decreases_to!(branches@[k as int] => branches@[k as int]@));
                    assert(decreases_to!(*element => branches@[k as int]@));
                }
                if pattern_contains_regex(branches[k].as_slice()) {
                    proof {
                        lemma_regex_in_branches_prefix(branches@, k + 1);
                    }
                    return true;
                }
                k = k + 1;
            }
            proof {
                assert(branches@.take(branches@.len() as int) =~= branches@);
            }
            false
        },
        _ => false,
    }
}

proof fn lemma_regex_in_branches_prefix(bs: Seq<Vec<SpannedPatternElement>>, k: int)
    requires
        0 <= k <= bs.len(),
        regex_in_branches(bs.take(k)),
    ensures
        regex_in_branches(bs),
    decreases bs.len() - k,
{
    if k < bs.len() {
        assert(bs.take(k + 1).drop_last() =~= bs.take(k));
        lemma_regex_in_branches_prefix(bs, k + 1);
    } else {
        assert(bs.take(k) =~= bs);
    }
}

/// How a sequence starts: whether its first non-empty element is a typed
/// expression, and whether the whole sequence can match nothing.
pub open spec fn start_of(s: Seq<SpannedPatternElement>) -> (bool, bool)
    decreases s,
{
    if s.len() == 0 {
        (false, true)
    } else {
        let first = start_of_element(s[0].value);
        if first.0 {
            (true, false)
        } else if !first.1 {
            (false, false)
        } else {
            start_of(s.drop_first())
        }
    }
}

/// How an element starts, as [`start_of`] says of sequences.
pub open spec fn start_of_element(e: PatternElement) -> (bool, bool)
    decreases e,
{
    match e {
        PatternElement::TypeExpr(_) => (true, false),
        PatternElement::Literal(_) => (false, false),
        PatternElement::Regex(_) => (false, false),
        PatternElement::Group(c) => start_of(c@),
        PatternElement::Optional(c) => (start_of(c@).0, true),
        PatternElement::Choice(bs) => start_of_branches(bs@),
        _ => (false, true),
    }
}

/// Some branch starts with a typed expression; some branch can be empty.
pub open spec fn start_of_branches(bs: Seq<Vec<SpannedPatternElement>>) -> (bool, bool)
    decreases bs,
{
    if bs.len() == 0 {
        (false, false)
    } else {
        let rest = start_of_branches(bs.drop_last());
        let last = start_of(bs.last()@);
        (rest.0 || last.0, rest.1 || last.1)
    }
}

/// Returns whether the sequence starts with a typed expression, and whether
/// it can match nothing.
pub fn sequence_start(elements: &[SpannedPatternElement]) -> (r: (bool, bool))
    ensures
        r == start_of(elements@),
    decreases elements@,
{
    let mut k: usize = 0;
    proof {
        assert(elements@.skip(0) =~= elements@);
    }
    while k < elements.len()
        invariant
            k <= elements@.len(),
            start_of(elements@) == start_of(elements@.skip(k as int)),
        decreases elements@.len() - k,
    {
        proof {
            assert(elements@.skip(k as int)[0] == elements@[k as int]);
            assert(elements@.skip(k as int).drop_first() =~= elements@.skip(k + 1));
        }
        let (begins_with_type, element_empty) = element_start(&elements[k].value);
        if begins_with_type {
            return (true, false);
        }
        if !element_empty {
            return (false, false);
        }
        k = k + 1;
    }
    proof {
        assert(elements@.skip(k as int).len() == 0);
    }
    (false, true)
}

/// Returns how an element starts.
pub fn element_start(element: &PatternElement) -> (r: (bool, bool))
    ensures
        r == start_of_element(*element),
    decreases *element,
{
    match element {
        PatternElement::TypeExpr(_) => (true, false),
        PatternElement::Literal(_) => (false, false),
        PatternElement::Regex(_) => (false, false),
        PatternElement::Group(children) => sequence_start(children.as_slice()),
        PatternElement::Optional(children) => (sequence_start(children.as_slice()).0, true),
        PatternElement::Choice(branches) => {
            let mut begins_with_type = false;
            let mut can_be_empty = false;
            let mut k: usize = 0;
            while k < branches.len()
                invariant
                    *element == PatternElement::Choice(*branches),
                    k <= branches@.len(),
                    (begins_with_type, can_be_empty) == start_of_branches(branches@.take(k as int)),
                decreases branches@.len() - k,
            {
                proof {
                    assert(decreases_to!(*element => (*element)->Choice_0));
                    assert(decreases_to!(*branches => branches@));
                    assert(decreases_to!(branches@ => branches@[k as int]));
                    assert(decreases_to!(branches@[k as int] => branches@[k as int]@));
                    assert(branches@.take(k + 1).drop_last() =~= branches@.take(k as int));
                    assert(branches@.take(k + 1).last() == branches@[k as int]);
                }
                let (branch_type, branch_empty) = sequence_start(branches[k].as_slice());
                begins_with_type = begins_with_type || branch_type;
                can_be_empty = can_be_empty || branch_empty;
                k = k + 1;
            }
            proof {
                assert(branches@.take(branches@.len() as int) =~= branches@);
            }
            (begins_with_type, can_be_empty)
        },
        _ => (false, true),
    }
}

/// Whether a pattern can begin with a typed expression, so that matching it
/// recurses on its own syntax first.
pub fn pattern_is_left_recursive(elements: &[SpannedPatternElement]) -> (r: bool)
    ensures
        r == start_of(elements@).0,
{
    sequence_start(elements).0
}

/// The number of characters of `t` other than spaces.
pub open spec fn non_spaces(t: Seq<char>) -> nat
    decreases t.len(),
{
    if t.len() == 0 {
        0
    } else {
        non_spaces(t.drop_last()) + if t.last() != ' ' {
            1nat
        } else {
            0nat
        }
    }
}

/// A lower bound on the bytes any input matching the sequence has: literal
/// characters other than spaces, through groups and the shortest branch of
/// each choice.
pub open spec fn shortest_input(s: Seq<SpannedPatternElement>) -> nat
    decreases s,
{
    if s.len() == 0 {
        0
    } else {
        shortest_input(s.drop_last()) + shortest_input_element(s.last().value)
    }
}

/// [`shortest_input`] of one element.
pub open spec fn shortest_input_element(e: PatternElement) -> nat
    decreases e,
{
    match e {
        PatternElement::Literal(t) => non_spaces(t@),
        PatternElement::Group(c) => shortest_input(c@),
        PatternElement::Choice(bs) => shortest_branch(bs@),
        _ => 0,
    }
}

/// The least [`shortest_input`] of the branches, or 0 without branches.
pub open spec fn shortest_branch(bs: Seq<Vec<SpannedPatternElement>>) -> nat
    decreases bs,
{
    if bs.len() == 0 {
        0
    } else if bs.len() == 1 {
        shortest_input(bs[0]@)
    } else {
        let rest = shortest_branch(bs.drop_last());
        let last = shortest_input(bs.last()@);
        if last < rest {
            last
        } else {
            rest
        }
    }
}

/// `n`, or `usize::MAX` where it is larger.
pub open spec fn capped(n: nat) -> usize {
    if n < usize::MAX {
        n as usize
    } else {
        usize::MAX
    }
}

fn count_non_spaces(t: &str) -> (r: usize)
    ensures
        r == non_spaces(t@),
{
    let c = chars_of(t);
    let mut n: usize = 0;
    let mut k: usize = 0;
    while k < c.len()
        invariant
            c@ == t@,
            k <= c@.len(),
            n == non_spaces(t@.take(k as int)),
            n <= k,
        decreases c@.len() - k,
    {
        proof {
            assert(t@.take(k + 1).drop_last() =~= t@.take(k as int));
        }
        if c[k] != ' ' {
            n = n + 1;
        }
        k = k + 1;
    }
    proof {
        assert(t@.take(t@.len() as int) =~= t@);
    }
    n
}

/// Returns the least number of bytes an input matching the pattern has,
/// saturated at `usize::MAX`.
pub fn minimum_pattern_input_len(elements: &[SpannedPatternElement]) -> (r: usize)
    ensures
        r == capped(shortest_input(elements@)),
    decreases elements@,
{
    let mut length: usize = 0;
    let mut k: usize = 0;
    while k < elements.len()
        invariant
            k <= elements@.len(),
            length == capped(shortest_input(elements@.take(k as int))),
        decreases elements@.len() - k,
    {
        proof {
            assert(elements@.take(k + 1).drop_last() =~= elements@.take(k as int));
            assert(elements@.take(k + 1).last() == elements@[k as int]);
        }
        let element_length = element_min_len(&elements[k].value);
        length = if length <= usize::MAX - element_length {
            length + element_length
        } else {
            usize::MAX
        };
        k = k + 1;
    }
    proof {
        assert(elements@.take(elements@.len() as int) =~= elements@);
    }
    length
}

fn element_min_len(element: &PatternElement) -> (r: usize)
    ensures
        r == capped(shortest_input_element(*element)),
    decreases *element,
{
    match element {
        PatternElement::Literal(t) => count_non_spaces(t.as_str()),
        PatternElement::Group(children) => minimum_pattern_input_len(children.as_slice()),
        PatternElement::Choice(branches) => {
            let mut least: usize = 0;
            let mut k: usize = 0;
            while k < branches.len()
                invariant
                    *element == PatternElement::Choice(*branches),
                    k <= branches@.len(),
                    least == capped(shortest_branch(branches@.take(k as int))),
                decreases branches@.len() - k,
            {
                proof {
                    assert(decreases_to!(*element => (*element)->Choice_0));
                    assert(decreases_to!(*branches => branches@));
                    assert(decreases_to!(branches@ => branches@[k as int]));
                    assert(decreases_to!(branches@[k as int] => branches@[k as int]@));
                    assert(branches@.take(k + 1).drop_last() =~= branches@.take(k as int));
                    assert(branches@.take(k + 1).last() == branches@[k as int]);
                    if k == 0 {
                        assert(branches@.take(1)[0] == branches@[0]);
                    }
                }
                let branch = minimum_pattern_input_len(branches[k].as_slice());
                if k == 0 || branch < least {
                    least = branch;
                }
                k = k + 1;
            }
            proof {
                assert(branches@.take(branches@.len() as int) =~= branches@);
            }
            least
        },
        _ => 0,
    }
}

} // verus!
