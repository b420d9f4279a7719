//! Where arithmetic operator signs occur in an expression's text, outside
//! strings, variables and parentheses.
use crate::pattern_match::{
    find_parenthesis_end, find_quote_end, find_variable_end, first_char_len, first_char_width,
    lemma_parenthesis_end_bounds, lemma_quote_end_bounds, lemma_variable_end_bounds, parenthesis_end, quote_end,
    variable_end,
};
use crate::text::{bytes_of, TextRange};
use vstd::prelude::*;
use vstd::string::StringSliceAdditionalSpecFns;
use vstd::utf8::encode_utf8;

verus! {

/// One place an operator sign occurs: the operator's index and the bytes the
/// sign covers.
#[derive(Debug, Clone, Copy, PartialEq, Eq, Structural)]
pub struct OperatorOccurrence {
    pub operator_index: usize,
    pub start: usize,
    pub end: usize,
}

/// The UTF-8 bytes of each operator sign.
pub open spec fn sign_bytes(signs: Seq<String>) -> Seq<Seq<u8>> {
    signs.map_values(|s: String| encode_utf8(s@))
}

/// `sign` is spelled at `cursor`, within `end`.
pub open spec fn sign_at(b: Seq<u8>, cursor: int, end: int, sign: Seq<u8>) -> bool {
    &&& cursor + sign.len() <= end
    &&& b.subrange(cursor, cursor + sign.len()) == sign
}

/// The length of the longest non-empty sign spelled at `cursor`, or 0.
pub open spec fn longest_sign(b: Seq<u8>, cursor: int, end: int, signs: Seq<Seq<u8>>) -> nat
    decreases signs.len(),
{
    if signs.len() == 0 {
        0
    } else {
        let rest = longest_sign(b, cursor, end, signs.drop_last());
        let s = signs.last();
        if s.len() > 0 && sign_at(b, cursor, end, s) && s.len() > rest {
            s.len()
        } else {
            rest
        }
    }
}

/// The occurrences, in operator order among the first `k` signs, of the
/// signs of length `len` spelled at `cursor`.
pub open spec fn matches_at(b: Seq<u8>, cursor: int, end: int, signs: Seq<Seq<u8>>, len: nat, k: int) -> Seq<
    OperatorOccurrence,
>
    decreases k,
{
    if k <= 0 {
        Seq::empty()
    } else {
        let rest = matches_at(b, cursor, end, signs, len, k - 1);
        let s = signs[k - 1];
        if s.len() == len && sign_at(b, cursor, end, s) {
            rest.push(
                OperatorOccurrence { operator_index: (k - 1) as usize, start: cursor as usize, end: (cursor + len) as usize },
            )
        } else {
            rest
        }
    }
}

/// The occurrences from `cursor` on: strings, variables and parenthesized
/// parts are skipped whole, the longest signs at a place are all taken, and
/// otherwise the scan moves one character on. `None` where a string,
/// variable or parenthesis is not closed.
pub open spec fn occurrences_from(b: Seq<u8>, end: int, signs: Seq<Seq<u8>>, cursor: int) -> Option<
    Seq<OperatorOccurrence>,
>
    decreases end - cursor,
{
    match first_char_width(b, cursor, end) {
        None => Some(Seq::empty()),
        Some(w) => if b[cursor] == 0x22 {
            match quote_end(b, cursor + 1, end, false) {
                None => None,
                Some(q) => if cursor < q + 1 <= end {
                    occurrences_from(b, end, signs, q + 1)
                } else {
                    Some(Seq::empty())
                },
            }
        } else if b[cursor] == 0x7b {
            match variable_end(b, cursor + 1, end, 0) {
                None => None,
                Some(q) => if cursor < q + 1 <= end {
                    occurrences_from(b, end, signs, q + 1)
                } else {
                    Some(Seq::empty())
                },
            }
        } else if b[cursor] == 0x28 {
            match parenthesis_end(b, cursor + 1, end, 0) {
                None => None,
                Some(q) => if cursor < q + 1 <= end {
                    occurrences_from(b, end, signs, q + 1)
                } else {
                    Some(Seq::empty())
                },
            }
        } else {
            let len = longest_sign(b, cursor, end, signs);
            if len > 0 && cursor + len <= end {
                match occurrences_from(b, end, signs, cursor + len) {
                    Some(rest) => Some(matches_at(b, cursor, end, signs, len, signs.len() as int) + rest),
                    None => None,
                }
            } else if len == 0 && w >= 1 && cursor + w <= end {
                occurrences_from(b, end, signs, cursor + w)
            } else {
                Some(Seq::empty())
            }
        },
    }
}

/// The occurrences of operator signs in `range` of `b`; none where a string,
/// variable or parenthesis is left open.
pub open spec fn occurrences_in(b: Seq<u8>, range: TextRange, signs: Seq<Seq<u8>>) -> Seq<OperatorOccurrence> {
    match occurrences_from(b, range.end as int, signs, range.start as int) {
        Some(v) => v,
        None => Seq::empty(),
    }
}

/// Whether `sign` is spelled at `cursor`, within `end`.
fn sign_here(bytes: &[u8], cursor: usize, end: usize, sign: &str) -> (r: bool)
    requires
        end <= bytes@.len(),
    ensures
        r == sign_at(bytes@, cursor as int, end as int, encode_utf8(sign@)),
{
    let s = sign.as_bytes();
    proof {
        assert(s@ == encode_utf8(sign@));
    }
    if cursor > end || s.len() > end - cursor {
        return false;
    }
    let mut k: usize = 0;
    while k < s.len()
        invariant
            s@ == encode_utf8(sign@),
            cursor + s@.len() <= end,
            end <= bytes@.len(),
            k <= s@.len(),
            forall|j: int| 0 <= j < k ==> bytes@[cursor + j] == s@[j],
        decreases s@.len() - k,
    {
        if bytes[cursor + k] != s[k] {
            proof {
                assert(bytes@.subrange(cursor as int, cursor + s@.len())[k as int] != s@[k as int]);
            }
            return false;
        }
        k = k + 1;
    }
    proof {
        assert(bytes@.subrange(cursor as int, cursor + s@.len()) =~= s@);
    }
    true
}

/// Finds the occurrences of operator signs in `range` of `input`, given the
/// operators' signs in operator order.
pub fn operator_occurrences(input: &str, range: TextRange, signs: &[String]) -> (r: Vec<OperatorOccurrence>)
    ensures
        r@ == occurrences_in(bytes_of(input), range, sign_bytes(signs@)),
{
    let ghost b = bytes_of(input);
    let ghost sb = sign_bytes(signs@);
    let bytes = input.as_bytes();
    let end = range.end;
    let mut occurrences: Vec<OperatorOccurrence> = Vec::new();
    let mut cursor = range.start;
    let ghost goal = occurrences_from(b, end as int, sb, cursor as int);
    while cursor < end
        invariant
            bytes@ == b,
            b == bytes_of(input),
            end == range.end,
            sb == sign_bytes(signs@),
            goal == occurrences_from(b, range.end as int, sb, range.start as int),
            goal == match occurrences_from(b, end as int, sb, cursor as int) {
                Some(rest) => Some(occurrences@ + rest),
                None => None,
            },
        decreases end - cursor,
    {
        let w = match first_char_len(input, cursor, end) {
            Some(w) => w,
            None => {
                proof {
                    assert(occurrences@ + Seq::<OperatorOccurrence>::empty() =~= occurrences@);
                }
                return occurrences;
            },
        };
        let ch = bytes[cursor];
        if ch == 0x22 || ch == 0x7b || ch == 0x28 {
            let closing = if ch == 0x22 {
                find_quote_end(input, cursor + 1, end)
            } else if ch == 0x7b {
                find_variable_end(input, cursor + 1, end)
            } else {
                find_parenthesis_end(input, cursor + 1, end)
            };
            match closing {
                Some(q) => {
                    proof {
                        if ch == 0x22 {
                            lemma_quote_end_bounds(b, cursor + 1, end as int, false);
                        } else if ch == 0x7b {
                            lemma_variable_end_bounds(b, cursor + 1, end as int, 0);
                        } else {
                            lemma_parenthesis_end_bounds(b, cursor + 1, end as int, 0);
                        }
                    }
                    cursor = q + 1;
                },
                None => {
                    return Vec::new();
                },
            }
        } else {
            let mut longest: usize = 0;
            let mut k: usize = 0;
            while k < signs.len()
                invariant
                    bytes@ == b,
                    end <= b.len(),
                    sb == sign_bytes(signs@),
                    k <= signs@.len(),
                    longest == longest_sign(b, cursor as int, end as int, sb.take(k as int)),
                    longest <= end - cursor,
                decreases signs@.len() - k,
            {
                let sign = signs[k].as_str();
                proof {
                    assert(sb.take(k + 1).drop_last() =~= sb.take(k as int));
                    assert(sb.take(k + 1).last() == sb[k as int]);
                    assert(sb[k as int] == encode_utf8(sign@));
                }
                let n = sign.as_bytes().len();
                if n > 0 && n > longest && sign_here(bytes, cursor, end, sign) {
                    longest = n;
                }
                k = k + 1;
            }
            proof {
                assert(sb.take(sb.len() as int) =~= sb);
            }
            if longest > 0 {
                let ghost before = occurrences@;
                let mut k: usize = 0;
                while k < signs.len()
                    invariant
                        bytes@ == b,
                        end <= b.len(),
                        sb == sign_bytes(signs@),
                        k <= signs@.len(),
                        cursor + longest <= end,
                        occurrences@ == before + matches_at(b, cursor as int, end as int, sb, longest as nat, k as int),
                    decreases signs@.len() - k,
                {
                    let sign = signs[k].as_str();
                    proof {
                        assert(sb[k as int] == encode_utf8(sign@));
                    }
                    if sign.as_bytes().len() == longest && sign_here(bytes, cursor, end, sign) {
                        occurrences.push(OperatorOccurrence { operator_index: k, start: cursor, end: cursor + longest });
                    }
                    k = k + 1;
                }
                proof {
                    let m = matches_at(b, cursor as int, end as int, sb, longest as nat, sb.len() as int);
                    assert(sb.len() == signs@.len());
                    match occurrences_from(b, end as int, sb, cursor + longest) {
                        Some(rest) => {
                            assert(before + (m + rest) =~= occurrences@ + rest);
                        },
                        None => {},
                    }
                }
                cursor = cursor + longest;
            } else {
                cursor = cursor + w;
            }
        }
    }
    proof {
        assert(occurrences@ + Seq::<OperatorOccurrence>::empty() =~= occurrences@);
    }
    occurrences
}

} // verus!
