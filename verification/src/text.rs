//! UTF-8 byte-range primitives used by source maps, trees, matching, and diagnostics.
//!
//! Ranges are half-open byte ranges. Every `&str` is viewed through its UTF-8
//! encoding (`spec_bytes`), and a byte offset is a character boundary when it
//! is an end of the text or does not point at a continuation byte.
use core::cmp::Ordering;
use vstd::prelude::*;
use vstd::std_specs::cmp::PartialOrdIs;
use vstd::std_specs::cmp::PartialOrdSpecImpl;
use vstd::string::StringSliceAdditionalSpecFns;
use vstd::utf8::*;

verus! {

broadcast use vstd::utf8::group_utf8_lib;

/// Byte offset `i` is a character boundary of the UTF-8 text `b`.
pub open spec fn boundary(b: Seq<u8>, i: int) -> bool {
    ||| i == 0
    ||| i == b.len()
    ||| (0 < i < b.len() && !is_continuation_byte(b[i]))
}

/// The UTF-8 bytes of a string slice.
pub open spec fn bytes_of(s: &str) -> Seq<u8> {
    s.spec_bytes()
}

/// `std`'s character-boundary predicate agrees with [`boundary`] on encoded text.
pub proof fn lemma_boundary(b: Seq<u8>, i: int)
    requires
        valid_utf8(b),
    ensures
        is_char_boundary(b, i) <==> boundary(b, i),
{
    if 0 <= i < b.len() {
        is_char_boundary_iff_not_is_continuation_byte(b, i);
    } else if i == b.len() {
        is_char_boundary_start_end_of_seq(b);
    }
}

/// Byte length of the UTF-8 encoding that begins with leading byte `b`.
pub open spec fn utf8_width(b: u8) -> int {
    if b < 0x80 {
        1
    } else if b < 0xe0 {
        2
    } else if b < 0xf0 {
        3
    } else {
        4
    }
}

/// Byte length of the UTF-8 encoding that begins with leading byte `b`.
pub fn char_width(b: u8) -> (r: usize)
    ensures
        r == utf8_width(b),
{
    if b < 0x80 {
        1
    } else if b < 0xe0 {
        2
    } else if b < 0xf0 {
        3
    } else {
        4
    }
}

/// In valid UTF-8 the character starting at a boundary ends at the next boundary,
/// and its continuation bytes are not boundaries.
pub proof fn lemma_next_boundary(b: Seq<u8>, i: int)
    requires
        valid_utf8(b),
        boundary(b, i),
        0 <= i < b.len(),
    ensures
        i + utf8_width(b[i]) <= b.len(),
        boundary(b, i + utf8_width(b[i])),
        forall|j: int| i < j < i + utf8_width(b[i]) ==> !boundary(b, j),
{
    lemma_boundary(b, i);
    valid_utf8_split(b, i);
    let s = b.subrange(i, b.len() as int);
    assert(valid_utf8(s));
    assert(valid_first_scalar(s));
    assert(s[0] == b[i]);
    if i > 0 {
        assert(!is_continuation_byte(b[i]));
    }
    let w = length_of_first_scalar(s);
    assert(w == utf8_width(b[i]));
    assert forall|j: int| i < j < i + utf8_width(b[i]) implies !boundary(b, j) by {
        assert(s[j - i] == b[j]);
    }
    let rest = pop_first_scalar(s);
    assert(valid_utf8(rest));
    if i + w < b.len() {
        assert(rest.len() > 0);
        assert(valid_first_scalar(rest));
        assert(rest[0] == b[i + w]);
    }
}

/// Every boundary of a text is a boundary of any prefix that ends on a boundary.
pub proof fn lemma_prefix_boundary(b: Seq<u8>, end: int, i: int)
    requires
        0 <= i <= end <= b.len(),
        boundary(b, i),
    ensures
        boundary(b.subrange(0, end), i),
{
}

/// Boundaries of a slice that lies between boundaries are boundaries of the whole text.
pub proof fn lemma_slice_boundary(b: Seq<u8>, start: int, end: int, x: int)
    requires
        0 <= start <= end <= b.len(),
        boundary(b, start),
        boundary(b, end),
        0 <= x <= end - start,
        boundary(b.subrange(start, end), x),
    ensures
        boundary(b, start + x),
{
    if 0 < x < end - start {
        assert(b.subrange(start, end)[x] == b[start + x]);
    }
}

/// Boundaries of the whole text inside a slice between boundaries are boundaries of the slice.
pub proof fn lemma_boundary_in_slice(b: Seq<u8>, start: int, end: int, x: int)
    requires
        0 <= start <= end <= b.len(),
        0 <= x <= end - start,
        boundary(b, start + x),
    ensures
        boundary(b.subrange(start, end), x),
{
    if 0 < x < end - start {
        assert(b.subrange(start, end)[x] == b[start + x]);
    }
}

/// UTF-8 encoding distributes over concatenation.
pub proof fn lemma_encode_concat(a: Seq<char>, b: Seq<char>)
    ensures
        encode_utf8(a + b) == encode_utf8(a) + encode_utf8(b),
    decreases a.len(),
{
    if a.len() == 0 {
        assert(a + b =~= b);
        assert(encode_utf8(a) =~= Seq::<u8>::empty());
        assert(encode_utf8(a) + encode_utf8(b) =~= encode_utf8(b));
    } else {
        assert((a + b).drop_first() =~= a.drop_first() + b);
        assert((a + b)[0] == a[0]);
        lemma_encode_concat(a.drop_first(), b);
        assert(encode_utf8(a + b) =~= encode_utf8(a) + encode_utf8(b));
    }
}

/// An ASCII character encodes as its own code.
pub proof fn lemma_encode_ascii_char(c: char)
    requires
        (c as u32) < 0x80,
    ensures
        encode_utf8(seq![c]) == seq![(c as u32) as u8],
{
    let v = c as u32;
    assert((v & 0x7f) == v) by (bit_vector)
        requires
            v < 0x80,
    ;
    assert(seq![c].drop_first() =~= Seq::<char>::empty());
    assert(seq![c][0] == c);
    assert(encode_utf8(Seq::<char>::empty()) =~= Seq::<u8>::empty());
    assert(encode_scalar(v) =~= seq![(v & 0x7f) as u8]);
    assert(encode_utf8(seq![c]) =~= encode_scalar(v) + encode_utf8(Seq::<char>::empty()));
    assert(encode_utf8(seq![c]) =~= seq![(v & 0x7f) as u8]);
}

/// Non-empty text has non-empty UTF-8 bytes.
pub proof fn lemma_encode_nonempty(s: Seq<char>)
    requires
        s.len() > 0,
    ensures
        encode_utf8(s).len() > 0,
{
    assert(encode_utf8(s) == encode_scalar(s[0] as u32) + encode_utf8(s.drop_first()));
}

/// The bytes of a string slice are valid UTF-8.
pub proof fn lemma_str_valid(s: &str)
    ensures
        valid_utf8(bytes_of(s)),
{
    encode_utf8_valid_utf8(s@);
}

/// Byte length of a string slice.
pub fn str_len(s: &str) -> (r: usize)
    ensures
        r == bytes_of(s).len(),
{
    s.as_bytes().len()
}

/// Returns the bytes `start..end` of `s` as a string slice.
pub fn str_slice<'a>(s: &'a str, start: usize, end: usize) -> (r: &'a str)
    requires
        start <= end <= bytes_of(s).len(),
        boundary(bytes_of(s), start as int),
        boundary(bytes_of(s), end as int),
    ensures
        bytes_of(r) == bytes_of(s).subrange(start as int, end as int),
{
    let ghost b = bytes_of(s);
    proof {
        lemma_boundary(b, end as int);
    }
    let (head, _) = s.split_at(end);
    proof {
        let hb = b.subrange(0, end as int);
        assert(bytes_of(head) == hb);
        lemma_prefix_boundary(b, end as int, start as int);
        lemma_boundary(hb, start as int);
    }
    let (_, tail) = head.split_at(start);
    proof {
        assert(bytes_of(tail) =~= b.subrange(start as int, end as int));
    }
    tail
}

/// Byte length of the Unicode `White_Space` character whose encoding starts at
/// `i`, or 0 when no whitespace character starts there.
pub open spec fn ws_len(b: Seq<u8>, i: int) -> int {
    if !(0 <= i < b.len()) {
        0
    } else if b[i] == 0x20 || (0x09 <= b[i] <= 0x0d) {
        1
    } else if i + 1 < b.len() && b[i] == 0xc2 && (b[i + 1] == 0x85 || b[i + 1] == 0xa0) {
        2
    } else if i + 2 < b.len() && ((b[i] == 0xe1 && b[i + 1] == 0x9a && b[i + 2] == 0x80) || (
    b[i] == 0xe2 && b[i + 1] == 0x80 && ((0x80 <= b[i + 2] <= 0x8a) || b[i + 2] == 0xa8
        || b[i + 2] == 0xa9 || b[i + 2] == 0xaf)) || (b[i] == 0xe2 && b[i + 1] == 0x81 && b[i + 2]
        == 0x9f) || (b[i] == 0xe3 && b[i + 1] == 0x80 && b[i + 2] == 0x80)) {
        3
    } else {
        0
    }
}

/// Byte length of the Unicode `White_Space` character whose encoding ends at
/// `j`, or 0 when the character before `j` is not whitespace.
pub open spec fn ws_len_before(b: Seq<u8>, j: int) -> int {
    if !(0 < j <= b.len()) {
        0
    } else if ws_len(b, j - 1) == 1 {
        1
    } else if j >= 2 && ws_len(b, j - 2) == 2 {
        2
    } else if j >= 3 && ws_len(b, j - 3) == 3 {
        3
    } else {
        0
    }
}

/// End of the run of whitespace characters starting at `i`.
pub open spec fn ws_end(b: Seq<u8>, i: int) -> int
    decreases b.len() - i,
{
    if 0 <= i < b.len() && ws_len(b, i) > 0 {
        ws_end(b, i + ws_len(b, i))
    } else {
        i
    }
}

/// Start of the run of whitespace characters ending at `j`.
pub open spec fn ws_start_before(b: Seq<u8>, j: int) -> int
    decreases j,
{
    if 0 < j <= b.len() && ws_len_before(b, j) > 0 {
        ws_start_before(b, j - ws_len_before(b, j))
    } else {
        j
    }
}

/// Every character of the text is whitespace (`str::trim` leaves nothing).
pub open spec fn blank(b: Seq<u8>) -> bool {
    ws_end(b, 0) == b.len()
}

pub proof fn lemma_ws_end_bounds(b: Seq<u8>, i: int)
    requires
        0 <= i <= b.len(),
    ensures
        i <= ws_end(b, i) <= b.len(),
    decreases b.len() - i,
{
    if 0 <= i < b.len() && ws_len(b, i) > 0 {
        lemma_ws_end_bounds(b, i + ws_len(b, i));
    }
}

pub proof fn lemma_ws_start_bounds(b: Seq<u8>, j: int)
    requires
        0 <= j <= b.len(),
    ensures
        0 <= ws_start_before(b, j) <= j,
    decreases j,
{
    if 0 < j <= b.len() && ws_len_before(b, j) > 0 {
        lemma_ws_start_bounds(b, j - ws_len_before(b, j));
    }
}

/// A whitespace character starting at a boundary is one whole character.
pub proof fn lemma_ws_len_width(b: Seq<u8>, i: int)
    requires
        0 <= i < b.len(),
        ws_len(b, i) > 0,
    ensures
        ws_len(b, i) == utf8_width(b[i]),
        !is_continuation_byte(b[i]),
{
}

/// The end of a whitespace run that starts on a boundary is a boundary.
pub proof fn lemma_ws_end_boundary(b: Seq<u8>, i: int)
    requires
        valid_utf8(b),
        0 <= i <= b.len(),
        boundary(b, i),
    ensures
        boundary(b, ws_end(b, i)),
        i <= ws_end(b, i) <= b.len(),
    decreases b.len() - i,
{
    if 0 <= i < b.len() && ws_len(b, i) > 0 {
        lemma_ws_len_width(b, i);
        lemma_next_boundary(b, i);
        lemma_ws_end_boundary(b, i + ws_len(b, i));
    }
}

/// The start of a whitespace run that ends on a boundary is a boundary.
pub proof fn lemma_ws_start_boundary(b: Seq<u8>, j: int)
    requires
        0 <= j <= b.len(),
        boundary(b, j),
    ensures
        boundary(b, ws_start_before(b, j)),
        0 <= ws_start_before(b, j) <= j,
    decreases j,
{
    if 0 < j <= b.len() && ws_len_before(b, j) > 0 {
        let w = ws_len_before(b, j);
        lemma_ws_len_width(b, j - w);
        lemma_ws_start_boundary(b, j - w);
    }
}

/// An ASCII byte is followed by a character boundary.
pub proof fn lemma_after_ascii(b: Seq<u8>, k: int)
    requires
        valid_utf8(b),
        0 <= k < b.len(),
        b[k] < 0x80,
    ensures
        boundary(b, k),
        boundary(b, k + 1),
{
    lemma_next_boundary(b, k);
}

/// Byte length of the whitespace character starting at `i` (0 if none).
pub fn whitespace_len_at(b: &[u8], i: usize) -> (r: usize)
    ensures
        r == ws_len(b@, i as int),
{
    let n = b.len();
    if i >= n {
        return 0;
    }
    let c = b[i];
    if c == 0x20 || (0x09 <= c && c <= 0x0d) {
        return 1;
    }
    if n - i > 1 && c == 0xc2 && (b[i + 1] == 0x85 || b[i + 1] == 0xa0) {
        return 2;
    }
    if n - i > 2 {
        let d = b[i + 1];
        let e = b[i + 2];
        if (c == 0xe1 && d == 0x9a && e == 0x80) || (c == 0xe2 && d == 0x80 && ((0x80 <= e && e
            <= 0x8a) || e == 0xa8 || e == 0xa9 || e == 0xaf)) || (c == 0xe2 && d == 0x81 && e
            == 0x9f) || (c == 0xe3 && d == 0x80 && e == 0x80) {
            return 3;
        }
    }
    0
}

/// Byte length of the whitespace character ending at `j` (0 if none).
pub fn whitespace_len_before(b: &[u8], j: usize) -> (r: usize)
    ensures
        r == ws_len_before(b@, j as int),
{
    if j == 0 || j > b.len() {
        return 0;
    }
    if whitespace_len_at(b, j - 1) == 1 {
        return 1;
    }
    if j >= 2 && whitespace_len_at(b, j - 2) == 2 {
        return 2;
    }
    if j >= 3 && whitespace_len_at(b, j - 3) == 3 {
        return 3;
    }
    0
}

/// Skips whitespace characters starting at byte `i`.
pub fn skip_unicode_whitespace(b: &[u8], i: usize) -> (r: usize)
    requires
        i <= b@.len(),
    ensures
        r == ws_end(b@, i as int),
{
    let mut cursor = i;
    while cursor < b.len() && whitespace_len_at(b, cursor) > 0
        invariant
            i <= cursor <= b@.len(),
            ws_end(b@, cursor as int) == ws_end(b@, i as int),
        decreases b@.len() - cursor,
    {
        let w = whitespace_len_at(b, cursor);
        cursor = cursor + w;
    }
    cursor
}

/// Returns where the trailing whitespace run ending at byte `j` begins.
pub fn trailing_whitespace_start(b: &[u8], j: usize) -> (r: usize)
    requires
        j <= b@.len(),
    ensures
        r == ws_start_before(b@, j as int),
{
    let mut cursor = j;
    while cursor > 0 && whitespace_len_before(b, cursor) > 0
        invariant
            cursor <= j <= b@.len(),
            ws_start_before(b@, cursor as int) == ws_start_before(b@, j as int),
        decreases cursor,
    {
        let w = whitespace_len_before(b, cursor);
        cursor = cursor - w;
    }
    cursor
}

/// Returns whether every character of `s` is Unicode whitespace.
pub fn is_blank(s: &str) -> (r: bool)
    ensures
        r == blank(bytes_of(s)),
{
    let b = s.as_bytes();
    skip_unicode_whitespace(b, 0) == b.len()
}

/// A half-open UTF-8 byte range in a source text.
#[derive(Debug, Clone, Copy, PartialEq, Eq, Structural, Ord, Hash, Default)]
pub struct TextRange {
    pub start: usize,
    pub end: usize,
}

impl PartialOrd for TextRange {
    fn partial_cmp(&self, other: &Self) -> (r: Option<Ordering>) {
        if self.start < other.start || (self.start == other.start && self.end < other.end) {
            Some(Ordering::Less)
        } else if self.start == other.start && self.end == other.end {
            Some(Ordering::Equal)
        } else {
            Some(Ordering::Greater)
        }
    }
}

impl PartialOrdSpecImpl for TextRange {
    open spec fn obeys_partial_cmp_spec() -> bool {
        true
    }

    open spec fn partial_cmp_spec(&self, other: &Self) -> Option<Ordering> {
        if self.start < other.start || (self.start == other.start && self.end < other.end) {
            Some(Ordering::Less)
        } else if self.start == other.start && self.end == other.end {
            Some(Ordering::Equal)
        } else {
            Some(Ordering::Greater)
        }
    }
}

/// Ranges order by their start, then by their end.
pub proof fn lemma_range_order(a: TextRange, b: TextRange)
    ensures
        a.is_lt(&b) <==> (a.start < b.start || (a.start == b.start && a.end < b.end)),
        a.is_le(&b) <==> (a.start < b.start || (a.start == b.start && a.end <= b.end)),
{
}

impl TextRange {
    /// The range is ordered, within `b`, and both ends are character boundaries.
    pub open spec fn valid_for(self, b: Seq<u8>) -> bool {
        &&& self.start <= self.end <= b.len()
        &&& boundary(b, self.start as int)
        &&& boundary(b, self.end as int)
    }

    /// Length in bytes; reversed ranges count as empty.
    pub open spec fn spec_len(self) -> nat {
        if self.start <= self.end {
            (self.end - self.start) as nat
        } else {
            0
        }
    }

    /// Creates a half-open `start..end` byte range.
    pub fn new(start: usize, end: usize) -> (r: Self)
        ensures
            r.start == start,
            r.end == end,
    {
        TextRange { start, end }
    }

    /// Creates a zero-width range at `offset`.
    pub fn empty(offset: usize) -> (r: Self)
        ensures
            r.start == offset,
            r.end == offset,
    {
        TextRange { start: offset, end: offset }
    }

    /// Returns the range length, saturating malformed reversed ranges to zero.
    pub fn len(self) -> (r: usize)
        ensures
            r == self.spec_len(),
    {
        if self.end >= self.start {
            self.end - self.start
        } else {
            0
        }
    }

    /// Returns whether both endpoints are equal.
    pub fn is_empty(self) -> (r: bool)
        ensures
            r == (self.start == self.end),
    {
        self.start == self.end
    }

    /// Checks ordering, bounds, and UTF-8 character boundaries.
    pub fn is_valid_for(self, source: &str) -> (r: bool)
        ensures
            r == self.valid_for(bytes_of(source)),
    {
        proof {
            lemma_boundary(bytes_of(source), self.start as int);
            lemma_boundary(bytes_of(source), self.end as int);
        }
        self.start <= self.end && self.end <= str_len(source) && source.is_char_boundary(self.start)
            && source.is_char_boundary(self.end)
    }

    /// Returns the covered substring when the range is valid.
    pub fn slice<'a>(self, source: &'a str) -> (r: Option<&'a str>)
        ensures
            r is Some <==> self.valid_for(bytes_of(source)),
            r matches Some(t) ==> bytes_of(t) == bytes_of(source).subrange(
                self.start as int,
                self.end as int,
            ),
    {
        if self.is_valid_for(source) {
            Some(str_slice(source, self.start, self.end))
        } else {
            None
        }
    }

    /// Returns whether this range fully contains `other`.
    pub fn contains(self, other: Self) -> (r: bool)
        ensures
            r == (self.start <= other.start && other.end <= self.end),
    {
        self.start <= other.start && other.end <= self.end
    }

    /// The non-empty overlap of two ranges, if any.
    pub open spec fn spec_intersection(self, other: Self) -> Option<Self> {
        let start = if self.start >= other.start {
            self.start
        } else {
            other.start
        };
        let end = if self.end <= other.end {
            self.end
        } else {
            other.end
        };
        if start < end {
            Some(TextRange { start, end })
        } else {
            None
        }
    }

    /// Returns the non-empty overlap of two ranges.
    pub fn intersection(self, other: Self) -> (r: Option<Self>)
        ensures
            r == self.spec_intersection(other),
    {
        let start = if self.start >= other.start {
            self.start
        } else {
            other.start
        };
        let end = if self.end <= other.end {
            self.end
        } else {
            other.end
        };
        if start < end {
            Some(TextRange { start, end })
        } else {
            None
        }
    }
}

} // verus!
