//! An ordered map from text keys to text values.
//!
//! Entries are kept in increasing key order with each key once, so two maps
//! with the same contents compare equal and list their entries in the same
//! order whatever order they were filled in.
use crate::expression::chars_of;
use vstd::prelude::*;

verus! {

/// Code-point lexicographic order of texts; UTF-8 encoding preserves it, so
/// it is the order `String` compares in.
pub open spec fn text_less(a: Seq<char>, b: Seq<char>) -> bool
    decreases a.len(),
{
    if b.len() == 0 {
        false
    } else if a.len() == 0 {
        true
    } else if a[0] != b[0] {
        a[0] < b[0]
    } else {
        text_less(a.drop_first(), b.drop_first())
    }
}

/// No text is below itself.
pub proof fn lemma_text_less_irreflexive(a: Seq<char>)
    ensures
        !text_less(a, a),
    decreases a.len(),
{
    if a.len() > 0 {
        lemma_text_less_irreflexive(a.drop_first());
    }
}

/// The order is transitive.
pub proof fn lemma_text_less_transitive(a: Seq<char>, b: Seq<char>, c: Seq<char>)
    requires
        text_less(a, b),
        text_less(b, c),
    ensures
        text_less(a, c),
    decreases a.len(),
{
    if a.len() > 0 && b.len() > 0 && c.len() > 0 && a[0] == b[0] && b[0] == c[0] {
        lemma_text_less_transitive(a.drop_first(), b.drop_first(), c.drop_first());
    }
}

/// Two distinct texts are ordered one way or the other.
pub proof fn lemma_text_less_total(a: Seq<char>, b: Seq<char>)
    requires
        a != b,
    ensures
        text_less(a, b) || text_less(b, a),
    decreases a.len(),
{
    if a.len() > 0 && b.len() > 0 && a[0] == b[0] {
        if a.drop_first() == b.drop_first() {
            assert(a =~= seq![a[0]] + a.drop_first());
            assert(b =~= seq![b[0]] + b.drop_first());
        }
        lemma_text_less_total(a.drop_first(), b.drop_first());
    } else if a.len() == 0 && b.len() == 0 {
        assert(a =~= b);
    } else if a.len() > 0 && b.len() > 0 {
        assert(a[0] != b[0]);
    }
}

/// Compares two texts in [`text_less`] order.
pub fn text_before(a: &str, b: &str) -> (r: bool)
    ensures
        r == text_less(a@, b@),
{
    let x = chars_of(a);
    let y = chars_of(b);
    let mut k: usize = 0;
    proof {
        assert(a@.skip(0) =~= a@);
        assert(b@.skip(0) =~= b@);
    }
    while k < x.len() && k < y.len()
        invariant
            x@ == a@,
            y@ == b@,
            k <= x@.len(),
            k <= y@.len(),
            text_less(a@, b@) == text_less(a@.skip(k as int), b@.skip(k as int)),
        decreases x@.len() - k,
    {
        let c = x[k];
        let d = y[k];
        proof {
            assert(a@.skip(k as int)[0] == c);
            assert(b@.skip(k as int)[0] == d);
            assert(a@.skip(k as int).drop_first() =~= a@.skip(k + 1));
            assert(b@.skip(k as int).drop_first() =~= b@.skip(k + 1));
        }
        if c != d {
            return c < d;
        }
        k = k + 1;
    }
    k == x.len() && k < y.len()
}

/// Keys strictly increase along the entries.
pub open spec fn keys_increasing(e: Seq<(String, String)>) -> bool {
    forall|i: int, j: int| 0 <= i < j < e.len() ==> text_less(#[trigger] e[i].0@, #[trigger] e[j].0@)
}

/// An entry whose key is `k`, where there is one.
pub open spec fn entry_index(e: Seq<(String, String)>, k: Seq<char>) -> int {
    choose|i: int| 0 <= i < e.len() && #[trigger] e[i].0@ == k
}

/// The map the entries describe: each key to the value beside it.
pub open spec fn entries_map(e: Seq<(String, String)>) -> Map<Seq<char>, Seq<char>> {
    Map::new(
        |k: Seq<char>| exists|i: int| 0 <= i < e.len() && #[trigger] e[i].0@ == k,
        |k: Seq<char>| e[entry_index(e, k)].1@,
    )
}

/// In increasing entries, the map sends each entry's key to its value.
proof fn lemma_entry_in_map(e: Seq<(String, String)>, i: int)
    requires
        keys_increasing(e),
        0 <= i < e.len(),
    ensures
        entries_map(e).contains_key(e[i].0@),
        entries_map(e)[e[i].0@] == e[i].1@,
{
    let k = e[i].0@;
    assert(e[i].0@ == k);
    let j = entry_index(e, k);
    if j != i {
        lemma_text_less_irreflexive(k);
        if j < i {
            assert(text_less(e[j].0@, e[i].0@));
        } else {
            assert(text_less(e[i].0@, e[j].0@));
        }
    }
}

/// A map from text keys to text values, ordered by key.
#[derive(Debug, PartialEq, Eq, Hash)]
pub struct StringMap {
    entries: Vec<(String, String)>,
}

impl StringMap {
    #[verifier::type_invariant]
    spec fn ordered(self) -> bool {
        keys_increasing(self.entries@)
    }

    /// The entries in key order.
    pub closed spec fn entry_seq(self) -> Seq<(String, String)> {
        self.entries@
    }

    /// The contents as a map of texts.
    pub open spec fn spec_map(self) -> Map<Seq<char>, Seq<char>> {
        entries_map(self.entry_seq())
    }

    /// The value stored under `key`, if any.
    pub open spec fn value(self, key: Seq<char>) -> Option<Seq<char>> {
        if self.spec_map().contains_key(key) {
            Some(self.spec_map()[key])
        } else {
            None
        }
    }

    /// Creates an empty map.
    pub fn new() -> (r: Self)
        ensures
            r.entry_seq().len() == 0,
            r.spec_map() == Map::<Seq<char>, Seq<char>>::empty(),
    {
        let r = StringMap { entries: Vec::new() };
        proof {
            assert(r.spec_map() =~= Map::<Seq<char>, Seq<char>>::empty());
        }
        r
    }

    /// Stores `value` under `key`, replacing an earlier value.
    pub fn insert(&mut self, key: String, value: String)
        ensures
            final(self).spec_map() == old(self).spec_map().insert(key@, value@),
    {
        proof {
            use_type_invariant(&*self);
        }
        let ghost e = self.entries@;
        let n = self.entries.len();
        let mut p: usize = 0;
        while p < n && text_before(self.entries[p].0.as_str(), key.as_str())
            invariant
                n == e.len(),
                e == self.entries@,
                keys_increasing(e),
                p <= n,
                forall|q: int| 0 <= q < p ==> text_less(#[trigger] e[q].0@, key@),
            decreases n - p,
        {
            p = p + 1;
        }
        if p < n && self.entries[p].0 == key {
            let ghost f = e.update(p as int, (key, value));
            proof {
                assert forall|i: int, j: int| 0 <= i < j < f.len() implies text_less(#[trigger] f[i].0@, #[trigger] f[j].0@) by {
                    assert(text_less(e[i].0@, e[j].0@));
                }
            }
            let mut entries = Vec::new();
            std::mem::swap(&mut entries, &mut self.entries);
            entries.set(p, (key, value));
            assert(entries@ =~= f);
            self.entries = entries;
            proof {
                self.lemma_map_after(e, p as int);
            }
        } else {
            let ghost f = e.insert(p as int, (key, value));
            proof {
                if p < n {
                    assert(!text_less(e[p as int].0@, key@));
                    assert(e[p as int].0@ != key@);
                    lemma_text_less_total(e[p as int].0@, key@);
                }
                assert forall|q: int| 0 <= q < e.len() implies #[trigger] e[q].0@ != key@ by {
                    if q < p {
                        lemma_text_less_irreflexive(key@);
                    } else {
                        lemma_text_less_irreflexive(key@);
                        if q > p {
                            assert(text_less(e[p as int].0@, e[q].0@));
                            lemma_text_less_transitive(key@, e[p as int].0@, e[q].0@);
                        }
                    }
                }
                assert forall|i: int, j: int| 0 <= i < j < f.len() implies text_less(#[trigger] f[i].0@, #[trigger] f[j].0@) by {
                    if j < p {
                        assert(text_less(e[i].0@, e[j].0@));
                    } else if j == p {
                        assert(text_less(e[i].0@, key@));
                    } else if i < p {
                        assert(text_less(e[i].0@, key@));
                        assert(text_less(key@, e[p as int].0@));
                        if j - 1 > p {
                            assert(text_less(e[p as int].0@, e[j - 1].0@));
                            lemma_text_less_transitive(key@, e[p as int].0@, e[j - 1].0@);
                        }
                        lemma_text_less_transitive(e[i].0@, key@, e[j - 1].0@);
                    } else if i == p {
                        if j - 1 > p {
                            assert(text_less(e[p as int].0@, e[j - 1].0@));
                            lemma_text_less_transitive(key@, e[p as int].0@, e[j - 1].0@);
                        }
                    } else {
                        assert(text_less(e[i - 1].0@, e[j - 1].0@));
                    }
                }
            }
            let mut entries = Vec::new();
            std::mem::swap(&mut entries, &mut self.entries);
            entries.insert(p, (key, value));
            assert(entries@ =~= f);
            self.entries = entries;
            proof {
                self.lemma_map_after(e, p as int);
            }
        }
    }

    /// After an insertion the map changed at the inserted key only.
    proof fn lemma_map_after(self, e: Seq<(String, String)>, p: int)
        requires
            keys_increasing(e),
            keys_increasing(self.entries@),
            0 <= p < self.entries@.len(),
            self.entries@ == e.update(p, self.entries@[p]) && p < e.len() && e[p].0@ == self.entries@[p].0@
                || self.entries@ == e.insert(p, self.entries@[p]) && p <= e.len() && forall|q: int|
                0 <= q < e.len() ==> #[trigger] e[q].0@ != self.entries@[p].0@,
        ensures
            entries_map(self.entries@) == entries_map(e).insert(self.entries@[p].0@, self.entries@[p].1@),
    {
        let f = self.entries@;
        let key = f[p].0@;
        let updated = f == e.update(p, f[p]) && p < e.len() && e[p].0@ == key;
        lemma_entry_in_map(f, p);
        let g = entries_map(e).insert(key, f[p].1@);
        assert forall|k: Seq<char>| k != key implies (#[trigger] entries_map(f).contains_key(k) == g.contains_key(k))
            && (entries_map(f).contains_key(k) ==> entries_map(f)[k] == g[k]) by {
            if entries_map(e).contains_key(k) {
                let i = entry_index(e, k);
                lemma_entry_in_map(e, i);
                let fi = if updated {
                    i
                } else if i < p {
                    i
                } else {
                    i + 1
                };
                assert(f[fi] == e[i]);
                lemma_entry_in_map(f, fi);
            }
            if entries_map(f).contains_key(k) {
                let i = entry_index(f, k);
                assert(i != p);
                let ei = if updated {
                    i
                } else if i < p {
                    i
                } else {
                    i - 1
                };
                assert(e[ei] == f[i]);
            }
        }
        assert forall|k: Seq<char>| #[trigger] entries_map(f).contains_key(k) == g.contains_key(k) by {
            if k != key {
                assert(entries_map(f).contains_key(k) == g.contains_key(k));
            }
        }
        assert forall|k: Seq<char>| #[trigger] entries_map(f).contains_key(k) implies entries_map(f)[k] == g[k] by {
            if k != key {
                assert(entries_map(f).contains_key(k) == g.contains_key(k));
            }
        }
        assert(entries_map(f) =~= g);
    }

    /// The value stored under `key`.
    pub fn get(&self, key: &str) -> (r: Option<&str>)
        ensures
            match r {
                Some(v) => self.value(key@) == Some(v@),
                None => self.value(key@) is None,
            },
    {
        proof {
            use_type_invariant(self);
        }
        let mut k: usize = 0;
        while k < self.entries.len()
            invariant
                keys_increasing(self.entries@),
                k <= self.entries@.len(),
                forall|q: int| 0 <= q < k ==> #[trigger] self.entries@[q].0@ != key@,
            decreases self.entries@.len() - k,
        {
            if crate::function::same_text(self.entries[k].0.as_str(), key) {
                proof {
                    lemma_entry_in_map(self.entries@, k as int);
                }
                return Some(self.entries[k].1.as_str());
            }
            k = k + 1;
        }
        None
    }

    /// The number of entries.
    pub fn len(&self) -> (r: usize)
        ensures
            r == self.entry_seq().len(),
    {
        self.entries.len()
    }

    /// Whether the map has no entry.
    pub fn is_empty(&self) -> (r: bool)
        ensures
            r == (self.entry_seq().len() == 0),
    {
        self.entries.len() == 0
    }

    /// The entries in increasing key order.
    pub fn entries(&self) -> (r: &[(String, String)])
        ensures
            r@ == self.entry_seq(),
    {
        self.entries.as_slice()
    }
}

impl Default for StringMap {
    fn default() -> (r: Self)
        ensures
            r.spec_map() == Map::<Seq<char>, Seq<char>>::empty(),
    {
        StringMap::new()
    }
}

impl Clone for StringMap {
    fn clone(&self) -> (r: Self)
        ensures
            r.entry_seq() == self.entry_seq(),
    {
        proof {
            use_type_invariant(self);
        }
        let mut entries: Vec<(String, String)> = Vec::new();
        let mut k: usize = 0;
        while k < self.entries.len()
            invariant
                k <= self.entries@.len(),
                entries@ == self.entries@.take(k as int),
            decreases self.entries@.len() - k,
        {
            let key = self.entries[k].0.clone();
            let value = self.entries[k].1.clone();
            entries.push((key, value));
            proof {
                assert(self.entries@.take(k + 1) =~= self.entries@.take(k as int).push(self.entries@[k as int]));
            }
            k = k + 1;
        }
        proof {
            assert(self.entries@.take(self.entries@.len() as int) =~= self.entries@);
        }
        StringMap { entries }
    }
}

} // verus!
