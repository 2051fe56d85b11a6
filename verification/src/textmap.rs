//! A map from texts to values, kept in code point order of its keys.

use vstd::prelude::*;

use crate::text::{same_text, text_before};
#[allow(unused_imports)]
use crate::text::{text_lt, text_lt_irreflexive, text_lt_total, text_lt_transitive};

verus! {

pub open spec fn keys<V>(e: Seq<(Seq<char>, V)>) -> Seq<Seq<char>> {
    e.map_values(|p: (Seq<char>, V)| p.0)
}

/// Every key comes before every later one.
pub open spec fn ascending(ks: Seq<Seq<char>>) -> bool {
    forall|i: int, j: int| 0 <= i < j < ks.len() ==> text_lt(#[trigger] ks[i], #[trigger] ks[j])
}

/// How many keys at the front come before `key`: its place in ascending keys.
pub open spec fn slot(ks: Seq<Seq<char>>, key: Seq<char>) -> int
    decreases ks.len(),
{
    if ks.len() == 0 || !text_lt(ks[0], key) {
        0
    } else {
        1 + slot(ks.drop_first(), key)
    }
}

/// Whether the key stands at its place.
pub open spec fn has_key<V>(e: Seq<(Seq<char>, V)>, key: Seq<char>) -> bool {
    let i = slot(keys(e), key);
    i < e.len() && e[i].0 == key
}

/// The value under a key.
pub open spec fn lookup<V>(e: Seq<(Seq<char>, V)>, key: Seq<char>) -> Option<V> {
    if has_key(e, key) {
        Some(e[slot(keys(e), key)].1)
    } else {
        None
    }
}

/// The entries with the value under the key set or replaced.
pub open spec fn put<V>(e: Seq<(Seq<char>, V)>, key: Seq<char>, value: V) -> Seq<(Seq<char>, V)> {
    let i = slot(keys(e), key);
    if has_key(e, key) {
        e.update(i, (key, value))
    } else {
        e.insert(i, (key, value))
    }
}

/// The entries without the key.
pub open spec fn without<V>(e: Seq<(Seq<char>, V)>, key: Seq<char>) -> Seq<(Seq<char>, V)> {
    if has_key(e, key) {
        e.remove(slot(keys(e), key))
    } else {
        e
    }
}

pub proof fn lemma_slot(ks: Seq<Seq<char>>, key: Seq<char>)
    ensures
        0 <= slot(ks, key) <= ks.len(),
        forall|j: int| 0 <= j < slot(ks, key) ==> text_lt(#[trigger] ks[j], key),
        slot(ks, key) < ks.len() ==> !text_lt(ks[slot(ks, key)], key),
    decreases ks.len(),
{
    if ks.len() > 0 && text_lt(ks[0], key) {
        let rest = ks.drop_first();
        lemma_slot(rest, key);
        assert forall|j: int| 0 <= j < slot(ks, key) implies text_lt(#[trigger] ks[j], key) by {
            if j > 0 {
                assert(rest[j - 1] == ks[j]);
            }
        }
    }
}

/// The place of a key is the one place that has the smaller keys in front of it.
pub proof fn lemma_slot_is(ks: Seq<Seq<char>>, key: Seq<char>, i: int)
    requires
        0 <= i <= ks.len(),
        forall|j: int| 0 <= j < i ==> text_lt(#[trigger] ks[j], key),
        i < ks.len() ==> !text_lt(ks[i], key),
    ensures
        slot(ks, key) == i,
{
    lemma_slot(ks, key);
    if slot(ks, key) < i {
        assert(text_lt(ks[slot(ks, key)], key));
    }
}

/// In ascending keys a key that occurs stands at its place.
pub proof fn lemma_slot_of_present(ks: Seq<Seq<char>>, i: int)
    requires
        ascending(ks),
        0 <= i < ks.len(),
    ensures
        slot(ks, ks[i]) == i,
{
    text_lt_irreflexive(ks[i]);
    lemma_slot_is(ks, ks[i], i);
}

/// The value under a key is the value of the entry with that key.
pub proof fn lemma_lookup<V>(e: Seq<(Seq<char>, V)>, key: Seq<char>, value: V)
    requires
        ascending(keys(e)),
    ensures
        lookup(e, key) == Some(value) <==> e.contains((key, value)),
{
    lemma_slot(keys(e), key);
    if e.contains((key, value)) {
        let i = choose|i: int| 0 <= i < e.len() && e[i] == (key, value);
        assert(keys(e)[i] == key);
        lemma_slot_of_present(keys(e), i);
    }
}

pub proof fn lemma_put<V>(e: Seq<(Seq<char>, V)>, key: Seq<char>, value: V)
    requires
        ascending(keys(e)),
    ensures
        ascending(keys(put(e, key, value))),
        lookup(put(e, key, value), key) == Some(value),
        forall|other: Seq<char>|
            other != key ==> #[trigger] lookup(put(e, key, value), other) == lookup(e, other),
        put(e, key, value).len() == e.len() + if has_key(e, key) { 0int } else { 1int },
{
    let ks = keys(e);
    let i = slot(ks, key);
    let after = put(e, key, value);
    let ks2 = keys(after);
    lemma_slot(ks, key);
    if has_key(e, key) {
        assert(ks2 =~= ks);
        assert(ks[i] == e[i].0);
    } else {
        assert(ks2 =~= ks.insert(i, key));
        assert forall|a: int, b: int| 0 <= a < b < ks2.len() implies text_lt(
            #[trigger] ks2[a],
            #[trigger] ks2[b],
        ) by {
            if a < i && b == i {
            } else if a < i && b > i {
                assert(ks2[b] == ks[b - 1]);
                assert(ks2[a] == ks[a]);
            } else if a == i {
                assert(ks2[b] == ks[b - 1]);
                assert(ks[i] == e[i].0);
                text_lt_total(ks[i], key);
                if b - 1 > i {
                    text_lt_transitive(key, ks[i], ks[b - 1]);
                }
            } else if a > i {
                assert(ks2[a] == ks[a - 1]);
                assert(ks2[b] == ks[b - 1]);
            }
        }
    }
    assert(ks2[i] == key);
    lemma_slot_of_present(ks2, i);
    assert forall|other: Seq<char>| other != key implies #[trigger] lookup(after, other) == lookup(
        e,
        other,
    ) by {
        if let Some(v) = lookup(e, other) {
            lemma_lookup(e, other, v);
            let k = choose|k: int| 0 <= k < e.len() && e[k] == (other, v);
            if has_key(e, key) {
                assert(after[k] == (other, v));
            } else if k < i {
                assert(after[k] == (other, v));
            } else {
                assert(after[k + 1] == (other, v));
            }
            lemma_lookup(after, other, v);
        }
        if let Some(v) = lookup(after, other) {
            lemma_lookup(after, other, v);
            let k = choose|k: int| 0 <= k < after.len() && after[k] == (other, v);
            if has_key(e, key) || k < i {
                assert(e[k] == (other, v));
            } else {
                assert(e[k - 1] == (other, v));
            }
            lemma_lookup(e, other, v);
        }
    }
}

pub proof fn lemma_without<V>(e: Seq<(Seq<char>, V)>, key: Seq<char>)
    requires
        ascending(keys(e)),
    ensures
        ascending(keys(without(e, key))),
        lookup(without(e, key), key) is None,
        forall|other: Seq<char>|
            other != key ==> #[trigger] lookup(without(e, key), other) == lookup(e, other),
{
    let ks = keys(e);
    let i = slot(ks, key);
    let after = without(e, key);
    lemma_slot(ks, key);
    if has_key(e, key) {
        assert(keys(after) =~= ks.remove(i));
        if let Some(v) = lookup(after, key) {
            lemma_lookup(after, key, v);
            let k = choose|k: int| 0 <= k < after.len() && after[k] == (key, v);
            let k2 = if k < i { k } else { k + 1 };
            assert(e[k2] == (key, v));
            assert(ks[k2] == key && ks[i] == key);
            text_lt_irreflexive(key);
        }
    }
    assert forall|other: Seq<char>| other != key implies #[trigger] lookup(after, other) == lookup(
        e,
        other,
    ) by {
        if has_key(e, key) {
            if let Some(v) = lookup(e, other) {
                lemma_lookup(e, other, v);
                let k = choose|k: int| 0 <= k < e.len() && e[k] == (other, v);
                if k < i {
                    assert(after[k] == (other, v));
                } else {
                    assert(after[k - 1] == (other, v));
                }
                lemma_lookup(after, other, v);
            }
            if let Some(v) = lookup(after, other) {
                lemma_lookup(after, other, v);
                let k = choose|k: int| 0 <= k < after.len() && after[k] == (other, v);
                let k2 = if k < i { k } else { k + 1 };
                assert(e[k2] == (other, v));
                lemma_lookup(e, other, v);
            }
        }
    }
}

/// Putting an entry behind all others.
pub proof fn lemma_put_last<V>(e: Seq<(Seq<char>, V)>, key: Seq<char>, value: V)
    requires
        forall|i: int| 0 <= i < e.len() ==> text_lt(#[trigger] e[i].0, key),
    ensures
        put(e, key, value) == e.push((key, value)),
{
    let ks = keys(e);
    assert forall|j: int| 0 <= j < e.len() implies text_lt(#[trigger] ks[j], key) by {
        assert(ks[j] == e[j].0);
    }
    lemma_slot_is(ks, key, e.len() as int);
    assert(put(e, key, value) =~= e.push((key, value)));
}

/// Two maps with the same value under every key are the same.
pub proof fn lemma_same_lookup<V>(a: Seq<(Seq<char>, V)>, b: Seq<(Seq<char>, V)>)
    requires
        ascending(keys(a)),
        ascending(keys(b)),
        forall|k: Seq<char>| #[trigger] lookup(a, k) == lookup(b, k),
    ensures
        a == b,
    decreases a.len(),
{
    if a.len() == 0 {
        if b.len() > 0 {
            lemma_lookup(b, b[0].0, b[0].1);
            assert(b.contains((b[0].0, b[0].1)));
            assert(lookup(a, b[0].0) is None);
        }
        assert(a =~= b);
    } else {
        let (ka, va) = a.last();
        lemma_lookup(a, ka, va);
        assert(a.contains((ka, va)));
        lemma_lookup(b, ka, va);
        let j = choose|j: int| 0 <= j < b.len() && b[j] == (ka, va);
        if j < b.len() - 1 {
            let (kb, vb) = b.last();
            lemma_lookup(b, kb, vb);
            assert(b.contains((kb, vb)));
            lemma_lookup(a, kb, vb);
            let i = choose|i: int| 0 <= i < a.len() && a[i] == (kb, vb);
            assert(keys(b)[j] == ka && keys(b)[b.len() - 1] == kb);
            assert(text_lt(ka, kb));
            assert(keys(a)[i] == kb && keys(a)[a.len() - 1] == ka);
            text_lt_irreflexive(ka);
            if i < a.len() - 1 {
                text_lt_total(ka, kb);
            }
        }
        let a2 = a.drop_last();
        let b2 = b.drop_last();
        assert(keys(a2) =~= keys(a).drop_last());
        assert(keys(b2) =~= keys(b).drop_last());
        assert(keys(a)[a.len() - 1] == ka);
        assert(keys(b)[b.len() - 1] == ka);
        assert forall|k: Seq<char>| #[trigger] lookup(a2, k) == lookup(b2, k) by {
            assert(lookup(a, k) == lookup(b, k));
            if let Some(v) = lookup(a2, k) {
                lemma_lookup(a2, k, v);
                let i = choose|i: int| 0 <= i < a2.len() && a2[i] == (k, v);
                assert(a[i] == (k, v));
                assert(keys(a)[i] == k);
                lemma_lookup(a, k, v);
                lemma_lookup(b, k, v);
                let m = choose|m: int| 0 <= m < b.len() && b[m] == (k, v);
                text_lt_irreflexive(k);
                assert(m < b.len() - 1);
                assert(b2[m] == (k, v));
                lemma_lookup(b2, k, v);
            }
            if let Some(v) = lookup(b2, k) {
                lemma_lookup(b2, k, v);
                let i = choose|i: int| 0 <= i < b2.len() && b2[i] == (k, v);
                assert(b[i] == (k, v));
                assert(keys(b)[i] == k);
                lemma_lookup(b, k, v);
                lemma_lookup(a, k, v);
                let m = choose|m: int| 0 <= m < a.len() && a[m] == (k, v);
                text_lt_irreflexive(k);
                assert(m < a.len() - 1);
                assert(a2[m] == (k, v));
                lemma_lookup(a2, k, v);
            }
        }
        lemma_same_lookup(a2, b2);
        assert(a =~= a2.push((ka, va)));
        assert(b =~= b2.push((ka, va)));
    }
}

/// The entries with a function applied to each value.
pub open spec fn mapped<V, W>(e: Seq<(Seq<char>, V)>, f: spec_fn(V) -> W) -> Seq<(Seq<char>, W)> {
    e.map_values(|p: (Seq<char>, V)| (p.0, f(p.1)))
}

/// Looking up, setting and removing go through a function on the values.
pub proof fn lemma_mapped<V, W>(
    e: Seq<(Seq<char>, V)>,
    f: spec_fn(V) -> W,
    key: Seq<char>,
    value: V,
)
    ensures
        keys(mapped(e, f)) == keys(e),
        has_key(mapped(e, f), key) == has_key(e, key),
        lookup(mapped(e, f), key) == match lookup(e, key) {
            Some(v) => Some(f(v)),
            None => None,
        },
        mapped(put(e, key, value), f) == put(mapped(e, f), key, f(value)),
        mapped(without(e, key), f) == without(mapped(e, f), key),
{
    assert(keys(mapped(e, f)) =~= keys(e));
    lemma_slot(keys(e), key);
    assert(mapped(put(e, key, value), f) =~= put(mapped(e, f), key, f(value)));
    assert(mapped(without(e, key), f) =~= without(mapped(e, f), key));
}

// ---------------------------------------------------------------------------
// The map
// ---------------------------------------------------------------------------

/// A map from texts to values with its entries in order of the keys.
#[derive(Debug, PartialEq)]
pub struct TextMap<V> {
    pub(crate) entries: Vec<(String, V)>,
}

/// The entries with their keys as characters.
pub open spec fn entries_view<V>(e: Seq<(String, V)>) -> Seq<(Seq<char>, V)> {
    e.map_values(|p: (String, V)| (p.0@, p.1))
}

impl<V> View for TextMap<V> {
    type V = Seq<(Seq<char>, V)>;

    closed spec fn view(&self) -> Seq<(Seq<char>, V)> {
        entries_view(self.entries@)
    }
}

pub(crate) proof fn lemma_map_view<V>(m: TextMap<V>)
    ensures
        m@ == entries_view(m.entries@),
{
}

impl<V> TextMap<V> {
    /// The keys stand in order, and none of them twice.
    #[verifier::type_invariant]
    pub open spec fn wf(self) -> bool {
        ascending(keys(self@))
    }

    pub fn new() -> (r: Self)
        ensures
            r@ == Seq::<(Seq<char>, V)>::empty(),
    {
        let r = TextMap { entries: Vec::new() };
        proof {
            assert(r@ =~= Seq::empty());
        }
        r
    }

    /// A map of entries that already stand in order of their keys.
    pub fn from_entries(entries: Vec<(String, V)>) -> (r: Self)
        requires
            ascending(keys(entries_view(entries@))),
        ensures
            r@ == entries_view(entries@),
    {
        TextMap { entries }
    }

    pub fn len(&self) -> (r: usize)
        ensures
            r == self@.len(),
    {
        self.entries.len()
    }

    pub fn is_empty(&self) -> (r: bool)
        ensures
            r == (self@.len() == 0),
    {
        self.entries.len() == 0
    }

    /// The key of the `i`th entry.
    pub fn key_at(&self, i: usize) -> (r: &String)
        requires
            i < self@.len(),
        ensures
            r@ == self@[i as int].0,
    {
        &self.entries[i].0
    }

    /// The value of the `i`th entry.
    pub fn value_at(&self, i: usize) -> (r: &V)
        requires
            i < self@.len(),
        ensures
            *r == self@[i as int].1,
    {
        &self.entries[i].1
    }

    fn slot_of(&self, key: &str) -> (r: usize)
        ensures
            r == slot(keys(self@), key@),
            r <= self@.len(),
    {
        let ghost ks = keys(self@);
        let mut lo: usize = 0;
        let mut hi: usize = self.entries.len();
        proof {
            use_type_invariant(self);
        }
        while lo < hi
            invariant
                lo <= hi <= self.entries@.len(),
                self@.len() == self.entries@.len(),
                ks == keys(self@),
                ascending(ks),
                forall|j: int| 0 <= j < lo ==> text_lt(#[trigger] ks[j], key@),
                forall|j: int| hi <= j < ks.len() ==> !text_lt(#[trigger] ks[j], key@),
            decreases hi - lo,
        {
            let mid = lo + (hi - lo) / 2;
            assert(ks[mid as int] == self.entries@[mid as int].0@);
            if text_before(self.entries[mid].0.as_str(), key) {
                proof {
                    assert forall|j: int| 0 <= j < mid + 1 implies text_lt(
                        #[trigger] ks[j],
                        key@,
                    ) by {
                        if j < mid {
                            text_lt_transitive(ks[j], ks[mid as int], key@);
                        }
                    }
                }
                lo = mid + 1;
            } else {
                proof {
                    assert forall|j: int| mid <= j < ks.len() implies !text_lt(
                        #[trigger] ks[j],
                        key@,
                    ) by {
                        if j > mid && text_lt(ks[j], key@) {
                            text_lt_transitive(ks[mid as int], ks[j], key@);
                        }
                    }
                }
                hi = mid;
            }
        }
        proof {
            lemma_slot_is(ks, key@, lo as int);
        }
        lo
    }

    pub fn get(&self, key: &str) -> (r: Option<&V>)
        ensures
            match r {
                Some(v) => lookup(self@, key@) == Some(*v),
                None => lookup(self@, key@) is None,
            },
    {
        let i = self.slot_of(key);
        if i < self.entries.len() && same_text(self.entries[i].0.as_str(), key) {
            Some(&self.entries[i].1)
        } else {
            None
        }
    }

    pub fn contains_key(&self, key: &str) -> (r: bool)
        ensures
            r == has_key(self@, key@),
    {
        let i = self.slot_of(key);
        i < self.entries.len() && same_text(self.entries[i].0.as_str(), key)
    }

    /// Sets or replaces the value under a key.
    pub fn insert(&mut self, key: String, value: V)
        ensures
            final(self)@ == put(old(self)@, key@, value),
    {
        let i = self.slot_of(key.as_str());
        let ghost before = self@;
        proof {
            use_type_invariant(&*self);
            lemma_put(self@, key@, value);
        }
        let mut entries: Vec<(String, V)> = Vec::new();
        std::mem::swap(&mut entries, &mut self.entries);
        if i < entries.len() && same_text(entries[i].0.as_str(), key.as_str()) {
            entries.set(i, (key, value));
        } else {
            entries.insert(i, (key, value));
        }
        proof {
            assert(entries_view(entries@) =~= put(before, key@, value));
        }
        self.entries = entries;
    }

    /// Takes a key and its value out.
    pub fn remove(&mut self, key: &str) -> (r: Option<V>)
        ensures
            final(self)@ == without(old(self)@, key@),
            r == lookup(old(self)@, key@),
    {
        let i = self.slot_of(key);
        let ghost before = self@;
        proof {
            use_type_invariant(&*self);
            lemma_without(self@, key@);
        }
        if i < self.entries.len() && same_text(self.entries[i].0.as_str(), key) {
            let mut entries: Vec<(String, V)> = Vec::new();
            std::mem::swap(&mut entries, &mut self.entries);
            let (_, v) = entries.remove(i);
            proof {
                assert(entries_view(entries@) =~= without(before, key@));
            }
            self.entries = entries;
            Some(v)
        } else {
            None
        }
    }
}

} // verus!
