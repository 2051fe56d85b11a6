//! A stable order of items by a number and then by a text.

use vstd::prelude::*;

use crate::text::text_before;
#[allow(unused_imports)]
use crate::text::{text_lt, text_lt_total, text_lt_transitive};

verus! {

/// What an item is ordered by: a number first, then a text.
pub struct KeyView {
    pub rank: int,
    pub text: Seq<char>,
}

pub open spec fn key_lt(a: KeyView, b: KeyView) -> bool {
    a.rank < b.rank || (a.rank == b.rank && text_lt(a.text, b.text))
}

/// How many items at the front of an order do not come after the key.
pub open spec fn place(ks: Seq<KeyView>, order: Seq<int>, k: KeyView) -> int
    decreases order.len(),
{
    if order.len() == 0 || key_lt(k, ks[order[0]]) {
        0
    } else {
        1 + place(ks, order.drop_first(), k)
    }
}

/// The places of items in ascending order of their keys; items with equal keys keep their order.
pub open spec fn order_of(ks: Seq<KeyView>) -> Seq<int>
    decreases ks.len(),
{
    if ks.len() == 0 {
        Seq::empty()
    } else {
        let before = order_of(ks.drop_last());
        before.insert(place(ks, before, ks.last()), ks.len() - 1)
    }
}

/// Items taken in an order.
pub open spec fn in_order<T>(items: Seq<T>, order: Seq<int>) -> Seq<T> {
    order.map_values(|i: int| items[i])
}

/// One item comes before another: by the key, or by its place where the keys are equal.
pub open spec fn comes_before(ks: Seq<KeyView>, i: int, j: int) -> bool {
    key_lt(ks[i], ks[j]) || (ks[i] == ks[j] && i < j)
}

/// An order lists every place once, each item before those that it comes before.
pub open spec fn is_order(ks: Seq<KeyView>, order: Seq<int>) -> bool {
    &&& order.len() == ks.len()
    &&& forall|a: int| 0 <= a < order.len() ==> 0 <= #[trigger] order[a] < ks.len()
    &&& forall|i: int| 0 <= i < ks.len() ==> #[trigger] order.contains(i)
    &&& forall|a: int, b: int|
        0 <= a < b < order.len() ==> comes_before(ks, #[trigger] order[a], #[trigger] order[b])
}

pub proof fn lemma_place(ks: Seq<KeyView>, order: Seq<int>, k: KeyView)
    ensures
        0 <= place(ks, order, k) <= order.len(),
        forall|a: int| 0 <= a < place(ks, order, k) ==> !key_lt(k, ks[#[trigger] order[a]]),
        place(ks, order, k) < order.len() ==> key_lt(k, ks[order[place(ks, order, k)]]),
    decreases order.len(),
{
    if order.len() > 0 && !key_lt(k, ks[order[0]]) {
        let rest = order.drop_first();
        lemma_place(ks, rest, k);
        assert forall|a: int| 0 <= a < place(ks, order, k) implies !key_lt(
            k,
            ks[#[trigger] order[a]],
        ) by {
            if a > 0 {
                assert(rest[a - 1] == order[a]);
            }
        }
    }
}

pub proof fn lemma_place_is(ks: Seq<KeyView>, order: Seq<int>, k: KeyView, p: int)
    requires
        0 <= p <= order.len(),
        forall|a: int| 0 <= a < p ==> !key_lt(k, ks[#[trigger] order[a]]),
        p < order.len() ==> key_lt(k, ks[order[p]]),
    ensures
        place(ks, order, k) == p,
{
    lemma_place(ks, order, k);
    let q = place(ks, order, k);
    if q < p {
        assert(!key_lt(k, ks[order[q]]));
    }
    if p < q {
        assert(!key_lt(k, ks[order[p]]));
    }
}

pub proof fn lemma_key_total(a: KeyView, b: KeyView)
    ensures
        key_lt(a, b) || key_lt(b, a) || a == b,
{
    text_lt_total(a.text, b.text);
}

pub proof fn lemma_key_transitive(a: KeyView, b: KeyView, c: KeyView)
    requires
        key_lt(a, b),
        key_lt(b, c),
    ensures
        key_lt(a, c),
{
    if a.rank == b.rank && b.rank == c.rank {
        text_lt_transitive(a.text, b.text, c.text);
    }
}

proof fn lemma_place_same(ks: Seq<KeyView>, ks2: Seq<KeyView>, order: Seq<int>, k: KeyView)
    requires
        forall|a: int| 0 <= a < order.len() ==> ks[#[trigger] order[a]] == ks2[order[a]],
    ensures
        place(ks, order, k) == place(ks2, order, k),
    decreases order.len(),
{
    if order.len() > 0 {
        let rest = order.drop_first();
        assert forall|a: int| 0 <= a < rest.len() implies ks[#[trigger] rest[a]]
            == ks2[rest[a]] by {
            assert(rest[a] == order[a + 1]);
        }
        assert(ks[order[0]] == ks2[order[0]]);
        lemma_place_same(ks, ks2, rest, k);
    }
}

/// The order lists every item exactly once, in ascending order of the keys, and leaves items
/// with equal keys as they stood.
pub proof fn order_is_stable(ks: Seq<KeyView>)
    ensures
        is_order(ks, order_of(ks)),
    decreases ks.len(),
{
    if ks.len() > 0 {
        let d = ks.drop_last();
        let n = ks.len() - 1;
        let before = order_of(d);
        let k = ks.last();
        order_is_stable(d);
        lemma_place(ks, before, k);
        let p = place(ks, before, k);
        let after = before.insert(p, n);
        assert forall|a: int| 0 <= a < after.len() implies 0 <= #[trigger] after[a] < ks.len() by {
            if a < p {
                assert(after[a] == before[a]);
            } else if a > p {
                assert(after[a] == before[a - 1]);
            }
        }
        assert forall|i: int| 0 <= i < ks.len() implies #[trigger] after.contains(i) by {
            if i == n {
                assert(after[p] == n);
            } else {
                assert(before.contains(i));
                let a = choose|a: int| 0 <= a < before.len() && before[a] == i;
                if a < p {
                    assert(after[a] == i);
                } else {
                    assert(after[a + 1] == i);
                }
            }
        }
        assert forall|a: int, b: int| 0 <= a < b < after.len() implies comes_before(
            ks,
            #[trigger] after[a],
            #[trigger] after[b],
        ) by {
            if a < p && b == p {
                assert(after[a] == before[a]);
                lemma_key_total(ks[before[a]], k);
            } else if a == p && b > p {
                assert(after[b] == before[b - 1]);
                assert(key_lt(k, ks[before[p]]));
                if b - 1 > p {
                    assert(comes_before(d, before[p], before[b - 1]));
                    if key_lt(d[before[p]], d[before[b - 1]]) {
                        lemma_key_transitive(k, ks[before[p]], ks[before[b - 1]]);
                    }
                }
            } else {
                let x = if a < p {
                    a
                } else {
                    a - 1
                };
                let y = if b < p {
                    b
                } else {
                    b - 1
                };
                assert(after[a] == before[x]);
                assert(after[b] == before[y]);
                assert(comes_before(d, before[x], before[y]));
            }
        }
    }
}

#[derive(Debug, PartialEq)]
pub struct SortKey {
    pub rank: i128,
    pub text: String,
}

impl View for SortKey {
    type V = KeyView;

    open spec fn view(&self) -> KeyView {
        KeyView { rank: self.rank as int, text: self.text@ }
    }
}

pub open spec fn sort_keys_view(ks: Seq<SortKey>) -> Seq<KeyView> {
    ks.map_values(|k: SortKey| k@)
}

pub open spec fn places_view(order: Seq<usize>) -> Seq<int> {
    order.map_values(|i: usize| i as int)
}

fn before(a: &SortKey, b: &SortKey) -> (r: bool)
    ensures
        r == key_lt(a@, b@),
{
    a.rank < b.rank || (a.rank == b.rank && text_before(a.text.as_str(), b.text.as_str()))
}

/// The places of items in ascending order of their keys; items with equal keys keep their order.
pub fn sorted_order(ks: &Vec<SortKey>) -> (r: Vec<usize>)
    ensures
        places_view(r@) == order_of(sort_keys_view(ks@)),
        r@.len() == ks@.len(),
        forall|a: int| 0 <= a < r@.len() ==> #[trigger] r@[a] < ks@.len(),
{
    let n = ks.len();
    let ghost v = sort_keys_view(ks@);
    let mut out: Vec<usize> = Vec::new();
    let mut i: usize = 0;
    proof {
        assert(places_view(out@) =~= order_of(v.take(0)));
    }
    while i < n
        invariant
            i <= n,
            n == ks@.len(),
            v == sort_keys_view(ks@),
            out@.len() == i,
            places_view(out@) == order_of(v.take(i as int)),
            forall|a: int| 0 <= a < out@.len() ==> #[trigger] out@[a] < i,
        decreases n - i,
    {
        let ghost order = places_view(out@);
        let ghost t = v.take(i + 1);
        let mut p: usize = 0;
        while p < i && !before(&ks[i], &ks[out[p]])
            invariant
                p <= i < n,
                n == ks@.len(),
                v == sort_keys_view(ks@),
                out@.len() == i,
                order == places_view(out@),
                forall|a: int| 0 <= a < out@.len() ==> #[trigger] out@[a] < i,
                forall|a: int|
                    0 <= a < p ==> !key_lt(v[i as int], v[#[trigger] order[a]]),
            decreases i - p,
        {
            assert(order[p as int] == out@[p as int]);
            p += 1;
        }
        proof {
            assert(t.drop_last() =~= v.take(i as int));
            assert(t.last() == v[i as int]);
            if p < i {
                assert(order[p as int] == out@[p as int]);
            }
            assert forall|a: int| 0 <= a < order.len() implies v[#[trigger] order[a]]
                == t[order[a]] by {
                assert(order[a] == out@[a]);
            }
            lemma_place_is(v, order, v[i as int], p as int);
            lemma_place_same(v, t, order, v[i as int]);
        }
        let ghost old_out = out@;
        out.insert(p, i);
        proof {
            assert(places_view(out@) =~= order.insert(p as int, i as int));
            assert forall|a: int| 0 <= a < out@.len() implies #[trigger] out@[a] < i + 1 by {
                if a < p {
                    assert(out@[a] == old_out[a]);
                } else if a > p {
                    assert(out@[a] == old_out[a - 1]);
                }
            }
        }
        i += 1;
    }
    proof {
        assert(v.take(n as int) =~= v);
    }
    out
}

} // verus!
