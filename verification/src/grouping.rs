//! Grouping items by a text key, in order of the keys.

use vstd::prelude::*;

use crate::textmap::TextMap;
#[allow(unused_imports)]
use crate::json::opt_view;
#[allow(unused_imports)]
use crate::order::places_view;
#[allow(unused_imports)]
use crate::textmap::{
    ascending, keys, lemma_lookup, lemma_mapped, lemma_put, lemma_same_lookup, lemma_slot,
    lemma_without, lookup, mapped, put, slot, without,
};

verus! {

/// The places of items by key: under each key the places of the items that have it, in order. An
/// item without a key is in no group.
pub open spec fn grouped(ks: Seq<Option<Seq<char>>>) -> Seq<(Seq<char>, Seq<int>)>
    decreases ks.len(),
{
    if ks.len() == 0 {
        Seq::empty()
    } else {
        let before = grouped(ks.drop_last());
        match ks.last() {
            Some(k) => match lookup(before, k) {
                Some(g) => put(before, k, g.push(ks.len() - 1)),
                None => put(before, k, seq![ks.len() - 1]),
            },
            None => before,
        }
    }
}

/// The groups in order of their keys.
pub open spec fn groups_of(ks: Seq<Option<Seq<char>>>) -> Seq<Seq<int>> {
    grouped(ks).map_values(|p: (Seq<char>, Seq<int>)| p.1)
}

/// A group holds exactly the places with its key, in ascending order.
pub open spec fn holds_key(ks: Seq<Option<Seq<char>>>, g: Seq<int>, k: Seq<char>) -> bool {
    &&& g.len() > 0
    &&& forall|a: int|
        0 <= a < g.len() ==> 0 <= #[trigger] g[a] < ks.len() && ks[g[a]] == Some(k)
    &&& forall|a: int, b: int| 0 <= a < b < g.len() ==> #[trigger] g[a] < #[trigger] g[b]
    &&& forall|i: int| 0 <= i < ks.len() && #[trigger] ks[i] == Some(k) ==> g.contains(i)
}

proof fn lemma_grouped(ks: Seq<Option<Seq<char>>>, k: Seq<char>)
    ensures
        ascending(keys(grouped(ks))),
        match lookup(grouped(ks), k) {
            Some(g) => holds_key(ks, g, k),
            None => forall|i: int| 0 <= i < ks.len() ==> #[trigger] ks[i] != Some(k),
        },
    decreases ks.len(),
{
    if ks.len() > 0 {
        let d = ks.drop_last();
        let n = ks.len() - 1;
        let before = grouped(d);
        lemma_grouped(d, k);
        if let Some(last) = ks.last() {
            let g2 = match lookup(before, last) {
                Some(g) => g.push(n),
                None => seq![n],
            };
            lemma_put(before, last, g2);
            if last == k {
                match lookup(before, k) {
                    Some(g) => {
                        assert forall|i: int|
                            0 <= i < ks.len() && #[trigger] ks[i] == Some(k) implies g2.contains(
                            i,
                        ) by {
                            if i < n {
                                assert(d[i] == ks[i]);
                                assert(g.contains(i));
                                let a = choose|a: int| 0 <= a < g.len() && g[a] == i;
                                assert(g2[a] == i);
                            } else {
                                assert(g2[g2.len() - 1] == i);
                            }
                        }
                        assert forall|a: int| 0 <= a < g2.len() implies 0 <= #[trigger] g2[a]
                            < ks.len() && ks[g2[a]] == Some(k) by {
                            if a < g.len() {
                                assert(g2[a] == g[a]);
                                assert(d[g[a]] == ks[g[a]]);
                            }
                        }
                        assert forall|a: int, b: int| 0 <= a < b < g2.len() implies #[trigger] g2[a]
                            < #[trigger] g2[b] by {
                            assert(g2[a] == g[a]);
                            if b < g.len() {
                                assert(g2[b] == g[b]);
                            }
                        }
                    },
                    None => {
                        assert forall|i: int|
                            0 <= i < ks.len() && #[trigger] ks[i] == Some(k) implies g2.contains(
                            i,
                        ) by {
                            if i < n {
                                assert(d[i] == ks[i]);
                            }
                            assert(g2[0] == n);
                        }
                    },
                }
            }
        }
        if !(ks.last() == Some(k)) {
            match lookup(before, k) {
                Some(g) => {
                    assert forall|i: int|
                        0 <= i < ks.len() && #[trigger] ks[i] == Some(k) implies g.contains(i) by {
                        if i < n {
                            assert(d[i] == ks[i]);
                        }
                    }
                    assert forall|a: int| 0 <= a < g.len() implies 0 <= #[trigger] g[a]
                        < ks.len() && ks[g[a]] == Some(k) by {
                        assert(d[g[a]] == ks[g[a]]);
                    }
                },
                None => {
                    assert forall|i: int| 0 <= i < ks.len() implies #[trigger] ks[i] != Some(k) by {
                        if i < n {
                            assert(d[i] == ks[i]);
                        }
                    }
                },
            }
        }
    } else {
        assert(keys(grouped(ks)) =~= Seq::empty());
    }
}

/// Every item with a key is in the group of its key; a group holds exactly the items with its
/// key, in their order.
pub proof fn groups_are_by_key(ks: Seq<Option<Seq<char>>>, i: int, k: Seq<char>)
    requires
        0 <= i < ks.len(),
        ks[i] == Some(k),
    ensures
        lookup(grouped(ks), k) matches Some(g) && holds_key(ks, g, k) && g.contains(i),
{
    lemma_grouped(ks, k);
}

/// Every group belongs to a key, and two groups never share an item.
pub proof fn groups_share_nothing(ks: Seq<Option<Seq<char>>>, a: int, b: int)
    requires
        0 <= a < b < groups_of(ks).len(),
    ensures
        holds_key(ks, groups_of(ks)[a], grouped(ks)[a].0),
        holds_key(ks, groups_of(ks)[b], grouped(ks)[b].0),
        forall|i: int| #[trigger]
            groups_of(ks)[a].contains(i) ==> !groups_of(ks)[b].contains(i),
{
    let g = grouped(ks);
    lemma_grouped(ks, g[a].0);
    lemma_grouped(ks, g[b].0);
    lemma_lookup(g, g[a].0, g[a].1);
    lemma_lookup(g, g[b].0, g[b].1);
    assert(g.contains((g[a].0, g[a].1)) && g.contains((g[b].0, g[b].1)));
    assert(keys(g)[a] == g[a].0 && keys(g)[b] == g[b].0);
    crate::text::text_lt_irreflexive(g[a].0);
    assert forall|i: int| #[trigger] groups_of(ks)[a].contains(i) implies !groups_of(
        ks,
    )[b].contains(i) by {
        if groups_of(ks)[b].contains(i) {
            let x = choose|x: int| 0 <= x < g[a].1.len() && g[a].1[x] == i;
            let y = choose|y: int| 0 <= y < g[b].1.len() && g[b].1[y] == i;
            assert(ks[g[a].1[x]] == Some(g[a].0));
            assert(ks[g[b].1[y]] == Some(g[b].0));
        }
    }
}

/// Every item with a key is in one group, and in no other.
pub proof fn each_in_exactly_one_group(ks: Seq<Option<Seq<char>>>, i: int) -> (a: int)
    requires
        0 <= i < ks.len(),
        ks[i] is Some,
    ensures
        0 <= a < groups_of(ks).len(),
        groups_of(ks)[a].contains(i),
        lookup(grouped(ks), ks[i]->0) == Some(groups_of(ks)[a]),
        forall|b: int| 0 <= b < groups_of(ks).len() && b != a ==> !(#[trigger] groups_of(
            ks,
        )[b]).contains(i),
{
    let k = ks[i]->0;
    let g = grouped(ks);
    groups_are_by_key(ks, i, k);
    lemma_grouped(ks, k);
    lemma_lookup(g, k, lookup(g, k)->0);
    let a = choose|a: int| 0 <= a < g.len() && g[a] == (k, lookup(g, k)->0);
    assert forall|b: int| 0 <= b < groups_of(ks).len() && b != a implies !(#[trigger] groups_of(
        ks,
    )[b]).contains(i) by {
        if a < b {
            groups_share_nothing(ks, a, b);
        } else {
            groups_share_nothing(ks, b, a);
            if groups_of(ks)[b].contains(i) {
                assert(!groups_of(ks)[a].contains(i));
            }
        }
        assert(groups_of(ks)[a].contains(i));
    }
    a
}

/// Each group lists places of items.
pub proof fn lemma_group_places(ks: Seq<Option<Seq<char>>>, a: int)
    requires
        0 <= a < groups_of(ks).len(),
    ensures
        groups_of(ks)[a].len() > 0,
        forall|x: int|
            0 <= x < groups_of(ks)[a].len() ==> 0 <= #[trigger] groups_of(ks)[a][x] < ks.len()
                && ks[groups_of(ks)[a][x]] is Some,
{
    let g = grouped(ks);
    lemma_grouped(ks, g[a].0);
    lemma_lookup(g, g[a].0, g[a].1);
    assert(g.contains((g[a].0, g[a].1)));
}

/// How many items have a key.
pub open spec fn keyed_count(ks: Seq<Option<Seq<char>>>) -> nat
    decreases ks.len(),
{
    if ks.len() == 0 {
        0
    } else {
        keyed_count(ks.drop_last()) + if ks.last() is Some {
            1nat
        } else {
            0nat
        }
    }
}

/// How many places groups hold together.
pub open spec fn total_len(gs: Seq<Seq<int>>) -> nat
    decreases gs.len(),
{
    if gs.len() == 0 {
        0
    } else {
        total_len(gs.drop_last()) + gs.last().len()
    }
}

proof fn lemma_total_update(gs: Seq<Seq<int>>, i: int, g: Seq<int>)
    requires
        0 <= i < gs.len(),
    ensures
        total_len(gs.update(i, g)) + gs[i].len() == total_len(gs) + g.len(),
    decreases gs.len(),
{
    let d = gs.drop_last();
    if i < d.len() {
        lemma_total_update(d, i, g);
        assert(gs.update(i, g).drop_last() =~= d.update(i, g));
    } else {
        assert(gs.update(i, g).drop_last() =~= d);
    }
}

proof fn lemma_total_insert(gs: Seq<Seq<int>>, i: int, g: Seq<int>)
    requires
        0 <= i <= gs.len(),
    ensures
        total_len(gs.insert(i, g)) == total_len(gs) + g.len(),
    decreases gs.len(),
{
    if i == gs.len() {
        assert(gs.insert(i, g).drop_last() =~= gs);
    } else {
        let d = gs.drop_last();
        lemma_total_insert(d, i, g);
        assert(gs.insert(i, g).drop_last() =~= d.insert(i, g));
        assert(gs.insert(i, g).last() == gs.last());
    }
}

/// The groups hold as many places together as items have a key.
pub proof fn groups_hold_every_item(ks: Seq<Option<Seq<char>>>)
    ensures
        total_len(groups_of(ks)) == keyed_count(ks),
    decreases ks.len(),
{
    if ks.len() > 0 {
        let d = ks.drop_last();
        let before = grouped(d);
        groups_hold_every_item(d);
        match ks.last() {
            Some(k) => {
                lemma_grouped(d, k);
                let at = slot(keys(before), k);
                lemma_slot(keys(before), k);
                match lookup(before, k) {
                    Some(g) => {
                        let more = g.push(ks.len() - 1);
                        lemma_total_update(groups_of(d), at, more);
                        assert(groups_of(ks) =~= groups_of(d).update(at, more));
                    },
                    None => {
                        let one = seq![ks.len() - 1];
                        lemma_total_insert(groups_of(d), at, one);
                        assert(groups_of(ks) =~= groups_of(d).insert(at, one));
                    },
                }
            },
            None => {
                assert(groups_of(ks) =~= groups_of(d));
            },
        }
    } else {
        assert(groups_of(ks) =~= Seq::empty());
    }
}

/// One more item makes one more group exactly where its key is new.
pub proof fn a_new_key_makes_a_group(ks: Seq<Option<Seq<char>>>, k: Seq<char>)
    requires
        ks.len() > 0,
        ks.last() == Some(k),
    ensures
        groups_of(ks).len() == groups_of(ks.drop_last()).len() + if ks.drop_last().contains(
            Some(k),
        ) {
            0int
        } else {
            1int
        },
{
    let d = ks.drop_last();
    let before = grouped(d);
    lemma_grouped(d, k);
    match lookup(before, k) {
        Some(g) => {
            lemma_put(before, k, g.push(d.len() as int));
            assert(d[g[0]] == Some(k));
        },
        None => {
            lemma_put(before, k, seq![d.len() as int]);
        },
    }
}

/// All that is in one group has one key.
pub proof fn lemma_group_shares_key(ks: Seq<Option<Seq<char>>>, a: int, i: int, j: int)
    requires
        0 <= a < groups_of(ks).len(),
        groups_of(ks)[a].contains(i),
        groups_of(ks)[a].contains(j),
    ensures
        0 <= i < ks.len(),
        0 <= j < ks.len(),
        ks[i] is Some,
        ks[j] == ks[i],
{
    let g = groups_of(ks)[a];
    lemma_group_places(ks, a);
    let x = choose|x: int| 0 <= x < g.len() && g[x] == i;
    let y = choose|y: int| 0 <= y < g.len() && g[y] == j;
    assert(ks[g[x]] is Some && ks[g[y]] is Some);
    let b = each_in_exactly_one_group(ks, i);
    assert(b == a);
    groups_are_by_key(ks, i, ks[i]->0);
    assert(ks[g[y]] == Some(ks[i]->0));
}

pub open spec fn opt_texts(ks: Seq<Option<String>>) -> Seq<Option<Seq<char>>> {
    ks.map_values(|k: Option<String>| opt_view(k))
}

pub open spec fn groups_view(gs: Seq<Vec<usize>>) -> Seq<Seq<int>> {
    gs.map_values(|g: Vec<usize>| places_view(g@))
}

spec fn as_places(m: Seq<(Seq<char>, Vec<usize>)>) -> Seq<(Seq<char>, Seq<int>)> {
    mapped(m, |g: Vec<usize>| places_view(g@))
}

/// Groups items by key, in order of the keys.
pub fn group_by(ks: &Vec<Option<String>>) -> (r: Vec<Vec<usize>>)
    ensures
        groups_view(r@) == groups_of(opt_texts(ks@)),
{
    let n = ks.len();
    let ghost v = opt_texts(ks@);
    let mut m: TextMap<Vec<usize>> = TextMap::new();
    let mut i: usize = 0;
    proof {
        assert(as_places(m@) =~= grouped(v.take(0)));
    }
    while i < n
        invariant
            i <= n,
            n == ks@.len(),
            v == opt_texts(ks@),
            as_places(m@) == grouped(v.take(i as int)),
        decreases n - i,
    {
        proof {
            assert(v.take(i + 1).drop_last() =~= v.take(i as int));
            assert(v.take(i + 1).last() == opt_view(ks@[i as int]));
        }
        match &ks[i] {
            Some(k) => {
                proof {
                    use_type_invariant(&m);
                }
                let ghost before = m@;
                let ghost f = |g: Vec<usize>| places_view(g@);
                let mut g: Vec<usize> = match m.remove(k.as_str()) {
                    Some(g) => g,
                    None => Vec::new(),
                };
                let ghost old_g = g@;
                g.push(i);
                proof {
                    lemma_mapped(before, f, k@, g);
                    lemma_take_and_put(before, k@, g);
                    assert(places_view(g@) =~= places_view(old_g).push(i as int));
                    if lookup(before, k@) is None {
                        assert(places_view(g@) =~= seq![i as int]);
                    }
                }
                m.insert(k.clone(), g);
            },
            None => {},
        }
        i += 1;
    }
    proof {
        assert(v.take(n as int) =~= v);
    }
    let count = m.len();
    let mut out: Vec<Vec<usize>> = Vec::new();
    let mut j: usize = 0;
    while j < count
        invariant
            j <= count,
            count == m@.len(),
            out@.len() == j,
            forall|a: int| 0 <= a < j ==> (#[trigger] out@[a])@ == m@[a].1@,
        decreases count - j,
    {
        out.push(copy_places(m.value_at(j)));
        j += 1;
    }
    proof {
        assert(groups_view(out@) =~= groups_of(v)) by {
            assert forall|a: int| 0 <= a < count implies groups_view(out@)[a] == groups_of(v)[a] by {
                assert(as_places(m@)[a] == grouped(v)[a]);
            }
        }
    }
    out
}

fn copy_places(g: &Vec<usize>) -> (r: Vec<usize>)
    ensures
        r@ == g@,
{
    let n = g.len();
    let mut out: Vec<usize> = Vec::new();
    let mut i: usize = 0;
    while i < n
        invariant
            i <= n,
            n == g@.len(),
            out@ == g@.take(i as int),
        decreases n - i,
    {
        out.push(g[i]);
        i += 1;
        proof {
            assert(out@ =~= g@.take(i as int));
        }
    }
    proof {
        assert(g@.take(n as int) =~= g@);
    }
    out
}

/// Taking a key out and putting it back is setting it.
proof fn lemma_take_and_put<V>(e: Seq<(Seq<char>, V)>, k: Seq<char>, v: V)
    requires
        ascending(keys(e)),
    ensures
        put(without(e, k), k, v) == put(e, k, v),
{
    lemma_without(e, k);
    lemma_put(without(e, k), k, v);
    lemma_put(e, k, v);
    assert forall|x: Seq<char>| #[trigger] lookup(put(without(e, k), k, v), x) == lookup(
        put(e, k, v),
        x,
    ) by {
        if x != k {
            assert(lookup(without(e, k), x) == lookup(e, x));
        }
    }
    lemma_same_lookup(put(without(e, k), k, v), put(e, k, v));
}

} // verus!
