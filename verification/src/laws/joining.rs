//! Joining the fragments of a road: what the merged lines are made of.

use vstd::prelude::*;

#[allow(unused_imports)]
use crate::chains::{
    all_lines, all_points, all_polygons, chain_line, chains_of, chains_pass_no_fork, closed_lines, degree,
    each_fragment_once, is_on, lemma_usable_len, lemma_usable_pairs, linked, merged,
    no_line_is_lost, occurs, oriented, step_end, step_start, traced_lines, usable_ends,
    usable_parts, Cell, StepView,
};
#[allow(unused_imports)]
use crate::geometry::{CoordView, GeometryView};
#[allow(unused_imports)]
use crate::laws::merging::{is_way, lines_are_gathered};

verus! {

/// As many fragments meet at a place as start or end there.
pub proof fn fragments_that_meet_are_counted(segs: Seq<(Cell, Cell)>, at: Cell)
    ensures
        degree(segs, at) == segs.filter(|s: (Cell, Cell)| s.0 == at || s.1 == at).len(),
    decreases segs.len(),
{
    reveal(Seq::filter);
    if segs.len() > 0 {
        fragments_that_meet_are_counted(segs.drop_last(), at);
    }
}

// ---------------------------------------------------------------------------
// Edges
// ---------------------------------------------------------------------------

/// The ends of lines are the cells of their first and last vertices.
pub open spec fn are_ends(
    fs: Seq<Seq<CoordView>>,
    ends: Seq<(Cell, Cell)>,
    cell: spec_fn(CoordView) -> Cell,
) -> bool {
    &&& fs.len() == ends.len()
    &&& forall|i: int|
        0 <= i < fs.len() && (#[trigger] fs[i]).len() > 0 ==> ends[i] == (
            cell(fs[i][0]),
            cell(fs[i].last()),
        )
}

/// Two vertices follow each other on a line, up to the cell in which the first of them lies.
pub open spec fn follows(
    f: Seq<CoordView>,
    k: int,
    a: CoordView,
    b: CoordView,
    cell: spec_fn(CoordView) -> Cell,
) -> bool {
    0 <= k && k + 1 < f.len() && cell(f[k]) == cell(a) && f[k + 1] == b
}

/// Two vertices follow each other on a line, in its direction or against it.
pub open spec fn is_edge_of(
    f: Seq<CoordView>,
    k: int,
    a: CoordView,
    b: CoordView,
    cell: spec_fn(CoordView) -> Cell,
) -> bool {
    follows(f, k, a, b, cell) || follows(f.reverse(), k, a, b, cell)
}

/// Two vertices follow each other on one of the lines.
pub open spec fn is_edge(
    fs: Seq<Seq<CoordView>>,
    a: CoordView,
    b: CoordView,
    cell: spec_fn(CoordView) -> Cell,
) -> bool {
    exists|i: int, k: int| 0 <= i < fs.len() && #[trigger] is_edge_of(fs[i], k, a, b, cell)
}

proof fn lemma_edges(
    us: Seq<Seq<CoordView>>,
    segs: Seq<(Cell, Cell)>,
    c: Seq<StepView>,
    cell: spec_fn(CoordView) -> Cell,
    m: int,
)
    requires
        c.len() > 0,
        forall|k: int|
            0 <= k < c.len() ==> 0 <= (#[trigger] c[k]).segment < us.len()
                && us[c[k].segment].len() >= 2,
        forall|k: int| 1 <= k < c.len() ==> #[trigger] linked(segs, c, k),
        are_ends(us, segs, cell),
    ensures
        chain_line(us, c).len() >= 2,
        cell(chain_line(us, c).last()) == step_end(segs, c.last()),
        0 <= m < chain_line(us, c).len() - 1 ==> is_edge(
            us,
            chain_line(us, c)[m],
            chain_line(us, c)[m + 1],
            cell,
        ),
    decreases c.len(),
{
    let line = chain_line(us, c);
    let s = c.last().segment;
    let f = oriented(us, c.last());
    assert(0 <= c[c.len() - 1].segment < us.len());
    assert(us[s].len() >= 2);
    assert(segs[s] == (cell(us[s][0]), cell(us[s].last())));
    assert(cell(f[0]) == step_start(segs, c.last()));
    assert(cell(f.last()) == step_end(segs, c.last()));
    if c.len() == 1 {
        assert(line == f);
        if 0 <= m < line.len() - 1 {
            assert(follows(f, m, line[m], line[m + 1], cell));
            assert(is_edge_of(us[s], m, line[m], line[m + 1], cell));
        }
    } else {
        let d = c.drop_last();
        let before = chain_line(us, d);
        assert forall|k: int| 0 <= k < d.len() implies 0 <= (#[trigger] d[k]).segment < us.len()
            && us[d[k].segment].len() >= 2 by {
            assert(0 <= c[k].segment < us.len());
        }
        assert forall|k: int| 1 <= k < d.len() implies #[trigger] linked(segs, d, k) by {
            assert(linked(segs, c, k));
        }
        lemma_edges(us, segs, d, cell, m);
        assert(linked(segs, c, c.len() - 1));
        assert(line == before + f.skip(1));
        assert(line.last() == f.last());
        if 0 <= m < line.len() - 1 {
            if m + 1 < before.len() {
                assert(line[m] == before[m] && line[m + 1] == before[m + 1]);
                assert(is_edge(us, before[m], before[m + 1], cell));
            } else {
                let k = m - (before.len() - 1);
                assert(line[m + 1] == f[k + 1]);
                if k == 0 {
                    assert(line[m] == before.last());
                    assert(cell(line[m]) == cell(f[0]));
                } else {
                    assert(line[m] == f[k]);
                }
                assert(follows(f, k, line[m], line[m + 1], cell));
                assert(is_edge_of(us[s], k, line[m], line[m + 1], cell));
            }
        }
    }
}

proof fn lemma_usable_ends(
    fs: Seq<Seq<CoordView>>,
    ends: Seq<(Cell, Cell)>,
    cell: spec_fn(CoordView) -> Cell,
)
    requires
        fs.len() <= ends.len(),
        forall|i: int|
            0 <= i < fs.len() && (#[trigger] fs[i]).len() > 0 ==> ends[i] == (
                cell(fs[i][0]),
                cell(fs[i].last()),
            ),
    ensures
        are_ends(usable_parts(fs, ends), usable_ends(fs, ends), cell),
        forall|j: int|
            0 <= j < usable_parts(fs, ends).len() ==> fs.contains(
                #[trigger] usable_parts(fs, ends)[j],
            ),
    decreases fs.len(),
{
    if fs.len() > 0 {
        let d = fs.drop_last();
        assert forall|i: int| 0 <= i < d.len() && (#[trigger] d[i]).len() > 0 implies ends[i] == (
            cell(d[i][0]),
            cell(d[i].last()),
        ) by {
            assert(fs[i] == d[i]);
        }
        lemma_usable_ends(d, ends, cell);
        lemma_usable_pairs(fs, ends);
        lemma_usable_pairs(d, ends);
        let us = usable_parts(fs, ends);
        let bs = usable_parts(d, ends);
        let i = fs.len() - 1;
        assert(fs[i] == fs.last());
        assert forall|j: int| 0 <= j < us.len() implies fs.contains(#[trigger] us[j]) by {
            if j < bs.len() {
                assert(us[j] == bs[j]);
                let p = choose|p: int| 0 <= p < d.len() && d[p] == bs[j];
                assert(fs[p] == us[j]);
            } else {
                assert(us[j] == fs[i]);
            }
        }
        assert forall|j: int| 0 <= j < us.len() && (#[trigger] us[j]).len() > 0 implies usable_ends(
            fs,
            ends,
        )[j] == (cell(us[j][0]), cell(us[j].last())) by {
            if j < bs.len() {
                assert(us[j] == bs[j]);
                assert(usable_ends(fs, ends)[j] == usable_ends(d, ends)[j]);
            }
        }
    }
}

proof fn lemma_closed_in(fs: Seq<Seq<CoordView>>, ends: Seq<(Cell, Cell)>, j: int) -> (i: int)
    requires
        0 <= j < closed_lines(fs, ends).len(),
    ensures
        0 <= i < fs.len(),
        fs[i] == closed_lines(fs, ends)[j],
    decreases fs.len(),
{
    let before = closed_lines(fs.drop_last(), ends);
    if j < before.len() {
        lemma_closed_in(fs.drop_last(), ends, j)
    } else {
        fs.len() - 1
    }
}

proof fn lemma_merged_edges(
    fs: Seq<Seq<CoordView>>,
    ends: Seq<(Cell, Cell)>,
    cell: spec_fn(CoordView) -> Cell,
    l: int,
    m: int,
)
    requires
        are_ends(fs, ends, cell),
        0 <= l < (traced_lines(fs, ends) + closed_lines(fs, ends)).len(),
        0 <= m < (traced_lines(fs, ends) + closed_lines(fs, ends))[l].len() - 1,
    ensures
        is_edge(
            fs,
            (traced_lines(fs, ends) + closed_lines(fs, ends))[l][m],
            (traced_lines(fs, ends) + closed_lines(fs, ends))[l][m + 1],
            cell,
        ),
{
    let chains = traced_lines(fs, ends);
    let line = (chains + closed_lines(fs, ends))[l];
    let a = line[m];
    let b = line[m + 1];
    if l < chains.len() {
        let segs = usable_ends(fs, ends);
        let us = usable_parts(fs, ends);
        let cs = chains_of(segs);
        let c = cs[l];
        lemma_usable_ends(fs, ends, cell);
        lemma_chain(fs, ends, l);
        assert(line == chain_line(us, c));
        lemma_edges(us, segs, c, cell, m);
        let (s, k) = choose|s: int, k: int|
            0 <= s < us.len() && #[trigger] is_edge_of(us[s], k, a, b, cell);
        assert(fs.contains(us[s]));
        let p = choose|p: int| 0 <= p < fs.len() && fs[p] == us[s];
        assert(is_edge_of(fs[p], k, a, b, cell));
    } else {
        let p = lemma_closed_in(fs, ends, l - chains.len());
        assert(line == fs[p]);
        assert(is_edge_of(fs[p], m, a, b, cell));
    }
}

proof fn lemma_chain(fs: Seq<Seq<CoordView>>, ends: Seq<(Cell, Cell)>, l: int)
    requires
        0 <= l < chains_of(usable_ends(fs, ends)).len(),
    ensures
        ({
            let segs = usable_ends(fs, ends);
            let us = usable_parts(fs, ends);
            let c = chains_of(segs)[l];
            &&& forall|k: int|
                0 <= k < c.len() ==> 0 <= (#[trigger] c[k]).segment < us.len()
                    && us[c[k].segment].len() >= 2
            &&& forall|k: int| 1 <= k < c.len() ==> #[trigger] linked(segs, c, k)
        }),
{
    let segs = usable_ends(fs, ends);
    let us = usable_parts(fs, ends);
    let cs = chains_of(segs);
    let c = cs[l];
    lemma_usable_pairs(fs, ends);
    assert forall|k: int| 0 <= k < c.len() implies 0 <= (#[trigger] c[k]).segment < us.len()
        && us[c[k].segment].len() >= 2 by {
        each_fragment_once(segs);
        assert(is_on(cs, l, k, c[k].segment));
        lemma_usable_len(fs, ends, c[k].segment);
    }
    assert forall|k: int| 1 <= k < c.len() implies #[trigger] linked(segs, c, k) by {
        chains_pass_no_fork(segs, l, k);
    }
}

/// Merging makes nothing up: where two vertices follow each other on a merged line, they do so on
/// one of the fragments, in its direction or against it, up to the cell of the vertex in which
/// two fragments meet.
pub proof fn every_edge_comes_from_a_fragment(
    gs: Seq<GeometryView>,
    parts: Seq<Seq<Seq<CoordView>>>,
    ends: Seq<(Cell, Cell)>,
    cell: spec_fn(CoordView) -> Cell,
    lines: Seq<Seq<CoordView>>,
    l: int,
    m: int,
)
    requires
        gs.len() > 0,
        gs.len() == parts.len(),
        forall|j: int| 0 <= j < gs.len() ==> is_way(#[trigger] gs[j], parts[j]),
        are_ends(parts.flatten(), ends, cell),
        exists|i: int| 0 <= i < parts.flatten().len() && (#[trigger] parts.flatten()[i]).len() >= 2,
        is_way(merged(gs, ends), lines),
        0 <= l < lines.len(),
        0 <= m < lines[l].len() - 1,
    ensures
        is_edge(parts.flatten(), lines[l][m], lines[l][m + 1], cell),
{
    let fs = parts.flatten();
    let i = choose|i: int| 0 <= i < fs.len() && (#[trigger] fs[i]).len() >= 2;
    lemma_same_lines(gs, parts, ends, lines, i);
    lemma_merged_edges(fs, ends, cell, l, m);
}

proof fn lemma_same_lines(
    gs: Seq<GeometryView>,
    parts: Seq<Seq<Seq<CoordView>>>,
    ends: Seq<(Cell, Cell)>,
    lines: Seq<Seq<CoordView>>,
    i: int,
)
    requires
        gs.len() == parts.len(),
        forall|j: int| 0 <= j < gs.len() ==> is_way(#[trigger] gs[j], parts[j]),
        parts.flatten().len() == ends.len(),
        0 <= i < parts.flatten().len(),
        parts.flatten()[i].len() >= 2,
        is_way(merged(gs, ends), lines),
    ensures
        lines == traced_lines(parts.flatten(), ends) + closed_lines(parts.flatten(), ends),
{
    lines_are_gathered(gs, parts);
    let fs = parts.flatten();
    no_line_is_lost(fs, ends, i);
    if ends[i].0 != ends[i].1 {
        let segs = usable_ends(fs, ends);
        let j = choose|j: int|
            0 <= j < usable_parts(fs, ends).len() && usable_parts(fs, ends)[j] == fs[i]
                && #[trigger] occurs(chains_of(segs), j);
        let (c, k) = choose|c: int, k: int| #[trigger] is_on(chains_of(segs), c, k, j);
        assert(0 <= c < traced_lines(fs, ends).len());
    }
    assert(lines =~= traced_lines(fs, ends) + closed_lines(fs, ends));
}

// ---------------------------------------------------------------------------
// How much is drawn
// ---------------------------------------------------------------------------

/// The number of edges of a line.
pub open spec fn edges(l: Seq<CoordView>) -> nat {
    if l.len() >= 2 {
        (l.len() - 1) as nat
    } else {
        0
    }
}

/// The number of edges of lines.
pub open spec fn all_edges(ls: Seq<Seq<CoordView>>) -> nat
    decreases ls.len(),
{
    if ls.len() == 0 {
        0
    } else {
        all_edges(ls.drop_last()) + edges(ls.last())
    }
}

proof fn lemma_edges_add(a: Seq<Seq<CoordView>>, b: Seq<Seq<CoordView>>)
    ensures
        all_edges(a + b) == all_edges(a) + all_edges(b),
    decreases b.len(),
{
    if b.len() == 0 {
        assert(a + b =~= a);
    } else {
        lemma_edges_add(a, b.drop_last());
        assert((a + b).drop_last() =~= a + b.drop_last());
    }
}

/// The edges of the lines that are chosen, by their places.
spec fn chosen_edges(us: Seq<Seq<CoordView>>, places: Seq<int>) -> nat
    decreases places.len(),
{
    if places.len() == 0 {
        0
    } else {
        chosen_edges(us, places.drop_last()) + edges(us[places.last()])
    }
}

proof fn lemma_chosen_add(us: Seq<Seq<CoordView>>, a: Seq<int>, b: Seq<int>)
    ensures
        chosen_edges(us, a + b) == chosen_edges(us, a) + chosen_edges(us, b),
    decreases b.len(),
{
    if b.len() == 0 {
        assert(a + b =~= a);
    } else {
        lemma_chosen_add(us, a, b.drop_last());
        assert((a + b).drop_last() =~= a + b.drop_last());
    }
}

proof fn lemma_chosen_same(us: Seq<Seq<CoordView>>, vs: Seq<Seq<CoordView>>, places: Seq<int>)
    requires
        forall|p: int| 0 <= p < places.len() ==> us[#[trigger] places[p]] == vs[places[p]],
    ensures
        chosen_edges(us, places) == chosen_edges(vs, places),
    decreases places.len(),
{
    if places.len() > 0 {
        let d = places.drop_last();
        assert forall|p: int| 0 <= p < d.len() implies us[#[trigger] d[p]] == vs[d[p]] by {
            assert(places[p] == d[p]);
        }
        lemma_chosen_same(us, vs, d);
        assert(places[places.len() - 1] == places.last());
    }
}

/// Lines that are all chosen once are all counted once.
proof fn lemma_chosen_all(us: Seq<Seq<CoordView>>, places: Seq<int>)
    requires
        forall|p: int| 0 <= p < places.len() ==> 0 <= #[trigger] places[p] < us.len(),
        forall|i: int| 0 <= i < us.len() ==> places.contains(i),
        places.no_duplicates(),
    ensures
        chosen_edges(us, places) == all_edges(us),
    decreases us.len(),
{
    if us.len() == 0 {
        if places.len() > 0 {
            assert(0 <= places[0] < us.len());
        }
    } else {
        let last = us.len() - 1;
        assert(places.contains(last));
        let p = choose|p: int| 0 <= p < places.len() && places[p] == last;
        let a = places.take(p);
        let b = places.skip(p + 1);
        assert(places =~= a + seq![last] + b);
        lemma_chosen_add(us, a + seq![last], b);
        lemma_chosen_add(us, a, seq![last]);
        lemma_chosen_add(us, a, b);
        assert(seq![last].drop_last() =~= Seq::empty());
        assert(chosen_edges(us, seq![last]) == edges(us[last])) by {
            assert(seq![last].last() == last);
            assert(chosen_edges(us, seq![last].drop_last()) == 0);
        }
        let rest = a + b;
        let d = us.drop_last();
        assert forall|q: int| 0 <= q < rest.len() implies 0 <= #[trigger] rest[q] < d.len() by {
            if q < p {
                assert(rest[q] == places[q]);
            } else {
                assert(rest[q] == places[q + 1]);
            }
        }
        assert forall|i: int| 0 <= i < d.len() implies rest.contains(i) by {
            assert(places.contains(i));
            let q = choose|q: int| 0 <= q < places.len() && places[q] == i;
            if q < p {
                assert(rest[q] == i);
            } else {
                assert(q != p);
                assert(rest[q - 1] == i);
            }
        }
        assert(rest.no_duplicates()) by {
            assert forall|x: int, y: int| 0 <= x < rest.len() && 0 <= y < rest.len() && x
                != y implies rest[x] != rest[y] by {
                let x2 = if x < p {
                    x
                } else {
                    x + 1
                };
                let y2 = if y < p {
                    y
                } else {
                    y + 1
                };
                assert(rest[x] == places[x2] && rest[y] == places[y2]);
            }
        }
        lemma_chosen_all(d, rest);
        assert forall|q: int| 0 <= q < rest.len() implies us[#[trigger] rest[q]] == d[rest[q]] by {
            assert(0 <= rest[q] < d.len());
        }
        lemma_chosen_same(us, d, rest);
    }
}

/// The places of the fragments of a chain.
spec fn places_on(c: Seq<StepView>) -> Seq<int> {
    c.map_values(|s: StepView| s.segment)
}

/// The places of the fragments of chains.
spec fn places_of(cs: Seq<Seq<StepView>>) -> Seq<int>
    decreases cs.len(),
{
    if cs.len() == 0 {
        Seq::empty()
    } else {
        places_of(cs.drop_last()) + places_on(cs.last())
    }
}

proof fn lemma_chain_edges(us: Seq<Seq<CoordView>>, c: Seq<StepView>)
    requires
        c.len() > 0,
        forall|k: int|
            0 <= k < c.len() ==> 0 <= (#[trigger] c[k]).segment < us.len()
                && us[c[k].segment].len() >= 2,
    ensures
        chain_line(us, c).len() >= 2,
        edges(chain_line(us, c)) == chosen_edges(us, places_on(c)),
    decreases c.len(),
{
    let d = c.drop_last();
    assert(0 <= c[c.len() - 1].segment < us.len());
    assert(places_on(c).drop_last() =~= places_on(d));
    assert(places_on(c).last() == c.last().segment);
    if c.len() == 1 {
        assert(places_on(d) =~= Seq::empty());
        assert(chosen_edges(us, places_on(d)) == 0);
    } else {
        assert forall|k: int| 0 <= k < d.len() implies 0 <= (#[trigger] d[k]).segment < us.len()
            && us[d[k].segment].len() >= 2 by {
            assert(0 <= c[k].segment < us.len());
        }
        lemma_chain_edges(us, d);
    }
}

proof fn lemma_chains_edges(us: Seq<Seq<CoordView>>, cs: Seq<Seq<StepView>>)
    requires
        forall|c: int, k: int|
            #![trigger cs[c][k]]
            0 <= c < cs.len() && 0 <= k < cs[c].len() ==> 0 <= cs[c][k].segment < us.len()
                && us[cs[c][k].segment].len() >= 2,
    ensures
        all_edges(cs.map_values(|c: Seq<StepView>| chain_line(us, c))) == chosen_edges(
            us,
            places_of(cs),
        ),
    decreases cs.len(),
{
    let f = |c: Seq<StepView>| chain_line(us, c);
    if cs.len() > 0 {
        let d = cs.drop_last();
        assert forall|c: int, k: int|
            #![trigger d[c][k]]
            0 <= c < d.len() && 0 <= k < d[c].len() implies 0 <= d[c][k].segment < us.len()
            && us[d[c][k].segment].len() >= 2 by {
            assert(cs[c][k] == d[c][k]);
        }
        lemma_chains_edges(us, d);
        assert(cs.map_values(f).drop_last() =~= d.map_values(f));
        let l = cs.last();
        assert forall|k: int| 0 <= k < l.len() implies 0 <= (#[trigger] l[k]).segment < us.len()
            && us[l[k].segment].len() >= 2 by {
            assert(cs[cs.len() - 1][k] == l[k]);
        }
        if l.len() > 0 {
            lemma_chain_edges(us, l);
        } else {
            assert(places_on(l) =~= Seq::empty());
            assert(chosen_edges(us, places_on(l)) == 0);
        }
        lemma_chosen_add(us, places_of(d), places_on(l));
    }
}

proof fn lemma_places(cs: Seq<Seq<StepView>>)
    requires
        forall|c: int, k: int, c2: int, k2: int, i: int| #[trigger]
            is_on(cs, c, k, i) && #[trigger] is_on(cs, c2, k2, i) ==> c == c2 && k == k2,
    ensures
        places_of(cs).no_duplicates(),
        forall|p: int|
            0 <= p < places_of(cs).len() ==> occurs(cs, #[trigger] places_of(cs)[p]),
        forall|c: int, k: int, i: int| #[trigger]
            is_on(cs, c, k, i) ==> places_of(cs).contains(i),
    decreases cs.len(),
{
    if cs.len() > 0 {
        let d = cs.drop_last();
        let l = cs.len() - 1;
        assert forall|c: int, k: int, c2: int, k2: int, i: int| #[trigger]
            is_on(d, c, k, i) && #[trigger] is_on(d, c2, k2, i) implies c == c2 && k == k2 by {
            assert(is_on(cs, c, k, i));
            assert(is_on(cs, c2, k2, i));
        }
        lemma_places(d);
        let a = places_of(d);
        let b = places_on(cs.last());
        let ps = places_of(cs);
        assert forall|p: int| 0 <= p < ps.len() implies occurs(cs, #[trigger] ps[p]) by {
            if p < a.len() {
                assert(occurs(d, a[p]));
                let (c, k) = choose|c: int, k: int| #[trigger] is_on(d, c, k, a[p]);
                assert(is_on(cs, c, k, ps[p]));
            } else {
                assert(is_on(cs, l, p - a.len(), ps[p]));
            }
        }
        assert forall|c: int, k: int, i: int| #[trigger] is_on(cs, c, k, i) implies ps.contains(
            i,
        ) by {
            if c < l {
                assert(is_on(d, c, k, i));
                let p = choose|p: int| 0 <= p < a.len() && a[p] == i;
                assert(ps[p] == i);
            } else {
                assert(ps[a.len() + k] == i);
            }
        }
        assert forall|x: int, y: int| 0 <= x < ps.len() && 0 <= y < ps.len() && x
            != y implies ps[x] != ps[y] by {
            if x < a.len() && y < a.len() {
                assert(ps[x] == a[x] && ps[y] == a[y]);
            } else if x >= a.len() && y >= a.len() {
                assert(is_on(cs, l, x - a.len(), ps[x]));
                assert(is_on(cs, l, y - a.len(), ps[y]));
            } else {
                let u = if x < a.len() {
                    x
                } else {
                    y
                };
                let v = if x < a.len() {
                    y
                } else {
                    x
                };
                assert(occurs(d, a[u]));
                let (c, k) = choose|c: int, k: int| #[trigger] is_on(d, c, k, a[u]);
                assert(is_on(cs, c, k, ps[u]));
                assert(is_on(cs, l, v - a.len(), ps[v]));
            }
        }
    }
}

proof fn lemma_edges_split(fs: Seq<Seq<CoordView>>, ends: Seq<(Cell, Cell)>)
    ensures
        all_edges(fs) == all_edges(usable_parts(fs, ends)) + all_edges(closed_lines(fs, ends)),
    decreases fs.len(),
{
    if fs.len() > 0 {
        let d = fs.drop_last();
        lemma_edges_split(d, ends);
        let u = usable_parts(d, ends);
        let c = closed_lines(d, ends);
        assert(u.push(fs.last()).drop_last() =~= u);
        assert(c.push(fs.last()).drop_last() =~= c);
    }
}

proof fn lemma_traced_edges(fs: Seq<Seq<CoordView>>, ends: Seq<(Cell, Cell)>)
    ensures
        all_edges(traced_lines(fs, ends)) == all_edges(usable_parts(fs, ends)),
{
    let segs = usable_ends(fs, ends);
    let us = usable_parts(fs, ends);
    let cs = chains_of(segs);
    lemma_usable_pairs(fs, ends);
    each_fragment_once(segs);
    lemma_places(cs);
    assert forall|c: int, k: int|
        #![trigger cs[c][k]]
        0 <= c < cs.len() && 0 <= k < cs[c].len() implies 0 <= cs[c][k].segment < us.len()
        && us[cs[c][k].segment].len() >= 2 by {
        assert(is_on(cs, c, k, cs[c][k].segment));
        lemma_usable_len(fs, ends, cs[c][k].segment);
    }
    lemma_chains_edges(us, cs);
    let ps = places_of(cs);
    assert forall|p: int| 0 <= p < ps.len() implies 0 <= #[trigger] ps[p] < us.len() by {
        assert(occurs(cs, ps[p]));
        let (c, k) = choose|c: int, k: int| #[trigger] is_on(cs, c, k, ps[p]);
        assert(is_on(cs, c, k, ps[p]));
    }
    assert forall|j: int| 0 <= j < us.len() implies ps.contains(j) by {
        assert(occurs(cs, j));
        let (c, k) = choose|c: int, k: int| #[trigger] is_on(cs, c, k, j);
        assert(is_on(cs, c, k, j));
    }
    lemma_chosen_all(us, ps);
}

/// Merging draws nothing twice and leaves nothing out: the merged lines have as many edges as the
/// fragments.
pub proof fn as_much_is_drawn_as_there_is(
    gs: Seq<GeometryView>,
    parts: Seq<Seq<Seq<CoordView>>>,
    ends: Seq<(Cell, Cell)>,
    lines: Seq<Seq<CoordView>>,
)
    requires
        gs.len() > 0,
        gs.len() == parts.len(),
        forall|j: int| 0 <= j < gs.len() ==> is_way(#[trigger] gs[j], parts[j]),
        ends.len() == parts.flatten().len(),
        exists|i: int| 0 <= i < parts.flatten().len() && (#[trigger] parts.flatten()[i]).len() >= 2,
        is_way(merged(gs, ends), lines),
    ensures
        all_edges(lines) == all_edges(parts.flatten()),
{
    let fs = parts.flatten();
    let i = choose|i: int| 0 <= i < fs.len() && (#[trigger] fs[i]).len() >= 2;
    lemma_same_lines(gs, parts, ends, lines, i);
    lemma_traced_edges(fs, ends);
    lemma_edges_split(fs, ends);
    lemma_edges_add(traced_lines(fs, ends), closed_lines(fs, ends));
}

// ---------------------------------------------------------------------------
// Kinds that differ
// ---------------------------------------------------------------------------

/// Geometries of different kinds are not merged: the first stands for all of them.
pub proof fn kinds_that_differ_are_not_merged(
    gs: Seq<GeometryView>,
    ends: Seq<(Cell, Cell)>,
    i: int,
    j: int,
)
    requires
        0 <= i < gs.len(),
        0 <= j < gs.len(),
        gs[i] is Polygon,
        gs[j] is Point,
    ensures
        merged(gs, ends) == gs[0],
{
    lemma_has_area(gs, i);
    lemma_has_spot(gs, j);
}

proof fn lemma_has_area(gs: Seq<GeometryView>, i: int)
    requires
        0 <= i < gs.len(),
        gs[i] is Polygon,
    ensures
        all_polygons(gs).len() > 0,
    decreases gs.len(),
{
    if i < gs.len() - 1 {
        lemma_has_area(gs.drop_last(), i);
    }
}

proof fn lemma_has_spot(gs: Seq<GeometryView>, i: int)
    requires
        0 <= i < gs.len(),
        gs[i] is Point,
    ensures
        all_points(gs).len() > 0,
    decreases gs.len(),
{
    if i < gs.len() - 1 {
        lemma_has_spot(gs.drop_last(), i);
    }
}

proof fn lemma_line_at(gs: Seq<GeometryView>, j: int) -> (k: int)
    requires
        0 <= j < gs.len(),
        gs[j] is LineString,
    ensures
        0 <= k < all_lines(gs).len(),
        all_lines(gs)[k] == gs[j]->LineString_0,
    decreases gs.len(),
{
    if j < gs.len() - 1 {
        lemma_line_at(gs.drop_last(), j)
    } else {
        all_lines(gs.drop_last()).len() as int
    }
}

/// Lines are not merged with areas or points: the first geometry stands for all of them.
pub proof fn lines_are_merged_with_lines_alone(
    gs: Seq<GeometryView>,
    ends: Seq<(Cell, Cell)>,
    i: int,
    j: int,
)
    requires
        0 <= i < gs.len(),
        0 <= j < gs.len(),
        gs[i] is Polygon || gs[i] is Point,
        gs[j] is LineString,
        gs[j]->LineString_0.len() >= 2,
        ends.len() == all_lines(gs).len(),
    ensures
        merged(gs, ends) == gs[0],
{
    if gs[i] is Polygon {
        lemma_has_area(gs, i);
    } else {
        lemma_has_spot(gs, i);
    }
    let fs = all_lines(gs);
    let k = lemma_line_at(gs, j);
    no_line_is_lost(fs, ends, k);
    if ends[k].0 != ends[k].1 {
        let segs = usable_ends(fs, ends);
        let m = choose|m: int|
            0 <= m < usable_parts(fs, ends).len() && usable_parts(fs, ends)[m] == fs[k]
                && #[trigger] occurs(chains_of(segs), m);
        let (c, n) = choose|c: int, n: int| #[trigger] is_on(chains_of(segs), c, n, m);
        assert(0 <= c < traced_lines(fs, ends).len());
    }
}

} // verus!
