//! Merging the fragments of a road or a park into one shape.

use vstd::prelude::*;

#[allow(unused_imports)]
use crate::chains::{
    all_lines, all_points, all_polygons, chain_line, chains_of, closed_lines, each_fragment_once,
    is_on, lemma_no_lines, lemma_usable_len, lemma_usable_pairs, merged, no_line_is_lost, occurs,
    oriented, traced_lines, usable_ends, usable_parts, Cell, StepView,
};
#[allow(unused_imports)]
use crate::geometry::{CoordView, GeometryView, PolygonView};

verus! {

/// A geometry that is made of these polygons.
pub open spec fn is_area(g: GeometryView, ps: Seq<PolygonView>) -> bool {
    ||| g == GeometryView::MultiPolygon(ps)
    ||| ps.len() == 1 && g == GeometryView::Polygon(ps[0])
}

/// A geometry that is made of these points.
pub open spec fn is_spots(g: GeometryView, cs: Seq<CoordView>) -> bool {
    ||| g == GeometryView::MultiPoint(cs)
    ||| cs.len() == 1 && g == GeometryView::Point(cs[0])
}

/// A geometry that is made of these lines.
pub open spec fn is_way(g: GeometryView, ls: Seq<Seq<CoordView>>) -> bool {
    ||| g == GeometryView::MultiLineString(ls)
    ||| ls.len() == 1 && g == GeometryView::LineString(ls[0])
    ||| ls.len() == 1 && ls[0].len() == 2 && g == GeometryView::Line(ls[0][0], ls[0][1])
}

pub(crate) proof fn lemma_flatten_push<T>(parts: Seq<Seq<T>>)
    requires
        parts.len() > 0,
    ensures
        parts.flatten() == parts.drop_last().flatten() + parts.last(),
{
    parts.lemma_flatten_and_flatten_alt_are_equivalent();
    parts.drop_last().lemma_flatten_and_flatten_alt_are_equivalent();
}

proof fn lemma_flatten_has<T>(parts: Seq<Seq<T>>, i: int, k: int)
    requires
        0 <= i < parts.len(),
        0 <= k < parts[i].len(),
    ensures
        parts.flatten().contains(parts[i][k]),
    decreases parts.len(),
{
    lemma_flatten_push(parts);
    let d = parts.drop_last();
    if i < d.len() {
        lemma_flatten_has(d, i, k);
        let a = choose|a: int| 0 <= a < d.flatten().len() && d.flatten()[a] == d[i][k];
        assert(parts.flatten()[a] == parts[i][k]);
    } else {
        assert(parts.flatten()[d.flatten().len() + k] == parts[i][k]);
    }
}

proof fn lemma_areas(gs: Seq<GeometryView>, parts: Seq<Seq<PolygonView>>)
    requires
        gs.len() == parts.len(),
        forall|i: int| 0 <= i < gs.len() ==> is_area(#[trigger] gs[i], parts[i]),
    ensures
        all_polygons(gs) == parts.flatten(),
        all_lines(gs) == Seq::<Seq<CoordView>>::empty(),
        all_points(gs) == Seq::<CoordView>::empty(),
    decreases gs.len(),
{
    if gs.len() > 0 {
        assert forall|i: int| 0 <= i < gs.drop_last().len() implies is_area(
            #[trigger] gs.drop_last()[i],
            parts.drop_last()[i],
        ) by {
            assert(is_area(gs[i], parts[i]));
        }
        lemma_areas(gs.drop_last(), parts.drop_last());
        lemma_flatten_push(parts);
        let i = gs.len() - 1;
        assert(is_area(gs[i], parts[i]));
        assert(parts[i].len() == 1 ==> parts[i] =~= seq![parts[i][0]]);
        assert(all_polygons(gs) =~= parts.flatten());
        assert(all_lines(gs) =~= Seq::empty());
        assert(all_points(gs) =~= Seq::empty());
    } else {
        assert(all_polygons(gs) =~= parts.flatten());
    }
}

/// Merging loses no polygon: the polygons of what areas merge into are those of the areas, one
/// area after the other, and so every polygon of every area is among them.
pub proof fn areas_are_collected(
    gs: Seq<GeometryView>,
    parts: Seq<Seq<PolygonView>>,
    ends: Seq<(Cell, Cell)>,
)
    requires
        gs.len() > 0,
        gs.len() == parts.len(),
        forall|i: int| 0 <= i < gs.len() ==> is_area(#[trigger] gs[i], parts[i]),
    ensures
        merged(gs, ends) == (if parts.flatten().len() == 1 {
            GeometryView::Polygon(parts.flatten()[0])
        } else {
            GeometryView::MultiPolygon(parts.flatten())
        }),
        forall|i: int, k: int|
            0 <= i < parts.len() && 0 <= k < parts[i].len() ==> parts.flatten().contains(
                #[trigger] parts[i][k],
            ),
{
    lemma_areas(gs, parts);
    lemma_no_lines(ends);
    assert(is_area(gs[0], parts[0]));
    assert forall|i: int, k: int|
        0 <= i < parts.len() && 0 <= k < parts[i].len() implies parts.flatten().contains(
        #[trigger] parts[i][k],
    ) by {
        lemma_flatten_has(parts, i, k);
    }
    if parts.flatten().len() == 0 {
        if parts[0].len() > 0 {
            assert(parts.flatten().contains(parts[0][0]));
        }
        assert(parts[0] =~= parts.flatten());
    }
}

proof fn lemma_spots(gs: Seq<GeometryView>, parts: Seq<Seq<CoordView>>)
    requires
        gs.len() == parts.len(),
        forall|i: int| 0 <= i < gs.len() ==> is_spots(#[trigger] gs[i], parts[i]),
    ensures
        all_points(gs) == parts.flatten(),
        all_lines(gs) == Seq::<Seq<CoordView>>::empty(),
        all_polygons(gs) == Seq::<PolygonView>::empty(),
    decreases gs.len(),
{
    if gs.len() > 0 {
        assert forall|i: int| 0 <= i < gs.drop_last().len() implies is_spots(
            #[trigger] gs.drop_last()[i],
            parts.drop_last()[i],
        ) by {
            assert(is_spots(gs[i], parts[i]));
        }
        lemma_spots(gs.drop_last(), parts.drop_last());
        lemma_flatten_push(parts);
        let i = gs.len() - 1;
        assert(is_spots(gs[i], parts[i]));
        assert(parts[i].len() == 1 ==> parts[i] =~= seq![parts[i][0]]);
        assert(all_points(gs) =~= parts.flatten());
        assert(all_lines(gs) =~= Seq::empty());
        assert(all_polygons(gs) =~= Seq::empty());
    } else {
        assert(all_points(gs) =~= parts.flatten());
    }
}

/// Points that are merged are collected, one geometry after the other.
pub proof fn points_are_collected(
    gs: Seq<GeometryView>,
    parts: Seq<Seq<CoordView>>,
    ends: Seq<(Cell, Cell)>,
)
    requires
        gs.len() > 0,
        gs.len() == parts.len(),
        forall|i: int| 0 <= i < gs.len() ==> is_spots(#[trigger] gs[i], parts[i]),
    ensures
        merged(gs, ends) == (if parts.flatten().len() == 1 {
            GeometryView::Point(parts.flatten()[0])
        } else {
            GeometryView::MultiPoint(parts.flatten())
        }),
{
    lemma_spots(gs, parts);
    lemma_no_lines(ends);
    assert(is_spots(gs[0], parts[0]));
    if parts.flatten().len() == 0 {
        if parts[0].len() > 0 {
            lemma_flatten_has(parts, 0, 0);
        }
        assert(parts[0] =~= parts.flatten());
    }
}

/// The lines of geometries are gathered, one geometry after the other.
pub proof fn lines_are_gathered(gs: Seq<GeometryView>, parts: Seq<Seq<Seq<CoordView>>>)
    requires
        gs.len() == parts.len(),
        forall|i: int| 0 <= i < gs.len() ==> is_way(#[trigger] gs[i], parts[i]),
    ensures
        all_lines(gs) == parts.flatten(),
        all_polygons(gs) == Seq::<PolygonView>::empty(),
        all_points(gs) == Seq::<CoordView>::empty(),
    decreases gs.len(),
{
    if gs.len() > 0 {
        assert forall|i: int| 0 <= i < gs.drop_last().len() implies is_way(
            #[trigger] gs.drop_last()[i],
            parts.drop_last()[i],
        ) by {
            assert(is_way(gs[i], parts[i]));
        }
        lines_are_gathered(gs.drop_last(), parts.drop_last());
        lemma_flatten_push(parts);
        let i = gs.len() - 1;
        assert(is_way(gs[i], parts[i]));
        assert(parts[i].len() == 1 ==> parts[i] =~= seq![parts[i][0]]);
        if let GeometryView::Line(a, b) = gs[i] {
            assert(parts[i][0] =~= seq![a, b]);
        }
        assert(all_lines(gs) =~= parts.flatten());
        assert(all_polygons(gs) =~= Seq::empty());
        assert(all_points(gs) =~= Seq::empty());
    } else {
        assert(all_lines(gs) =~= parts.flatten());
    }
}

/// A fragment runs along a line from a place on: vertex by vertex, but for its first vertex where
/// the line comes from another fragment.
pub open spec fn runs_along(f: Seq<CoordView>, line: Seq<CoordView>, at: int) -> bool {
    &&& 0 <= at
    &&& at + f.len() <= line.len()
    &&& forall|k: int| 1 <= k < f.len() ==> line[at + k] == #[trigger] f[k]
    &&& at == 0 ==> line[0] == f[0]
}

proof fn lemma_on_chain(parts: Seq<Seq<CoordView>>, c: Seq<StepView>, k: int) -> (at: int)
    requires
        0 <= k < c.len(),
        forall|m: int|
            0 <= m < c.len() ==> 0 <= (#[trigger] c[m]).segment < parts.len()
                && parts[c[m].segment].len() >= 2,
    ensures
        runs_along(oriented(parts, c[k]), chain_line(parts, c), at),
        chain_line(parts, c).len() >= 2,
    decreases c.len(),
{
    let line = chain_line(parts, c);
    assert(parts[c[k].segment].len() >= 2);
    assert(parts[c.last().segment].len() >= 2);
    if c.len() == 1 {
        0
    } else {
        let d = c.drop_last();
        assert forall|m: int| 0 <= m < d.len() implies 0 <= (#[trigger] d[m]).segment < parts.len()
            && parts[d[m].segment].len() >= 2 by {
            assert(0 <= c[m].segment < parts.len());
        }
        let before = chain_line(parts, d);
        if k < d.len() {
            let at = lemma_on_chain(parts, d, k);
            let f = oriented(parts, c[k]);
            assert forall|m: int| 1 <= m < f.len() implies line[at + m] == #[trigger] f[m] by {
                assert(before[at + m] == f[m]);
            }
            at
        } else {
            lemma_on_chain(parts, d, 0);
            let f = oriented(parts, c[k]);
            let at = before.len() - 1;
            assert forall|m: int| 1 <= m < f.len() implies line[at + m] == #[trigger] f[m] by {
                assert(f.skip(1)[m - 1] == f[m]);
            }
            at
        }
    }
}

/// Every line of two vertices or more is drawn in what lines merge into: it runs along one of the
/// merged lines, in its own direction or against it. One that ends where it starts stands there
/// as it is.
pub proof fn every_fragment_is_drawn(
    gs: Seq<GeometryView>,
    parts: Seq<Seq<Seq<CoordView>>>,
    ends: Seq<(Cell, Cell)>,
    i: int,
) -> (r: (Seq<Seq<CoordView>>, int, int))
    requires
        gs.len() > 0,
        gs.len() == parts.len(),
        forall|j: int| 0 <= j < gs.len() ==> is_way(#[trigger] gs[j], parts[j]),
        ends.len() == parts.flatten().len(),
        0 <= i < parts.flatten().len(),
        parts.flatten()[i].len() >= 2,
    ensures
        is_way(merged(gs, ends), r.0),
        0 <= r.1 < r.0.len(),
        runs_along(parts.flatten()[i], r.0[r.1], r.2) || runs_along(
            parts.flatten()[i].reverse(),
            r.0[r.1],
            r.2,
        ),
        ends[i].0 == ends[i].1 ==> r.0[r.1] == parts.flatten()[i],
{
    lines_are_gathered(gs, parts);
    let fs = parts.flatten();
    let chains = traced_lines(fs, ends);
    let loops = closed_lines(fs, ends);
    let lines = chains + loops;
    no_line_is_lost(fs, ends, i);
    if ends[i].0 == ends[i].1 {
        let l = choose|l: int| 0 <= l < loops.len() && loops[l] == fs[i];
        assert(lines[chains.len() + l] == fs[i]);
        (lines, chains.len() + l, 0)
    } else {
        let segs = usable_ends(fs, ends);
        let us = usable_parts(fs, ends);
        let cs = chains_of(segs);
        let j = choose|j: int|
            0 <= j < us.len() && us[j] == fs[i] && #[trigger] occurs(chains_of(segs), j);
        let (c, k) = choose|c: int, k: int| #[trigger] is_on(cs, c, k, j);
        lemma_usable_pairs(fs, ends);
        each_fragment_once(segs);
        assert forall|m: int| 0 <= m < cs[c].len() implies 0 <= (#[trigger] cs[c][m]).segment
            < us.len() && us[cs[c][m].segment].len() >= 2 by {
            assert(is_on(cs, c, m, cs[c][m].segment));
            lemma_usable_len(fs, ends, cs[c][m].segment);
        }
        let at = lemma_on_chain(us, cs[c], k);
        assert(lines[c] == chain_line(us, cs[c]));
        (lines, c, at)
    }
}

} // verus!
