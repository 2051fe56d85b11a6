//! Bounds: the smallest box around what is stored.

use vstd::prelude::*;

#[allow(unused_imports)]
use crate::actors::import::nodes_bounds;
#[allow(unused_imports)]
use crate::geometry::{
    coords_bounds, geometry_bounds, joined_bounds, lines_bounds, polygons_bounds, BoundsView,
    CoordView, GeometryView, PolygonView,
};
#[allow(unused_imports)]
use crate::json::rank;
#[allow(unused_imports)]
use crate::models::NodeView;

verus! {

/// A box around some places: every one of them lies in it, and each of its sides touches one of
/// them; there is no box exactly where there are no places.
pub open spec fn frames(b: Option<BoundsView>, p: spec_fn(CoordView) -> bool) -> bool {
    match b {
        None => forall|c: CoordView| !#[trigger] p(c),
        Some(b) => {
            &&& forall|c: CoordView| #[trigger]
                p(c) ==> rank(b.min.x) <= rank(c.x) <= rank(b.max.x) && rank(b.min.y) <= rank(c.y)
                    <= rank(b.max.y)
            &&& exists|c: CoordView| #[trigger] p(c) && c.x == b.min.x
            &&& exists|c: CoordView| #[trigger] p(c) && c.y == b.min.y
            &&& exists|c: CoordView| #[trigger] p(c) && c.x == b.max.x
            &&& exists|c: CoordView| #[trigger] p(c) && c.y == b.max.y
        },
    }
}

proof fn lemma_joined(
    a: Option<BoundsView>,
    b: Option<BoundsView>,
    p: spec_fn(CoordView) -> bool,
    q: spec_fn(CoordView) -> bool,
    r: spec_fn(CoordView) -> bool,
)
    requires
        frames(a, p),
        frames(b, q),
        forall|c: CoordView| #[trigger] r(c) <==> p(c) || q(c),
    ensures
        frames(joined_bounds(a, b), r),
{
    if let Some(x) = a {
        let c1 = choose|c: CoordView| #[trigger] p(c) && c.x == x.min.x;
        let c2 = choose|c: CoordView| #[trigger] p(c) && c.y == x.min.y;
        let c3 = choose|c: CoordView| #[trigger] p(c) && c.x == x.max.x;
        let c4 = choose|c: CoordView| #[trigger] p(c) && c.y == x.max.y;
        assert(r(c1) && r(c2) && r(c3) && r(c4));
    }
    if let Some(y) = b {
        let c1 = choose|c: CoordView| #[trigger] q(c) && c.x == y.min.x;
        let c2 = choose|c: CoordView| #[trigger] q(c) && c.y == y.min.y;
        let c3 = choose|c: CoordView| #[trigger] q(c) && c.x == y.max.x;
        let c4 = choose|c: CoordView| #[trigger] q(c) && c.y == y.max.y;
        assert(r(c1) && r(c2) && r(c3) && r(c4));
    }
}

proof fn lemma_coords(cs: Seq<CoordView>, r: spec_fn(CoordView) -> bool)
    requires
        forall|c: CoordView| #[trigger] r(c) <==> cs.contains(c),
    ensures
        frames(coords_bounds(cs), r),
    decreases cs.len(),
{
    if cs.len() > 0 {
        let d = cs.drop_last();
        let last = cs.last();
        let p = |c: CoordView| d.contains(c);
        let q = |c: CoordView| c == last;
        lemma_coords(d, p);
        assert(q(last));
        assert(frames(Some(BoundsView { min: last, max: last }), q));
        assert forall|c: CoordView| #[trigger] r(c) <==> p(c) || q(c) by {
            if d.contains(c) {
                let i = choose|i: int| 0 <= i < d.len() && d[i] == c;
                assert(cs[i] == c);
            }
            if cs.contains(c) {
                let i = choose|i: int| 0 <= i < cs.len() && cs[i] == c;
                if i < d.len() {
                    assert(d[i] == c);
                }
            }
            assert(cs[cs.len() - 1] == last);
        }
        lemma_joined(
            coords_bounds(d),
            Some(BoundsView { min: last, max: last }),
            p,
            q,
            r,
        );
    }
}

/// Whether a place is on one of the lines.
pub open spec fn on_lines(ls: Seq<Seq<CoordView>>, c: CoordView) -> bool {
    exists|i: int| 0 <= i < ls.len() && (#[trigger] ls[i]).contains(c)
}

/// Whether a place is on the outline of one of the polygons.
pub open spec fn on_outlines(ps: Seq<PolygonView>, c: CoordView) -> bool {
    exists|i: int| 0 <= i < ps.len() && (#[trigger] ps[i]).exterior.contains(c)
}

proof fn lemma_lines(ls: Seq<Seq<CoordView>>, r: spec_fn(CoordView) -> bool)
    requires
        forall|c: CoordView| #[trigger] r(c) <==> on_lines(ls, c),
    ensures
        frames(lines_bounds(ls), r),
    decreases ls.len(),
{
    if ls.len() > 0 {
        let d = ls.drop_last();
        let p = |c: CoordView| on_lines(d, c);
        let q = |c: CoordView| ls.last().contains(c);
        lemma_lines(d, p);
        lemma_coords(ls.last(), q);
        assert forall|c: CoordView| #[trigger] r(c) <==> p(c) || q(c) by {
            if on_lines(d, c) {
                let i = choose|i: int| 0 <= i < d.len() && (#[trigger] d[i]).contains(c);
                assert(ls[i].contains(c));
            }
            if on_lines(ls, c) {
                let i = choose|i: int| 0 <= i < ls.len() && (#[trigger] ls[i]).contains(c);
                if i < d.len() {
                    assert(d[i].contains(c));
                }
            }
            assert(ls[ls.len() - 1] == ls.last());
        }
        lemma_joined(lines_bounds(d), coords_bounds(ls.last()), p, q, r);
    }
}

proof fn lemma_outlines(ps: Seq<PolygonView>, r: spec_fn(CoordView) -> bool)
    requires
        forall|c: CoordView| #[trigger] r(c) <==> on_outlines(ps, c),
    ensures
        frames(polygons_bounds(ps), r),
    decreases ps.len(),
{
    if ps.len() > 0 {
        let d = ps.drop_last();
        let p = |c: CoordView| on_outlines(d, c);
        let q = |c: CoordView| ps.last().exterior.contains(c);
        lemma_outlines(d, p);
        lemma_coords(ps.last().exterior, q);
        assert forall|c: CoordView| #[trigger] r(c) <==> p(c) || q(c) by {
            if on_outlines(d, c) {
                let i = choose|i: int| 0 <= i < d.len() && (#[trigger] d[i]).exterior.contains(c);
                assert(ps[i].exterior.contains(c));
            }
            if on_outlines(ps, c) {
                let i = choose|i: int|
                    0 <= i < ps.len() && (#[trigger] ps[i]).exterior.contains(c);
                if i < d.len() {
                    assert(d[i].exterior.contains(c));
                }
            }
            assert(ps[ps.len() - 1] == ps.last());
        }
        lemma_joined(polygons_bounds(d), coords_bounds(ps.last().exterior), p, q, r);
    }
}

/// Whether a geometry passes through a place: it is one of its vertices, of its outline where it
/// is an area.
pub open spec fn passes_through(g: GeometryView, c: CoordView) -> bool {
    match g {
        GeometryView::Point(a) => c == a,
        GeometryView::MultiPoint(cs) => cs.contains(c),
        GeometryView::Line(a, b) => c == a || c == b,
        GeometryView::LineString(cs) => cs.contains(c),
        GeometryView::MultiLineString(ls) => on_lines(ls, c),
        GeometryView::Polygon(p) => p.exterior.contains(c),
        GeometryView::MultiPolygon(ps) => on_outlines(ps, c),
        _ => false,
    }
}

/// The bounds of a geometry are the smallest box around its vertices.
pub proof fn bounds_are_the_smallest_box(g: GeometryView, r: spec_fn(CoordView) -> bool)
    requires
        !(g is Rect) && !(g is Other),
        forall|c: CoordView| #[trigger] r(c) <==> passes_through(g, c),
    ensures
        frames(geometry_bounds(g), r),
{
    match g {
        GeometryView::Point(a) => {
            assert forall|c: CoordView| #[trigger] r(c) <==> seq![a].contains(c) by {
                assert(seq![a][0] == a);
            }
            lemma_coords(seq![a], r);
        },
        GeometryView::MultiPoint(cs) => {
            lemma_coords(cs, r);
        },
        GeometryView::Line(a, b) => {
            assert forall|c: CoordView| #[trigger] r(c) <==> seq![a, b].contains(c) by {
                assert(seq![a, b][0] == a);
                assert(seq![a, b][1] == b);
            }
            lemma_coords(seq![a, b], r);
        },
        GeometryView::LineString(cs) => {
            lemma_coords(cs, r);
        },
        GeometryView::MultiLineString(ls) => {
            lemma_lines(ls, r);
        },
        GeometryView::Polygon(p) => {
            lemma_coords(p.exterior, r);
        },
        GeometryView::MultiPolygon(ps) => {
            lemma_outlines(ps, r);
        },
        _ => {},
    }
}

/// Whether the geometry of one of the nodes passes through a place.
pub open spec fn nodes_pass_through(nodes: Seq<NodeView>, c: CoordView) -> bool {
    exists|i: int|
        0 <= i < nodes.len() && (#[trigger] nodes[i]).geometry is Some && passes_through(
            nodes[i].geometry->0,
            c,
        )
}

/// The bounds of what an import stores are the smallest box around all of it.
pub proof fn an_import_is_framed(nodes: Seq<NodeView>, r: spec_fn(CoordView) -> bool)
    requires
        forall|i: int|
            0 <= i < nodes.len() ==> ((#[trigger] nodes[i]).geometry matches Some(g) ==> !(g is Rect)
                && !(g is Other)),
        forall|c: CoordView| #[trigger] r(c) <==> nodes_pass_through(nodes, c),
    ensures
        frames(nodes_bounds(nodes), r),
    decreases nodes.len(),
{
    if nodes.len() > 0 {
        let d = nodes.drop_last();
        let n = nodes.last();
        let p = |c: CoordView| nodes_pass_through(d, c);
        let q = |c: CoordView| n.geometry is Some && passes_through(n.geometry->0, c);
        assert forall|i: int| 0 <= i < d.len() implies ((#[trigger] d[i]).geometry matches Some(g)
            ==> !(g is Rect) && !(g is Other)) by {
            assert(nodes[i] == d[i]);
        }
        assert(nodes[nodes.len() - 1] == n);
        an_import_is_framed(d, p);
        if let Some(g) = n.geometry {
            bounds_are_the_smallest_box(g, q);
        }
        assert forall|c: CoordView| #[trigger] r(c) <==> p(c) || q(c) by {
            if nodes_pass_through(d, c) {
                let i = choose|i: int|
                    0 <= i < d.len() && (#[trigger] d[i]).geometry is Some && passes_through(
                        d[i].geometry->0,
                        c,
                    );
                assert(nodes[i] == d[i]);
            }
            if nodes_pass_through(nodes, c) {
                let i = choose|i: int|
                    0 <= i < nodes.len() && (#[trigger] nodes[i]).geometry is Some
                        && passes_through(nodes[i].geometry->0, c);
                if i < d.len() {
                    assert(d[i] == nodes[i]);
                }
            }
        }
        lemma_joined(
            nodes_bounds(d),
            match n.geometry {
                Some(g) => geometry_bounds(g),
                None => None,
            },
            p,
            q,
            r,
        );
    }
}

} // verus!
