//! Plane geometry as the store holds it: coordinates (x = longitude, y = latitude), lines,
//! polygons and collections of them.

use vstd::prelude::*;

use crate::json::Real;
#[allow(unused_imports)]
use crate::json::rank;

verus! {

// ---------------------------------------------------------------------------
// The model
// ---------------------------------------------------------------------------

/// A coordinate by the bits of its two numbers.
pub struct CoordView {
    pub x: u64,
    pub y: u64,
}

#[verifier::ext_equal]
pub struct PolygonView {
    pub exterior: Seq<CoordView>,
    pub interiors: Seq<Seq<CoordView>>,
}

pub struct BoundsView {
    pub min: CoordView,
    pub max: CoordView,
}

pub enum GeometryView {
    Point(CoordView),
    MultiPoint(Seq<CoordView>),
    Line(CoordView, CoordView),
    LineString(Seq<CoordView>),
    MultiLineString(Seq<Seq<CoordView>>),
    Polygon(PolygonView),
    MultiPolygon(Seq<PolygonView>),
    Rect(BoundsView),
    Other(u64, Option<BoundsView>),
}

/// Whether two coordinates are equal as pairs of floats (both zeros are one float).
pub open spec fn same_place(a: CoordView, b: CoordView) -> bool {
    rank(a.x) == rank(b.x) && rank(a.y) == rank(b.y)
}

/// Whether a ring ends where it starts.
pub open spec fn is_closed(ring: Seq<CoordView>) -> bool {
    ring.len() == 0 || same_place(ring[0], ring[ring.len() - 1])
}

/// The ring, led back to its start where it ends elsewhere.
pub open spec fn closed_ring(ring: Seq<CoordView>) -> Seq<CoordView> {
    if is_closed(ring) {
        ring
    } else {
        ring.push(ring[0])
    }
}

pub open spec fn lower(a: u64, b: u64) -> u64 {
    if rank(b) < rank(a) {
        b
    } else {
        a
    }
}

pub open spec fn higher(a: u64, b: u64) -> u64 {
    if rank(b) > rank(a) {
        b
    } else {
        a
    }
}

/// The smallest box that holds both boxes.
pub open spec fn joined_bounds(a: Option<BoundsView>, b: Option<BoundsView>) -> Option<BoundsView> {
    match (a, b) {
        (Some(p), Some(q)) => Some(
            BoundsView {
                min: CoordView { x: lower(p.min.x, q.min.x), y: lower(p.min.y, q.min.y) },
                max: CoordView { x: higher(p.max.x, q.max.x), y: higher(p.max.y, q.max.y) },
            },
        ),
        (Some(p), None) => Some(p),
        (None, q) => q,
    }
}

/// The smallest box that holds the coordinates.
pub open spec fn coords_bounds(cs: Seq<CoordView>) -> Option<BoundsView>
    decreases cs.len(),
{
    if cs.len() == 0 {
        None
    } else {
        joined_bounds(
            coords_bounds(cs.drop_last()),
            Some(BoundsView { min: cs.last(), max: cs.last() }),
        )
    }
}

pub open spec fn lines_bounds(ls: Seq<Seq<CoordView>>) -> Option<BoundsView>
    decreases ls.len(),
{
    if ls.len() == 0 {
        None
    } else {
        joined_bounds(lines_bounds(ls.drop_last()), coords_bounds(ls.last()))
    }
}

pub open spec fn polygons_bounds(ps: Seq<PolygonView>) -> Option<BoundsView>
    decreases ps.len(),
{
    if ps.len() == 0 {
        None
    } else {
        joined_bounds(polygons_bounds(ps.drop_last()), coords_bounds(ps.last().exterior))
    }
}

/// The box around a geometry; a polygon counts by its exterior ring.
pub open spec fn geometry_bounds(g: GeometryView) -> Option<BoundsView> {
    match g {
        GeometryView::Point(c) => coords_bounds(seq![c]),
        GeometryView::MultiPoint(cs) => coords_bounds(cs),
        GeometryView::Line(a, b) => coords_bounds(seq![a, b]),
        GeometryView::LineString(cs) => coords_bounds(cs),
        GeometryView::MultiLineString(ls) => lines_bounds(ls),
        GeometryView::Polygon(p) => coords_bounds(p.exterior),
        GeometryView::MultiPolygon(ps) => polygons_bounds(ps),
        GeometryView::Rect(b) => Some(b),
        GeometryView::Other(_, b) => b,
    }
}

/// A coordinate lies in a box.
pub open spec fn inside(c: CoordView, b: BoundsView) -> bool {
    &&& rank(b.min.x) <= rank(c.x) <= rank(b.max.x)
    &&& rank(b.min.y) <= rank(c.y) <= rank(b.max.y)
}

/// The box around coordinates holds each of them.
pub proof fn bounds_hold_coords(cs: Seq<CoordView>)
    ensures
        cs.len() > 0 <==> coords_bounds(cs) is Some,
        forall|i: int| 0 <= i < cs.len() ==> inside(#[trigger] cs[i], coords_bounds(cs)->0),
    decreases cs.len(),
{
    if cs.len() > 0 {
        bounds_hold_coords(cs.drop_last());
        assert forall|i: int| 0 <= i < cs.len() implies inside(
            #[trigger] cs[i],
            coords_bounds(cs)->0,
        ) by {
            if i < cs.len() - 1 {
                assert(cs.drop_last()[i] == cs[i]);
            }
        }
    }
}

// ---------------------------------------------------------------------------
// The types
// ---------------------------------------------------------------------------

#[derive(Debug, PartialEq)]
pub struct Coord {
    pub x: Real,
    pub y: Real,
}

/// An exterior ring and the rings of its holes.
#[derive(Debug, PartialEq)]
pub struct Polygon {
    pub exterior: Vec<Coord>,
    pub interiors: Vec<Vec<Coord>>,
}

/// A box along the axes.
#[derive(Debug, PartialEq)]
pub struct Bounds {
    pub min: Coord,
    pub max: Coord,
}

/// A geometry. One of another kind is known by a number that its owner gave it, and by its box.
#[derive(Debug, PartialEq)]
pub enum Geometry {
    Point(Coord),
    MultiPoint(Vec<Coord>),
    Line(Coord, Coord),
    LineString(Vec<Coord>),
    MultiLineString(Vec<Vec<Coord>>),
    Polygon(Polygon),
    MultiPolygon(Vec<Polygon>),
    Rect(Bounds),
    Other(u64, Option<Bounds>),
}

impl View for Coord {
    type V = CoordView;

    open spec fn view(&self) -> CoordView {
        CoordView { x: self.x@, y: self.y@ }
    }
}

pub open spec fn coords_view(cs: Seq<Coord>) -> Seq<CoordView> {
    cs.map_values(|c: Coord| c@)
}

pub open spec fn lines_view(ls: Seq<Vec<Coord>>) -> Seq<Seq<CoordView>> {
    ls.map_values(|l: Vec<Coord>| coords_view(l@))
}

impl View for Polygon {
    type V = PolygonView;

    open spec fn view(&self) -> PolygonView {
        PolygonView {
            exterior: coords_view(self.exterior@),
            interiors: lines_view(self.interiors@),
        }
    }
}

pub open spec fn polygons_view(ps: Seq<Polygon>) -> Seq<PolygonView> {
    ps.map_values(|p: Polygon| p@)
}

impl View for Bounds {
    type V = BoundsView;

    open spec fn view(&self) -> BoundsView {
        BoundsView { min: self.min@, max: self.max@ }
    }
}

pub open spec fn opt_bounds_view(b: Option<Bounds>) -> Option<BoundsView> {
    match b {
        Some(x) => Some(x@),
        None => None,
    }
}

impl View for Geometry {
    type V = GeometryView;

    open spec fn view(&self) -> GeometryView {
        match self {
            Geometry::Point(c) => GeometryView::Point(c@),
            Geometry::MultiPoint(cs) => GeometryView::MultiPoint(coords_view(cs@)),
            Geometry::Line(a, b) => GeometryView::Line(a@, b@),
            Geometry::LineString(cs) => GeometryView::LineString(coords_view(cs@)),
            Geometry::MultiLineString(ls) => GeometryView::MultiLineString(lines_view(ls@)),
            Geometry::Polygon(p) => GeometryView::Polygon(p@),
            Geometry::MultiPolygon(ps) => GeometryView::MultiPolygon(polygons_view(ps@)),
            Geometry::Rect(b) => GeometryView::Rect(b@),
            Geometry::Other(n, b) => GeometryView::Other(*n, opt_bounds_view(*b)),
        }
    }
}

// ---------------------------------------------------------------------------
// Copies
// ---------------------------------------------------------------------------

impl Coord {
    pub fn copy(&self) -> (r: Coord)
        ensures
            r@ == self@,
    {
        Coord { x: self.x.copy(), y: self.y.copy() }
    }

    /// Whether two coordinates are equal as pairs of floats.
    pub fn same_place(&self, other: &Coord) -> (r: bool)
        ensures
            r == same_place(self@, other@),
    {
        self.x.place() == other.x.place() && self.y.place() == other.y.place()
    }
}

/// The coordinates from a place on.
pub fn copy_coords_from(cs: &Vec<Coord>, from: usize) -> (r: Vec<Coord>)
    requires
        from <= cs@.len(),
    ensures
        coords_view(r@) == coords_view(cs@).skip(from as int),
{
    let n = cs.len();
    let mut out: Vec<Coord> = Vec::new();
    let mut i: usize = from;
    while i < n
        invariant
            from <= i <= n,
            n == cs@.len(),
            out@.len() == i - from,
            forall|k: int| 0 <= k < out@.len() ==> (#[trigger] out@[k])@ == cs@[k + from]@,
        decreases n - i,
    {
        out.push(cs[i].copy());
        i += 1;
    }
    proof {
        assert(coords_view(out@) =~= coords_view(cs@).skip(from as int));
    }
    out
}

pub fn copy_coords(cs: &Vec<Coord>) -> (r: Vec<Coord>)
    ensures
        coords_view(r@) == coords_view(cs@),
{
    let r = copy_coords_from(cs, 0);
    proof {
        assert(coords_view(cs@).skip(0) =~= coords_view(cs@));
    }
    r
}

pub fn copy_lines(ls: &Vec<Vec<Coord>>) -> (r: Vec<Vec<Coord>>)
    ensures
        lines_view(r@) == lines_view(ls@),
{
    let n = ls.len();
    let mut out: Vec<Vec<Coord>> = Vec::new();
    let mut i: usize = 0;
    while i < n
        invariant
            i <= n,
            n == ls@.len(),
            out@.len() == i,
            forall|k: int|
                0 <= k < i ==> coords_view((#[trigger] out@[k])@) == coords_view(ls@[k]@),
        decreases n - i,
    {
        out.push(copy_coords(&ls[i]));
        i += 1;
    }
    proof {
        assert(lines_view(out@) =~= lines_view(ls@));
    }
    out
}

impl Polygon {
    pub fn copy(&self) -> (r: Polygon)
        ensures
            r@ == self@,
    {
        Polygon { exterior: copy_coords(&self.exterior), interiors: copy_lines(&self.interiors) }
    }
}

pub fn copy_polygons(ps: &Vec<Polygon>) -> (r: Vec<Polygon>)
    ensures
        polygons_view(r@) == polygons_view(ps@),
{
    let n = ps.len();
    let mut out: Vec<Polygon> = Vec::new();
    let mut i: usize = 0;
    while i < n
        invariant
            i <= n,
            n == ps@.len(),
            out@.len() == i,
            forall|k: int| 0 <= k < i ==> (#[trigger] out@[k])@ == ps@[k]@,
        decreases n - i,
    {
        out.push(ps[i].copy());
        i += 1;
    }
    proof {
        assert(polygons_view(out@) =~= polygons_view(ps@));
    }
    out
}

impl Bounds {
    pub fn copy(&self) -> (r: Bounds)
        ensures
            r@ == self@,
    {
        Bounds { min: self.min.copy(), max: self.max.copy() }
    }
}

impl Geometry {
    pub fn copy(&self) -> (r: Geometry)
        ensures
            r@ == self@,
    {
        match self {
            Geometry::Point(c) => Geometry::Point(c.copy()),
            Geometry::MultiPoint(cs) => Geometry::MultiPoint(copy_coords(cs)),
            Geometry::Line(a, b) => Geometry::Line(a.copy(), b.copy()),
            Geometry::LineString(cs) => Geometry::LineString(copy_coords(cs)),
            Geometry::MultiLineString(ls) => Geometry::MultiLineString(copy_lines(ls)),
            Geometry::Polygon(p) => Geometry::Polygon(p.copy()),
            Geometry::MultiPolygon(ps) => Geometry::MultiPolygon(copy_polygons(ps)),
            Geometry::Rect(b) => Geometry::Rect(b.copy()),
            Geometry::Other(n, b) => Geometry::Other(
                *n,
                match b {
                    Some(x) => Some(x.copy()),
                    None => None,
                },
            ),
        }
    }
}

// ---------------------------------------------------------------------------
// Rings and boxes
// ---------------------------------------------------------------------------

/// Leads a ring back to its start where it ends elsewhere.
pub fn close_ring(ring: Vec<Coord>) -> (r: Vec<Coord>)
    ensures
        coords_view(r@) == closed_ring(coords_view(ring@)),
{
    let n = ring.len();
    if n == 0 || ring[0].same_place(&ring[n - 1]) {
        ring
    } else {
        let first = ring[0].copy();
        let mut out = ring;
        let ghost before = coords_view(out@);
        out.push(first);
        proof {
            assert(coords_view(out@) =~= before.push(before[0]));
        }
        out
    }
}

fn lower_of(a: &Real, b: &Real) -> (r: Real)
    ensures
        r@ == lower(a@, b@),
{
    if b.place() < a.place() {
        b.copy()
    } else {
        a.copy()
    }
}

fn higher_of(a: &Real, b: &Real) -> (r: Real)
    ensures
        r@ == higher(a@, b@),
{
    if b.place() > a.place() {
        b.copy()
    } else {
        a.copy()
    }
}

/// The smallest box that holds both boxes.
pub fn join_bounds(a: Option<Bounds>, b: Option<Bounds>) -> (r: Option<Bounds>)
    ensures
        opt_bounds_view(r) == joined_bounds(opt_bounds_view(a), opt_bounds_view(b)),
{
    match a {
        Some(p) => match b {
            Some(q) => Some(
                Bounds {
                    min: Coord {
                        x: lower_of(&p.min.x, &q.min.x),
                        y: lower_of(&p.min.y, &q.min.y),
                    },
                    max: Coord {
                        x: higher_of(&p.max.x, &q.max.x),
                        y: higher_of(&p.max.y, &q.max.y),
                    },
                },
            ),
            None => Some(p),
        },
        None => b,
    }
}

pub fn bounds_of_coords(cs: &Vec<Coord>) -> (r: Option<Bounds>)
    ensures
        opt_bounds_view(r) == coords_bounds(coords_view(cs@)),
{
    let n = cs.len();
    let mut b: Option<Bounds> = None;
    let mut i: usize = 0;
    let ghost v = coords_view(cs@);
    while i < n
        invariant
            i <= n,
            n == cs@.len(),
            v == coords_view(cs@),
            opt_bounds_view(b) == coords_bounds(v.take(i as int)),
        decreases n - i,
    {
        proof {
            assert(v.take(i + 1).drop_last() =~= v.take(i as int));
        }
        b = join_bounds(b, Some(Bounds { min: cs[i].copy(), max: cs[i].copy() }));
        i += 1;
    }
    proof {
        assert(v.take(n as int) =~= v);
    }
    b
}

fn bounds_of_lines(ls: &Vec<Vec<Coord>>) -> (r: Option<Bounds>)
    ensures
        opt_bounds_view(r) == lines_bounds(lines_view(ls@)),
{
    let n = ls.len();
    let mut b: Option<Bounds> = None;
    let mut i: usize = 0;
    let ghost v = lines_view(ls@);
    while i < n
        invariant
            i <= n,
            n == ls@.len(),
            v == lines_view(ls@),
            opt_bounds_view(b) == lines_bounds(v.take(i as int)),
        decreases n - i,
    {
        proof {
            assert(v.take(i + 1).drop_last() =~= v.take(i as int));
        }
        b = join_bounds(b, bounds_of_coords(&ls[i]));
        i += 1;
    }
    proof {
        assert(v.take(n as int) =~= v);
    }
    b
}

fn bounds_of_polygons(ps: &Vec<Polygon>) -> (r: Option<Bounds>)
    ensures
        opt_bounds_view(r) == polygons_bounds(polygons_view(ps@)),
{
    let n = ps.len();
    let mut b: Option<Bounds> = None;
    let mut i: usize = 0;
    let ghost v = polygons_view(ps@);
    while i < n
        invariant
            i <= n,
            n == ps@.len(),
            v == polygons_view(ps@),
            opt_bounds_view(b) == polygons_bounds(v.take(i as int)),
        decreases n - i,
    {
        proof {
            assert(v.take(i + 1).drop_last() =~= v.take(i as int));
        }
        b = join_bounds(b, bounds_of_coords(&ps[i].exterior));
        i += 1;
    }
    proof {
        assert(v.take(n as int) =~= v);
    }
    b
}

impl Geometry {
    /// The box around the geometry; a polygon counts by its exterior ring.
    pub fn bounding_rect(&self) -> (r: Option<Bounds>)
        ensures
            opt_bounds_view(r) == geometry_bounds(self@),
    {
        proof {
            reveal_with_fuel(coords_bounds, 3);
        }
        match self {
            Geometry::Point(c) => {
                proof {
                    assert(seq![c@].drop_last() =~= Seq::empty());
                }
                Some(Bounds { min: c.copy(), max: c.copy() })
            },
            Geometry::MultiPoint(cs) => bounds_of_coords(cs),
            Geometry::Line(a, b) => {
                proof {
                    assert(seq![a@, b@].drop_last() =~= seq![a@]);
                    assert(seq![a@].drop_last() =~= Seq::empty());
                }
                join_bounds(
                    Some(Bounds { min: a.copy(), max: a.copy() }),
                    Some(Bounds { min: b.copy(), max: b.copy() }),
                )
            },
            Geometry::LineString(cs) => bounds_of_coords(cs),
            Geometry::MultiLineString(ls) => bounds_of_lines(ls),
            Geometry::Polygon(p) => bounds_of_coords(&p.exterior),
            Geometry::MultiPolygon(ps) => bounds_of_polygons(ps),
            Geometry::Rect(b) => Some(b.copy()),
            Geometry::Other(_, b) => match b {
                Some(x) => Some(x.copy()),
                None => None,
            },
        }
    }
}

} // verus!
