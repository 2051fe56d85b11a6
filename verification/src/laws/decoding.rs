//! Reading GeoJSON: what positions, lines, rings, geometries and features are taken from a
//! document, and what is passed over.

use vstd::prelude::*;

#[allow(unused_imports)]
use crate::geometry::{CoordView, GeometryView, PolygonView};
#[allow(unused_imports)]
use crate::floats::int_real;
#[allow(unused_imports)]
use crate::json::{rank, JsonView, NumberView};
#[allow(unused_imports)]
use crate::models::geojson::{
    closed_rings, coord_in, coords_in, document_in, features_in, geometry_in, path_in, paths_in,
    polygon_in, polygons_in, FeatureView,
};

verus! {

/// The bits of a JSON number as a float.
pub open spec fn is_number(v: JsonView, bits: u64) -> bool {
    ||| v == JsonView::Number(NumberView::Float(bits))
    ||| exists|n: u64| #[trigger] int_real(n as int) == bits && v == JsonView::Number(
        NumberView::PosInt(n),
    )
    ||| exists|n: i64| #[trigger] int_real(n as int) == bits && v == JsonView::Number(
        NumberView::NegInt(n),
    )
}

/// A position: an array of two values or more, of which the first two are numbers. What follows
/// them, such as an altitude, is passed over.
pub open spec fn is_position(v: JsonView, c: CoordView) -> bool {
    v matches JsonView::Array(a) && a.len() >= 2 && is_number(a[0], c.x) && is_number(a[1], c.y)
}

/// Whether a value can be read as a position.
pub open spec fn has_position(v: JsonView) -> bool {
    v matches JsonView::Array(a) && a.len() >= 2 && a[0] is Number && a[1] is Number
}

/// Values of which each is a position.
pub open spec fn are_positions(vs: Seq<JsonView>, cs: Seq<CoordView>) -> bool {
    vs.len() == cs.len() && forall|i: int|
        0 <= i < vs.len() ==> is_position(#[trigger] vs[i], cs[i])
}

proof fn lemma_number(v: JsonView)
    ensures
        v is Number <==> v.as_real() is Some,
        v.as_real() matches Some(b) ==> is_number(v, b),
        forall|b: u64| #[trigger] is_number(v, b) ==> v.as_real() == Some(b),
{
}

proof fn lemma_position(v: JsonView)
    ensures
        has_position(v) <==> coord_in(v) is Some,
        coord_in(v) matches Some(c) ==> is_position(v, c),
        forall|c: CoordView| #[trigger] is_position(v, c) ==> coord_in(v) == Some(c),
{
    if let JsonView::Array(a) = v {
        if a.len() >= 2 {
            lemma_number(a[0]);
            lemma_number(a[1]);
        }
    }
}

/// A point is read from any array that starts with two numbers, however long it is.
pub proof fn a_point_is_its_first_two_numbers(v: JsonView, a: Seq<JsonView>, c: CoordView)
    requires
        v.text_at("type"@) == Some("Point"@),
        v.get("coordinates"@) == Some(JsonView::Array(a)),
        a.len() >= 2,
        is_number(a[0], c.x),
        is_number(a[1], c.y),
    ensures
        geometry_in(v) == Some(GeometryView::Point(c)),
{
    lemma_number(a[0]);
    lemma_number(a[1]);
}

proof fn lemma_kinds()
    ensures
        "Point"@ != "MultiPoint"@,
        "Point"@ != "LineString"@,
        "Point"@ != "MultiLineString"@,
        "Point"@ != "Polygon"@,
        "Point"@ != "MultiPolygon"@,
        "MultiPoint"@ != "LineString"@,
        "MultiPoint"@ != "MultiLineString"@,
        "MultiPoint"@ != "Polygon"@,
        "MultiPoint"@ != "MultiPolygon"@,
        "LineString"@ != "MultiLineString"@,
        "LineString"@ != "Polygon"@,
        "LineString"@ != "MultiPolygon"@,
        "MultiLineString"@ != "Polygon"@,
        "MultiLineString"@ != "MultiPolygon"@,
        "Polygon"@ != "MultiPolygon"@,
{
    reveal_strlit("Point");
    reveal_strlit("MultiPoint");
    reveal_strlit("LineString");
    reveal_strlit("MultiLineString");
    reveal_strlit("Polygon");
    reveal_strlit("MultiPolygon");
    assert("Point"@.len() == 5 && "MultiPoint"@.len() == 10 && "LineString"@.len() == 10
        && "MultiLineString"@.len() == 15 && "Polygon"@.len() == 7 && "MultiPolygon"@.len() == 12);
    assert("MultiPoint"@[0] == 'M' && "LineString"@[0] == 'L');
}

proof fn lemma_coords(vs: Seq<JsonView>)
    ensures
        are_positions(vs.filter(|v: JsonView| has_position(v)), coords_in(vs)),
    decreases vs.len(),
{
    reveal(Seq::filter);
    let p = |v: JsonView| has_position(v);
    if vs.len() > 0 {
        let d = vs.drop_last();
        lemma_coords(d);
        lemma_position(vs.last());
        let good = vs.filter(p);
        assert forall|i: int| 0 <= i < good.len() implies is_position(
            #[trigger] good[i],
            coords_in(vs)[i],
        ) by {
            if i < d.filter(p).len() {
                assert(is_position(d.filter(p)[i], coords_in(d)[i]));
            }
        }
    }
}

proof fn lemma_positions_unique(vs: Seq<JsonView>, a: Seq<CoordView>, b: Seq<CoordView>)
    requires
        are_positions(vs, a),
        are_positions(vs, b),
    ensures
        a == b,
{
    assert forall|i: int| 0 <= i < a.len() implies a[i] == b[i] by {
        lemma_position(vs[i]);
        assert(is_position(vs[i], a[i]));
        assert(is_position(vs[i], b[i]));
    }
    assert(a =~= b);
}

/// Several points or a line are read from the positions among the values, in order; a value that
/// is no position is passed over. There have to be as many positions as the kind asks for.
pub proof fn positions_are_read_in_order(v: JsonView, vs: Seq<JsonView>, cs: Seq<CoordView>)
    requires
        v.get("coordinates"@) == Some(JsonView::Array(vs)),
        are_positions(vs.filter(|x: JsonView| has_position(x)), cs),
    ensures
        v.text_at("type"@) == Some("MultiPoint"@) ==> geometry_in(v) == (if cs.len() >= 1 {
            Some(GeometryView::MultiPoint(cs))
        } else {
            None
        }),
        v.text_at("type"@) == Some("LineString"@) ==> geometry_in(v) == (if cs.len() >= 2 {
            Some(GeometryView::LineString(cs))
        } else {
            None
        }),
{
    lemma_kinds();
    lemma_coords(vs);
    lemma_positions_unique(vs.filter(|x: JsonView| has_position(x)), cs, coords_in(vs));
}

/// A path: an array with enough positions among its values.
pub open spec fn is_path(v: JsonView, cs: Seq<CoordView>, least: nat) -> bool {
    v matches JsonView::Array(vs) && cs.len() >= least && are_positions(
        vs.filter(|x: JsonView| has_position(x)),
        cs,
    )
}

/// Whether a value can be read as a path.
pub open spec fn has_path(v: JsonView, least: nat) -> bool {
    v matches JsonView::Array(vs) && vs.filter(|x: JsonView| has_position(x)).len() >= least
}

pub open spec fn are_paths(vs: Seq<JsonView>, ls: Seq<Seq<CoordView>>, least: nat) -> bool {
    vs.len() == ls.len() && forall|i: int|
        0 <= i < vs.len() ==> is_path(#[trigger] vs[i], ls[i], least)
}

proof fn lemma_path(v: JsonView, least: nat)
    ensures
        has_path(v, least) <==> path_in(v, least) is Some,
        path_in(v, least) matches Some(l) ==> is_path(v, l, least),
        forall|l: Seq<CoordView>| #[trigger]
            is_path(v, l, least) ==> path_in(v, least) == Some(l),
{
    if let JsonView::Array(vs) = v {
        lemma_coords(vs);
        assert forall|l: Seq<CoordView>| #[trigger] is_path(v, l, least) implies path_in(v, least)
            == Some(l) by {
            lemma_positions_unique(
                vs.filter(|x: JsonView| has_position(x)),
                l,
                coords_in(vs),
            );
        }
    }
}

proof fn lemma_paths(vs: Seq<JsonView>, least: nat)
    ensures
        are_paths(vs.filter(|v: JsonView| has_path(v, least)), paths_in(vs, least), least),
    decreases vs.len(),
{
    reveal(Seq::filter);
    let p = |v: JsonView| has_path(v, least);
    if vs.len() > 0 {
        let d = vs.drop_last();
        lemma_paths(d, least);
        lemma_path(vs.last(), least);
        let good = vs.filter(p);
        assert forall|i: int| 0 <= i < good.len() implies is_path(
            #[trigger] good[i],
            paths_in(vs, least)[i],
            least,
        ) by {
            if i < d.filter(p).len() {
                assert(is_path(d.filter(p)[i], paths_in(d, least)[i], least));
            }
        }
    }
}

proof fn lemma_paths_unique(
    vs: Seq<JsonView>,
    a: Seq<Seq<CoordView>>,
    b: Seq<Seq<CoordView>>,
    least: nat,
)
    requires
        are_paths(vs, a, least),
        are_paths(vs, b, least),
    ensures
        a == b,
{
    assert forall|i: int| 0 <= i < a.len() implies a[i] == b[i] by {
        lemma_path(vs[i], least);
        assert(is_path(vs[i], a[i], least));
        assert(is_path(vs[i], b[i], least));
    }
    assert(a =~= b);
}

/// Several lines are read from the values that hold two positions or more, in order.
pub proof fn lines_are_read_in_order(v: JsonView, vs: Seq<JsonView>, ls: Seq<Seq<CoordView>>)
    requires
        v.text_at("type"@) == Some("MultiLineString"@),
        v.get("coordinates"@) == Some(JsonView::Array(vs)),
        are_paths(vs.filter(|x: JsonView| has_path(x, 2)), ls, 2),
    ensures
        geometry_in(v) == (if ls.len() >= 1 {
            Some(GeometryView::MultiLineString(ls))
        } else {
            None
        }),
{
    lemma_kinds();
    lemma_paths(vs, 2);
    lemma_paths_unique(vs.filter(|x: JsonView| has_path(x, 2)), ls, paths_in(vs, 2), 2);
}

/// A ring: a path of three positions or more, closed with its first position where it does not
/// end there.
pub open spec fn is_ring(v: JsonView, ring: Seq<CoordView>) -> bool {
    exists|cs: Seq<CoordView>| #[trigger]
        is_path(v, cs, 3) && ring == (if rank(cs[0].x) == rank(cs.last().x) && rank(cs[0].y)
            == rank(cs.last().y) {
            cs
        } else {
            cs.push(cs[0])
        })
}

pub open spec fn are_rings(vs: Seq<JsonView>, rings: Seq<Seq<CoordView>>) -> bool {
    vs.len() == rings.len() && forall|i: int|
        0 <= i < vs.len() ==> is_ring(#[trigger] vs[i], rings[i])
}

/// A polygon: rings of which the first is the outline, and those of the others that are rings the
/// holes.
pub open spec fn is_polygon(v: JsonView, p: PolygonView) -> bool {
    v matches JsonView::Array(vs) && vs.len() > 0 && is_ring(vs[0], p.exterior) && are_rings(
        vs.skip(1).filter(|x: JsonView| has_path(x, 3)),
        p.interiors,
    )
}

/// Whether a value can be read as a polygon.
pub open spec fn has_polygon(v: JsonView) -> bool {
    v matches JsonView::Array(vs) && vs.len() > 0 && has_path(vs[0], 3)
}

pub open spec fn are_polygons(vs: Seq<JsonView>, ps: Seq<PolygonView>) -> bool {
    vs.len() == ps.len() && forall|i: int|
        0 <= i < vs.len() ==> is_polygon(#[trigger] vs[i], ps[i])
}

proof fn lemma_ring(v: JsonView, ring: Seq<CoordView>)
    requires
        is_ring(v, ring),
    ensures
        path_in(v, 3) matches Some(cs) && ring == crate::geometry::closed_ring(cs),
{
    let cs = choose|cs: Seq<CoordView>| #[trigger]
        is_path(v, cs, 3) && ring == (if rank(cs[0].x) == rank(cs.last().x) && rank(cs[0].y)
            == rank(cs.last().y) {
            cs
        } else {
            cs.push(cs[0])
        });
    lemma_path(v, 3);
}

proof fn lemma_polygon(v: JsonView)
    ensures
        has_polygon(v) <==> polygon_in(v) is Some,
        polygon_in(v) matches Some(p) ==> is_polygon(v, p),
        forall|p: PolygonView| #[trigger] is_polygon(v, p) ==> polygon_in(v) == Some(p),
{
    if let JsonView::Array(vs) = v {
        if vs.len() > 0 {
            lemma_path(vs[0], 3);
            let rest = vs.skip(1);
            let good = rest.filter(|x: JsonView| has_path(x, 3));
            lemma_paths(rest, 3);
            let ls = paths_in(rest, 3);
            if let Some(p) = polygon_in(v) {
                let cs = path_in(vs[0], 3)->0;
                assert(is_path(vs[0], cs, 3));
                assert(is_ring(vs[0], p.exterior));
                assert forall|i: int| 0 <= i < good.len() implies is_ring(
                    #[trigger] good[i],
                    p.interiors[i],
                ) by {
                    assert(is_path(good[i], ls[i], 3));
                }
            }
            assert forall|p: PolygonView| #[trigger] is_polygon(v, p) implies polygon_in(v) == Some(
                p,
            ) by {
                lemma_ring(vs[0], p.exterior);
                assert forall|i: int| 0 <= i < good.len() implies p.interiors[i]
                    == #[trigger] closed_rings(ls)[i] by {
                    assert(is_ring(good[i], p.interiors[i]));
                    lemma_ring(good[i], p.interiors[i]);
                    assert(is_path(good[i], ls[i], 3));
                    lemma_path(good[i], 3);
                }
                assert(p.interiors =~= closed_rings(ls));
            }
        }
    }
}

proof fn lemma_polygons(vs: Seq<JsonView>)
    ensures
        are_polygons(vs.filter(|v: JsonView| has_polygon(v)), polygons_in(vs)),
    decreases vs.len(),
{
    reveal(Seq::filter);
    let p = |v: JsonView| has_polygon(v);
    if vs.len() > 0 {
        let d = vs.drop_last();
        lemma_polygons(d);
        lemma_polygon(vs.last());
        let good = vs.filter(p);
        assert forall|i: int| 0 <= i < good.len() implies is_polygon(
            #[trigger] good[i],
            polygons_in(vs)[i],
        ) by {
            if i < d.filter(p).len() {
                assert(is_polygon(d.filter(p)[i], polygons_in(d)[i]));
            }
        }
    }
}

/// A polygon is read from its rings: outline first, then the holes, in order.
pub proof fn a_polygon_is_its_rings(v: JsonView, x: JsonView, p: PolygonView)
    requires
        v.text_at("type"@) == Some("Polygon"@),
        v.get("coordinates"@) == Some(x),
    ensures
        is_polygon(x, p) ==> geometry_in(v) == Some(GeometryView::Polygon(p)),
        !has_polygon(x) ==> geometry_in(v) is None,
{
    lemma_kinds();
    lemma_polygon(x);
}

/// Several polygons are read from the values that are polygons, in order.
pub proof fn polygons_are_read_in_order(v: JsonView, vs: Seq<JsonView>, ps: Seq<PolygonView>)
    requires
        v.text_at("type"@) == Some("MultiPolygon"@),
        v.get("coordinates"@) == Some(JsonView::Array(vs)),
        are_polygons(vs.filter(|x: JsonView| has_polygon(x)), ps),
    ensures
        geometry_in(v) == (if ps.len() >= 1 {
            Some(GeometryView::MultiPolygon(ps))
        } else {
            None
        }),
{
    lemma_kinds();
    lemma_polygons(vs);
    let good = vs.filter(|x: JsonView| has_polygon(x));
    assert forall|i: int| 0 <= i < ps.len() implies ps[i] == polygons_in(vs)[i] by {
        lemma_polygon(good[i]);
        assert(is_polygon(good[i], ps[i]));
        assert(is_polygon(good[i], polygons_in(vs)[i]));
    }
    assert(ps =~= polygons_in(vs));
}

// ---------------------------------------------------------------------------
// Longer positions
// ---------------------------------------------------------------------------

/// Two coordinate arrays, nested so and so deep, that agree but for what follows the first two
/// values of their positions.
pub open spec fn same_positions(depth: nat, v: JsonView, w: JsonView) -> bool
    decreases depth,
{
    match (v, w) {
        (JsonView::Array(a), JsonView::Array(b)) => if depth == 0 {
            a.len() >= 2 && b.len() >= 2 && a[0] == b[0] && a[1] == b[1]
        } else {
            a.len() == b.len() && forall|i: int|
                0 <= i < a.len() ==> same_positions(
                    (depth - 1) as nat,
                    #[trigger] a[i],
                    b[i],
                )
        },
        _ => false,
    }
}

proof fn lemma_longer_coords(a: Seq<JsonView>, b: Seq<JsonView>)
    requires
        a.len() == b.len(),
        forall|i: int| 0 <= i < a.len() ==> same_positions(0, #[trigger] a[i], b[i]),
    ensures
        coords_in(a) == coords_in(b),
    decreases a.len(),
{
    if a.len() > 0 {
        assert forall|i: int| 0 <= i < a.drop_last().len() implies same_positions(
            0,
            #[trigger] a.drop_last()[i],
            b.drop_last()[i],
        ) by {
            assert(same_positions(0, a[i], b[i]));
        }
        lemma_longer_coords(a.drop_last(), b.drop_last());
        assert(same_positions(0, a[a.len() - 1], b[a.len() - 1]));
    }
}

proof fn lemma_longer_path(v: JsonView, w: JsonView, least: nat)
    requires
        same_positions(1, v, w),
    ensures
        path_in(v, least) == path_in(w, least),
{
    if let (JsonView::Array(a), JsonView::Array(b)) = (v, w) {
        lemma_longer_coords(a, b);
    }
}

proof fn lemma_longer_paths(a: Seq<JsonView>, b: Seq<JsonView>, least: nat)
    requires
        a.len() == b.len(),
        forall|i: int| 0 <= i < a.len() ==> same_positions(1, #[trigger] a[i], b[i]),
    ensures
        paths_in(a, least) == paths_in(b, least),
    decreases a.len(),
{
    if a.len() > 0 {
        assert forall|i: int| 0 <= i < a.drop_last().len() implies same_positions(
            1,
            #[trigger] a.drop_last()[i],
            b.drop_last()[i],
        ) by {
            assert(same_positions(1, a[i], b[i]));
        }
        lemma_longer_paths(a.drop_last(), b.drop_last(), least);
        assert(same_positions(1, a[a.len() - 1], b[a.len() - 1]));
        lemma_longer_path(a.last(), b.last(), least);
    }
}

proof fn lemma_longer_polygon(v: JsonView, w: JsonView)
    requires
        same_positions(2, v, w),
    ensures
        polygon_in(v) == polygon_in(w),
{
    if let (JsonView::Array(a), JsonView::Array(b)) = (v, w) {
        if a.len() > 0 {
            assert(same_positions(1, a[0], b[0]));
            lemma_longer_path(a[0], b[0], 3);
            assert forall|i: int| 0 <= i < a.skip(1).len() implies same_positions(
                1,
                #[trigger] a.skip(1)[i],
                b.skip(1)[i],
            ) by {
                assert(same_positions(1, a[i + 1], b[i + 1]));
            }
            lemma_longer_paths(a.skip(1), b.skip(1), 3);
        }
    }
}

proof fn lemma_longer_polygons(a: Seq<JsonView>, b: Seq<JsonView>)
    requires
        a.len() == b.len(),
        forall|i: int| 0 <= i < a.len() ==> same_positions(2, #[trigger] a[i], b[i]),
    ensures
        polygons_in(a) == polygons_in(b),
    decreases a.len(),
{
    if a.len() > 0 {
        assert forall|i: int| 0 <= i < a.drop_last().len() implies same_positions(
            2,
            #[trigger] a.drop_last()[i],
            b.drop_last()[i],
        ) by {
            assert(same_positions(2, a[i], b[i]));
        }
        lemma_longer_polygons(a.drop_last(), b.drop_last());
        assert(same_positions(2, a[a.len() - 1], b[a.len() - 1]));
        lemma_longer_polygon(a.last(), b.last());
    }
}

/// What follows the first two values of the positions of a geometry does not change what it is
/// read as.
pub proof fn altitudes_are_passed_over(v: JsonView, w: JsonView, x: JsonView, y: JsonView)
    requires
        v.text_at("type"@) == w.text_at("type"@),
        v.get("coordinates"@) == Some(x),
        w.get("coordinates"@) == Some(y),
        match v.text_at("type"@) {
            Some(kind) => {
                ||| kind == "Point"@ && same_positions(0, x, y)
                ||| (kind == "MultiPoint"@ || kind == "LineString"@) && same_positions(1, x, y)
                ||| (kind == "MultiLineString"@ || kind == "Polygon"@) && same_positions(2, x, y)
                ||| kind == "MultiPolygon"@ && same_positions(3, x, y)
            },
            None => false,
        },
    ensures
        geometry_in(v) == geometry_in(w),
{
    lemma_kinds();
    let kind = v.text_at("type"@)->0;
    if let (JsonView::Array(a), JsonView::Array(b)) = (x, y) {
        if kind == "MultiPoint"@ || kind == "LineString"@ {
            lemma_longer_coords(a, b);
        } else if kind == "MultiLineString"@ {
            lemma_longer_paths(a, b, 2);
        } else if kind == "Polygon"@ {
            lemma_longer_polygon(x, y);
        } else if kind == "MultiPolygon"@ {
            lemma_longer_polygons(a, b);
        }
    }
}

// ---------------------------------------------------------------------------
// Features
// ---------------------------------------------------------------------------

/// Whether a value is a feature with a geometry that can be read.
pub open spec fn has_shape(v: JsonView) -> bool {
    v.get("geometry"@) matches Some(g) && geometry_in(g) is Some
}

/// A feature: the geometry and the attributes that a value holds; without attributes where they
/// are no object.
pub open spec fn is_feature_of(v: JsonView, f: FeatureView) -> bool {
    &&& v.get("geometry"@) matches Some(g) && geometry_in(g) == Some(f.geometry)
    &&& match v.get("properties"@) {
        Some(JsonView::Object(e)) => f.properties == e,
        _ => f.properties.len() == 0,
    }
}

proof fn lemma_features(vs: Seq<JsonView>)
    ensures
        features_in(vs).len() == vs.filter(|v: JsonView| has_shape(v)).len(),
        forall|i: int|
            0 <= i < features_in(vs).len() ==> is_feature_of(
                vs.filter(|v: JsonView| has_shape(v))[i],
                #[trigger] features_in(vs)[i],
            ),
    decreases vs.len(),
{
    reveal(Seq::filter);
    let p = |v: JsonView| has_shape(v);
    if vs.len() > 0 {
        let d = vs.drop_last();
        lemma_features(d);
        assert forall|i: int| 0 <= i < features_in(vs).len() implies is_feature_of(
            vs.filter(p)[i],
            #[trigger] features_in(vs)[i],
        ) by {
            if i < features_in(d).len() {
                assert(is_feature_of(d.filter(p)[i], features_in(d)[i]));
            }
        }
    }
}

/// A collection gives one feature for each of its values with a geometry that can be read, in
/// order, with that geometry and its attributes.
pub proof fn a_collection_gives_its_features(root: JsonView, vs: Seq<JsonView>)
    requires
        root.text_at("type"@) == Some("FeatureCollection"@),
        root.get("features"@) == Some(JsonView::Array(vs)),
    ensures
        ({
            let good = vs.filter(|v: JsonView| has_shape(v));
            document_in(root) matches Ok(fs) && fs.len() == good.len() && forall|i: int|
                0 <= i < good.len() ==> is_feature_of(good[i], #[trigger] fs[i])
        }),
{
    lemma_features(vs);
}

/// A collection whose values all have a geometry that can be read gives as many features.
pub proof fn no_feature_is_lost(root: JsonView, vs: Seq<JsonView>)
    requires
        root.text_at("type"@) == Some("FeatureCollection"@),
        root.get("features"@) == Some(JsonView::Array(vs)),
        forall|i: int| 0 <= i < vs.len() ==> has_shape(#[trigger] vs[i]),
    ensures
        document_in(root) matches Ok(fs) && fs.len() == vs.len() && forall|i: int|
            0 <= i < vs.len() ==> is_feature_of(vs[i], #[trigger] fs[i]),
    decreases vs.len(),
{
    a_collection_gives_its_features(root, vs);
    lemma_all_kept(vs);
}

proof fn lemma_all_kept(vs: Seq<JsonView>)
    requires
        forall|i: int| 0 <= i < vs.len() ==> has_shape(#[trigger] vs[i]),
    ensures
        vs.filter(|v: JsonView| has_shape(v)) == vs,
    decreases vs.len(),
{
    reveal(Seq::filter);
    if vs.len() > 0 {
        assert forall|i: int| 0 <= i < vs.drop_last().len() implies has_shape(
            #[trigger] vs.drop_last()[i],
        ) by {
            assert(has_shape(vs[i]));
        }
        lemma_all_kept(vs.drop_last());
        assert(has_shape(vs[vs.len() - 1]));
        assert(vs.drop_last().push(vs.last()) =~= vs);
    }
}

/// A single feature, and a bare geometry, give one feature where the geometry can be read; a
/// document without a type is refused.
pub proof fn other_documents_give_one_feature(root: JsonView)
    ensures
        root.text_at("type"@) is None ==> document_in(root) is Err,
        root.text_at("type"@) is Some ==> document_in(root) is Ok,
        root.text_at("type"@) == Some("Feature"@) ==> match document_in(root) {
            Ok(fs) => fs.len() == (if has_shape(root) {
                1int
            } else {
                0
            }) && (has_shape(root) ==> is_feature_of(root, fs[0])),
            Err(_) => false,
        },
        root.text_at("type"@) matches Some(kind) && kind != "Feature"@ && kind
            != "FeatureCollection"@ ==> match (document_in(root), geometry_in(root)) {
            (Ok(fs), Some(g)) => fs.len() == 1 && fs[0].geometry == g && fs[0].properties.len()
                == 0,
            (Ok(fs), None) => fs.len() == 0,
            _ => false,
        },
{
    reveal_strlit("Feature");
    reveal_strlit("FeatureCollection");
    assert("Feature"@.len() == 7 && "FeatureCollection"@.len() == 17);
}

} // verus!
