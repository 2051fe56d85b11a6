//! Encoding GeoJSON: what is written for each kind of geometry.

use vstd::prelude::*;

#[allow(unused_imports)]
use crate::geometry::{CoordView, GeometryView, PolygonView};
#[allow(unused_imports)]
use crate::json::{no_entries, read_text, str_json, JsonView, NumberView};
#[allow(unused_imports)]
use crate::models::geojson::{
    coord_out, document_in, geometry_out, parsed, path_out, paths_out, polygon_out, polygons_out,
    FeatureView,
};
#[allow(unused_imports)]
use crate::textmap::{has_key, keys, lemma_put, lookup, put};

verus! {

/// A position: the longitude, then the latitude.
pub open spec fn is_position(v: JsonView, c: CoordView) -> bool {
    v == JsonView::Array(
        seq![
            JsonView::Number(NumberView::Float(c.x)),
            JsonView::Number(NumberView::Float(c.y)),
        ],
    )
}

/// Positions, one for each vertex.
pub open spec fn are_positions(v: JsonView, cs: Seq<CoordView>) -> bool {
    v matches JsonView::Array(a) && a.len() == cs.len() && forall|i: int|
        0 <= i < a.len() ==> is_position(#[trigger] a[i], cs[i])
}

/// Paths, one for each line.
pub open spec fn are_paths(v: JsonView, ls: Seq<Seq<CoordView>>) -> bool {
    v matches JsonView::Array(a) && a.len() == ls.len() && forall|i: int|
        0 <= i < a.len() ==> are_positions(#[trigger] a[i], ls[i])
}

/// The rings of a polygon: the outer one, then the inner ones.
pub open spec fn are_rings(v: JsonView, p: PolygonView) -> bool {
    are_paths(v, seq![p.exterior] + p.interiors)
}

/// An object of two members, its type and one more.
pub open spec fn is_shape(v: JsonView, kind: Seq<char>, key: Seq<char>, inner: JsonView) -> bool {
    &&& v matches JsonView::Object(e) && e.len() == 2
    &&& v.get("type"@) == Some(JsonView::Str(kind))
    &&& v.get(key) == Some(inner)
}

proof fn lemma_shape(kind: Seq<char>, key: Seq<char>, inner: JsonView)
    requires
        key != "type"@,
    ensures
        is_shape(
            JsonView::Object(put(put(no_entries(), "type"@, str_json(kind)), key, inner)),
            kind,
            key,
            inner,
        ),
{
    assert(keys(no_entries()) =~= Seq::empty());
    let e = put(no_entries(), "type"@, str_json(kind));
    lemma_put(no_entries(), "type"@, str_json(kind));
    lemma_put(e, key, inner);
    assert(lookup(no_entries(), key) is None);
    assert(lookup(e, key) == lookup(no_entries(), key));
    assert(!has_key(e, key) && !has_key(no_entries(), "type"@));
    assert(lookup(put(e, key, inner), "type"@) == lookup(e, "type"@));
}

/// A geometry is written with the name of its kind and its coordinates, longitude first, vertex by
/// vertex, line by line, and for an area the outer ring before the inner ones.
pub proof fn geometries_are_written_by_kind(g: GeometryView) -> (v: JsonView)
    ensures
        match g {
            GeometryView::Point(c) => is_shape(geometry_out(g), "Point"@, "coordinates"@, v)
                && is_position(v, c),
            GeometryView::MultiPoint(cs) => is_shape(
                geometry_out(g),
                "MultiPoint"@,
                "coordinates"@,
                v,
            ) && are_positions(v, cs),
            GeometryView::Line(a, b) => is_shape(
                geometry_out(g),
                "LineString"@,
                "coordinates"@,
                v,
            ) && are_positions(v, seq![a, b]),
            GeometryView::LineString(cs) => is_shape(
                geometry_out(g),
                "LineString"@,
                "coordinates"@,
                v,
            ) && are_positions(v, cs),
            GeometryView::MultiLineString(ls) => is_shape(
                geometry_out(g),
                "MultiLineString"@,
                "coordinates"@,
                v,
            ) && are_paths(v, ls),
            GeometryView::Polygon(p) => is_shape(
                geometry_out(g),
                "Polygon"@,
                "coordinates"@,
                v,
            ) && are_rings(v, p),
            GeometryView::MultiPolygon(ps) => is_shape(
                geometry_out(g),
                "MultiPolygon"@,
                "coordinates"@,
                v,
            ) && (v matches JsonView::Array(a) && a.len() == ps.len() && forall|i: int|
                0 <= i < a.len() ==> are_rings(#[trigger] a[i], ps[i])),
            _ => is_shape(geometry_out(g), "GeometryCollection"@, "geometries"@, v) && v
                == JsonView::Array(Seq::empty()),
        },
{
    reveal_strlit("type");
    reveal_strlit("coordinates");
    reveal_strlit("geometries");
    assert("type"@.len() == 4 && "coordinates"@.len() == 11 && "geometries"@.len() == 10);
    let key = if g is Rect || g is Other {
        "geometries"@
    } else {
        "coordinates"@
    };
    let v = geometry_out(g).get(key)->0;
    lemma_members(g);
    v
}

proof fn lemma_members(g: GeometryView)
    ensures
        match g {
            GeometryView::Rect(_) => is_shape(
                geometry_out(g),
                "GeometryCollection"@,
                "geometries"@,
                JsonView::Array(Seq::empty()),
            ),
            GeometryView::Other(_, _) => is_shape(
                geometry_out(g),
                "GeometryCollection"@,
                "geometries"@,
                JsonView::Array(Seq::empty()),
            ),
            GeometryView::Point(c) => is_shape(
                geometry_out(g),
                "Point"@,
                "coordinates"@,
                coord_out(c),
            ),
            GeometryView::MultiPoint(cs) => is_shape(
                geometry_out(g),
                "MultiPoint"@,
                "coordinates"@,
                path_out(cs),
            ),
            GeometryView::Line(a, b) => is_shape(
                geometry_out(g),
                "LineString"@,
                "coordinates"@,
                path_out(seq![a, b]),
            ),
            GeometryView::LineString(cs) => is_shape(
                geometry_out(g),
                "LineString"@,
                "coordinates"@,
                path_out(cs),
            ),
            GeometryView::MultiLineString(ls) => is_shape(
                geometry_out(g),
                "MultiLineString"@,
                "coordinates"@,
                JsonView::Array(paths_out(ls)),
            ),
            GeometryView::Polygon(p) => is_shape(
                geometry_out(g),
                "Polygon"@,
                "coordinates"@,
                polygon_out(p),
            ),
            GeometryView::MultiPolygon(ps) => is_shape(
                geometry_out(g),
                "MultiPolygon"@,
                "coordinates"@,
                JsonView::Array(polygons_out(ps)),
            ),
        },
{
    reveal_strlit("type");
    reveal_strlit("coordinates");
    reveal_strlit("geometries");
    assert("type"@.len() == 4 && "coordinates"@.len() == 11 && "geometries"@.len() == 10);
    match g {
        GeometryView::Point(c) => lemma_shape(
            "Point"@,
            "coordinates"@,
            coord_out(c),
        ),
        GeometryView::MultiPoint(cs) => lemma_shape(
            "MultiPoint"@,
            "coordinates"@,
            path_out(cs),
        ),
        GeometryView::Line(a, b) => lemma_shape(
            "LineString"@,
            "coordinates"@,
            path_out(seq![a, b]),
        ),
        GeometryView::LineString(cs) => lemma_shape(
            "LineString"@,
            "coordinates"@,
            path_out(cs),
        ),
        GeometryView::MultiLineString(ls) => lemma_shape(
            "MultiLineString"@,
            "coordinates"@,
            JsonView::Array(paths_out(ls)),
        ),
        GeometryView::Polygon(p) => lemma_shape(
            "Polygon"@,
            "coordinates"@,
            polygon_out(p),
        ),
        GeometryView::MultiPolygon(ps) => lemma_shape(
            "MultiPolygon"@,
            "coordinates"@,
            JsonView::Array(polygons_out(ps)),
        ),
        _ => lemma_shape(
            "GeometryCollection"@,
            "geometries"@,
            JsonView::Array(Seq::empty()),
        ),
    }
}

/// A text that is not JSON is refused with the reader's complaint; any other is decoded as a
/// document.
pub proof fn a_text_is_decoded_where_it_is_json(text: Seq<char>)
    ensures
        match read_text(text) {
            Ok(root) => parsed(text) == document_in(root),
            Err(e) => parsed(text) == Err::<Seq<FeatureView>, Seq<char>>(
                "invalid geojson json: "@ + e,
            ),
        },
{
}

} // verus!
