//! GeoJSON (RFC 7946) reading and writing for layer imports and query overlays. A
//! `GeometryCollection` is not decoded.

use vstd::prelude::*;

use crate::geometry::{close_ring, copy_coords, Coord, Geometry, Polygon};
use crate::json::{Json, JsonObject};
use crate::models::AttrNode;
use crate::text::{concat, same_text};
#[allow(unused_imports)]
use crate::geometry::{
    closed_ring, coords_view, is_closed, lines_view, polygons_view, CoordView, GeometryView,
    PolygonView,
};
#[allow(unused_imports)]
use crate::json::{
    array_view, no_entries, opt_view, read_text, real_json, str_json, Entries, JsonView,
};
#[allow(unused_imports)]
use crate::models::NodeView;
#[allow(unused_imports)]
use crate::textmap::{ascending, keys, lemma_put, put};

verus! {

// ---------------------------------------------------------------------------
// Decoding: the model
// ---------------------------------------------------------------------------

/// A position: an array that starts with two numbers.
pub open spec fn coord_in(v: JsonView) -> Option<CoordView> {
    match v {
        JsonView::Array(a) => if a.len() >= 2 {
            match (a[0].as_real(), a[1].as_real()) {
                (Some(x), Some(y)) => Some(CoordView { x, y }),
                _ => None,
            }
        } else {
            None
        },
        _ => None,
    }
}

/// The positions in an array; what is none is passed over.
pub open spec fn coords_in(a: Seq<JsonView>) -> Seq<CoordView>
    decreases a.len(),
{
    if a.len() == 0 {
        Seq::empty()
    } else {
        match coord_in(a.last()) {
            Some(c) => coords_in(a.drop_last()).push(c),
            None => coords_in(a.drop_last()),
        }
    }
}

/// An array with at least so many positions.
pub open spec fn path_in(v: JsonView, least: nat) -> Option<Seq<CoordView>> {
    match v {
        JsonView::Array(a) => if coords_in(a).len() >= least {
            Some(coords_in(a))
        } else {
            None
        },
        _ => None,
    }
}

/// The lines in an array: a line has at least so many positions.
pub open spec fn paths_in(a: Seq<JsonView>, least: nat) -> Seq<Seq<CoordView>>
    decreases a.len(),
{
    if a.len() == 0 {
        Seq::empty()
    } else {
        match path_in(a.last(), least) {
            Some(l) => paths_in(a.drop_last(), least).push(l),
            None => paths_in(a.drop_last(), least),
        }
    }
}

pub open spec fn closed_rings(rings: Seq<Seq<CoordView>>) -> Seq<Seq<CoordView>> {
    rings.map_values(|r: Seq<CoordView>| closed_ring(r))
}

/// A polygon: an exterior ring, then the rings of holes; rings are closed.
pub open spec fn polygon_in(v: JsonView) -> Option<PolygonView> {
    match v {
        JsonView::Array(a) => if a.len() > 0 {
            match path_in(a[0], 3) {
                Some(exterior) => Some(
                    PolygonView {
                        exterior: closed_ring(exterior),
                        interiors: closed_rings(paths_in(a.skip(1), 3)),
                    },
                ),
                None => None,
            }
        } else {
            None
        },
        _ => None,
    }
}

pub open spec fn polygons_in(a: Seq<JsonView>) -> Seq<PolygonView>
    decreases a.len(),
{
    if a.len() == 0 {
        Seq::empty()
    } else {
        match polygon_in(a.last()) {
            Some(p) => polygons_in(a.drop_last()).push(p),
            None => polygons_in(a.drop_last()),
        }
    }
}

/// The geometry that coordinates make up under a type.
pub open spec fn shape_in(kind: Seq<char>, coords: JsonView) -> Option<GeometryView> {
    if kind == "Point"@ {
        match coord_in(coords) {
            Some(c) => Some(GeometryView::Point(c)),
            None => None,
        }
    } else if kind == "MultiPoint"@ {
        match coords {
            JsonView::Array(a) => if coords_in(a).len() > 0 {
                Some(GeometryView::MultiPoint(coords_in(a)))
            } else {
                None
            },
            _ => None,
        }
    } else if kind == "LineString"@ {
        match path_in(coords, 2) {
            Some(l) => Some(GeometryView::LineString(l)),
            None => None,
        }
    } else if kind == "MultiLineString"@ {
        match coords {
            JsonView::Array(a) => if paths_in(a, 2).len() > 0 {
                Some(GeometryView::MultiLineString(paths_in(a, 2)))
            } else {
                None
            },
            _ => None,
        }
    } else if kind == "Polygon"@ {
        match polygon_in(coords) {
            Some(p) => Some(GeometryView::Polygon(p)),
            None => None,
        }
    } else if kind == "MultiPolygon"@ {
        match coords {
            JsonView::Array(a) => if polygons_in(a).len() > 0 {
                Some(GeometryView::MultiPolygon(polygons_in(a)))
            } else {
                None
            },
            _ => None,
        }
    } else {
        None
    }
}

/// The geometry that a GeoJSON geometry object describes.
pub open spec fn geometry_in(v: JsonView) -> Option<GeometryView> {
    match (v.text_at("type"@), v.get("coordinates"@)) {
        (Some(kind), Some(coords)) => shape_in(kind, coords),
        _ => None,
    }
}

#[verifier::ext_equal]
pub struct FeatureView {
    pub geometry: GeometryView,
    pub properties: Entries,
}

/// The entries of an object; none where the value is no object.
pub open spec fn entries_or_none(v: Option<JsonView>) -> Entries {
    match v {
        Some(JsonView::Object(e)) => e,
        _ => no_entries(),
    }
}

/// The feature that a GeoJSON feature object describes.
pub open spec fn feature_in(v: JsonView) -> Option<FeatureView> {
    match v.get("geometry"@) {
        Some(g) => match geometry_in(g) {
            Some(geometry) => Some(
                FeatureView { geometry, properties: entries_or_none(v.get("properties"@)) },
            ),
            None => None,
        },
        None => None,
    }
}

pub open spec fn features_in(a: Seq<JsonView>) -> Seq<FeatureView>
    decreases a.len(),
{
    if a.len() == 0 {
        Seq::empty()
    } else {
        match feature_in(a.last()) {
            Some(f) => features_in(a.drop_last()).push(f),
            None => features_in(a.drop_last()),
        }
    }
}

pub open spec fn as_seq<T>(v: Option<T>) -> Seq<T> {
    match v {
        Some(x) => seq![x],
        None => Seq::empty(),
    }
}

/// The features of a document: a feature collection, a single feature or a bare geometry.
pub open spec fn document_in(root: JsonView) -> Result<Seq<FeatureView>, Seq<char>> {
    match root.text_at("type"@) {
        None => Err("missing geojson 'type'"@),
        Some(kind) => Ok(
            if kind == "FeatureCollection"@ {
                match root.get("features"@) {
                    Some(JsonView::Array(a)) => features_in(a),
                    _ => Seq::empty(),
                }
            } else if kind == "Feature"@ {
                as_seq(feature_in(root))
            } else {
                match geometry_in(root) {
                    Some(geometry) => seq![FeatureView { geometry, properties: no_entries() }],
                    None => Seq::empty(),
                }
            },
        ),
    }
}

// ---------------------------------------------------------------------------
// Decoding
// ---------------------------------------------------------------------------

/// One decoded feature: a geometry and its attributes.
#[derive(Debug, PartialEq)]
pub struct DecodedFeature {
    pub geometry: Geometry,
    pub properties: JsonObject,
}

impl View for DecodedFeature {
    type V = FeatureView;

    open spec fn view(&self) -> FeatureView {
        FeatureView { geometry: self.geometry@, properties: self.properties@ }
    }
}

pub open spec fn features_view(fs: Seq<DecodedFeature>) -> Seq<FeatureView> {
    fs.map_values(|f: DecodedFeature| f@)
}

pub open spec fn opt_geometry_view(g: Option<Geometry>) -> Option<GeometryView> {
    match g {
        Some(x) => Some(x@),
        None => None,
    }
}

fn coord_from(v: &Json) -> (r: Option<Coord>)
    ensures
        match r {
            Some(c) => coord_in(v@) == Some(c@),
            None => coord_in(v@) is None,
        },
{
    match v.as_array() {
        Some(a) => {
            if a.len() >= 2 {
                proof {
                    assert(array_view(a@)[0] == a@[0]@);
                    assert(array_view(a@)[1] == a@[1]@);
                }
                match (a[0].as_real(), a[1].as_real()) {
                    (Some(x), Some(y)) => Some(Coord { x, y }),
                    _ => None,
                }
            } else {
                None
            }
        },
        None => None,
    }
}

fn coords_from(a: &Vec<Json>) -> (r: Vec<Coord>)
    ensures
        coords_view(r@) == coords_in(array_view(a@)),
{
    let n = a.len();
    let ghost v = array_view(a@);
    let mut out: Vec<Coord> = Vec::new();
    let mut i: usize = 0;
    while i < n
        invariant
            i <= n,
            n == a@.len(),
            v == array_view(a@),
            coords_view(out@) == coords_in(v.take(i as int)),
        decreases n - i,
    {
        proof {
            assert(v.take(i + 1).drop_last() =~= v.take(i as int));
            assert(v.take(i + 1).last() == a@[i as int]@);
        }
        let ghost before = out@;
        match coord_from(&a[i]) {
            Some(c) => {
                out.push(c);
                proof {
                    assert(coords_view(out@) =~= coords_view(before).push(c@));
                }
            },
            None => {},
        }
        i += 1;
    }
    proof {
        assert(v.take(n as int) =~= v);
    }
    out
}

/// A line of at least so many positions: a line has two, the ring of a polygon three.
fn path_from(v: &Json, least: usize) -> (r: Option<Vec<Coord>>)
    ensures
        match r {
            Some(l) => path_in(v@, least as nat) == Some(coords_view(l@)),
            None => path_in(v@, least as nat) is None,
        },
{
    match v.as_array() {
        Some(a) => {
            let coords = coords_from(a);
            proof {
                assert(coords@.len() == coords_view(coords@).len());
            }
            if coords.len() >= least {
                Some(coords)
            } else {
                None
            }
        },
        None => None,
    }
}

fn paths_from(a: &Vec<Json>, from: usize, least: usize) -> (r: Vec<Vec<Coord>>)
    requires
        from <= a@.len(),
    ensures
        lines_view(r@) == paths_in(array_view(a@).skip(from as int), least as nat),
{
    let n = a.len();
    let ghost v = array_view(a@).skip(from as int);
    let mut out: Vec<Vec<Coord>> = Vec::new();
    let mut i: usize = from;
    while i < n
        invariant
            from <= i <= n,
            n == a@.len(),
            v == array_view(a@).skip(from as int),
            lines_view(out@) == paths_in(v.take(i - from), least as nat),
        decreases n - i,
    {
        proof {
            assert(v.take(i - from + 1).drop_last() =~= v.take(i - from));
            assert(v.take(i - from + 1).last() == a@[i as int]@);
        }
        let ghost before = out@;
        match path_from(&a[i], least) {
            Some(l) => {
                out.push(l);
                proof {
                    assert(lines_view(out@) =~= lines_view(before).push(coords_view(l@)));
                }
            },
            None => {},
        }
        i += 1;
    }
    proof {
        assert(v.take(n - from) =~= v);
    }
    out
}

fn close_rings(rings: Vec<Vec<Coord>>) -> (r: Vec<Vec<Coord>>)
    ensures
        lines_view(r@) == closed_rings(lines_view(rings@)),
{
    let mut out: Vec<Vec<Coord>> = Vec::new();
    for ring in it: rings
        invariant
            it.seq() == rings@,
            out@.len() == it.index(),
            forall|k: int|
                0 <= k < it.index() ==> coords_view((#[trigger] out@[k])@) == closed_ring(
                    coords_view(rings@[k]@),
                ),
    {
        out.push(close_ring(ring));
    }
    proof {
        assert(lines_view(out@) =~= closed_rings(lines_view(rings@)));
    }
    out
}

fn polygon_from(v: &Json) -> (r: Option<Polygon>)
    ensures
        match r {
            Some(p) => polygon_in(v@) == Some(p@),
            None => polygon_in(v@) is None,
        },
{
    match v.as_array() {
        Some(a) => {
            if a.len() == 0 {
                return None;
            }
            proof {
                assert(array_view(a@)[0] == a@[0]@);
            }
            match path_from(&a[0], 3) {
                Some(exterior) => {
                    let interiors = paths_from(a, 1, 3);
                    Some(
                        Polygon {
                            exterior: close_ring(exterior),
                            interiors: close_rings(interiors),
                        },
                    )
                },
                None => None,
            }
        },
        None => None,
    }
}

fn polygons_from(a: &Vec<Json>) -> (r: Vec<Polygon>)
    ensures
        polygons_view(r@) == polygons_in(array_view(a@)),
{
    let n = a.len();
    let ghost v = array_view(a@);
    let mut out: Vec<Polygon> = Vec::new();
    let mut i: usize = 0;
    while i < n
        invariant
            i <= n,
            n == a@.len(),
            v == array_view(a@),
            polygons_view(out@) == polygons_in(v.take(i as int)),
        decreases n - i,
    {
        proof {
            assert(v.take(i + 1).drop_last() =~= v.take(i as int));
            assert(v.take(i + 1).last() == a@[i as int]@);
        }
        let ghost before = out@;
        match polygon_from(&a[i]) {
            Some(p) => {
                out.push(p);
                proof {
                    assert(polygons_view(out@) =~= polygons_view(before).push(p@));
                }
            },
            None => {},
        }
        i += 1;
    }
    proof {
        assert(v.take(n as int) =~= v);
    }
    out
}

fn shape_from(kind: &str, coords: &Json) -> (r: Option<Geometry>)
    ensures
        opt_geometry_view(r) == shape_in(kind@, coords@),
{
    if same_text(kind, "Point") {
        match coord_from(coords) {
            Some(c) => Some(Geometry::Point(c)),
            None => None,
        }
    } else if same_text(kind, "MultiPoint") {
        match coords.as_array() {
            Some(a) => {
                let points = coords_from(a);
                proof {
                    assert(points@.len() == coords_view(points@).len());
                }
                if points.len() > 0 {
                    Some(Geometry::MultiPoint(points))
                } else {
                    None
                }
            },
            None => None,
        }
    } else if same_text(kind, "LineString") {
        match path_from(coords, 2) {
            Some(l) => Some(Geometry::LineString(l)),
            None => None,
        }
    } else if same_text(kind, "MultiLineString") {
        match coords.as_array() {
            Some(a) => {
                let lines = paths_from(a, 0, 2);
                proof {
                    assert(array_view(a@).skip(0) =~= array_view(a@));
                    assert(lines@.len() == lines_view(lines@).len());
                }
                if lines.len() > 0 {
                    Some(Geometry::MultiLineString(lines))
                } else {
                    None
                }
            },
            None => None,
        }
    } else if same_text(kind, "Polygon") {
        match polygon_from(coords) {
            Some(p) => Some(Geometry::Polygon(p)),
            None => None,
        }
    } else if same_text(kind, "MultiPolygon") {
        match coords.as_array() {
            Some(a) => {
                let polygons = polygons_from(a);
                proof {
                    assert(polygons@.len() == polygons_view(polygons@).len());
                }
                if polygons.len() > 0 {
                    Some(Geometry::MultiPolygon(polygons))
                } else {
                    None
                }
            },
            None => None,
        }
    } else {
        None
    }
}

/// Decodes a GeoJSON geometry object.
pub fn decode_geometry(v: &Json) -> (r: Option<Geometry>)
    ensures
        opt_geometry_view(r) == geometry_in(v@),
{
    match v.text_at("type") {
        Some(kind) => match v.get("coordinates") {
            Some(coords) => shape_from(kind.as_str(), coords),
            None => None,
        },
        None => None,
    }
}

/// The entries of an object; none where the value is no object.
fn entries_of(v: Option<&Json>) -> (r: JsonObject)
    ensures
        r@ == entries_or_none(
            match v {
                Some(j) => Some(j@),
                None => None,
            },
        ),
{
    match v {
        Some(j) => match j.as_object() {
            Some(o) => o.copy(),
            None => JsonObject::new(),
        },
        None => JsonObject::new(),
    }
}

fn feature_from(v: &Json) -> (r: Option<DecodedFeature>)
    ensures
        match r {
            Some(f) => feature_in(v@) == Some(f@),
            None => feature_in(v@) is None,
        },
{
    match v.get("geometry") {
        Some(g) => match decode_geometry(g) {
            Some(geometry) => Some(
                DecodedFeature { geometry, properties: entries_of(v.get("properties")) },
            ),
            None => None,
        },
        None => None,
    }
}

fn features_from(a: &Vec<Json>) -> (r: Vec<DecodedFeature>)
    ensures
        features_view(r@) == features_in(array_view(a@)),
{
    let n = a.len();
    let ghost v = array_view(a@);
    let mut out: Vec<DecodedFeature> = Vec::new();
    let mut i: usize = 0;
    while i < n
        invariant
            i <= n,
            n == a@.len(),
            v == array_view(a@),
            features_view(out@) == features_in(v.take(i as int)),
        decreases n - i,
    {
        proof {
            assert(v.take(i + 1).drop_last() =~= v.take(i as int));
            assert(v.take(i + 1).last() == a@[i as int]@);
        }
        let ghost before = out@;
        match feature_from(&a[i]) {
            Some(f) => {
                out.push(f);
                proof {
                    assert(features_view(out@) =~= features_view(before).push(f@));
                }
            },
            None => {},
        }
        i += 1;
    }
    proof {
        assert(v.take(n as int) =~= v);
    }
    out
}

pub open spec fn decoded_as(
    r: Result<Vec<DecodedFeature>, String>,
    expected: Result<Seq<FeatureView>, Seq<char>>,
) -> bool {
    match r {
        Ok(fs) => expected == Ok::<Seq<FeatureView>, Seq<char>>(features_view(fs@)),
        Err(e) => expected == Err::<Seq<FeatureView>, Seq<char>>(e@),
    }
}

/// The features of a GeoJSON document (feature collection, feature or bare geometry).
pub fn document_features(root: &Json) -> (r: Result<Vec<DecodedFeature>, String>)
    ensures
        decoded_as(r, document_in(root@)),
{
    let kind = match root.text_at("type") {
        Some(k) => k,
        None => {
            return Err("missing geojson 'type'".to_owned());
        },
    };
    if same_text(kind.as_str(), "FeatureCollection") {
        match root.get("features") {
            Some(fs) => match fs.as_array() {
                Some(a) => Ok(features_from(a)),
                None => {
                    let none: Vec<DecodedFeature> = Vec::new();
                    proof {
                        assert(features_view(none@) =~= Seq::empty());
                    }
                    Ok(none)
                },
            },
            None => {
                let none: Vec<DecodedFeature> = Vec::new();
                proof {
                    assert(features_view(none@) =~= Seq::empty());
                }
                Ok(none)
            },
        }
    } else {
        let mut out: Vec<DecodedFeature> = Vec::new();
        proof {
            assert(features_view(out@) =~= Seq::empty());
        }
        if same_text(kind.as_str(), "Feature") {
            match feature_from(root) {
                Some(f) => {
                    out.push(f);
                    proof {
                        assert(features_view(out@) =~= seq![f@]);
                    }
                },
                None => {},
            }
        } else {
            match decode_geometry(root) {
                Some(geometry) => {
                    let f = DecodedFeature { geometry, properties: JsonObject::new() };
                    out.push(f);
                    proof {
                        assert(features_view(out@) =~= seq![f@]);
                    }
                },
                None => {},
            }
        }
        Ok(out)
    }
}

/// What parsing a GeoJSON text gives, over what `serde_json` reads from it.
pub open spec fn parsed(text: Seq<char>) -> Result<Seq<FeatureView>, Seq<char>> {
    match read_text(text) {
        Ok(root) => document_in(root),
        Err(e) => Err("invalid geojson json: "@ + e),
    }
}

/// Parses a GeoJSON document.
pub fn parse_geojson(text: &str) -> (r: Result<Vec<DecodedFeature>, String>)
    ensures
        decoded_as(r, parsed(text@)),
{
    match Json::parse(text) {
        Ok(root) => document_features(&root),
        Err(e) => Err(concat("invalid geojson json: ", e.as_str())),
    }
}

// ---------------------------------------------------------------------------
// Reading a large feature collection feature by feature
// ---------------------------------------------------------------------------

/// A feature of a collection whose parts are still JSON text.
#[derive(Debug, PartialEq)]
pub struct RawFeature {
    pub geometry: Option<String>,
    pub properties: Option<String>,
}

pub struct RawView {
    pub geometry: Option<Seq<char>>,
    pub properties: Option<Seq<char>>,
}

impl View for RawFeature {
    type V = RawView;

    open spec fn view(&self) -> RawView {
        RawView { geometry: opt_view(self.geometry), properties: opt_view(self.properties) }
    }
}

pub open spec fn raws_view(raws: Seq<RawFeature>) -> Seq<RawView> {
    raws.map_values(|r: RawFeature| r@)
}

/// The attributes in a JSON text; none where it is no object.
pub open spec fn attributes_in(text: Option<Seq<char>>) -> Entries {
    match text {
        Some(t) => match read_text(t) {
            Ok(v) => entries_or_none(Some(v)),
            Err(_) => no_entries(),
        },
        None => no_entries(),
    }
}

/// What a raw feature holds: a feature, nothing that can be stored, or a complaint.
pub open spec fn raw_feature_in(raw: RawView) -> Result<Option<FeatureView>, Seq<char>> {
    match raw.geometry {
        None => Ok(None),
        Some(t) => match read_text(t) {
            Err(e) => Err("bad geometry: "@ + e),
            Ok(v) => Ok(
                match geometry_in(v) {
                    Some(geometry) => Some(
                        FeatureView { geometry, properties: attributes_in(raw.properties) },
                    ),
                    None => None,
                },
            ),
        },
    }
}

/// The features of a collection from the first on, up to a limit; the first complaint ends it.
pub open spec fn stream_in(
    raws: Seq<RawView>,
    max: Option<usize>,
    found: Seq<FeatureView>,
) -> Result<Seq<FeatureView>, Seq<char>>
    decreases raws.len(),
{
    if raws.len() == 0 || (max matches Some(m) && found.len() >= m) {
        Ok(found)
    } else {
        match raw_feature_in(raws[0]) {
            Err(e) => Err(e),
            Ok(None) => stream_in(raws.drop_first(), max, found),
            Ok(Some(f)) => stream_in(raws.drop_first(), max, found.push(f)),
        }
    }
}

/// Decodes one feature from the texts of its parts.
fn raw_feature_from(raw: &RawFeature) -> (r: Result<Option<DecodedFeature>, String>)
    ensures
        match r {
            Ok(Some(f)) => raw_feature_in(raw@) == Ok::<Option<FeatureView>, Seq<char>>(
                Some(f@),
            ),
            Ok(None) => raw_feature_in(raw@) == Ok::<Option<FeatureView>, Seq<char>>(None),
            Err(e) => raw_feature_in(raw@) == Err::<Option<FeatureView>, Seq<char>>(e@),
        },
{
    let text = match &raw.geometry {
        Some(t) => t,
        None => {
            return Ok(None);
        },
    };
    let value = match Json::parse(text.as_str()) {
        Ok(v) => v,
        Err(e) => {
            return Err(concat("bad geometry: ", e.as_str()));
        },
    };
    let geometry = match decode_geometry(&value) {
        Some(g) => g,
        None => {
            return Ok(None);
        },
    };
    let properties = match &raw.properties {
        Some(t) => match Json::parse(t.as_str()) {
            Ok(v) => entries_of(Some(&v)),
            Err(_) => JsonObject::new(),
        },
        None => JsonObject::new(),
    };
    Ok(Some(DecodedFeature { geometry, properties }))
}

/// Decodes the features of a collection one by one, so that no tree of the whole document is
/// built. A feature without a geometry that can be stored is skipped; `max_features` caps the
/// count.
pub fn parse_geojson_stream(raws: &Vec<RawFeature>, max_features: Option<usize>) -> (r: Result<
    Vec<DecodedFeature>,
    String,
>)
    ensures
        decoded_as(r, stream_in(raws_view(raws@), max_features, Seq::empty())),
{
    let n = raws.len();
    let ghost all = raws_view(raws@);
    let mut out: Vec<DecodedFeature> = Vec::new();
    let mut i: usize = 0;
    proof {
        assert(all.skip(0) =~= all);
        assert(features_view(out@) =~= Seq::empty());
    }
    while i < n
        invariant
            i <= n,
            n == raws@.len(),
            all == raws_view(raws@),
            stream_in(all.skip(i as int), max_features, features_view(out@)) == stream_in(
                all,
                max_features,
                Seq::empty(),
            ),
        decreases n - i,
    {
        proof {
            assert(features_view(out@).len() == out@.len());
            assert(all.skip(i as int)[0] == raws@[i as int]@);
            assert(all.skip(i as int).drop_first() =~= all.skip(i + 1));
        }
        match max_features {
            Some(m) => {
                if out.len() >= m {
                    return Ok(out);
                }
            },
            None => {},
        }
        let ghost before = out@;
        match raw_feature_from(&raws[i]) {
            Ok(Some(f)) => {
                out.push(f);
                proof {
                    assert(features_view(out@) =~= features_view(before).push(f@));
                }
            },
            Ok(None) => {},
            Err(e) => {
                return Err(e);
            },
        }
        i += 1;
    }
    proof {
        assert(all.skip(n as int).len() == 0);
    }
    Ok(out)
}

/// The features up to a number.
pub open spec fn first_features(fs: Seq<FeatureView>, max: usize) -> Seq<FeatureView> {
    if fs.len() <= max {
        fs
    } else {
        fs.take(max as int)
    }
}

/// A limit cuts the collection off: what is read with it is the front of what is read without it,
/// as long as the limit allows.
pub proof fn stream_keeps_limit(raws: Seq<RawView>, max: usize, found: Seq<FeatureView>)
    requires
        found.len() <= max,
    ensures
        stream_in(raws, None, found) matches Ok(fs) ==> stream_in(raws, Some(max), found) == Ok::<
            Seq<FeatureView>,
            Seq<char>,
        >(first_features(fs, max)),
        stream_in(raws, Some(max), found) matches Ok(fs) ==> fs.len() <= max,
    decreases raws.len(),
{
    if raws.len() == 0 || found.len() >= max {
        lemma_stream_extends(raws, found);
        if let Ok(fs) = stream_in(raws, None, found) {
            assert(fs.take(found.len() as int) == found);
            if fs.len() <= max {
                assert(fs =~= fs.take(found.len() as int));
            }
        }
    } else {
        match raw_feature_in(raws[0]) {
            Err(_) => {},
            Ok(None) => stream_keeps_limit(raws.drop_first(), max, found),
            Ok(Some(f)) => stream_keeps_limit(raws.drop_first(), max, found.push(f)),
        }
    }
}

proof fn lemma_stream_extends(raws: Seq<RawView>, found: Seq<FeatureView>)
    ensures
        stream_in(raws, None, found) matches Ok(fs) ==> fs.len() >= found.len() && fs.take(
            found.len() as int,
        ) == found,
    decreases raws.len(),
{
    if raws.len() == 0 {
        assert(found.take(found.len() as int) =~= found);
    } else {
        match raw_feature_in(raws[0]) {
            Err(_) => {},
            Ok(None) => lemma_stream_extends(raws.drop_first(), found),
            Ok(Some(f)) => {
                let more = found.push(f);
                lemma_stream_extends(raws.drop_first(), more);
                if let Ok(fs) = stream_in(raws, None, found) {
                    assert(fs.take(found.len() as int) =~= fs.take(more.len() as int).take(
                        found.len() as int,
                    ));
                    assert(more.take(found.len() as int) =~= found);
                }
            },
        }
    }
}

/// A part of a feature as text: the text of the value under a key; null may stand for nothing.
pub open spec fn is_text_of(text: Option<Seq<char>>, v: Option<JsonView>) -> bool {
    match (text, v) {
        (Some(t), Some(x)) => read_text(t) == Ok::<JsonView, Seq<char>>(x),
        (None, Some(x)) => x is Null,
        (None, None) => true,
        (Some(_), None) => false,
    }
}

/// The texts of the parts of a feature object.
pub open spec fn is_raw_of(raw: RawView, v: JsonView) -> bool {
    is_text_of(raw.geometry, v.get("geometry"@)) && is_text_of(
        raw.properties,
        v.get("properties"@),
    )
}

proof fn lemma_features_front(a: Seq<JsonView>)
    requires
        a.len() > 0,
    ensures
        features_in(a) == as_seq(feature_in(a[0])) + features_in(a.drop_first()),
    decreases a.len(),
{
    if a.len() == 1 {
        reveal_with_fuel(features_in, 2);
        assert(features_in(a) =~= as_seq(feature_in(a[0])) + features_in(a.drop_first()));
    } else {
        let d = a.drop_last();
        lemma_features_front(d);
        assert(a.drop_first().drop_last() =~= d.drop_first());
        assert(a.drop_first().last() == a.last());
        assert(features_in(a) =~= as_seq(feature_in(a[0])) + features_in(a.drop_first()));
    }
}

/// Reading a collection feature by feature gives the same features as reading the document as a
/// whole.
pub proof fn stream_agrees_with_document(
    raws: Seq<RawView>,
    a: Seq<JsonView>,
    found: Seq<FeatureView>,
)
    requires
        raws.len() == a.len(),
        forall|i: int| 0 <= i < a.len() ==> is_raw_of(#[trigger] raws[i], a[i]),
    ensures
        stream_in(raws, None, found) == Ok::<Seq<FeatureView>, Seq<char>>(found + features_in(a)),
    decreases a.len(),
{
    if a.len() == 0 {
        assert(found + features_in(a) =~= found);
    } else {
        let r1 = raws.drop_first();
        let a1 = a.drop_first();
        assert(is_raw_of(raws[0], a[0]));
        assert forall|i: int| 0 <= i < a1.len() implies is_raw_of(#[trigger] r1[i], a1[i]) by {
            assert(r1[i] == raws[i + 1]);
            assert(a1[i] == a[i + 1]);
        }
        lemma_features_front(a);
        match raw_feature_in(raws[0]) {
            Ok(Some(f)) => {
                assert(feature_in(a[0]) == Some(f));
                stream_agrees_with_document(r1, a1, found.push(f));
                assert(found.push(f) + features_in(a1) =~= found + features_in(a));
            },
            Ok(None) => {
                assert(feature_in(a[0]) is None);
                stream_agrees_with_document(r1, a1, found);
                assert(found + features_in(a1) =~= found + features_in(a));
            },
            Err(_) => {},
        }
    }
}

/// A GeoJSON document whose parts are still JSON text: what a collection holds, and what a feature
/// holds.
#[derive(Debug, PartialEq)]
pub struct RawDocument {
    /// The text under `type`.
    pub kind: Option<String>,
    pub features: Vec<RawFeature>,
    pub geometry: Option<String>,
    pub properties: Option<String>,
}

pub struct RawDocumentView {
    pub kind: Option<Seq<char>>,
    pub features: Seq<RawView>,
    pub geometry: Option<Seq<char>>,
    pub properties: Option<Seq<char>>,
}

impl View for RawDocument {
    type V = RawDocumentView;

    open spec fn view(&self) -> RawDocumentView {
        RawDocumentView {
            kind: opt_view(self.kind),
            features: raws_view(self.features@),
            geometry: opt_view(self.geometry),
            properties: opt_view(self.properties),
        }
    }
}

/// The raw features of a document: a feature is its own only one, any other document has those of
/// its collection.
pub open spec fn raws_in(doc: RawDocumentView) -> Seq<RawView> {
    if doc.kind == Some("Feature"@) {
        seq![RawView { geometry: doc.geometry, properties: doc.properties }]
    } else {
        doc.features
    }
}

/// The raw features of a document.
pub fn document_raws(doc: RawDocument) -> (r: Vec<RawFeature>)
    ensures
        raws_view(r@) == raws_in(doc@),
{
    let RawDocument { kind, features, geometry, properties } = doc;
    match kind {
        Some(k) => {
            if same_text(k.as_str(), "Feature") {
                let mut out: Vec<RawFeature> = Vec::new();
                let f = RawFeature { geometry, properties };
                out.push(f);
                proof {
                    assert(raws_view(out@) =~= seq![f@]);
                }
                return out;
            }
        },
        None => {},
    }
    features
}

/// The parts of a document as text.
pub open spec fn is_raw_document(doc: RawDocumentView, root: JsonView) -> bool {
    &&& doc.kind == root.text_at("type"@)
    &&& is_text_of(doc.geometry, root.get("geometry"@))
    &&& is_text_of(doc.properties, root.get("properties"@))
    &&& match root.get("features"@) {
        Some(JsonView::Array(a)) => doc.features.len() == a.len() && forall|i: int|
            0 <= i < a.len() ==> is_raw_of(#[trigger] doc.features[i], a[i]),
        _ => doc.features.len() == 0,
    }
}

/// Reading a collection or a feature piece by piece gives the same features as reading the
/// document as a whole.
pub proof fn pieces_agree_with_document(doc: RawDocumentView, root: JsonView)
    requires
        is_raw_document(doc, root),
        doc.kind == Some("FeatureCollection"@) || doc.kind == Some("Feature"@),
    ensures
        stream_in(raws_in(doc), None, Seq::empty()) == document_in(root),
{
    reveal_strlit("FeatureCollection");
    reveal_strlit("Feature");
    assert("FeatureCollection"@.len() != "Feature"@.len());
    let none = Seq::<FeatureView>::empty();
    if doc.kind == Some("Feature"@) {
        let raws = raws_in(doc);
        let a = seq![root];
        assert(is_raw_of(raws[0], a[0]));
        stream_agrees_with_document(raws, a, none);
        lemma_features_front(a);
        assert(a.drop_first() =~= Seq::empty());
        assert(none + features_in(a) =~= as_seq(feature_in(root)));
    } else {
        match root.get("features"@) {
            Some(JsonView::Array(a)) => {
                stream_agrees_with_document(doc.features, a, none);
                assert(none + features_in(a) =~= features_in(a));
            },
            _ => {
                assert(doc.features =~= Seq::empty());
            },
        }
    }
}

// ---------------------------------------------------------------------------
// Encoding
// ---------------------------------------------------------------------------

pub open spec fn coord_out(c: CoordView) -> JsonView {
    JsonView::Array(seq![real_json(c.x), real_json(c.y)])
}

pub open spec fn coords_out(cs: Seq<CoordView>) -> Seq<JsonView> {
    cs.map_values(|c: CoordView| coord_out(c))
}

pub open spec fn path_out(cs: Seq<CoordView>) -> JsonView {
    JsonView::Array(coords_out(cs))
}

pub open spec fn paths_out(ls: Seq<Seq<CoordView>>) -> Seq<JsonView> {
    ls.map_values(|l: Seq<CoordView>| path_out(l))
}

pub open spec fn polygon_out(p: PolygonView) -> JsonView {
    JsonView::Array(seq![path_out(p.exterior)] + paths_out(p.interiors))
}

pub open spec fn polygons_out(ps: Seq<PolygonView>) -> Seq<JsonView> {
    ps.map_values(|p: PolygonView| polygon_out(p))
}

pub open spec fn shape_out(kind: Seq<char>, coords: JsonView) -> JsonView {
    JsonView::Object(
        put(put(no_entries(), "type"@, str_json(kind)), "coordinates"@, coords),
    )
}

/// The GeoJSON geometry object of a geometry; a kind that GeoJSON lacks, or that is not
/// decoded, is written as an empty collection.
pub open spec fn geometry_out(g: GeometryView) -> JsonView {
    match g {
        GeometryView::Point(c) => shape_out("Point"@, coord_out(c)),
        GeometryView::MultiPoint(cs) => shape_out("MultiPoint"@, path_out(cs)),
        GeometryView::Line(a, b) => shape_out("LineString"@, path_out(seq![a, b])),
        GeometryView::LineString(cs) => shape_out("LineString"@, path_out(cs)),
        GeometryView::MultiLineString(ls) => shape_out(
            "MultiLineString"@,
            JsonView::Array(paths_out(ls)),
        ),
        GeometryView::Polygon(p) => shape_out("Polygon"@, polygon_out(p)),
        GeometryView::MultiPolygon(ps) => shape_out(
            "MultiPolygon"@,
            JsonView::Array(polygons_out(ps)),
        ),
        _ => JsonView::Object(
            put(
                put(no_entries(), "type"@, str_json("GeometryCollection"@)),
                "geometries"@,
                JsonView::Array(Seq::empty()),
            ),
        ),
    }
}

fn coord_json(c: &Coord) -> (r: Json)
    ensures
        r@ == coord_out(c@),
{
    let mut pair: Vec<Json> = Vec::new();
    pair.push(c.x.to_json());
    pair.push(c.y.to_json());
    proof {
        assert(array_view(pair@) =~= seq![real_json(c.x@), real_json(c.y@)]);
    }
    Json::array(pair)
}

fn linestring_json(ls: &Vec<Coord>) -> (r: Json)
    ensures
        r@ == path_out(coords_view(ls@)),
{
    let n = ls.len();
    let mut out: Vec<Json> = Vec::new();
    let mut i: usize = 0;
    while i < n
        invariant
            i <= n,
            n == ls@.len(),
            out@.len() == i,
            forall|k: int| 0 <= k < i ==> (#[trigger] out@[k])@ == coord_out(ls@[k]@),
        decreases n - i,
    {
        out.push(coord_json(&ls[i]));
        i += 1;
    }
    proof {
        assert(array_view(out@) =~= coords_out(coords_view(ls@)));
    }
    Json::array(out)
}

fn linestrings_json(ls: &Vec<Vec<Coord>>) -> (r: Vec<Json>)
    ensures
        array_view(r@) == paths_out(lines_view(ls@)),
{
    let n = ls.len();
    let mut out: Vec<Json> = Vec::new();
    let mut i: usize = 0;
    while i < n
        invariant
            i <= n,
            n == ls@.len(),
            out@.len() == i,
            forall|k: int| 0 <= k < i ==> (#[trigger] out@[k])@ == path_out(coords_view(ls@[k]@)),
        decreases n - i,
    {
        out.push(linestring_json(&ls[i]));
        i += 1;
    }
    proof {
        assert(array_view(out@) =~= paths_out(lines_view(ls@)));
    }
    out
}

fn polygon_json(poly: &Polygon) -> (r: Json)
    ensures
        r@ == polygon_out(poly@),
{
    let mut rings: Vec<Json> = Vec::new();
    rings.push(linestring_json(&poly.exterior));
    let mut holes = linestrings_json(&poly.interiors);
    let ghost h = array_view(holes@);
    rings.append(&mut holes);
    proof {
        assert(array_view(rings@) =~= seq![path_out(poly@.exterior)] + h);
    }
    Json::array(rings)
}

fn polygons_json(ps: &Vec<Polygon>) -> (r: Json)
    ensures
        r@ == JsonView::Array(polygons_out(polygons_view(ps@))),
{
    let n = ps.len();
    let mut out: Vec<Json> = Vec::new();
    let mut i: usize = 0;
    while i < n
        invariant
            i <= n,
            n == ps@.len(),
            out@.len() == i,
            forall|k: int| 0 <= k < i ==> (#[trigger] out@[k])@ == polygon_out(ps@[k]@),
        decreases n - i,
    {
        out.push(polygon_json(&ps[i]));
        i += 1;
    }
    proof {
        assert(array_view(out@) =~= polygons_out(polygons_view(ps@)));
    }
    Json::array(out)
}

fn shape_json(kind: &str, coords: Json) -> (r: Json)
    ensures
        r@ == shape_out(kind@, coords@),
{
    let mut o = JsonObject::new();
    o.set("type", Json::text(kind));
    o.set("coordinates", coords);
    Json::object(o)
}

/// Writes a geometry as a GeoJSON geometry object.
pub fn geometry_to_geojson(g: &Geometry) -> (r: Json)
    ensures
        r@ == geometry_out(g@),
{
    match g {
        Geometry::Point(c) => shape_json("Point", coord_json(c)),
        Geometry::MultiPoint(cs) => shape_json("MultiPoint", linestring_json(cs)),
        Geometry::Line(a, b) => {
            let mut cs: Vec<Coord> = Vec::new();
            cs.push(a.copy());
            cs.push(b.copy());
            proof {
                assert(coords_view(cs@) =~= seq![a@, b@]);
            }
            shape_json("LineString", linestring_json(&cs))
        },
        Geometry::LineString(cs) => shape_json("LineString", linestring_json(cs)),
        Geometry::MultiLineString(ls) => shape_json(
            "MultiLineString",
            Json::array(linestrings_json(ls)),
        ),
        Geometry::Polygon(p) => shape_json("Polygon", polygon_json(p)),
        Geometry::MultiPolygon(ps) => shape_json("MultiPolygon", polygons_json(ps)),
        _ => {
            let none: Vec<Json> = Vec::new();
            proof {
                assert(array_view(none@) =~= Seq::empty());
            }
            let mut o = JsonObject::new();
            o.set("type", Json::text("GeometryCollection"));
            o.set("geometries", Json::array(none));
            Json::object(o)
        },
    }
}

// ---------------------------------------------------------------------------
// What is written is read back
// ---------------------------------------------------------------------------

pub open spec fn ring_ok(r: Seq<CoordView>) -> bool {
    r.len() >= 3 && is_closed(r)
}

pub open spec fn polygon_ok(p: PolygonView) -> bool {
    &&& ring_ok(p.exterior)
    &&& forall|i: int| 0 <= i < p.interiors.len() ==> ring_ok(#[trigger] p.interiors[i])
}

/// The geometries that GeoJSON can hold: lines of two vertices at least, closed rings of three
/// at least, and no empty collection.
pub open spec fn storable(g: GeometryView) -> bool {
    match g {
        GeometryView::Point(_) => true,
        GeometryView::MultiPoint(cs) => cs.len() > 0,
        GeometryView::LineString(cs) => cs.len() >= 2,
        GeometryView::MultiLineString(ls) => ls.len() > 0 && forall|i: int|
            0 <= i < ls.len() ==> (#[trigger] ls[i]).len() >= 2,
        GeometryView::Polygon(p) => polygon_ok(p),
        GeometryView::MultiPolygon(ps) => ps.len() > 0 && forall|i: int|
            0 <= i < ps.len() ==> polygon_ok(#[trigger] ps[i]),
        _ => false,
    }
}

proof fn lemma_coords_back(cs: Seq<CoordView>)
    ensures
        coords_in(coords_out(cs)) == cs,
    decreases cs.len(),
{
    if cs.len() > 0 {
        lemma_coords_back(cs.drop_last());
        assert(coords_out(cs).drop_last() =~= coords_out(cs.drop_last()));
        assert(coords_out(cs).last() == coord_out(cs.last()));
        assert(coord_in(coord_out(cs.last())) == Some(cs.last()));
        assert(cs =~= cs.drop_last().push(cs.last()));
    } else {
        assert(coords_out(cs) =~= Seq::empty());
        assert(cs =~= Seq::empty());
    }
}

proof fn lemma_paths_back(ls: Seq<Seq<CoordView>>, least: nat)
    requires
        forall|i: int| 0 <= i < ls.len() ==> (#[trigger] ls[i]).len() >= least,
    ensures
        paths_in(paths_out(ls), least) == ls,
    decreases ls.len(),
{
    if ls.len() > 0 {
        assert forall|i: int| 0 <= i < ls.drop_last().len() implies (
        #[trigger] ls.drop_last()[i]).len() >= least by {
            assert(ls[i].len() >= least);
        }
        lemma_paths_back(ls.drop_last(), least);
        assert(paths_out(ls).drop_last() =~= paths_out(ls.drop_last()));
        assert(paths_out(ls).last() == path_out(ls.last()));
        lemma_coords_back(ls.last());
        assert(ls[ls.len() - 1].len() >= least);
        assert(ls =~= ls.drop_last().push(ls.last()));
    } else {
        assert(paths_out(ls) =~= Seq::empty());
        assert(ls =~= Seq::empty());
    }
}

proof fn lemma_polygon_back(p: PolygonView)
    requires
        polygon_ok(p),
    ensures
        polygon_in(polygon_out(p)) == Some(p),
{
    let a = seq![path_out(p.exterior)] + paths_out(p.interiors);
    lemma_coords_back(p.exterior);
    assert(a.skip(1) =~= paths_out(p.interiors));
    assert forall|i: int| 0 <= i < p.interiors.len() implies (#[trigger] p.interiors[i]).len()
        >= 3 by {
        assert(ring_ok(p.interiors[i]));
    }
    lemma_paths_back(p.interiors, 3);
    assert(closed_rings(p.interiors) =~= p.interiors) by {
        assert forall|i: int| 0 <= i < p.interiors.len() implies closed_rings(p.interiors)[i]
            == p.interiors[i] by {
            assert(ring_ok(p.interiors[i]));
        }
    }
}

proof fn lemma_polygons_back(ps: Seq<PolygonView>)
    requires
        forall|i: int| 0 <= i < ps.len() ==> polygon_ok(#[trigger] ps[i]),
    ensures
        polygons_in(polygons_out(ps)) == ps,
    decreases ps.len(),
{
    if ps.len() > 0 {
        assert forall|i: int| 0 <= i < ps.drop_last().len() implies polygon_ok(
            #[trigger] ps.drop_last()[i],
        ) by {
            assert(polygon_ok(ps[i]));
        }
        lemma_polygons_back(ps.drop_last());
        assert(polygons_out(ps).drop_last() =~= polygons_out(ps.drop_last()));
        assert(polygons_out(ps).last() == polygon_out(ps.last()));
        assert(polygon_ok(ps[ps.len() - 1]));
        lemma_polygon_back(ps.last());
        assert(ps =~= ps.drop_last().push(ps.last()));
    } else {
        assert(polygons_out(ps) =~= Seq::empty());
        assert(ps =~= Seq::empty());
    }
}

proof fn lemma_shape_fields(kind: Seq<char>, coords: JsonView)
    ensures
        shape_out(kind, coords).text_at("type"@) == Some(kind),
        shape_out(kind, coords).get("coordinates"@) == Some(coords),
{
    reveal_strlit("type");
    reveal_strlit("coordinates");
    assert("type"@.len() != "coordinates"@.len());
    assert(ascending(keys(no_entries())));
    lemma_put(no_entries(), "type"@, str_json(kind));
    lemma_put(put(no_entries(), "type"@, str_json(kind)), "coordinates"@, coords);
}

/// Decoding what was written gives the geometry back.
pub proof fn decode_after_encode(g: GeometryView)
    requires
        storable(g),
    ensures
        geometry_in(geometry_out(g)) == Some(g),
{
    reveal_strlit("Point");
    reveal_strlit("MultiPoint");
    reveal_strlit("LineString");
    reveal_strlit("MultiLineString");
    reveal_strlit("Polygon");
    reveal_strlit("MultiPolygon");
    assert("Point"@.len() == 5 && "MultiPoint"@.len() == 10 && "LineString"@.len() == 10);
    assert("MultiLineString"@.len() == 15 && "Polygon"@.len() == 7 && "MultiPolygon"@.len() == 12);
    assert("MultiPoint"@[0] == 'M' && "LineString"@[0] == 'L');
    match g {
        GeometryView::Point(c) => {
            lemma_shape_fields("Point"@, coord_out(c));
            assert(coord_in(coord_out(c)) == Some(c));
        },
        GeometryView::MultiPoint(cs) => {
            lemma_shape_fields("MultiPoint"@, path_out(cs));
            lemma_coords_back(cs);
        },
        GeometryView::LineString(cs) => {
            lemma_shape_fields("LineString"@, path_out(cs));
            lemma_coords_back(cs);
        },
        GeometryView::MultiLineString(ls) => {
            lemma_shape_fields("MultiLineString"@, JsonView::Array(paths_out(ls)));
            lemma_paths_back(ls, 2);
        },
        GeometryView::Polygon(p) => {
            lemma_shape_fields("Polygon"@, polygon_out(p));
            lemma_polygon_back(p);
        },
        GeometryView::MultiPolygon(ps) => {
            lemma_shape_fields("MultiPolygon"@, JsonView::Array(polygons_out(ps)));
            lemma_polygons_back(ps);
        },
        _ => {},
    }
}

proof fn lemma_closed(r: Seq<CoordView>)
    requires
        r.len() >= 3,
    ensures
        ring_ok(closed_ring(r)),
{
}

proof fn lemma_paths_long(a: Seq<JsonView>, least: nat)
    ensures
        forall|i: int|
            0 <= i < paths_in(a, least).len() ==> (#[trigger] paths_in(a, least)[i]).len()
                >= least,
    decreases a.len(),
{
    if a.len() > 0 {
        lemma_paths_long(a.drop_last(), least);
        let before = paths_in(a.drop_last(), least);
        assert forall|i: int| 0 <= i < paths_in(a, least).len() implies (#[trigger] paths_in(
            a,
            least,
        )[i]).len() >= least by {
            if i < before.len() {
                assert(paths_in(a, least)[i] == before[i]);
            }
        }
    }
}

proof fn lemma_polygon_ok(v: JsonView)
    ensures
        polygon_in(v) matches Some(p) ==> polygon_ok(p),
{
    if let Some(p) = polygon_in(v) {
        let a = v->Array_0;
        lemma_closed(path_in(a[0], 3)->0);
        lemma_paths_long(a.skip(1), 3);
        assert forall|i: int| 0 <= i < p.interiors.len() implies ring_ok(
            #[trigger] p.interiors[i],
        ) by {
            lemma_closed(paths_in(a.skip(1), 3)[i]);
        }
    }
}

proof fn lemma_polygons_ok(a: Seq<JsonView>)
    ensures
        forall|i: int| 0 <= i < polygons_in(a).len() ==> polygon_ok(#[trigger] polygons_in(a)[i]),
    decreases a.len(),
{
    if a.len() > 0 {
        lemma_polygons_ok(a.drop_last());
        lemma_polygon_ok(a.last());
        let before = polygons_in(a.drop_last());
        assert forall|i: int| 0 <= i < polygons_in(a).len() implies polygon_ok(
            #[trigger] polygons_in(a)[i],
        ) by {
            if i < before.len() {
                assert(polygons_in(a)[i] == before[i]);
            }
        }
    }
}

/// Whatever is decoded can be stored, so that writing it and decoding it again changes nothing.
pub proof fn decoded_is_storable(v: JsonView)
    ensures
        geometry_in(v) matches Some(g) ==> storable(g) && geometry_in(geometry_out(g)) == Some(g),
{
    if let Some(g) = geometry_in(v) {
        let coords = v.get("coordinates"@)->0;
        match g {
            GeometryView::MultiLineString(_) => lemma_paths_long(coords->Array_0, 2),
            GeometryView::Polygon(_) => lemma_polygon_ok(coords),
            GeometryView::MultiPolygon(_) => lemma_polygons_ok(coords->Array_0),
            _ => {},
        }
        decode_after_encode(g);
    }
}

// ---------------------------------------------------------------------------
// Decimation for display
// ---------------------------------------------------------------------------

/// The step from the kept vertex at `a` to the next kept one at `b`: the second is far from the
/// first or is the last of all, and what lies between them is not far from the first.
pub open spec fn kept_step<F: Fn(&Coord, &Coord) -> bool>(
    pts: Seq<Coord>,
    a: int,
    b: int,
    far: F,
) -> bool {
    &&& b == pts.len() - 1 || call_ensures(far, (&pts[a], &pts[b]), true)
    &&& forall|i: int|
        #![trigger pts[i]]
        a < i < b ==> call_ensures(far, (&pts[a], &pts[i]), false)
}

/// Which vertices are kept: the first, every one that is far from the one kept before it, and
/// the last.
pub open spec fn keeps<F: Fn(&Coord, &Coord) -> bool>(
    pts: Seq<Coord>,
    kept: Seq<usize>,
    far: F,
) -> bool {
    &&& pts.len() == 0 <==> kept.len() == 0
    &&& kept.len() > 0 ==> kept[0] == 0 && kept[kept.len() - 1] == pts.len() - 1
    &&& forall|j: int| 0 <= j < kept.len() ==> (#[trigger] kept[j]) < pts.len()
    &&& forall|j: int, k: int| 0 <= j < k < kept.len() ==> #[trigger] kept[j] < #[trigger] kept[k]
    &&& forall|j: int, k: int|
        0 <= j && j + 1 == k && k < kept.len() ==> kept_step(
            pts,
            (#[trigger] kept[j]) as int,
            (#[trigger] kept[k]) as int,
            far,
        )
}

fn keep<F: Fn(&Coord, &Coord) -> bool>(pts: &Vec<Coord>, far: &F) -> (r: Vec<usize>)
    requires
        forall|a: &Coord, b: &Coord| call_requires(*far, (a, b)),
    ensures
        keeps(pts@, r@, *far),
{
    let n = pts.len();
    let mut out: Vec<usize> = Vec::new();
    if n == 0 {
        return out;
    }
    out.push(0);
    let mut last: usize = 0;
    let mut i: usize = 1;
    while i < n
        invariant
            1 <= i <= n,
            n == pts@.len(),
            forall|a: &Coord, b: &Coord| call_requires(*far, (a, b)),
            out@.len() > 0,
            out@[0] == 0,
            last == out@[out@.len() - 1],
            last < i,
            i == n ==> last == n - 1,
            forall|j: int| 0 <= j < out@.len() ==> (#[trigger] out@[j]) < i,
            forall|j: int, k: int|
                0 <= j < k < out@.len() ==> #[trigger] out@[j] < #[trigger] out@[k],
            forall|j: int, k: int|
                0 <= j && j + 1 == k && k < out@.len() ==> kept_step(
                    pts@,
                    (#[trigger] out@[j]) as int,
                    (#[trigger] out@[k]) as int,
                    *far,
                ),
            forall|k: int|
                #![trigger pts@[k]]
                last < k < i ==> call_ensures(*far, (&pts@[last as int], &pts@[k]), false),
        decreases n - i,
    {
        let keep_it = if i == n - 1 {
            true
        } else {
            far(&pts[last], &pts[i])
        };
        if keep_it {
            proof {
                assert(kept_step(pts@, last as int, i as int, *far));
            }
            out.push(i);
            last = i;
        }
        i += 1;
    }
    out
}

/// The vertices at the given places.
pub open spec fn picked(pts: Seq<CoordView>, kept: Seq<usize>) -> Seq<CoordView> {
    kept.map_values(|i: usize| pts[i as int])
}

/// A decimated line: the kept vertices, or the line itself where fewer than two are kept.
pub open spec fn thinned<F: Fn(&Coord, &Coord) -> bool>(
    pts: Seq<Coord>,
    out: Seq<CoordView>,
    far: F,
) -> bool {
    exists|kept: Seq<usize>| #[trigger]
        keeps(pts, kept, far) && out == (if kept.len() >= 2 {
            picked(coords_view(pts), kept)
        } else {
            coords_view(pts)
        })
}

fn dec_line<F: Fn(&Coord, &Coord) -> bool>(ls: &Vec<Coord>, far: &F) -> (r: Vec<Coord>)
    requires
        forall|a: &Coord, b: &Coord| call_requires(*far, (a, b)),
    ensures
        thinned(ls@, coords_view(r@), *far),
{
    let kept = keep(ls, far);
    if kept.len() < 2 {
        return copy_coords(ls);
    }
    let n = kept.len();
    let mut out: Vec<Coord> = Vec::new();
    let mut j: usize = 0;
    while j < n
        invariant
            j <= n,
            n == kept@.len(),
            keeps(ls@, kept@, *far),
            out@.len() == j,
            forall|k: int| 0 <= k < j ==> (#[trigger] out@[k])@ == ls@[kept@[k] as int]@,
        decreases n - j,
    {
        out.push(ls[kept[j]].copy());
        j += 1;
    }
    proof {
        assert(coords_view(out@) =~= picked(coords_view(ls@), kept@));
    }
    out
}

/// What decimation makes of a geometry: lines lose vertices, all else stays.
pub open spec fn decimated<F: Fn(&Coord, &Coord) -> bool>(
    g: Geometry,
    out: GeometryView,
    far: F,
) -> bool {
    match g {
        Geometry::LineString(ls) => out matches GeometryView::LineString(l) && thinned(ls@, l, far),
        Geometry::MultiLineString(ls) => out matches GeometryView::MultiLineString(l) && l.len()
            == ls@.len() && forall|i: int|
            0 <= i < ls@.len() ==> thinned(ls@[i]@, #[trigger] l[i], far),
        _ => out == g@,
    }
}

/// Drops the vertices of lines that are not far from the last kept one, for display; the first
/// and the last vertex of a line always stay. `far` tells whether a vertex (its second argument)
/// is far enough from a kept one (its first) to be kept.
pub fn decimate_geometry<F: Fn(&Coord, &Coord) -> bool>(g: &Geometry, far: F) -> (r: Geometry)
    requires
        forall|a: &Coord, b: &Coord| call_requires(far, (a, b)),
    ensures
        decimated(*g, r@, far),
{
    match g {
        Geometry::LineString(ls) => Geometry::LineString(dec_line(ls, &far)),
        Geometry::MultiLineString(ls) => {
            let n = ls.len();
            let mut out: Vec<Vec<Coord>> = Vec::new();
            let mut i: usize = 0;
            while i < n
                invariant
                    i <= n,
                    n == ls@.len(),
                    forall|a: &Coord, b: &Coord| call_requires(far, (a, b)),
                    out@.len() == i,
                    forall|k: int|
                        0 <= k < i ==> thinned(ls@[k]@, coords_view((#[trigger] out@[k])@), far),
                decreases n - i,
            {
                out.push(dec_line(&ls[i], &far));
                i += 1;
            }
            proof {
                assert forall|k: int| 0 <= k < ls@.len() implies thinned(
                    ls@[k]@,
                    #[trigger] lines_view(out@)[k],
                    far,
                ) by {
                    assert(lines_view(out@)[k] == coords_view(out@[k]@));
                }
            }
            Geometry::MultiLineString(out)
        },
        _ => g.copy(),
    }
}

/// A decimated line keeps its first and its last vertex, and has no more vertices than before.
pub proof fn thinned_keeps_ends<F: Fn(&Coord, &Coord) -> bool>(
    pts: Seq<Coord>,
    out: Seq<CoordView>,
    far: F,
)
    requires
        thinned(pts, out, far),
        pts.len() > 0,
    ensures
        0 < out.len() <= pts.len(),
        out[0] == pts[0]@,
        out.last() == pts.last()@,
{
    let kept = choose|kept: Seq<usize>| #[trigger]
        keeps(pts, kept, far) && out == (if kept.len() >= 2 {
            picked(coords_view(pts), kept)
        } else {
            coords_view(pts)
        });
    lemma_kept_count(pts, kept, far, kept.len() - 1);
}

proof fn lemma_kept_count<F: Fn(&Coord, &Coord) -> bool>(
    pts: Seq<Coord>,
    kept: Seq<usize>,
    far: F,
    j: int,
)
    requires
        keeps(pts, kept, far),
        0 <= j < kept.len(),
    ensures
        kept[j] >= j,
    decreases j,
{
    if j > 0 {
        lemma_kept_count(pts, kept, far, j - 1);
    }
}

/// The geometry of a node as GeoJSON: its spatial geometry, else its position.
pub open spec fn node_geometry_out(n: NodeView) -> Option<JsonView> {
    match n.geometry {
        Some(g) => Some(geometry_out(g)),
        None => match n.point {
            Some(c) => Some(geometry_out(GeometryView::Point(c))),
            None => None,
        },
    }
}

/// The geometry of a stored node as a GeoJSON geometry object.
pub fn node_geometry_geojson(node: &AttrNode) -> (r: Option<Json>)
    ensures
        match r {
            Some(j) => node_geometry_out(node@) == Some(j@),
            None => node_geometry_out(node@) is None,
        },
{
    match &node.geometry {
        Some(g) => Some(geometry_to_geojson(g)),
        None => match &node.point {
            Some(c) => Some(shape_json("Point", coord_json(c))),
            None => None,
        },
    }
}

} // verus!
