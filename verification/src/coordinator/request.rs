//! Reading a request: the method, its parameters, their defaults and limits.

use vstd::prelude::*;

use crate::geometry::{Coord, Geometry};
use crate::json::{Json, JsonObject, Real};
use crate::models::geojson::decode_geometry;
use crate::text::{concat, concat3, same_text, trimmed};
#[allow(unused_imports)]
use crate::datasources::actor::opt_json_view;
#[allow(unused_imports)]
use crate::geometry::{CoordView, GeometryView};
#[allow(unused_imports)]
use crate::json::{array_view, lemma_json_view, no_entries, opt_view, rank, JsonView};
#[allow(unused_imports)]
use crate::models::geojson::geometry_in;
#[allow(unused_imports)]
use crate::text::{texts, trim};

verus! {

// ---------------------------------------------------------------------------
// Requests
// ---------------------------------------------------------------------------

/// Where a query looks.
#[derive(Debug, PartialEq)]
pub enum Region {
    /// A box by two of its corners.
    Bbox(Coord, Coord),
    Radius { center: Coord, radius_m: Real },
    Nearest { center: Coord, k: usize },
    Contains(Geometry),
    Intersects(Geometry),
    /// Around every feature of the reference layers or classes.
    Near { layers: Vec<String>, classes: Vec<String>, radius_m: Real },
}

pub enum RegionView {
    Bbox(CoordView, CoordView),
    Radius { center: CoordView, radius_m: u64 },
    Nearest { center: CoordView, k: usize },
    Contains(GeometryView),
    Intersects(GeometryView),
    Near { layers: Seq<Seq<char>>, classes: Seq<Seq<char>>, radius_m: u64 },
}

impl View for Region {
    type V = RegionView;

    open spec fn view(&self) -> RegionView {
        match self {
            Region::Bbox(a, b) => RegionView::Bbox(a@, b@),
            Region::Radius { center, radius_m } => RegionView::Radius {
                center: center@,
                radius_m: radius_m@,
            },
            Region::Nearest { center, k } => RegionView::Nearest { center: center@, k: *k },
            Region::Contains(g) => RegionView::Contains(g@),
            Region::Intersects(g) => RegionView::Intersects(g@),
            Region::Near { layers, classes, radius_m } => RegionView::Near {
                layers: texts(layers@),
                classes: texts(classes@),
                radius_m: radius_m@,
            },
        }
    }
}

/// A spatial query with its filters and the shape of its result.
#[derive(Debug, PartialEq)]
pub struct Query {
    pub predicate: String,
    pub region: Region,
    pub layers: Vec<String>,
    pub classes: Vec<String>,
    pub attributes: Vec<Json>,
    pub limit: usize,
    pub output: String,
}

#[verifier::ext_equal]
pub struct QueryView {
    pub predicate: Seq<char>,
    pub region: RegionView,
    pub layers: Seq<Seq<char>>,
    pub classes: Seq<Seq<char>>,
    pub attributes: Seq<JsonView>,
    pub limit: usize,
    pub output: Seq<char>,
}

impl View for Query {
    type V = QueryView;

    open spec fn view(&self) -> QueryView {
        QueryView {
            predicate: self.predicate@,
            region: self.region@,
            layers: texts(self.layers@),
            classes: texts(self.classes@),
            attributes: array_view(self.attributes@),
            limit: self.limit,
            output: self.output@,
        }
    }
}

/// A request that a client sends.
#[allow(inconsistent_fields)]
#[derive(Debug, PartialEq)]
pub enum Request {
    Status,
    NlQuery { text: String, viewport: Json },
    ListLayers,
    DeleteLayer { id: String },
    ReorderLayer { id: String, direction: String },
    MergeLayer { name: String },
    ImportFile { path: String, name: Option<String>, display_name: Option<String> },
    ImportDataset { dataset_id: String, name: Option<String>, display_name: Option<String> },
    SourceKinds,
    SourceList,
    SourceGet { id: String },
    SourceAdd { kind: String, label: String, config: Json },
    SourceUpdate {
        id: String,
        label: Option<String>,
        config: Option<Json>,
        enabled: Option<bool>,
    },
    SourceDelete { id: String },
    SourceDiscover { id: String },
    SourceFetch { id: String },
    GetTile { layer: String, z: u8, x: u32, y: u32 },
    SpatialDsl(Query),
    SemanticSearch { text: String, scope: String, layer: Option<String>, limit: usize },
    ReindexEmbeddings,
    SpatialQuery { min: Coord, max: Coord, layer: Option<String>, limit: usize },
    GetLayerGeojson { layer: String, limit: u32, simplify: Option<Real>, drop_props: bool },
    GetFeature { id: String },
}

#[allow(inconsistent_fields)]
pub enum RequestView {
    Status,
    NlQuery { text: Seq<char>, viewport: JsonView },
    ListLayers,
    DeleteLayer { id: Seq<char> },
    ReorderLayer { id: Seq<char>, direction: Seq<char> },
    MergeLayer { name: Seq<char> },
    ImportFile { path: Seq<char>, name: Option<Seq<char>>, display_name: Option<Seq<char>> },
    ImportDataset {
        dataset_id: Seq<char>,
        name: Option<Seq<char>>,
        display_name: Option<Seq<char>>,
    },
    SourceKinds,
    SourceList,
    SourceGet { id: Seq<char> },
    SourceAdd { kind: Seq<char>, label: Seq<char>, config: JsonView },
    SourceUpdate {
        id: Seq<char>,
        label: Option<Seq<char>>,
        config: Option<JsonView>,
        enabled: Option<bool>,
    },
    SourceDelete { id: Seq<char> },
    SourceDiscover { id: Seq<char> },
    SourceFetch { id: Seq<char> },
    GetTile { layer: Seq<char>, z: u8, x: u32, y: u32 },
    SpatialDsl(QueryView),
    SemanticSearch { text: Seq<char>, scope: Seq<char>, layer: Option<Seq<char>>, limit: usize },
    ReindexEmbeddings,
    SpatialQuery { min: CoordView, max: CoordView, layer: Option<Seq<char>>, limit: usize },
    GetLayerGeojson { layer: Seq<char>, limit: u32, simplify: Option<u64>, drop_props: bool },
    GetFeature { id: Seq<char> },
}

pub open spec fn opt_real_view(x: Option<Real>) -> Option<u64> {
    match x {
        Some(r) => Some(r@),
        None => None,
    }
}

impl View for Request {
    type V = RequestView;

    open spec fn view(&self) -> RequestView {
        match self {
            Request::Status => RequestView::Status,
            Request::NlQuery { text, viewport } => RequestView::NlQuery {
                text: text@,
                viewport: viewport@,
            },
            Request::ListLayers => RequestView::ListLayers,
            Request::DeleteLayer { id } => RequestView::DeleteLayer { id: id@ },
            Request::ReorderLayer { id, direction } => RequestView::ReorderLayer {
                id: id@,
                direction: direction@,
            },
            Request::MergeLayer { name } => RequestView::MergeLayer { name: name@ },
            Request::ImportFile { path, name, display_name } => RequestView::ImportFile {
                path: path@,
                name: opt_view(*name),
                display_name: opt_view(*display_name),
            },
            Request::ImportDataset { dataset_id, name, display_name } => {
                RequestView::ImportDataset {
                    dataset_id: dataset_id@,
                    name: opt_view(*name),
                    display_name: opt_view(*display_name),
                }
            },
            Request::SourceKinds => RequestView::SourceKinds,
            Request::SourceList => RequestView::SourceList,
            Request::SourceGet { id } => RequestView::SourceGet { id: id@ },
            Request::SourceAdd { kind, label, config } => RequestView::SourceAdd {
                kind: kind@,
                label: label@,
                config: config@,
            },
            Request::SourceUpdate { id, label, config, enabled } => RequestView::SourceUpdate {
                id: id@,
                label: opt_view(*label),
                config: opt_json_view(*config),
                enabled: *enabled,
            },
            Request::SourceDelete { id } => RequestView::SourceDelete { id: id@ },
            Request::SourceDiscover { id } => RequestView::SourceDiscover { id: id@ },
            Request::SourceFetch { id } => RequestView::SourceFetch { id: id@ },
            Request::GetTile { layer, z, x, y } => RequestView::GetTile {
                layer: layer@,
                z: *z,
                x: *x,
                y: *y,
            },
            Request::SpatialDsl(q) => RequestView::SpatialDsl(q@),
            Request::SemanticSearch { text, scope, layer, limit } => RequestView::SemanticSearch {
                text: text@,
                scope: scope@,
                layer: opt_view(*layer),
                limit: *limit,
            },
            Request::ReindexEmbeddings => RequestView::ReindexEmbeddings,
            Request::SpatialQuery { min, max, layer, limit } => RequestView::SpatialQuery {
                min: min@,
                max: max@,
                layer: opt_view(*layer),
                limit: *limit,
            },
            Request::GetLayerGeojson { layer, limit, simplify, drop_props } => {
                RequestView::GetLayerGeojson {
                    layer: layer@,
                    limit: *limit,
                    simplify: opt_real_view(*simplify),
                    drop_props: *drop_props,
                }
            },
            Request::GetFeature { id } => RequestView::GetFeature { id: id@ },
        }
    }
}

// ---------------------------------------------------------------------------
// Parameters
// ---------------------------------------------------------------------------

/// The text of a parameter, or another text where it has none.
pub open spec fn text_param(params: JsonView, key: Seq<char>, other: Seq<char>) -> Seq<char> {
    match params.text_at(key) {
        Some(s) => s,
        None => other,
    }
}

/// A number of a parameter, cut to a limit, or another number where it has none.
pub open spec fn count_param(params: JsonView, key: Seq<char>, most: int, other: int) -> int {
    match params.get(key) {
        Some(v) => match v.as_u64() {
            Some(n) => if n <= most {
                n as int
            } else {
                most
            },
            None => other,
        },
        None => other,
    }
}

pub open spec fn bool_param(params: JsonView, key: Seq<char>) -> Option<bool> {
    match params.get(key) {
        Some(v) => v.as_bool(),
        None => None,
    }
}

pub open spec fn u64_param(params: JsonView, key: Seq<char>) -> Option<u64> {
    match params.get(key) {
        Some(v) => v.as_u64(),
        None => None,
    }
}

pub open spec fn real_param(params: JsonView, key: Seq<char>) -> Option<u64> {
    match params.get(key) {
        Some(v) => v.as_real(),
        None => None,
    }
}

/// The texts in an array; what is no text is passed over.
pub open spec fn texts_in(a: Seq<JsonView>) -> Seq<Seq<char>>
    decreases a.len(),
{
    if a.len() == 0 {
        Seq::empty()
    } else {
        match a.last() {
            JsonView::Str(s) => texts_in(a.drop_last()).push(s),
            _ => texts_in(a.drop_last()),
        }
    }
}

/// The texts of a parameter; none where it is no array.
pub open spec fn texts_param(params: JsonView, key: Seq<char>) -> Seq<Seq<char>> {
    match params.get(key) {
        Some(JsonView::Array(a)) => texts_in(a),
        _ => Seq::empty(),
    }
}

/// The values of a parameter; none where it is no array.
pub open spec fn array_param(params: JsonView, key: Seq<char>) -> Seq<JsonView> {
    match params.get(key) {
        Some(JsonView::Array(a)) => a,
        _ => Seq::empty(),
    }
}

/// The value of a parameter, or another value where it is missing.
pub open spec fn value_param(params: JsonView, key: Seq<char>, other: JsonView) -> JsonView {
    match params.get(key) {
        Some(v) => v,
        None => other,
    }
}

fn text_or(params: &Json, key: &str, other: &str) -> (r: String)
    ensures
        r@ == text_param(params@, key@, other@),
{
    match params.text_at(key) {
        Some(s) => s.clone(),
        None => other.to_owned(),
    }
}

fn opt_text(params: &Json, key: &str) -> (r: Option<String>)
    ensures
        opt_view(r) == params@.text_at(key@),
{
    match params.text_at(key) {
        Some(s) => Some(s.clone()),
        None => None,
    }
}

fn read_count(params: &Json, key: &str, most: u32, other: u32) -> (r: u32)
    ensures
        r == count_param(params@, key@, most as int, other as int),
{
    match params.get(key) {
        Some(v) => match v.as_u64() {
            Some(n) => if n <= most as u64 {
                n as u32
            } else {
                most
            },
            None => other,
        },
        None => other,
    }
}

fn read_bool(params: &Json, key: &str) -> (r: Option<bool>)
    ensures
        r == bool_param(params@, key@),
{
    match params.get(key) {
        Some(v) => v.as_bool(),
        None => None,
    }
}

fn read_u64(params: &Json, key: &str) -> (r: Option<u64>)
    ensures
        r == u64_param(params@, key@),
{
    match params.get(key) {
        Some(v) => v.as_u64(),
        None => None,
    }
}

fn read_real(params: &Json, key: &str) -> (r: Option<Real>)
    ensures
        opt_real_view(r) == real_param(params@, key@),
{
    match params.get(key) {
        Some(v) => v.as_real(),
        None => None,
    }
}

fn texts_from(a: &Vec<Json>) -> (r: Vec<String>)
    ensures
        texts(r@) == texts_in(array_view(a@)),
{
    broadcast use lemma_json_view;

    let n = a.len();
    let ghost v = array_view(a@);
    let mut out: Vec<String> = Vec::new();
    let mut i: usize = 0;
    proof {
        assert(texts(out@) =~= texts_in(v.take(0)));
    }
    while i < n
        invariant
            i <= n,
            n == a@.len(),
            v == array_view(a@),
            texts(out@) == texts_in(v.take(i as int)),
        decreases n - i,
    {
        proof {
            assert(v.take(i + 1).drop_last() =~= v.take(i as int));
            assert(v.take(i + 1).last() == a@[i as int]@);
        }
        match a[i].as_str() {
            Some(s) => {
                let ghost before = out@;
                out.push(s.clone());
                proof {
                    assert(texts(out@) =~= texts(before).push(s@));
                }
            },
            None => {},
        }
        i += 1;
    }
    proof {
        assert(v.take(n as int) =~= v);
    }
    out
}

fn read_texts(params: &Json, key: &str) -> (r: Vec<String>)
    ensures
        texts(r@) == texts_param(params@, key@),
{
    let none: Vec<String> = Vec::new();
    proof {
        assert(texts(none@) =~= Seq::empty());
    }
    match params.get(key) {
        Some(v) => match v.as_array() {
            Some(a) => texts_from(a),
            None => none,
        },
        None => none,
    }
}

fn read_array(params: &Json, key: &str) -> (r: Vec<Json>)
    ensures
        array_view(r@) == array_param(params@, key@),
{
    let mut out: Vec<Json> = Vec::new();
    proof {
        assert(array_view(out@) =~= Seq::empty());
    }
    match params.get(key) {
        Some(v) => match v.as_array() {
            Some(a) => {
                let n = a.len();
                let mut i: usize = 0;
                while i < n
                    invariant
                        i <= n,
                        n == a@.len(),
                        out@.len() == i,
                        forall|k: int| 0 <= k < i ==> (#[trigger] out@[k])@ == a@[k]@,
                    decreases n - i,
                {
                    out.push(a[i].copy());
                    i += 1;
                }
                proof {
                    assert(array_view(out@) =~= array_view(a@));
                }
            },
            None => {},
        },
        None => {},
    }
    out
}

fn read_value(params: &Json, key: &str, other: Json) -> (r: Json)
    ensures
        r@ == value_param(params@, key@, other@),
{
    match params.get(key) {
        Some(v) => v.copy(),
        None => other,
    }
}

/// A request that needs an id.
pub open spec fn need_text(
    params: JsonView,
    key: Seq<char>,
    complaint: Seq<char>,
) -> Result<Seq<char>, Seq<char>> {
    match params.text_at(key) {
        Some(s) => Ok(s),
        None => Err(complaint),
    }
}

/// A text that must not be empty.
pub open spec fn need_nonempty(
    params: JsonView,
    key: Seq<char>,
    complaint: Seq<char>,
) -> Result<Seq<char>, Seq<char>> {
    let s = text_param(params, key, ""@);
    if s.len() > 0 {
        Ok(s)
    } else {
        Err(complaint)
    }
}

pub open spec fn text_result(r: Result<String, String>) -> Result<Seq<char>, Seq<char>> {
    match r {
        Ok(s) => Ok(s@),
        Err(e) => Err(e@),
    }
}

fn require_text(params: &Json, key: &str, complaint: &str) -> (r: Result<String, String>)
    ensures
        text_result(r) == need_text(params@, key@, complaint@),
{
    match params.text_at(key) {
        Some(s) => Ok(s.clone()),
        None => Err(complaint.to_owned()),
    }
}

fn is_empty(s: &str) -> (r: bool)
    ensures
        r == (s@.len() == 0),
{
    proof {
        reveal_strlit("");
        if s@.len() == 0 {
            assert(s@ =~= ""@);
        }
    }
    same_text(s, "")
}

fn require_nonempty(params: &Json, key: &str, complaint: &str) -> (r: Result<String, String>)
    ensures
        text_result(r) == need_nonempty(params@, key@, complaint@),
{
    let s = text_or(params, key, "");
    if is_empty(s.as_str()) {
        Err(complaint.to_owned())
    } else {
        Ok(s)
    }
}

// ---------------------------------------------------------------------------
// The query language
// ---------------------------------------------------------------------------

/// A position in a region.
pub open spec fn position_in(region: JsonView, name: Seq<char>) -> Result<CoordView, Seq<char>> {
    match region.get(name) {
        Some(JsonView::Array(a)) => {
            if a.len() < 1 || a[0].as_real() is None {
                Err("region."@ + name + "[0] must be a number"@)
            } else if a.len() < 2 || a[1].as_real() is None {
                Err("region."@ + name + "[1] must be a number"@)
            } else {
                Ok(CoordView { x: a[0].as_real()->0, y: a[1].as_real()->0 })
            }
        },
        _ => Err("gis/query requires region."@ + name + " [lng, lat]"@),
    }
}

/// The number at a place of an array.
pub open spec fn number_at(a: Seq<JsonView>, i: int) -> Option<u64> {
    if 0 <= i < a.len() {
        a[i].as_real()
    } else {
        None
    }
}

/// The box of a region: two corners.
pub open spec fn box_in(region: JsonView) -> Result<RegionView, Seq<char>> {
    match region.get("bbox"@) {
        Some(JsonView::Array(a)) => match (
            number_at(a, 0),
            number_at(a, 1),
            number_at(a, 2),
            number_at(a, 3),
        ) {
            (Some(x0), Some(y0), Some(x1), Some(y1)) => Ok(
                RegionView::Bbox(CoordView { x: x0, y: y0 }, CoordView { x: x1, y: y1 }),
            ),
            _ => Err("region.bbox must be 4 numbers"@),
        },
        _ => Err("gis/query bbox requires region.bbox [minLng,minLat,maxLng,maxLat]"@),
    }
}

pub open spec fn radius_in(region: JsonView) -> Result<RegionView, Seq<char>> {
    match position_in(region, "center"@) {
        Err(e) => Err(e),
        Ok(center) => match real_param(region, "radius_m"@) {
            Some(radius_m) => Ok(RegionView::Radius { center, radius_m }),
            None => Err("gis/query radius requires region.radius_m"@),
        },
    }
}

/// The nearest features: as many as are asked for, else as the limit allows, but one at least.
pub open spec fn nearest_in(region: JsonView, limit: usize) -> Result<RegionView, Seq<char>> {
    match position_in(region, "center"@) {
        Err(e) => Err(e),
        Ok(center) => {
            let k = match u64_param(region, "k"@) {
                Some(k) => k as usize,
                None => limit,
            };
            Ok(
                RegionView::Nearest {
                    center,
                    k: if k >= 1 {
                        k
                    } else {
                        1
                    },
                },
            )
        },
    }
}

pub open spec fn shape_in(region: JsonView, contains: bool) -> Result<RegionView, Seq<char>> {
    match region.get("geometry"@) {
        None => Err("gis/query contains/intersects requires region.geometry"@),
        Some(g) => match geometry_in(g) {
            None => Err("region.geometry is not a supported GeoJSON geometry"@),
            Some(geometry) => Ok(
                if contains {
                    RegionView::Contains(geometry)
                } else {
                    RegionView::Intersects(geometry)
                },
            ),
        },
    }
}

/// Around the features of reference layers or classes.
pub open spec fn near_in(region: JsonView) -> Result<RegionView, Seq<char>> {
    let reference = value_param(region, "reference"@, JsonView::Null);
    let layers = texts_param(reference, "layers"@);
    let classes = texts_param(reference, "classes"@);
    if layers.len() == 0 && classes.len() == 0 {
        Err("gis/query near requires region.reference.{layers|classes}"@)
    } else {
        match real_param(region, "radius_m"@) {
            Some(radius_m) => Ok(RegionView::Near { layers, classes, radius_m }),
            None => Err("gis/query near requires region.radius_m"@),
        }
    }
}

pub open spec fn region_in(
    predicate: Seq<char>,
    region: JsonView,
    limit: usize,
) -> Result<RegionView, Seq<char>> {
    if predicate == "bbox"@ {
        box_in(region)
    } else if predicate == "radius"@ {
        radius_in(region)
    } else if predicate == "nearest"@ {
        nearest_in(region, limit)
    } else if predicate == "contains"@ {
        shape_in(region, true)
    } else if predicate == "intersects"@ {
        shape_in(region, false)
    } else if predicate == "near"@ || predicate == "near_class"@ || predicate == "near_layer"@ {
        near_in(region)
    } else {
        Err("gis/query: unknown predicate '"@ + predicate + "'"@)
    }
}

/// A query of the query language.
pub open spec fn query_in(params: JsonView) -> Result<QueryView, Seq<char>> {
    let predicate = text_param(params, "predicate"@, "bbox"@);
    let limit = count_param(params, "limit"@, 10_000, 200) as usize;
    match region_in(predicate, value_param(params, "region"@, JsonView::Null), limit) {
        Err(e) => Err(e),
        Ok(region) => Ok(
            QueryView {
                predicate,
                region,
                layers: texts_param(params, "layers"@),
                classes: texts_param(params, "classes"@),
                attributes: array_param(params, "attributes"@),
                limit,
                output: text_param(params, "output"@, "features"@),
            },
        ),
    }
}

pub open spec fn coord_result(r: Result<Coord, String>) -> Result<CoordView, Seq<char>> {
    match r {
        Ok(c) => Ok(c@),
        Err(e) => Err(e@),
    }
}

pub open spec fn region_result(r: Result<Region, String>) -> Result<RegionView, Seq<char>> {
    match r {
        Ok(g) => Ok(g@),
        Err(e) => Err(e@),
    }
}

pub open spec fn query_result(r: Result<Query, String>) -> Result<QueryView, Seq<char>> {
    match r {
        Ok(q) => Ok(q@),
        Err(e) => Err(e@),
    }
}

fn read_position(region: &Json, name: &str) -> (r: Result<Coord, String>)
    ensures
        coord_result(r) == position_in(region@, name@),
{
    broadcast use lemma_json_view;

    let a = match region.get(name) {
        Some(v) => match v.as_array() {
            Some(a) => a,
            None => {
                return Err(concat3("gis/query requires region.", name, " [lng, lat]"));
            },
        },
        None => {
            return Err(concat3("gis/query requires region.", name, " [lng, lat]"));
        },
    };
    let x = match real_at(a, 0) {
        Some(x) => x,
        None => {
            return Err(concat3("region.", name, "[0] must be a number"));
        },
    };
    let y = match real_at(a, 1) {
        Some(y) => y,
        None => {
            return Err(concat3("region.", name, "[1] must be a number"));
        },
    };
    Ok(Coord { x, y })
}

fn real_at(a: &Vec<Json>, i: usize) -> (r: Option<Real>)
    ensures
        opt_real_view(r) == number_at(array_view(a@), i as int),
{
    if i < a.len() {
        proof {
            assert(array_view(a@)[i as int] == a@[i as int]@);
        }
        a[i].as_real()
    } else {
        None
    }
}

fn read_box(region: &Json) -> (r: Result<Region, String>)
    ensures
        region_result(r) == box_in(region@),
{
    broadcast use lemma_json_view;

    let a = match region.get("bbox") {
        Some(v) => match v.as_array() {
            Some(a) => a,
            None => {
                return Err(
                    "gis/query bbox requires region.bbox [minLng,minLat,maxLng,maxLat]".to_owned(),
                );
            },
        },
        None => {
            return Err(
                "gis/query bbox requires region.bbox [minLng,minLat,maxLng,maxLat]".to_owned(),
            );
        },
    };
    match (real_at(a, 0), real_at(a, 1), real_at(a, 2), real_at(a, 3)) {
        (Some(x0), Some(y0), Some(x1), Some(y1)) => Ok(
            Region::Bbox(Coord { x: x0, y: y0 }, Coord { x: x1, y: y1 }),
        ),
        _ => Err("region.bbox must be 4 numbers".to_owned()),
    }
}

fn read_radius(region: &Json) -> (r: Result<Region, String>)
    ensures
        region_result(r) == radius_in(region@),
{
    match read_position(region, "center") {
        Err(e) => Err(e),
        Ok(center) => match read_real(region, "radius_m") {
            Some(radius_m) => Ok(Region::Radius { center, radius_m }),
            None => Err("gis/query radius requires region.radius_m".to_owned()),
        },
    }
}

fn read_nearest(region: &Json, limit: usize) -> (r: Result<Region, String>)
    ensures
        region_result(r) == nearest_in(region@, limit),
{
    match read_position(region, "center") {
        Err(e) => Err(e),
        Ok(center) => {
            let k: usize = match read_u64(region, "k") {
                Some(k) => k as usize,
                None => limit,
            };
            Ok(
                Region::Nearest {
                    center,
                    k: if k >= 1 {
                        k
                    } else {
                        1
                    },
                },
            )
        },
    }
}

fn read_shape(region: &Json, contains: bool) -> (r: Result<Region, String>)
    ensures
        region_result(r) == shape_in(region@, contains),
{
    match region.get("geometry") {
        None => Err("gis/query contains/intersects requires region.geometry".to_owned()),
        Some(g) => match decode_geometry(g) {
            None => Err("region.geometry is not a supported GeoJSON geometry".to_owned()),
            Some(geometry) => Ok(
                if contains {
                    Region::Contains(geometry)
                } else {
                    Region::Intersects(geometry)
                },
            ),
        },
    }
}

fn read_near(region: &Json) -> (r: Result<Region, String>)
    ensures
        region_result(r) == near_in(region@),
{
    let reference = read_value(region, "reference", Json::null());
    let layers = read_texts(&reference, "layers");
    let classes = read_texts(&reference, "classes");
    proof {
        assert(texts(layers@).len() == layers@.len());
        assert(texts(classes@).len() == classes@.len());
    }
    if layers.len() == 0 && classes.len() == 0 {
        return Err("gis/query near requires region.reference.{layers|classes}".to_owned());
    }
    match read_real(region, "radius_m") {
        Some(radius_m) => Ok(Region::Near { layers, classes, radius_m }),
        None => Err("gis/query near requires region.radius_m".to_owned()),
    }
}

fn read_region(predicate: &str, region: &Json, limit: usize) -> (r: Result<Region, String>)
    ensures
        region_result(r) == region_in(predicate@, region@, limit),
{
    if same_text(predicate, "bbox") {
        read_box(region)
    } else if same_text(predicate, "radius") {
        read_radius(region)
    } else if same_text(predicate, "nearest") {
        read_nearest(region, limit)
    } else if same_text(predicate, "contains") {
        read_shape(region, true)
    } else if same_text(predicate, "intersects") {
        read_shape(region, false)
    } else if same_text(predicate, "near") || same_text(predicate, "near_class") || same_text(
        predicate,
        "near_layer",
    ) {
        read_near(region)
    } else {
        Err(concat3("gis/query: unknown predicate '", predicate, "'"))
    }
}

/// Reads a query of the query language.
pub fn parse_query(params: &Json) -> (r: Result<Query, String>)
    ensures
        query_result(r) == query_in(params@),
{
    let predicate = text_or(params, "predicate", "bbox");
    let limit = read_count(params, "limit", 10_000, 200) as usize;
    let region = read_value(params, "region", Json::null());
    match read_region(predicate.as_str(), &region, limit) {
        Err(e) => Err(e),
        Ok(region) => Ok(
            Query {
                predicate,
                region,
                layers: read_texts(params, "layers"),
                classes: read_texts(params, "classes"),
                attributes: read_array(params, "attributes"),
                limit,
                output: text_or(params, "output", "features"),
            },
        ),
    }
}

// ---------------------------------------------------------------------------
// The other requests
// ---------------------------------------------------------------------------

pub open spec fn tile_in(params: JsonView) -> Result<RequestView, Seq<char>> {
    match (u64_param(params, "z"@), u64_param(params, "x"@), u64_param(params, "y"@)) {
        (None, _, _) => Err("get-tile requires 'z'"@),
        (Some(_), None, _) => Err("get-tile requires 'x'"@),
        (Some(_), Some(_), None) => Err("get-tile requires 'y'"@),
        (Some(z), Some(x), Some(y)) => Ok(
            RequestView::GetTile {
                layer: text_param(params, "layer"@, ""@),
                z: z as u8,
                x: x as u32,
                y: y as u32,
            },
        ),
    }
}

pub open spec fn nl_in(params: JsonView) -> Result<RequestView, Seq<char>> {
    let text = trim(text_param(params, "text"@, ""@));
    if text.len() == 0 {
        Err("nl-query requires 'text'"@)
    } else {
        Ok(
            RequestView::NlQuery {
                text,
                viewport: value_param(params, "viewport"@, JsonView::Null),
            },
        )
    }
}

pub open spec fn semantic_in(params: JsonView) -> Result<RequestView, Seq<char>> {
    let text = text_param(params, "text"@, ""@);
    if trim(text).len() == 0 {
        Err("semantic-search requires 'text'"@)
    } else {
        Ok(
            RequestView::SemanticSearch {
                text,
                scope: text_param(params, "node_type"@, "Feature"@),
                layer: params.text_at("layer"@),
                limit: count_param(params, "limit"@, 200, 20) as usize,
            },
        )
    }
}

pub open spec fn spatial_in(params: JsonView) -> Result<RequestView, Seq<char>> {
    match (
        real_param(params, "min_lng"@),
        real_param(params, "min_lat"@),
        real_param(params, "max_lng"@),
        real_param(params, "max_lat"@),
    ) {
        (None, _, _, _) => Err("spatial-query requires 'min_lng'"@),
        (_, None, _, _) => Err("spatial-query requires 'min_lat'"@),
        (_, _, None, _) => Err("spatial-query requires 'max_lng'"@),
        (_, _, _, None) => Err("spatial-query requires 'max_lat'"@),
        (Some(x0), Some(y0), Some(x1), Some(y1)) => Ok(
            RequestView::SpatialQuery {
                min: CoordView { x: x0, y: y0 },
                max: CoordView { x: x1, y: y1 },
                layer: params.text_at("layer"@),
                limit: count_param(params, "limit"@, 10_000, 1_000) as usize,
            },
        ),
    }
}

/// A tolerance counts only where it is positive.
pub open spec fn tolerance_in(params: JsonView) -> Option<u64> {
    match real_param(params, "simplify"@) {
        Some(t) => if rank(t) > 0 {
            Some(t)
        } else {
            None
        },
        None => None,
    }
}

pub open spec fn geojson_in(params: JsonView) -> Result<RequestView, Seq<char>> {
    match need_nonempty(params, "layer"@, "get-layer-geojson requires 'layer'"@) {
        Err(e) => Err(e),
        Ok(layer) => Ok(
            RequestView::GetLayerGeojson {
                layer,
                limit: count_param(params, "limit"@, 100_000, 10_000) as u32,
                simplify: tolerance_in(params),
                drop_props: bool_param(params, "drop_props"@) == Some(true),
            },
        ),
    }
}

/// A layer request, if the method is one.
pub open spec fn layer_request(
    method: Seq<char>,
    params: JsonView,
) -> Option<Result<RequestView, Seq<char>>> {
    if method == "gis/list-layers"@ {
        Some(Ok(RequestView::ListLayers))
    } else if method == "gis/delete-layer"@ {
        Some(
            match need_nonempty(params, "id"@, "delete-layer requires 'id'"@) {
                Ok(id) => Ok(RequestView::DeleteLayer { id }),
                Err(e) => Err(e),
            },
        )
    } else if method == "gis/reorder-layer"@ {
        Some(
            match need_text(params, "id"@, "reorder-layer requires 'id'"@) {
                Ok(id) => Ok(
                    RequestView::ReorderLayer {
                        id,
                        direction: text_param(params, "direction"@, "up"@),
                    },
                ),
                Err(e) => Err(e),
            },
        )
    } else if method == "gis/merge-layer"@ {
        Some(
            match need_nonempty(params, "name"@, "merge-layer requires 'name'"@) {
                Ok(name) => Ok(RequestView::MergeLayer { name }),
                Err(e) => Err(e),
            },
        )
    } else if method == "gis/import-geojson-file"@ {
        Some(
            match need_text(params, "path"@, "import-geojson-file requires 'path'"@) {
                Ok(path) => Ok(
                    RequestView::ImportFile {
                        path,
                        name: params.text_at("name"@),
                        display_name: params.text_at("display_name"@),
                    },
                ),
                Err(e) => Err(e),
            },
        )
    } else if method == "gis/import-datagov"@ {
        Some(
            match need_nonempty(params, "dataset_id"@, "import-datagov requires 'dataset_id'"@) {
                Ok(dataset_id) => Ok(
                    RequestView::ImportDataset {
                        dataset_id,
                        name: params.text_at("name"@),
                        display_name: params.text_at("display_name"@),
                    },
                ),
                Err(e) => Err(e),
            },
        )
    } else {
        None
    }
}

/// A data source request, if the method is one.
pub open spec fn source_request(
    method: Seq<char>,
    params: JsonView,
) -> Option<Result<RequestView, Seq<char>>> {
    if method == "gis/datasource/kinds"@ {
        Some(Ok(RequestView::SourceKinds))
    } else if method == "gis/datasource/list"@ {
        Some(Ok(RequestView::SourceList))
    } else if method == "gis/datasource/get"@ {
        Some(
            match need_text(params, "id"@, "datasource/get requires 'id'"@) {
                Ok(id) => Ok(RequestView::SourceGet { id }),
                Err(e) => Err(e),
            },
        )
    } else if method == "gis/datasource/add"@ {
        Some(
            match need_text(params, "kind"@, "datasource/add requires 'kind'"@) {
                Err(e) => Err(e),
                Ok(kind) => match need_text(
                    params,
                    "label"@,
                    "datasource/add requires 'label'"@,
                ) {
                    Err(e) => Err(e),
                    Ok(label) => Ok(
                        RequestView::SourceAdd {
                            kind,
                            label,
                            config: value_param(
                                params,
                                "config"@,
                                JsonView::Object(no_entries()),
                            ),
                        },
                    ),
                },
            },
        )
    } else if method == "gis/datasource/update"@ {
        Some(
            match need_text(params, "id"@, "datasource/update requires 'id'"@) {
                Ok(id) => Ok(
                    RequestView::SourceUpdate {
                        id,
                        label: params.text_at("label"@),
                        config: params.get("config"@),
                        enabled: bool_param(params, "enabled"@),
                    },
                ),
                Err(e) => Err(e),
            },
        )
    } else if method == "gis/datasource/delete"@ {
        Some(
            match need_text(params, "id"@, "datasource/delete requires 'id'"@) {
                Ok(id) => Ok(RequestView::SourceDelete { id }),
                Err(e) => Err(e),
            },
        )
    } else if method == "gis/datasource/discover"@ {
        Some(
            match need_text(params, "id"@, "datasource/discover requires 'id'"@) {
                Ok(id) => Ok(RequestView::SourceDiscover { id }),
                Err(e) => Err(e),
            },
        )
    } else if method == "gis/datasource/fetch"@ {
        Some(
            match need_text(params, "id"@, "datasource/fetch requires 'id'"@) {
                Ok(id) => Ok(RequestView::SourceFetch { id }),
                Err(e) => Err(e),
            },
        )
    } else {
        None
    }
}

/// A request for features or about the service, if the method is one.
pub open spec fn feature_request(
    method: Seq<char>,
    params: JsonView,
) -> Option<Result<RequestView, Seq<char>>> {
    if method == "gis/status"@ {
        Some(Ok(RequestView::Status))
    } else if method == "gis/nl-query"@ {
        Some(nl_in(params))
    } else if method == "gis/get-tile"@ {
        Some(tile_in(params))
    } else if method == "gis/query"@ {
        Some(
            match query_in(params) {
                Ok(q) => Ok(RequestView::SpatialDsl(q)),
                Err(e) => Err(e),
            },
        )
    } else if method == "gis/semantic-search"@ {
        Some(semantic_in(params))
    } else if method == "gis/reindex-embeddings"@ {
        Some(Ok(RequestView::ReindexEmbeddings))
    } else if method == "gis/spatial-query"@ {
        Some(spatial_in(params))
    } else if method == "gis/get-layer-geojson"@ {
        Some(geojson_in(params))
    } else if method == "gis/get-feature"@ {
        Some(
            match need_nonempty(params, "id"@, "get-feature requires 'id'"@) {
                Ok(id) => Ok(RequestView::GetFeature { id }),
                Err(e) => Err(e),
            },
        )
    } else {
        None
    }
}

/// The request that a method and its parameters make, or the complaint about them.
pub open spec fn request_in(
    method: Seq<char>,
    params: JsonView,
) -> Result<RequestView, Seq<char>> {
    match feature_request(method, params) {
        Some(r) => r,
        None => match layer_request(method, params) {
            Some(r) => r,
            None => match source_request(method, params) {
                Some(r) => r,
                None => Err("unknown method: "@ + method),
            },
        },
    }
}

pub open spec fn request_result(r: Result<Request, String>) -> Result<RequestView, Seq<char>> {
    match r {
        Ok(q) => Ok(q@),
        Err(e) => Err(e@),
    }
}

pub open spec fn opt_request_result(
    r: Option<Result<Request, String>>,
) -> Option<Result<RequestView, Seq<char>>> {
    match r {
        Some(x) => Some(request_result(x)),
        None => None,
    }
}

fn read_tile(params: &Json) -> (r: Result<Request, String>)
    ensures
        request_result(r) == tile_in(params@),
{
    let layer = text_or(params, "layer", "");
    let z = match read_u64(params, "z") {
        Some(z) => z as u8,
        None => {
            return Err("get-tile requires 'z'".to_owned());
        },
    };
    let x = match read_u64(params, "x") {
        Some(x) => x as u32,
        None => {
            return Err("get-tile requires 'x'".to_owned());
        },
    };
    let y = match read_u64(params, "y") {
        Some(y) => y as u32,
        None => {
            return Err("get-tile requires 'y'".to_owned());
        },
    };
    Ok(Request::GetTile { layer, z, x, y })
}

fn read_nl(params: &Json) -> (r: Result<Request, String>)
    ensures
        request_result(r) == nl_in(params@),
{
    let text = trimmed(text_or(params, "text", "").as_str());
    if is_empty(text.as_str()) {
        return Err("nl-query requires 'text'".to_owned());
    }
    Ok(Request::NlQuery { text, viewport: read_value(params, "viewport", Json::null()) })
}

fn read_semantic(params: &Json) -> (r: Result<Request, String>)
    ensures
        request_result(r) == semantic_in(params@),
{
    let text = text_or(params, "text", "");
    if is_empty(trimmed(text.as_str()).as_str()) {
        return Err("semantic-search requires 'text'".to_owned());
    }
    Ok(
        Request::SemanticSearch {
            text,
            scope: text_or(params, "node_type", "Feature"),
            layer: opt_text(params, "layer"),
            limit: read_count(params, "limit", 200, 20) as usize,
        },
    )
}

fn read_spatial(params: &Json) -> (r: Result<Request, String>)
    ensures
        request_result(r) == spatial_in(params@),
{
    let x0 = match read_real(params, "min_lng") {
        Some(v) => v,
        None => {
            return Err("spatial-query requires 'min_lng'".to_owned());
        },
    };
    let y0 = match read_real(params, "min_lat") {
        Some(v) => v,
        None => {
            return Err("spatial-query requires 'min_lat'".to_owned());
        },
    };
    let x1 = match read_real(params, "max_lng") {
        Some(v) => v,
        None => {
            return Err("spatial-query requires 'max_lng'".to_owned());
        },
    };
    let y1 = match read_real(params, "max_lat") {
        Some(v) => v,
        None => {
            return Err("spatial-query requires 'max_lat'".to_owned());
        },
    };
    Ok(
        Request::SpatialQuery {
            min: Coord { x: x0, y: y0 },
            max: Coord { x: x1, y: y1 },
            layer: opt_text(params, "layer"),
            limit: read_count(params, "limit", 10_000, 1_000) as usize,
        },
    )
}

fn read_geojson(params: &Json) -> (r: Result<Request, String>)
    ensures
        request_result(r) == geojson_in(params@),
{
    let layer = match require_nonempty(params, "layer", "get-layer-geojson requires 'layer'") {
        Ok(l) => l,
        Err(e) => {
            return Err(e);
        },
    };
    let simplify = match read_real(params, "simplify") {
        Some(t) => if t.place() > 0 {
            Some(t)
        } else {
            None
        },
        None => None,
    };
    Ok(
        Request::GetLayerGeojson {
            layer,
            limit: read_count(params, "limit", 100_000, 10_000),
            simplify,
            drop_props: match read_bool(params, "drop_props") {
                Some(b) => b,
                None => false,
            },
        },
    )
}

fn read_layer_request(method: &str, params: &Json) -> (r: Option<Result<Request, String>>)
    ensures
        opt_request_result(r) == layer_request(method@, params@),
{
    if same_text(method, "gis/list-layers") {
        Some(Ok(Request::ListLayers))
    } else if same_text(method, "gis/delete-layer") {
        Some(
            match require_nonempty(params, "id", "delete-layer requires 'id'") {
                Ok(id) => Ok(Request::DeleteLayer { id }),
                Err(e) => Err(e),
            },
        )
    } else if same_text(method, "gis/reorder-layer") {
        Some(
            match require_text(params, "id", "reorder-layer requires 'id'") {
                Ok(id) => Ok(
                    Request::ReorderLayer { id, direction: text_or(params, "direction", "up") },
                ),
                Err(e) => Err(e),
            },
        )
    } else if same_text(method, "gis/merge-layer") {
        Some(
            match require_nonempty(params, "name", "merge-layer requires 'name'") {
                Ok(name) => Ok(Request::MergeLayer { name }),
                Err(e) => Err(e),
            },
        )
    } else if same_text(method, "gis/import-geojson-file") {
        Some(
            match require_text(params, "path", "import-geojson-file requires 'path'") {
                Ok(path) => Ok(
                    Request::ImportFile {
                        path,
                        name: opt_text(params, "name"),
                        display_name: opt_text(params, "display_name"),
                    },
                ),
                Err(e) => Err(e),
            },
        )
    } else if same_text(method, "gis/import-datagov") {
        Some(
            match require_nonempty(params, "dataset_id", "import-datagov requires 'dataset_id'") {
                Ok(dataset_id) => Ok(
                    Request::ImportDataset {
                        dataset_id,
                        name: opt_text(params, "name"),
                        display_name: opt_text(params, "display_name"),
                    },
                ),
                Err(e) => Err(e),
            },
        )
    } else {
        None
    }
}

fn read_source_request(method: &str, params: &Json) -> (r: Option<Result<Request, String>>)
    ensures
        opt_request_result(r) == source_request(method@, params@),
{
    if same_text(method, "gis/datasource/kinds") {
        Some(Ok(Request::SourceKinds))
    } else if same_text(method, "gis/datasource/list") {
        Some(Ok(Request::SourceList))
    } else if same_text(method, "gis/datasource/get") {
        Some(
            match require_text(params, "id", "datasource/get requires 'id'") {
                Ok(id) => Ok(Request::SourceGet { id }),
                Err(e) => Err(e),
            },
        )
    } else if same_text(method, "gis/datasource/add") {
        Some(
            match require_text(params, "kind", "datasource/add requires 'kind'") {
                Err(e) => Err(e),
                Ok(kind) => match require_text(
                    params,
                    "label",
                    "datasource/add requires 'label'",
                ) {
                    Err(e) => Err(e),
                    Ok(label) => Ok(
                        Request::SourceAdd {
                            kind,
                            label,
                            config: read_value(
                                params,
                                "config",
                                Json::object(JsonObject::new()),
                            ),
                        },
                    ),
                },
            },
        )
    } else if same_text(method, "gis/datasource/update") {
        Some(
            match require_text(params, "id", "datasource/update requires 'id'") {
                Ok(id) => Ok(
                    Request::SourceUpdate {
                        id,
                        label: opt_text(params, "label"),
                        config: match params.get("config") {
                            Some(c) => Some(c.copy()),
                            None => None,
                        },
                        enabled: read_bool(params, "enabled"),
                    },
                ),
                Err(e) => Err(e),
            },
        )
    } else if same_text(method, "gis/datasource/delete") {
        Some(
            match require_text(params, "id", "datasource/delete requires 'id'") {
                Ok(id) => Ok(Request::SourceDelete { id }),
                Err(e) => Err(e),
            },
        )
    } else if same_text(method, "gis/datasource/discover") {
        Some(
            match require_text(params, "id", "datasource/discover requires 'id'") {
                Ok(id) => Ok(Request::SourceDiscover { id }),
                Err(e) => Err(e),
            },
        )
    } else if same_text(method, "gis/datasource/fetch") {
        Some(
            match require_text(params, "id", "datasource/fetch requires 'id'") {
                Ok(id) => Ok(Request::SourceFetch { id }),
                Err(e) => Err(e),
            },
        )
    } else {
        None
    }
}

fn read_feature_request(method: &str, params: &Json) -> (r: Option<Result<Request, String>>)
    ensures
        opt_request_result(r) == feature_request(method@, params@),
{
    if same_text(method, "gis/status") {
        Some(Ok(Request::Status))
    } else if same_text(method, "gis/nl-query") {
        Some(read_nl(params))
    } else if same_text(method, "gis/get-tile") {
        Some(read_tile(params))
    } else if same_text(method, "gis/query") {
        Some(
            match parse_query(params) {
                Ok(q) => Ok(Request::SpatialDsl(q)),
                Err(e) => Err(e),
            },
        )
    } else if same_text(method, "gis/semantic-search") {
        Some(read_semantic(params))
    } else if same_text(method, "gis/reindex-embeddings") {
        Some(Ok(Request::ReindexEmbeddings))
    } else if same_text(method, "gis/spatial-query") {
        Some(read_spatial(params))
    } else if same_text(method, "gis/get-layer-geojson") {
        Some(read_geojson(params))
    } else if same_text(method, "gis/get-feature") {
        Some(
            match require_nonempty(params, "id", "get-feature requires 'id'") {
                Ok(id) => Ok(Request::GetFeature { id }),
                Err(e) => Err(e),
            },
        )
    } else {
        None
    }
}

/// Reads the request that a method and its parameters make.
pub fn parse_request(method: &str, params: &Json) -> (r: Result<Request, String>)
    ensures
        request_result(r) == request_in(method@, params@),
{
    match read_feature_request(method, params) {
        Some(r) => r,
        None => match read_layer_request(method, params) {
            Some(r) => r,
            None => match read_source_request(method, params) {
                Some(r) => r,
                None => Err(concat("unknown method: ", method)),
            },
        },
    }
}

// ---------------------------------------------------------------------------
// Limits
// ---------------------------------------------------------------------------

/// Whether results are filtered after they are found.
pub open spec fn post_filtered(q: QueryView) -> bool {
    q.classes.len() > 0 || q.attributes.len() > 0
}

/// How many results the store is asked for: more than the limit where they are filtered after.
pub open spec fn fetch_limit(q: QueryView) -> int {
    let wide = if post_filtered(q) {
        if q.limit < 2_000 {
            2_000
        } else if q.limit <= 50_000 {
            q.limit as int
        } else {
            50_000
        }
    } else {
        q.limit as int
    };
    if q.region is Near && wide > 20_000 {
        20_000
    } else {
        wide
    }
}

/// How many results the store is asked for.
pub fn store_limit(q: &Query) -> (r: usize)
    ensures
        r == fetch_limit(q@),
{
    proof {
        assert(texts(q.classes@).len() == q.classes@.len());
        assert(array_view(q.attributes@).len() == q.attributes@.len());
    }
    let wide: usize = if q.classes.len() > 0 || q.attributes.len() > 0 {
        if q.limit < 2_000 {
            2_000
        } else if q.limit <= 50_000 {
            q.limit
        } else {
            50_000
        }
    } else {
        q.limit
    };
    match q.region {
        Region::Near { .. } => if wide > 20_000 {
            20_000
        } else {
            wide
        },
        _ => wide,
    }
}

/// A query never asks for more than its bound, and the store is always asked for at least as many
/// results as are returned.
pub proof fn limits_are_kept(params: JsonView)
    ensures
        query_in(params) matches Ok(q) ==> q.limit <= 10_000 && fetch_limit(q) >= q.limit,
{
}

/// The methods that there are.
pub open spec fn known_method(method: Seq<char>) -> bool {
    ||| method == "gis/status"@
    ||| method == "gis/nl-query"@
    ||| method == "gis/get-tile"@
    ||| method == "gis/query"@
    ||| method == "gis/semantic-search"@
    ||| method == "gis/reindex-embeddings"@
    ||| method == "gis/spatial-query"@
    ||| method == "gis/get-layer-geojson"@
    ||| method == "gis/get-feature"@
    ||| method == "gis/list-layers"@
    ||| method == "gis/delete-layer"@
    ||| method == "gis/reorder-layer"@
    ||| method == "gis/merge-layer"@
    ||| method == "gis/import-geojson-file"@
    ||| method == "gis/import-datagov"@
    ||| method == "gis/datasource/kinds"@
    ||| method == "gis/datasource/list"@
    ||| method == "gis/datasource/get"@
    ||| method == "gis/datasource/add"@
    ||| method == "gis/datasource/update"@
    ||| method == "gis/datasource/delete"@
    ||| method == "gis/datasource/discover"@
    ||| method == "gis/datasource/fetch"@
}

/// A method that is none of the known ones is an error that names it, whatever the parameters.
pub proof fn unknown_method_is_an_error(method: Seq<char>, params: JsonView)
    requires
        !known_method(method),
    ensures
        request_in(method, params) == Err::<RequestView, Seq<char>>("unknown method: "@ + method),
{
}

} // verus!
