//! Requests: what each method asks for, and which parameters it takes.

use vstd::prelude::*;

#[allow(unused_imports)]
use crate::coordinator::request::{
    query_in, region_in, request_in, text_param, texts_in, texts_param, value_param, QueryView,
    RegionView, RequestView,
};
#[allow(unused_imports)]
use crate::geometry::CoordView;
#[allow(unused_imports)]
use crate::json::{rank, JsonView, NumberView};
#[allow(unused_imports)]
use crate::models::geojson::geometry_in;
#[allow(unused_imports)]
use crate::text::trim;

verus! {

// ---------------------------------------------------------------------------
// Parameters
// ---------------------------------------------------------------------------

/// The texts among values, in order.
pub open spec fn are_texts(vs: Seq<JsonView>, ts: Seq<Seq<char>>) -> bool {
    let good = vs.filter(|v: JsonView| v is Str);
    ts.len() == good.len() && forall|i: int|
        0 <= i < ts.len() ==> good[i] == JsonView::Str(#[trigger] ts[i])
}

/// The texts that a parameter lists; none where it is no list.
pub open spec fn lists_texts(params: JsonView, key: Seq<char>, ts: Seq<Seq<char>>) -> bool {
    match params.get(key) {
        Some(JsonView::Array(vs)) => are_texts(vs, ts),
        _ => ts.len() == 0,
    }
}

/// A number of things: what the parameter says, but no more than the most, and another number
/// where it says none.
pub open spec fn is_count(params: JsonView, key: Seq<char>, most: int, other: int, n: int) -> bool {
    match params.get(key) {
        Some(JsonView::Number(NumberView::PosInt(u))) => n == (if u < most {
            u as int
        } else {
            most
        }),
        _ => n == other,
    }
}

/// The text of a parameter, or another text where it is none.
pub open spec fn is_text(params: JsonView, key: Seq<char>, other: Seq<char>, t: Seq<char>) -> bool {
    match params.get(key) {
        Some(JsonView::Str(s)) => t == s,
        _ => t == other,
    }
}

proof fn lemma_texts(vs: Seq<JsonView>)
    ensures
        are_texts(vs, texts_in(vs)),
    decreases vs.len(),
{
    reveal(Seq::filter);
    let p = |v: JsonView| v is Str;
    if vs.len() > 0 {
        let d = vs.drop_last();
        lemma_texts(d);
        let good = vs.filter(p);
        assert forall|i: int| 0 <= i < texts_in(vs).len() implies good[i] == JsonView::Str(
            #[trigger] texts_in(vs)[i],
        ) by {
            if i < texts_in(d).len() {
                assert(d.filter(p)[i] == JsonView::Str(texts_in(d)[i]));
            }
        }
    }
}

proof fn lemma_lists(params: JsonView, key: Seq<char>)
    ensures
        lists_texts(params, key, texts_param(params, key)),
{
    if let Some(JsonView::Array(vs)) = params.get(key) {
        lemma_texts(vs);
    }
}

// ---------------------------------------------------------------------------
// Queries
// ---------------------------------------------------------------------------

/// A query takes its layers, classes and constraints as they are listed, at most ten thousand
/// features and two hundred where no number is given, and the region that its predicate names.
pub proof fn a_query_is_read_from_its_parameters(params: JsonView, q: QueryView)
    requires
        query_in(params) == Ok::<QueryView, Seq<char>>(q),
    ensures
        is_text(params, "predicate"@, "bbox"@, q.predicate),
        lists_texts(params, "layers"@, q.layers),
        lists_texts(params, "classes"@, q.classes),
        match params.get("attributes"@) {
            Some(JsonView::Array(vs)) => q.attributes == vs,
            _ => q.attributes.len() == 0,
        },
        is_count(params, "limit"@, 10_000, 200, q.limit as int),
        is_text(params, "output"@, "features"@, q.output),
        region_in(
            q.predicate,
            match params.get("region"@) {
                Some(r) => r,
                None => JsonView::Null,
            },
            q.limit,
        ) == Ok::<RegionView, Seq<char>>(q.region),
{
    lemma_lists(params, "layers"@);
    lemma_lists(params, "classes"@);
}

/// A query is read exactly where its region is.
pub proof fn a_query_is_read_where_its_region_is(params: JsonView, predicate: Seq<char>, n: usize)
    requires
        is_text(params, "predicate"@, "bbox"@, predicate),
        is_count(params, "limit"@, 10_000, 200, n as int),
    ensures
        query_in(params) is Ok <==> region_in(
            predicate,
            match params.get("region"@) {
                Some(r) => r,
                None => JsonView::Null,
            },
            n,
        ) is Ok,
{
}

pub(crate) proof fn lemma_predicates()
    ensures
        "bbox"@ != "radius"@,
        "bbox"@ != "nearest"@,
        "bbox"@ != "contains"@,
        "bbox"@ != "intersects"@,
        "bbox"@ != "near"@,
        "bbox"@ != "near_class"@,
        "bbox"@ != "near_layer"@,
        "radius"@ != "nearest"@,
        "radius"@ != "contains"@,
        "radius"@ != "intersects"@,
        "radius"@ != "near"@,
        "radius"@ != "near_class"@,
        "radius"@ != "near_layer"@,
        "nearest"@ != "contains"@,
        "nearest"@ != "intersects"@,
        "nearest"@ != "near"@,
        "nearest"@ != "near_class"@,
        "nearest"@ != "near_layer"@,
        "contains"@ != "intersects"@,
        "contains"@ != "near"@,
        "contains"@ != "near_class"@,
        "contains"@ != "near_layer"@,
        "intersects"@ != "near"@,
        "intersects"@ != "near_class"@,
        "intersects"@ != "near_layer"@,
{
    reveal_strlit("bbox");
    reveal_strlit("radius");
    reveal_strlit("nearest");
    reveal_strlit("contains");
    reveal_strlit("intersects");
    reveal_strlit("near");
    reveal_strlit("near_class");
    reveal_strlit("near_layer");
    assert("bbox"@[0] == 'b' && "radius"@[0] == 'r' && "contains"@[0] == 'c' && "intersects"@[0]
        == 'i' && "nearest"@[0] == 'n' && "near"@[0] == 'n' && "near_class"@[0] == 'n'
        && "near_layer"@[0] == 'n');
    assert("nearest"@.len() == 7 && "near"@.len() == 4 && "near_class"@.len() == 10
        && "near_layer"@.len() == 10);
}

/// A position of a region: an array that starts with two numbers, longitude first.
pub open spec fn is_spot(v: Option<JsonView>, c: CoordView) -> bool {
    v matches Some(JsonView::Array(a)) && a.len() >= 2 && a[0].as_real() == Some(c.x)
        && a[1].as_real() == Some(c.y)
}

/// Each predicate takes its own region: a box four numbers, west, south, east and north; a circle
/// a centre and a radius; the nearest features a centre and a number of at least one, which is the
/// limit where none is given; containment and intersection a shape; nearness a radius around
/// layers or classes.
pub proof fn each_predicate_takes_its_region(
    region: JsonView,
    limit: usize,
    a: CoordView,
    b: CoordView,
    radius_m: u64,
    k: usize,
)
    ensures
        region_in("bbox"@, region, limit) == Ok::<RegionView, Seq<char>>(RegionView::Bbox(a, b))
            <==> (region.get("bbox"@) matches Some(JsonView::Array(v)) && v.len() >= 4
            && v[0].as_real() == Some(a.x) && v[1].as_real() == Some(a.y) && v[2].as_real() == Some(
            b.x,
        ) && v[3].as_real() == Some(b.y)),
        region_in("radius"@, region, limit) == Ok::<RegionView, Seq<char>>(
            (RegionView::Radius { center: a, radius_m }),
        ) <==> is_spot(region.get("center"@), a) && (region.get("radius_m"@) matches Some(v)
            && v.as_real() == Some(radius_m)),
        region_in("nearest"@, region, limit) == Ok::<RegionView, Seq<char>>(
            (RegionView::Nearest { center: a, k }),
        ) <==> is_spot(region.get("center"@), a) && is_neighbours(region, limit, k),
        match region.get("geometry"@) {
            Some(v) => match geometry_in(v) {
                Some(g) => region_in("contains"@, region, limit) == Ok::<RegionView, Seq<char>>(
                    RegionView::Contains(g),
                ) && region_in("intersects"@, region, limit) == Ok::<RegionView, Seq<char>>(
                    RegionView::Intersects(g),
                ),
                None => region_in("contains"@, region, limit) is Err && region_in(
                    "intersects"@,
                    region,
                    limit,
                ) is Err,
            },
            None => region_in("contains"@, region, limit) is Err && region_in(
                "intersects"@,
                region,
                limit,
            ) is Err,
        },
        region_in("near_class"@, region, limit) == region_in("near"@, region, limit),
        region_in("near_layer"@, region, limit) == region_in("near"@, region, limit),
{
    lemma_predicates();
}

/// How many neighbours are asked for: the number under `k`, else the limit, and at least one.
pub open spec fn is_neighbours(region: JsonView, limit: usize, k: usize) -> bool {
    let asked = match region.get("k"@) {
        Some(JsonView::Number(NumberView::PosInt(u))) => u as usize,
        _ => limit,
    };
    k == (if asked == 0 {
        1
    } else {
        asked
    })
}

/// Nearness takes the layers and the classes that are listed under the reference, at least one of
/// them, and a radius.
pub proof fn nearness_takes_a_reference(
    region: JsonView,
    limit: usize,
    layers: Seq<Seq<char>>,
    classes: Seq<Seq<char>>,
    radius_m: u64,
)
    requires
        region_in("near"@, region, limit) == Ok::<RegionView, Seq<char>>(
            (RegionView::Near { layers, classes, radius_m }),
        ),
    ensures
        region.get("reference"@) matches Some(r) && lists_texts(r, "layers"@, layers)
            && lists_texts(r, "classes"@, classes),
        layers.len() > 0 || classes.len() > 0,
        region.get("radius_m"@) matches Some(v) && v.as_real() == Some(radius_m),
{
    lemma_predicates();
    reveal_strlit("near_class");
    let r = value_param(region, "reference"@, JsonView::Null);
    lemma_lists(r, "layers"@);
    lemma_lists(r, "classes"@);
}

/// Nearness is read where the reference lists a text and there is a radius.
pub proof fn nearness_is_read(region: JsonView, limit: usize, r: JsonView, v: Seq<JsonView>, i: int)
    requires
        region.get("reference"@) == Some(r),
        r.get("layers"@) == Some(JsonView::Array(v)) || r.get("classes"@) == Some(
            JsonView::Array(v),
        ),
        0 <= i < v.len(),
        v[i] is Str,
        region.get("radius_m"@) matches Some(x) && x.as_real() is Some,
    ensures
        region_in("near"@, region, limit) matches Ok(g) && g is Near,
{
    lemma_predicates();
    lemma_texts(v);
    v.lemma_filter_contains(|x: JsonView| x is Str, i);
}

// ---------------------------------------------------------------------------
// Methods
// ---------------------------------------------------------------------------

pub(crate) proof fn lemma_methods()
    ensures
        "gis/status"@.len() == 10,
        "gis/nl-query"@.len() == 12,
        "gis/get-tile"@.len() == 12,
        "gis/query"@.len() == 9,
        "gis/semantic-search"@.len() == 19,
        "gis/reindex-embeddings"@.len() == 22,
        "gis/spatial-query"@.len() == 17,
        "gis/get-layer-geojson"@.len() == 21,
        "gis/get-feature"@.len() == 15,
        "gis/list-layers"@.len() == 15,
        "gis/delete-layer"@.len() == 16,
        "gis/reorder-layer"@.len() == 17,
        "gis/merge-layer"@.len() == 15,
        "gis/import-geojson-file"@.len() == 23,
        "gis/import-datagov"@.len() == 18,
        "gis/datasource/kinds"@.len() == 20,
        "gis/datasource/list"@.len() == 19,
        "gis/datasource/get"@.len() == 18,
        "gis/datasource/add"@.len() == 18,
        "gis/datasource/update"@.len() == 21,
        "gis/datasource/delete"@.len() == 21,
        "gis/datasource/discover"@.len() == 23,
        "gis/datasource/fetch"@.len() == 20,
        "gis/nl-query"@[4] == 'n',
        "gis/get-tile"@[4] == 'g',
        "gis/semantic-search"@[4] == 's',
        "gis/datasource/list"@[4] == 'd',
        "gis/spatial-query"@[4] == 's',
        "gis/reorder-layer"@[4] == 'r',
        "gis/get-layer-geojson"@[4] == 'g',
        "gis/datasource/update"@[4] == 'd',
        "gis/datasource/delete"@[4] == 'd',
        "gis/datasource/update"@[15] == 'u',
        "gis/datasource/delete"@[15] == 'd',
        "gis/get-feature"@[4] == 'g',
        "gis/list-layers"@[4] == 'l',
        "gis/merge-layer"@[4] == 'm',
        "gis/import-geojson-file"@[4] == 'i',
        "gis/datasource/discover"@[4] == 'd',
        "gis/import-datagov"@[4] == 'i',
        "gis/datasource/get"@[4] == 'd',
        "gis/datasource/add"@[4] == 'd',
        "gis/datasource/get"@[15] == 'g',
        "gis/datasource/add"@[15] == 'a',
        "gis/datasource/kinds"@[15] == 'k',
        "gis/datasource/fetch"@[15] == 'f',
{
    reveal_strlit("gis/status");
    reveal_strlit("gis/nl-query");
    reveal_strlit("gis/get-tile");
    reveal_strlit("gis/query");
    reveal_strlit("gis/semantic-search");
    reveal_strlit("gis/reindex-embeddings");
    reveal_strlit("gis/spatial-query");
    reveal_strlit("gis/get-layer-geojson");
    reveal_strlit("gis/get-feature");
    reveal_strlit("gis/list-layers");
    reveal_strlit("gis/delete-layer");
    reveal_strlit("gis/reorder-layer");
    reveal_strlit("gis/merge-layer");
    reveal_strlit("gis/import-geojson-file");
    reveal_strlit("gis/import-datagov");
    reveal_strlit("gis/datasource/kinds");
    reveal_strlit("gis/datasource/list");
    reveal_strlit("gis/datasource/get");
    reveal_strlit("gis/datasource/add");
    reveal_strlit("gis/datasource/update");
    reveal_strlit("gis/datasource/delete");
    reveal_strlit("gis/datasource/discover");
    reveal_strlit("gis/datasource/fetch");
}

/// The methods that take no parameters are always understood.
pub proof fn plain_methods_are_understood(params: JsonView)
    ensures
        request_in("gis/status"@, params) == Ok::<RequestView, Seq<char>>(RequestView::Status),
        request_in("gis/list-layers"@, params) == Ok::<RequestView, Seq<char>>(
            RequestView::ListLayers,
        ),
        request_in("gis/reindex-embeddings"@, params) == Ok::<RequestView, Seq<char>>(
            RequestView::ReindexEmbeddings,
        ),
        request_in("gis/datasource/kinds"@, params) == Ok::<RequestView, Seq<char>>(
            RequestView::SourceKinds,
        ),
        request_in("gis/datasource/list"@, params) == Ok::<RequestView, Seq<char>>(
            RequestView::SourceList,
        ),
{
    lemma_methods();
}

/// The methods about one thing take its id or its name, which may not be empty where it is named
/// by the user, and refuse a request without it.
pub proof fn methods_about_one_thing_take_it(params: JsonView)
    ensures
        match params.get("id"@) {
            Some(JsonView::Str(id)) => {
                &&& id.len() > 0 ==> request_in("gis/delete-layer"@, params) == Ok::<
                    RequestView,
                    Seq<char>,
                >((RequestView::DeleteLayer { id }))
                &&& id.len() > 0 ==> request_in("gis/get-feature"@, params) == Ok::<
                    RequestView,
                    Seq<char>,
                >((RequestView::GetFeature { id }))
                &&& request_in("gis/datasource/get"@, params) == Ok::<RequestView, Seq<char>>(
                    (RequestView::SourceGet { id }),
                )
                &&& request_in("gis/datasource/delete"@, params) == Ok::<RequestView, Seq<char>>(
                    (RequestView::SourceDelete { id }),
                )
                &&& request_in("gis/datasource/discover"@, params) == Ok::<RequestView, Seq<char>>(
                    (RequestView::SourceDiscover { id }),
                )
                &&& request_in("gis/datasource/fetch"@, params) == Ok::<RequestView, Seq<char>>(
                    (RequestView::SourceFetch { id }),
                )
                &&& id.len() == 0 ==> request_in("gis/delete-layer"@, params) is Err
                &&& id.len() == 0 ==> request_in("gis/get-feature"@, params) is Err
            },
            _ => {
                &&& request_in("gis/delete-layer"@, params) is Err
                &&& request_in("gis/get-feature"@, params) is Err
                &&& request_in("gis/reorder-layer"@, params) is Err
                &&& request_in("gis/datasource/get"@, params) is Err
                &&& request_in("gis/datasource/update"@, params) is Err
                &&& request_in("gis/datasource/delete"@, params) is Err
                &&& request_in("gis/datasource/discover"@, params) is Err
                &&& request_in("gis/datasource/fetch"@, params) is Err
            },
        },
        match params.get("name"@) {
            Some(JsonView::Str(name)) => if name.len() > 0 {
                request_in("gis/merge-layer"@, params) == Ok::<RequestView, Seq<char>>(
                    (RequestView::MergeLayer { name }),
                )
            } else {
                request_in("gis/merge-layer"@, params) is Err
            },
            _ => request_in("gis/merge-layer"@, params) is Err,
        },
{
    lemma_methods();
    reveal_strlit("");
}

/// The optional text of a parameter.
pub open spec fn opt_text(params: JsonView, key: Seq<char>) -> Option<Seq<char>> {
    match params.get(key) {
        Some(JsonView::Str(s)) => Some(s),
        _ => None,
    }
}

/// Moves, imports and definitions take what they name, and what may be left out where it is
/// given.
pub proof fn methods_with_more_parameters(params: JsonView)
    ensures
        match params.get("id"@) {
            Some(JsonView::Str(id)) => {
                &&& request_in("gis/reorder-layer"@, params) matches Ok(
                    RequestView::ReorderLayer { id: i, direction },
                ) && i == id && is_text(params, "direction"@, "up"@, direction)
                &&& request_in("gis/datasource/update"@, params) == Ok::<RequestView, Seq<char>>(
                    (RequestView::SourceUpdate {
                        id,
                        label: opt_text(params, "label"@),
                        config: params.get("config"@),
                        enabled: match params.get("enabled"@) {
                            Some(JsonView::Bool(b)) => Some(b),
                            _ => None,
                        },
                    }),
                )
            },
            _ => true,
        },
        match params.get("path"@) {
            Some(JsonView::Str(path)) => request_in("gis/import-geojson-file"@, params) == Ok::<
                RequestView,
                Seq<char>,
            >(
                (RequestView::ImportFile {
                    path,
                    name: opt_text(params, "name"@),
                    display_name: opt_text(params, "display_name"@),
                }),
            ),
            _ => request_in("gis/import-geojson-file"@, params) is Err,
        },
        match params.get("dataset_id"@) {
            Some(JsonView::Str(dataset_id)) => if dataset_id.len() > 0 {
                request_in("gis/import-datagov"@, params) == Ok::<RequestView, Seq<char>>(
                    (RequestView::ImportDataset {
                        dataset_id,
                        name: opt_text(params, "name"@),
                        display_name: opt_text(params, "display_name"@),
                    }),
                )
            } else {
                request_in("gis/import-datagov"@, params) is Err
            },
            _ => request_in("gis/import-datagov"@, params) is Err,
        },
        match (params.get("kind"@), params.get("label"@)) {
            (Some(JsonView::Str(kind)), Some(JsonView::Str(label))) => request_in(
                "gis/datasource/add"@,
                params,
            ) matches Ok(RequestView::SourceAdd { kind: k, label: l, config }) && k == kind && l
                == label && (params.get("config"@) is Some ==> config == params.get("config"@)->0)
                && (params.get("config"@) is None ==> config == JsonView::Object(Seq::empty())),
            _ => request_in("gis/datasource/add"@, params) is Err,
        },
{
    lemma_methods();
    reveal_strlit("");
}

/// The methods about features take their text, box, layer or query, with the limits that hold for
/// each.
pub proof fn methods_about_features(params: JsonView)
    ensures
        match query_in(params) {
            Ok(q) => request_in("gis/query"@, params) == Ok::<RequestView, Seq<char>>(
                RequestView::SpatialDsl(q),
            ),
            Err(_) => request_in("gis/query"@, params) is Err,
        },
        match params.get("text"@) {
            Some(JsonView::Str(t)) => if trim(t).len() > 0 {
                &&& request_in("gis/semantic-search"@, params) matches Ok(
                    RequestView::SemanticSearch { text, scope, layer, limit },
                ) && text == t && is_text(params, "node_type"@, "Feature"@, scope) && layer
                    == opt_text(params, "layer"@) && is_count(
                    params,
                    "limit"@,
                    200,
                    20,
                    limit as int,
                )
                &&& request_in("gis/nl-query"@, params) matches Ok(
                    RequestView::NlQuery { text, viewport },
                ) && text == trim(t) && (params.get("viewport"@) is Some ==> viewport
                    == params.get("viewport"@)->0) && (params.get("viewport"@) is None ==> viewport
                    is Null)
            } else {
                request_in("gis/semantic-search"@, params) is Err && request_in(
                    "gis/nl-query"@,
                    params,
                ) is Err
            },
            _ => request_in("gis/semantic-search"@, params) is Err && request_in(
                "gis/nl-query"@,
                params,
            ) is Err,
        },
        match params.get("layer"@) {
            Some(JsonView::Str(l)) => if l.len() > 0 {
                request_in("gis/get-layer-geojson"@, params) matches Ok(
                    RequestView::GetLayerGeojson { layer, limit, simplify, drop_props },
                ) && layer == l && is_count(params, "limit"@, 100_000, 10_000, limit as int)
                    && drop_props == (params.get("drop_props"@) == Some(JsonView::Bool(true)))
                    && is_tolerance(params, simplify)
            } else {
                request_in("gis/get-layer-geojson"@, params) is Err
            },
            _ => request_in("gis/get-layer-geojson"@, params) is Err,
        },
{
    lemma_methods();
    reveal_strlit("");
    let t = crate::coordinator::request::text_param(params, "text"@, ""@);
    crate::laws::texts::trimming_takes_white_space_alone(t);
}

/// How far features are simplified: by a number above zero; else they are not.
pub open spec fn is_tolerance(params: JsonView, simplify: Option<u64>) -> bool {
    match params.get("simplify"@) {
        Some(JsonView::Number(n)) => if rank(crate::json::real_of(n)) > 0 {
            simplify == Some(crate::json::real_of(n))
        } else {
            simplify is None
        },
        _ => simplify is None,
    }
}

/// A box query takes its four sides, all of them numbers, and a layer where one is given; a tile
/// takes its three numbers.
pub proof fn boxes_and_tiles_take_their_numbers(params: JsonView)
    ensures
        match (
            params.get("min_lng"@),
            params.get("min_lat"@),
            params.get("max_lng"@),
            params.get("max_lat"@),
        ) {
            (
                Some(JsonView::Number(x0)),
                Some(JsonView::Number(y0)),
                Some(JsonView::Number(x1)),
                Some(JsonView::Number(y1)),
            ) => request_in("gis/spatial-query"@, params) matches Ok(
                RequestView::SpatialQuery { min, max, layer, limit },
            ) && min.x == crate::json::real_of(x0) && min.y == crate::json::real_of(y0) && max.x
                == crate::json::real_of(x1) && max.y == crate::json::real_of(y1) && layer
                == opt_text(params, "layer"@) && is_count(
                params,
                "limit"@,
                10_000,
                1_000,
                limit as int,
            ),
            _ => request_in("gis/spatial-query"@, params) is Err,
        },
        match (params.get("z"@), params.get("x"@), params.get("y"@)) {
            (
                Some(JsonView::Number(NumberView::PosInt(a))),
                Some(JsonView::Number(NumberView::PosInt(b))),
                Some(JsonView::Number(NumberView::PosInt(c))),
            ) => request_in("gis/get-tile"@, params) matches Ok(
                RequestView::GetTile { layer, z, x, y },
            ) && is_text(params, "layer"@, ""@, layer) && (a <= u8::MAX ==> z == a) && (b
                <= u32::MAX ==> x == b) && (c <= u32::MAX ==> y == c),
            _ => request_in("gis/get-tile"@, params) is Err,
        },
{
    lemma_methods();
}

} // verus!
