//! Stored features as GeoJSON, for display and for inspection.

use vstd::prelude::*;

use crate::geometry::Coord;
use crate::json::{Json, JsonObject};
use crate::models::geojson::{decimate_geometry, geometry_to_geojson, node_geometry_geojson};
use crate::models::AttrNode;
use crate::text::{concat3, same_text};
#[allow(unused_imports)]
use crate::geometry::GeometryView;
#[allow(unused_imports)]
use crate::json::{array_view, int_json, no_entries, number_text, str_json, Entries, JsonView};
#[allow(unused_imports)]
use crate::models::geojson::{decimated, geometry_out, node_geometry_out};
#[allow(unused_imports)]
use crate::models::NodeView;
#[allow(unused_imports)]
use crate::textmap::{lookup, put, without};

verus! {

// ---------------------------------------------------------------------------
// Features
// ---------------------------------------------------------------------------

/// A GeoJSON feature.
pub open spec fn feature_out(id: Seq<char>, properties: Entries, geometry: JsonView) -> JsonView {
    let e = put(no_entries(), "type"@, str_json("Feature"@));
    let e = put(e, "id"@, str_json(id));
    let e = put(e, "properties"@, JsonView::Object(properties));
    JsonView::Object(put(e, "geometry"@, geometry))
}

pub(crate) fn make_feature(id: &str, properties: JsonObject, geometry: Json) -> (r: Json)
    ensures
        r@ == feature_out(id@, properties@, geometry@),
{
    let mut o = JsonObject::new();
    o.set("type", Json::text("Feature"));
    o.set("id", Json::text(id));
    o.set("properties", Json::object(properties));
    o.set("geometry", geometry);
    Json::object(o)
}

/// A GeoJSON feature collection.
pub open spec fn collection_out(features: Seq<JsonView>) -> JsonView {
    let e = put(no_entries(), "type"@, str_json("FeatureCollection"@));
    JsonView::Object(put(e, "features"@, JsonView::Array(features)))
}

pub(crate) fn make_collection(features: Vec<Json>) -> (r: Json)
    ensures
        r@ == collection_out(array_view(features@)),
{
    let mut o = JsonObject::new();
    o.set("type", Json::text("FeatureCollection"));
    o.set("features", Json::array(features));
    Json::object(o)
}

/// A text or a number as text; the empty text for anything else.
pub open spec fn plain_text(v: Option<JsonView>) -> Seq<char> {
    match v {
        Some(JsonView::Str(s)) => s,
        Some(JsonView::Number(n)) => number_text(n),
        _ => ""@,
    }
}

fn scalar_str(v: Option<&Json>) -> (r: String)
    ensures
        r@ == plain_text(
            match v {
                Some(j) => Some(j@),
                None => None,
            },
        ),
{
    match v {
        Some(j) => match j.as_str() {
            Some(s) => s.clone(),
            None => match j.number_to_text() {
                Some(t) => t,
                None => "".to_owned(),
            },
        },
        None => "".to_owned(),
    }
}

/// The first text under one of the keys that is not empty.
pub open spec fn first_text(e: Entries, names: Seq<Seq<char>>) -> Seq<char>
    decreases names.len(),
{
    if names.len() == 0 {
        ""@
    } else if plain_text(lookup(e, names[0])).len() > 0 {
        plain_text(lookup(e, names[0]))
    } else {
        first_text(e, names.drop_first())
    }
}

fn is_empty(s: &str) -> (r: bool)
    ensures
        r == (s@.len() == 0),
{
    proof {
        reveal_strlit("");
        if s@.len() == 0 {
            assert(s@ =~= ""@);
        }
    }
    same_text(s, "")
}

pub open spec fn strs(names: Seq<&str>) -> Seq<Seq<char>> {
    names.map_values(|s: &str| s@)
}

fn find_text(props: &JsonObject, names: &Vec<&str>) -> (r: String)
    ensures
        r@ == first_text(props@, strs(names@)),
{
    let n = names.len();
    let ghost all = strs(names@);
    let mut i: usize = 0;
    proof {
        assert(all.skip(0) =~= all);
    }
    while i < n
        invariant
            i <= n,
            n == names@.len(),
            all == strs(names@),
            first_text(props@, all) == first_text(props@, all.skip(i as int)),
        decreases n - i,
    {
        proof {
            assert(all.skip(i as int)[0] == names@[i as int]@);
            assert(all.skip(i as int).drop_first() =~= all.skip(i + 1));
        }
        let t = scalar_str(props.get(names[i]));
        if !is_empty(t.as_str()) {
            return t;
        }
        i += 1;
    }
    proof {
        assert(all.skip(n as int).len() == 0);
    }
    "".to_owned()
}

/// The keys under which datasets keep the name of a feature.
pub open spec fn name_keys() -> Seq<Seq<char>> {
    seq![
        "NAME"@,
        "name"@,
        "PARK_NAME"@,
        "AREA_NAME"@,
        "TREE_NAME"@,
        "TREE_ID"@,
        "NAME_NEW"@,
        "Description"@,
    ]
}

/// The keys under which datasets keep the number of a feature.
pub open spec fn number_keys() -> Seq<Seq<char>> {
    seq!["OBJECTID"@, "objectid"@, "FID"@, "fid"@, "ID"@, "id"@]
}

/// The few properties that a map needs to show and select a feature.
pub open spec fn display_properties(n: NodeView) -> Entries {
    let e = put(
        no_entries(),
        "class"@,
        str_json(plain_text(lookup(n.properties, "FOLDERPATH"@))),
    );
    let e = put(e, "name"@, str_json(first_text(n.properties, name_keys())));
    let e = put(e, "objectid"@, str_json(first_text(n.properties, number_keys())));
    put(e, "id"@, str_json(n.id))
}

/// The properties of a feature: those for display, or all but the copy of the geometry.
pub open spec fn shown_properties(n: NodeView, drop_props: bool) -> Entries {
    if drop_props {
        display_properties(n)
    } else {
        without(n.properties, "geometry"@)
    }
}

fn properties_of(node: &AttrNode, drop_props: bool) -> (r: JsonObject)
    ensures
        r@ == shown_properties(node@, drop_props),
{
    if drop_props {
        let names: Vec<&str> = vec![
            "NAME",
            "name",
            "PARK_NAME",
            "AREA_NAME",
            "TREE_NAME",
            "TREE_ID",
            "NAME_NEW",
            "Description",
        ];
        let numbers: Vec<&str> = vec!["OBJECTID", "objectid", "FID", "fid", "ID", "id"];
        proof {
            assert(strs(names@) =~= name_keys());
            assert(strs(numbers@) =~= number_keys());
        }
        let mut o = JsonObject::new();
        o.set("class", Json::text(scalar_str(node.properties.get("FOLDERPATH")).as_str()));
        o.set("name", Json::text(find_text(&node.properties, &names).as_str()));
        o.set("objectid", Json::text(find_text(&node.properties, &numbers).as_str()));
        o.set("id", Json::text(node.id.as_str()));
        o
    } else {
        let mut o = node.properties.copy();
        let _ = o.remove("geometry");
        o
    }
}

/// A stored feature with a geometry that was made for it.
pub fn feature_with(node: &AttrNode, geometry: Json, drop_props: bool) -> (r: Json)
    ensures
        r@ == feature_out(node@.id, shown_properties(node@, drop_props), geometry@),
{
    make_feature(node.id.as_str(), properties_of(node, drop_props), geometry)
}

/// What a stored feature becomes: its own geometry, or a decimated one; without a geometry it
/// becomes nothing.
pub open spec fn is_feature_json<F: Fn(&Coord, &Coord) -> bool>(
    r: Option<JsonView>,
    node: AttrNode,
    far: Option<F>,
    drop_props: bool,
) -> bool {
    match far {
        None => r == match node_geometry_out(node@) {
            Some(g) => Some(feature_out(node@.id, shown_properties(node@, drop_props), g)),
            None => None,
        },
        Some(far) => match node.geometry {
            None => r is None,
            Some(g) => exists|thin: GeometryView| #[trigger]
                decimated(g, thin, far) && r == Some(
                    feature_out(
                        node@.id,
                        shown_properties(node@, drop_props),
                        geometry_out(thin),
                    ),
                ),
        },
    }
}

pub open spec fn opt_json(j: Option<Json>) -> Option<JsonView> {
    match j {
        Some(x) => Some(x@),
        None => None,
    }
}

/// A stored feature as GeoJSON. Where `simplify` is given, lines lose the vertices that it does
/// not find far enough from the last kept one.
pub fn feature_json<F: Fn(&Coord, &Coord) -> bool>(
    node: &AttrNode,
    simplify: Option<F>,
    drop_props: bool,
) -> (r: Option<Json>)
    requires
        simplify matches Some(far) ==> forall|a: &Coord, b: &Coord| call_requires(far, (a, b)),
    ensures
        is_feature_json(opt_json(r), *node, simplify, drop_props),
{
    match simplify {
        Some(far) => match &node.geometry {
            Some(g) => {
                let thin = decimate_geometry(g, far);
                proof {
                    assert(decimated(*g, thin@, far));
                }
                Some(feature_with(node, geometry_to_geojson(&thin), drop_props))
            },
            None => None,
        },
        None => match node_geometry_geojson(node) {
            Some(g) => Some(feature_with(node, g, drop_props)),
            None => None,
        },
    }
}

/// The features of a layer, with their number and whether the limit cut them.
pub open spec fn layer_out(features: Seq<JsonView>, limit: u32) -> JsonView {
    let e = put(no_entries(), "type"@, str_json("FeatureCollection"@));
    let e = put(e, "features"@, JsonView::Array(features));
    let e = put(e, "total"@, int_json(features.len() as int));
    JsonView::Object(
        put(e, "truncated"@, JsonView::Bool((features.len() as usize as u32) >= limit)),
    )
}

/// The reply with the features of a layer.
pub fn layer_reply(features: Vec<Json>, limit: u32) -> (r: Json)
    ensures
        r@ == layer_out(array_view(features@), limit),
{
    let n = features.len();
    proof {
        assert(array_view(features@).len() == n);
    }
    let mut o = JsonObject::new();
    o.set("type", Json::text("FeatureCollection"));
    o.set("features", Json::array(features));
    o.set("total", Json::from_u64(n as u64));
    o.set("truncated", Json::from_bool((n as u32) >= limit));
    Json::object(o)
}

// ---------------------------------------------------------------------------
// Single features
// ---------------------------------------------------------------------------

pub open spec fn opt_text_or(s: Option<Seq<char>>) -> Seq<char> {
    match s {
        Some(t) => t,
        None => ""@,
    }
}

pub(crate) fn subtype_text(node: &AttrNode) -> (r: String)
    ensures
        r@ == opt_text_or(node@.subtype),
{
    match &node.subtype {
        Some(s) => s.clone(),
        None => "".to_owned(),
    }
}

/// All attributes of a feature, without plumbing.
pub open spec fn inspected(n: NodeView) -> JsonView {
    let attrs = without(
        without(without(n.properties, "geometry"@), "layer_id"@),
        "source_id"@,
    );
    let e = put(no_entries(), "id"@, str_json(n.id));
    let e = put(e, "layer"@, str_json(opt_text_or(n.subtype)));
    let e = put(e, "name"@, str_json(n.name));
    JsonView::Object(put(e, "attributes"@, JsonView::Object(attrs)))
}

/// The reply about a single feature, given the node that the store has under the id.
pub open spec fn inspection(
    node: Option<NodeView>,
    id: Seq<char>,
) -> Result<JsonView, Seq<char>> {
    match node {
        None => Err("no feature with id '"@ + id + "'"@),
        Some(n) => if n.node_type == "Feature"@ {
            Ok(inspected(n))
        } else {
            Err("node '"@ + id + "' is not a feature"@)
        },
    }
}

pub open spec fn json_result(r: Result<Json, String>) -> Result<JsonView, Seq<char>> {
    match r {
        Ok(j) => Ok(j@),
        Err(e) => Err(e@),
    }
}

/// The reply about a single feature, given the node that the store has under the id.
pub fn get_feature(node: &Option<AttrNode>, id: &str) -> (r: Result<Json, String>)
    ensures
        json_result(r) == inspection(crate::datasources::store::opt_node_view(*node), id@),
{
    let n = match node {
        Some(n) => n,
        None => {
            return Err(concat3("no feature with id '", id, "'"));
        },
    };
    if !same_text(n.node_type.as_str(), "Feature") {
        return Err(concat3("node '", id, "' is not a feature"));
    }
    let mut attrs = n.properties.copy();
    let _ = attrs.remove("geometry");
    let _ = attrs.remove("layer_id");
    let _ = attrs.remove("source_id");
    let mut o = JsonObject::new();
    o.set("id", Json::text(n.id.as_str()));
    o.set("layer", Json::text(subtype_text(n).as_str()));
    o.set("name", Json::text(n.name.as_str()));
    o.set("attributes", Json::object(attrs));
    Ok(Json::object(o))
}

} // verus!
