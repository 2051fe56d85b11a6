//! The smaller replies.

use vstd::prelude::*;

use crate::coordinator::features::{make_feature, subtype_text};
use crate::json::{Json, JsonObject};
use crate::models::geojson::node_geometry_geojson;
use crate::models::AttrNode;
use crate::text::concat3;
#[allow(unused_imports)]
use crate::coordinator::features::{feature_out, opt_text_or};
#[allow(unused_imports)]
use crate::json::{array_view, int_json, no_entries, str_json, JsonView};
#[allow(unused_imports)]
use crate::models::geojson::node_geometry_out;
#[allow(unused_imports)]
use crate::models::{nodes_view, NodeView};
#[allow(unused_imports)]
use crate::textmap::put;

verus! {

/// The name and the version of the service.
pub fn status_reply(version: &str) -> (r: Json)
    ensures
        r@ == JsonView::Object(
            put(
                put(no_entries(), "core"@, str_json("spire-gis"@)),
                "version"@,
                str_json(version@),
            ),
        ),
{
    let mut o = JsonObject::new();
    o.set("core", Json::text("spire-gis"));
    o.set("version", Json::text(version));
    Json::object(o)
}

pub open spec fn flag_out(key: Seq<char>) -> JsonView {
    JsonView::Object(put(no_entries(), key, JsonView::Bool(true)))
}

/// A reply that says no more than that something was done.
pub fn flag_reply(key: &str) -> (r: Json)
    ensures
        r@ == flag_out(key@),
{
    let mut o = JsonObject::new();
    o.set(key, Json::from_bool(true));
    Json::object(o)
}

/// The reply to a reindexing.
pub fn reindex_reply(embedded: u64) -> (r: Json)
    ensures
        r@ == JsonView::Object(put(no_entries(), "embedded"@, int_json(embedded as int))),
{
    let mut o = JsonObject::new();
    o.set("embedded", Json::from_u64(embedded));
    Json::object(o)
}

// ---------------------------------------------------------------------------
// Tiles
// ---------------------------------------------------------------------------

/// The standard base64 text of bytes, with padding.
pub uninterp spec fn base64_text(bytes: Seq<u8>) -> Seq<char>;

/// Calls `base64::Engine::encode` of the standard engine with padding, whose result the name
/// stands for.
#[verifier::external_body]
fn base64_encode(bytes: &Vec<u8>) -> (r: String)
    ensures
        r@ == base64_text(bytes@),
{
    base64::Engine::encode(&base64::engine::general_purpose::STANDARD, bytes)
}

pub open spec fn tile_out(bytes: Seq<u8>) -> JsonView {
    JsonView::Object(
        put(
            put(no_entries(), "tile"@, str_json(base64_text(bytes))),
            "bytes"@,
            int_json(bytes.len() as int),
        ),
    )
}

/// The reply with a vector tile.
pub fn tile_reply(bytes: &Vec<u8>) -> (r: Json)
    ensures
        r@ == tile_out(bytes@),
{
    let mut o = JsonObject::new();
    o.set("tile", Json::text(base64_encode(bytes).as_str()));
    o.set("bytes", Json::from_u64(bytes.len() as u64));
    Json::object(o)
}

// ---------------------------------------------------------------------------
// Spatial queries
// ---------------------------------------------------------------------------

/// A found node as a feature with its layer among the properties.
pub open spec fn found_out(n: NodeView) -> Option<JsonView> {
    match node_geometry_out(n) {
        None => None,
        Some(g) => Some(
            feature_out(
                n.id,
                put(n.properties, "layer"@, str_json(opt_text_or(n.subtype))),
                g,
            ),
        ),
    }
}

pub open spec fn all_found_out(nodes: Seq<NodeView>) -> Seq<JsonView>
    decreases nodes.len(),
{
    if nodes.len() == 0 {
        Seq::empty()
    } else {
        match found_out(nodes.last()) {
            Some(f) => all_found_out(nodes.drop_last()).push(f),
            None => all_found_out(nodes.drop_last()),
        }
    }
}

pub open spec fn spatial_out(nodes: Seq<NodeView>, total: int, truncated: bool) -> JsonView {
    let e = put(no_entries(), "type"@, str_json("FeatureCollection"@));
    let e = put(e, "features"@, JsonView::Array(all_found_out(nodes)));
    let e = put(e, "total"@, int_json(total));
    JsonView::Object(put(e, "truncated"@, JsonView::Bool(truncated)))
}

/// The reply to a spatial query: the found features, and what the store says of their number.
pub fn spatial_reply(nodes: &Vec<AttrNode>, total: u64, truncated: bool) -> (r: Json)
    ensures
        r@ == spatial_out(nodes_view(nodes@), total as int, truncated),
{
    let n = nodes.len();
    let ghost ns = nodes_view(nodes@);
    let mut out: Vec<Json> = Vec::new();
    let mut i: usize = 0;
    proof {
        assert(array_view(out@) =~= all_found_out(ns.take(0)));
    }
    while i < n
        invariant
            i <= n,
            n == nodes@.len(),
            ns == nodes_view(nodes@),
            array_view(out@) == all_found_out(ns.take(i as int)),
        decreases n - i,
    {
        proof {
            assert(ns.take(i + 1).drop_last() =~= ns.take(i as int));
            assert(ns.take(i + 1).last() == nodes@[i as int]@);
        }
        let node = &nodes[i];
        match node_geometry_geojson(node) {
            Some(g) => {
                let mut props = node.properties.copy();
                props.set("layer", Json::text(subtype_text(node).as_str()));
                let ghost before = out@;
                let f = make_feature(node.id.as_str(), props, g);
                out.push(f);
                proof {
                    assert(array_view(out@) =~= array_view(before).push(f@));
                }
            },
            None => {},
        }
        i += 1;
    }
    proof {
        assert(ns.take(n as int) =~= ns);
    }
    let mut o = JsonObject::new();
    o.set("type", Json::text("FeatureCollection"));
    o.set("features", Json::array(out));
    o.set("total", Json::from_u64(total));
    o.set("truncated", Json::from_bool(truncated));
    Json::object(o)
}

/// The file in which the features of a layer are cached for display.
pub fn display_cache_name(layer: &str) -> (r: String)
    ensures
        r@ == "display-"@ + layer@ + ".geojson"@,
{
    concat3("display-", layer, ".geojson")
}

} // verus!
