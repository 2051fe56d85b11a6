//! Requests from end to end over a graph in memory, and the replies to them.

use spire_gis::actors::import::{names_for_file, ImportOp};
use spire_gis::actors::import_run::{ImportEvent, ImportRun, ImportStep};
use spire_gis::actors::layer::{delete_layer, list_layers, LayerInfo};
use spire_gis::coordinator::envelope::{parse_call, read_call, reply_json};
use spire_gis::coordinator::query::{search_width, Hit, Scored};
use spire_gis::coordinator::reply::{reindex_reply, status_reply};
use spire_gis::coordinator::request::{parse_query, parse_request, store_limit, Region, Request};
use spire_gis::coordinator::route::{
    box_answer, cache_file, cached_reply, catalog_answer, completion_answer, delete_reply, feature_answer,
    list_reply, reindex_phases, reorder_reply, report_reply, search_answer, tile_answer, Finish,
    Found, NlStep, Phase, QueryRun, QueryStep,
};
use spire_gis::geometry::{Coord, Geometry};
use spire_gis::json::{Json, Real};
use spire_gis::models::geojson::{RawDocument, RawFeature};
use spire_gis::models::{AttrNode, NODE_FEATURE, NODE_LAYER};
use spire_gis::tasks::{answer, Failure, Task};

const SAMPLE_GEOJSON: &str = r#"{
      "type": "FeatureCollection",
      "features": [
        {"type":"Feature","properties":{"NAME":"Zone A","OBJECTID":1},
         "geometry":{"type":"Polygon","coordinates":[[[103.70,1.20],[103.90,1.20],[103.90,1.40],[103.70,1.40],[103.70,1.20]]]}},
        {"type":"Feature","properties":{"NAME":"Zone B","OBJECTID":2},
         "geometry":{"type":"Polygon","coordinates":[[[103.90,1.20],[104.10,1.20],[104.10,1.40],[103.90,1.40],[103.90,1.20]]]}},
        {"type":"Feature","properties":{"NAME":"Zone C","OBJECTID":3},
         "geometry":{"type":"Polygon","coordinates":[[[103.70,1.40],[103.90,1.40],[103.90,1.55],[103.70,1.55],[103.70,1.40]]]}}
      ]
    }"#;

fn json(text: &str) -> Json {
    Json::parse(text).expect("json")
}

fn float(r: &Real) -> f64 {
    f64::from_bits(r.bits())
}

fn number(text: &str) -> Real {
    json(text).as_real().expect("number")
}

/// A graph store in memory.
struct Graph {
    nodes: Vec<AttrNode>,
}

impl Graph {
    fn of_type(&self, node_type: &str) -> Vec<AttrNode> {
        self.nodes.iter().filter(|n| n.node_type == node_type).map(|n| n.copy()).collect()
    }

    fn delete(&mut self, ids: &[String]) {
        self.nodes.retain(|n| !ids.contains(&n.id));
    }

    fn catalog(&self) -> Vec<LayerInfo> {
        list_layers(&self.of_type(NODE_LAYER), &self.of_type(NODE_FEATURE))
    }
}

fn document(text: &str) -> RawDocument {
    let root = json(text);
    let part = |v: &Json, key: &str| v.get(key).map(|p| p.to_text());
    RawDocument {
        kind: root.text_at("type").cloned(),
        features: root
            .get("features")
            .and_then(|f| f.as_array())
            .map(|a| {
                a.iter()
                    .map(|f| RawFeature {
                        geometry: part(f, "geometry"),
                        properties: part(f, "properties"),
                    })
                    .collect()
            })
            .unwrap_or_default(),
        geometry: part(&root, "geometry"),
        properties: part(&root, "properties"),
    }
}

fn cell(c: &Coord) -> (i64, i64) {
    ((float(&c.x) * 1_000_000.0).round() as i64, (float(&c.y) * 1_000_000.0).round() as i64)
}

fn ends_of(lines: &[Vec<Vec<Coord>>]) -> Vec<Vec<((i64, i64), (i64, i64))>> {
    lines
        .iter()
        .map(|group| group.iter().map(|l| (cell(&l[0]), cell(&l[l.len() - 1]))).collect())
        .collect()
}

fn run_import(
    g: &mut Graph,
    text: &str,
    machine: &str,
    shown: &str,
    source: &str,
) -> Result<Json, String> {
    let mut run = ImportRun::begin_document(machine.to_string(), shown.to_string(), source.to_string(), document(text))?;
    let mut pending: Vec<AttrNode> = Vec::new();
    loop {
        let event = match run.step() {
            ImportStep::Layers => ImportEvent::Nodes(Ok(g.of_type(NODE_LAYER))),
            ImportStep::Features => ImportEvent::Nodes(Ok(g.of_type(NODE_FEATURE))),
            ImportStep::Delete(id) => {
                g.delete(&[id]);
                ImportEvent::Done(Ok(()))
            }
            ImportStep::Cells(lines) => ImportEvent::Cells(ends_of(&lines)),
            ImportStep::Perform(ImportOp::Store(n)) => {
                pending.push(n);
                ImportEvent::Done(Ok(()))
            }
            ImportStep::Perform(ImportOp::Commit) => {
                g.nodes.append(&mut pending);
                ImportEvent::Done(Ok(()))
            }
            ImportStep::Reply(r) => return r,
            _ => ImportEvent::Done(Ok(())),
        };
        run = run.supply(event).expect("an answer");
    }
}

fn import(g: &mut Graph, text: &str, stem: &str, name: Option<String>, display: Option<String>) -> Json {
    let (machine, shown) = names_for_file(stem, &name, &display);
    run_import(g, text, &machine, &shown, "local file").expect("import")
}

/// Carries out a request over the graph in memory.
fn route(g: &mut Graph, method: &str, params: &str) -> Result<Json, String> {
    match parse_request(method, &json(params))? {
        Request::Status => Ok(status_reply("0.1.0")),
        Request::ListLayers => list_reply(Ok(g.catalog())),
        Request::DeleteLayer { id } => {
            let ids = delete_layer(&g.of_type(NODE_FEATURE), &id);
            g.delete(&ids);
            delete_reply(Ok(()))
        }
        Request::ImportFile { path, name, display_name } => {
            assert_eq!(path, "sample.geojson");
            let report = import(g, SAMPLE_GEOJSON, "sample", name, display_name);
            report_reply(&Task::Import, Ok(report))
        }
        Request::SpatialQuery { min, max, layer, limit } => {
            let inside = |c: &Coord| {
                float(&min.x) <= float(&c.x)
                    && float(&c.x) <= float(&max.x)
                    && float(&min.y) <= float(&c.y)
                    && float(&c.y) <= float(&max.y)
            };
            let nodes: Vec<AttrNode> = g
                .of_type(NODE_FEATURE)
                .into_iter()
                .filter(|n| layer.is_none() || n.subtype == layer)
                .filter(|n| {
                    let b = n.geometry.as_ref().and_then(|g| g.bounding_rect()).expect("bounds");
                    inside(&b.min) && inside(&b.max)
                })
                .collect();
            assert!(nodes.len() <= limit);
            let total = nodes.len() as u64;
            box_answer(Ok(Found { nodes, total, truncated: false }))
        }
        other => panic!("unexpected request {:?}", other),
    }
}

fn fresh() -> Graph {
    Graph { nodes: Vec::new() }
}

#[test]
fn status_reports_core() {
    let mut g = fresh();
    let value = route(&mut g, "gis/status", "{}").expect("status");
    assert_eq!(value.text_at("core").unwrap(), "spire-gis");
    assert!(value.text_at("version").unwrap().len() > 0);
}

#[test]
fn list_layers_empty_on_fresh_store() {
    let mut g = fresh();
    let value = route(&mut g, "gis/list-layers", "{}").expect("list layers");
    assert!(value.as_array().expect("array").is_empty());
}

#[test]
fn unknown_method_is_an_error() {
    let mut g = fresh();
    let err = route(&mut g, "gis/nope", "{}").expect_err("must fail");
    assert!(err.contains("unknown method"), "got {}", err);
    assert_eq!(err, "unknown method: gis/nope");
}

#[test]
fn import_lists_tiles_and_spatial_query() {
    let mut g = fresh();
    let params = r#"{ "path": "sample.geojson", "name": "demo", "display_name": "Demo" }"#;

    // 1. Import the sample file as layer "demo".
    let report = route(&mut g, "gis/import-geojson-file", params).expect("import");
    assert_eq!(report.text_at("name").unwrap(), "demo");
    assert_eq!(report.get("feature_count").unwrap(), &Json::from_u64(3));
    assert_eq!(report.text_at("geometry_type").unwrap(), "Polygon");

    // 2. list-layers shows one layer with 3 features.
    let layers = route(&mut g, "gis/list-layers", "{}").expect("list");
    let arr = layers.as_array().unwrap();
    assert_eq!(arr.len(), 1, "{:?}", arr);
    assert_eq!(arr[0].text_at("name").unwrap(), "demo");
    assert_eq!(arr[0].get("feature_count").unwrap(), &Json::from_u64(3));

    // 3. Re-importing the same name replaces, never duplicates.
    let report2 = route(&mut g, "gis/import-geojson-file", params).expect("reimport");
    assert_ne!(report2.get("layer_id"), report.get("layer_id"), "fresh layer id");
    let layers2 = route(&mut g, "gis/list-layers", "{}").expect("list2");
    let arr2 = layers2.as_array().unwrap();
    assert_eq!(arr2.len(), 1, "reimport must not duplicate: {:?}", arr2);
    assert_eq!(arr2[0].get("feature_count").unwrap(), &Json::from_u64(3));

    // 4. A vector tile comes as base64 with the number of its bytes.
    let tile = tile_answer(Ok(vec![26, 4, 100, 101, 109, 111])).expect("tile");
    assert!(tile.get("bytes").unwrap().as_u64().unwrap() > 0, "tile has content");
    assert_eq!(tile.text_at("tile").expect("tile base64"), "GgRkZW1v");

    // 5. Bounding-box spatial query returns all three features.
    let fc = route(
        &mut g,
        "gis/spatial-query",
        r#"{ "min_lng": 103.5, "min_lat": 1.0, "max_lng": 104.3, "max_lat": 1.8, "layer": "demo" }"#,
    )
    .expect("bbox");
    assert_eq!(fc.get("total").unwrap(), &Json::from_u64(3), "{:?}", fc);
    assert_eq!(fc.get("features").and_then(|f| f.as_array()).unwrap().len(), 3);

    // 6. Delete the current layer → empty catalog.
    let current_id = arr2[0].text_at("id").expect("layer id").clone();
    let deleted =
        route(&mut g, "gis/delete-layer", &format!(r#"{{ "id": "{}" }}"#, current_id))
            .expect("delete");
    assert_eq!(deleted, json(r#"{"deleted":true}"#));
    let after = route(&mut g, "gis/list-layers", "{}").expect("list-after");
    assert!(after.as_array().unwrap().is_empty());
}

#[test]
fn import_reports_the_box_around_everything() {
    let mut g = fresh();
    let report = import(&mut g, SAMPLE_GEOJSON, "My Map.v2", None, None);
    assert_eq!(report.text_at("name").unwrap(), "my-map-v2");
    assert_eq!(report.text_at("display_name").unwrap(), "my-map-v2");
    assert_eq!(report.text_at("source").unwrap(), "local file");
    assert_eq!(report.get("bounds").unwrap(), &json("[103.7,1.2,104.1,1.55]"));
    // A second layer lands on top.
    let _ = import(&mut g, SAMPLE_GEOJSON, "other", None, Some(" Shown ".to_string()));
    let catalog = g.catalog();
    assert_eq!(catalog.len(), 2);
    assert_eq!((catalog[0].name.as_str(), catalog[0].z_order), ("my-map-v2", 0));
    assert_eq!((catalog[1].name.as_str(), catalog[1].z_order), ("shown-", 1));
    assert_eq!(catalog[1].display_name, "Shown");
    assert_eq!(catalog[1].description, "Imported from local file");
}

// ---------------------------------------------------------------------------
// The envelope
// ---------------------------------------------------------------------------

#[test]
fn calls_are_read() {
    let call = parse_call(r#"{"method":"gis/status","params":{"a":1}}"#).unwrap();
    assert_eq!(call.method, "gis/status");
    assert_eq!(call.params, json(r#"{"a":1}"#));
    let call = read_call(&json(r#"{"method":"m"}"#)).unwrap();
    assert_eq!(call.params, json("{}"));
    assert_eq!(parse_call(r#"{"method":""}"#).unwrap_err(), "missing method");
    assert_eq!(parse_call(r#"{"method":1}"#).unwrap_err(), "missing method");
    let e = parse_call("{").unwrap_err();
    assert_eq!(e, "invalid json: EOF while parsing an object at line 1 column 1");
}

#[test]
fn replies_are_wrapped() {
    assert_eq!(reply_json(Ok(json("[1,2]"))), r#"{"ok":true,"result":[1,2]}"#);
    assert_eq!(
        reply_json(Err("no \"way\"".to_string())),
        r#"{"error":"no \"way\"","ok":false}"#
    );
}

// ---------------------------------------------------------------------------
// Reading requests
// ---------------------------------------------------------------------------

fn refusal(method: &str, params: &str) -> String {
    parse_request(method, &json(params)).unwrap_err()
}

#[test]
fn required_parameters_are_named() {
    let cases = [
        ("gis/nl-query", r#"{"text":"  "}"#, "nl-query requires 'text'"),
        ("gis/delete-layer", r#"{"id":""}"#, "delete-layer requires 'id'"),
        ("gis/reorder-layer", "{}", "reorder-layer requires 'id'"),
        ("gis/merge-layer", "{}", "merge-layer requires 'name'"),
        ("gis/import-geojson-file", "{}", "import-geojson-file requires 'path'"),
        ("gis/import-datagov", "{}", "import-datagov requires 'dataset_id'"),
        ("gis/datasource/get", "{}", "datasource/get requires 'id'"),
        ("gis/datasource/add", r#"{"label":"x"}"#, "datasource/add requires 'kind'"),
        ("gis/datasource/add", r#"{"kind":"x"}"#, "datasource/add requires 'label'"),
        ("gis/datasource/update", "{}", "datasource/update requires 'id'"),
        ("gis/datasource/delete", "{}", "datasource/delete requires 'id'"),
        ("gis/datasource/discover", "{}", "datasource/discover requires 'id'"),
        ("gis/datasource/fetch", "{}", "datasource/fetch requires 'id'"),
        ("gis/get-tile", "{}", "get-tile requires 'z'"),
        ("gis/get-tile", r#"{"z":1}"#, "get-tile requires 'x'"),
        ("gis/get-tile", r#"{"z":1,"x":1}"#, "get-tile requires 'y'"),
        ("gis/semantic-search", r#"{"text":"\t"}"#, "semantic-search requires 'text'"),
        ("gis/spatial-query", "{}", "spatial-query requires 'min_lng'"),
        ("gis/spatial-query", r#"{"min_lng":1}"#, "spatial-query requires 'min_lat'"),
        (
            "gis/spatial-query",
            r#"{"min_lng":1,"min_lat":1}"#,
            "spatial-query requires 'max_lng'",
        ),
        (
            "gis/spatial-query",
            r#"{"min_lng":1,"min_lat":1,"max_lng":2}"#,
            "spatial-query requires 'max_lat'",
        ),
        ("gis/get-layer-geojson", "{}", "get-layer-geojson requires 'layer'"),
        ("gis/get-feature", "{}", "get-feature requires 'id'"),
    ];
    for (method, params, complaint) in cases {
        assert_eq!(refusal(method, params), complaint);
    }
}

#[test]
fn query_regions_are_checked() {
    let cases = [
        ("{}", "gis/query bbox requires region.bbox [minLng,minLat,maxLng,maxLat]"),
        (r#"{"region":{"bbox":[1,2,3]}}"#, "region.bbox must be 4 numbers"),
        (r#"{"predicate":"radius"}"#, "gis/query requires region.center [lng, lat]"),
        (
            r#"{"predicate":"radius","region":{"center":["x",1]}}"#,
            "region.center[0] must be a number",
        ),
        (
            r#"{"predicate":"nearest","region":{"center":[1]}}"#,
            "region.center[1] must be a number",
        ),
        (
            r#"{"predicate":"radius","region":{"center":[1,2]}}"#,
            "gis/query radius requires region.radius_m",
        ),
        (
            r#"{"predicate":"contains"}"#,
            "gis/query contains/intersects requires region.geometry",
        ),
        (
            r#"{"predicate":"intersects","region":{"geometry":{"type":"Nope"}}}"#,
            "region.geometry is not a supported GeoJSON geometry",
        ),
        (
            r#"{"predicate":"near"}"#,
            "gis/query near requires region.reference.{layers|classes}",
        ),
        (
            r#"{"predicate":"near_class","region":{"reference":{"classes":["c"]}}}"#,
            "gis/query near requires region.radius_m",
        ),
        (r#"{"predicate":"above"}"#, "gis/query: unknown predicate 'above'"),
    ];
    for (params, complaint) in cases {
        assert_eq!(parse_query(&json(params)).unwrap_err(), complaint);
        assert_eq!(refusal("gis/query", params), complaint);
    }
}

#[test]
fn queries_have_defaults_and_limits() {
    let q = parse_query(&json(r#"{"region":{"bbox":[1,2,3,4]}}"#)).unwrap();
    assert_eq!(q.predicate, "bbox");
    assert_eq!(q.output, "features");
    assert_eq!(q.limit, 200);
    assert!(q.layers.is_empty() && q.classes.is_empty() && q.attributes.is_empty());
    assert_eq!(store_limit(&q), 200);
    let q = parse_query(&json(
        r#"{"region":{"bbox":[1,2,3,4]},"limit":99999,"layers":["a",1,"b"],"classes":["c"]}"#,
    ))
    .unwrap();
    assert_eq!(q.limit, 10_000);
    assert_eq!(q.layers, vec!["a", "b"]);
    assert_eq!(store_limit(&q), 10_000);
    let q = parse_query(&json(r#"{"region":{"bbox":[1,2,3,4]},"limit":5,"classes":["c"]}"#))
        .unwrap();
    // What is filtered afterwards is fetched more widely.
    assert_eq!(store_limit(&q), 2_000);
    let q = parse_query(&json(r#"{"predicate":"nearest","region":{"center":[1,2],"k":0}}"#))
        .unwrap();
    match q.region {
        Region::Nearest { k, .. } => assert_eq!(k, 1),
        other => panic!("unexpected region {:?}", other),
    }
    let q = parse_query(&json(r#"{"predicate":"nearest","region":{"center":[1,2]},"limit":7}"#))
        .unwrap();
    match q.region {
        Region::Nearest { center, k } => {
            assert_eq!(k, 7);
            assert_eq!((float(&center.x), float(&center.y)), (1.0, 2.0));
        }
        other => panic!("unexpected region {:?}", other),
    }
}

#[test]
fn requests_have_defaults() {
    assert_eq!(
        parse_request("gis/reorder-layer", &json(r#"{"id":"a"}"#)).unwrap(),
        Request::ReorderLayer { id: "a".to_string(), direction: "up".to_string() }
    );
    assert_eq!(
        parse_request("gis/datasource/add", &json(r#"{"kind":"k","label":"l"}"#)).unwrap(),
        Request::SourceAdd {
            kind: "k".to_string(),
            label: "l".to_string(),
            config: json("{}")
        }
    );
    assert_eq!(
        parse_request("gis/semantic-search", &json(r#"{"text":" park ","limit":500}"#)).unwrap(),
        Request::SemanticSearch {
            text: " park ".to_string(),
            scope: "Feature".to_string(),
            layer: None,
            limit: 200
        }
    );
    assert_eq!(
        parse_request("gis/nl-query", &json(r#"{"text":" parks "}"#)).unwrap(),
        Request::NlQuery { text: "parks".to_string(), viewport: Json::null() }
    );
    // Tile numbers wrap to their width.
    assert_eq!(
        parse_request("gis/get-tile", &json(r#"{"z":257,"x":4294967297,"y":3}"#)).unwrap(),
        Request::GetTile { layer: String::new(), z: 1, x: 1, y: 3 }
    );
    assert_eq!(
        parse_request("gis/get-layer-geojson", &json(r#"{"layer":"a","simplify":-1}"#)).unwrap(),
        Request::GetLayerGeojson {
            layer: "a".to_string(),
            limit: 10_000,
            simplify: None,
            drop_props: false
        }
    );
    match parse_request(
        "gis/get-layer-geojson",
        &json(r#"{"layer":"a","simplify":0.5,"drop_props":true,"limit":200000}"#),
    )
    .unwrap()
    {
        Request::GetLayerGeojson { limit, simplify, drop_props, .. } => {
            assert_eq!(limit, 100_000);
            assert_eq!(float(&simplify.unwrap()), 0.5);
            assert!(drop_props);
        }
        other => panic!("unexpected request {:?}", other),
    }
}

// ---------------------------------------------------------------------------
// Failures
// ---------------------------------------------------------------------------

fn gone(t: &Task) -> String {
    answer::<()>(t, Err(Failure::Gone("closed".to_string()))).unwrap_err()
}

fn lost(t: &Task) -> String {
    answer::<()>(t, Err(Failure::Lost("dropped".to_string()))).unwrap_err()
}

fn refused(t: &Task) -> String {
    answer::<()>(t, Err(Failure::Refused("bad".to_string()))).unwrap_err()
}

#[test]
fn failures_say_what_was_asked_for() {
    assert_eq!(gone(&Task::ListLayers), "layer actor gone: closed");
    assert_eq!(gone(&Task::MergeLayer), "import actor gone: closed");
    assert_eq!(gone(&Task::SourceFetch), "datasource actor gone: closed");
    assert_eq!(gone(&Task::Tile), "tile actor gone: closed");
    assert_eq!(gone(&Task::Completion), "llm actor gone: closed");
    assert_eq!(gone(&Task::Sync), "graph actor gone: closed");
    assert_eq!(lost(&Task::Catalog), "layer reply lost: dropped");
    assert_eq!(lost(&Task::MergeLayer), "merge reply lost: dropped");
    assert_eq!(lost(&Task::SourceList), "datasource reply lost: dropped");
    assert_eq!(lost(&Task::LayerNodes("x".to_string())), "query reply lost: dropped");
    assert_eq!(lost(&Task::WriteVectors), "set-embeddings reply lost: dropped");
    assert_eq!(refused(&Task::ListLayers), "list layers failed: bad");
    assert_eq!(refused(&Task::Catalog), "list layers: bad");
    assert_eq!(refused(&Task::LayerNodes("parks".to_string())), "query layer 'parks': bad");
    assert_eq!(refused(&Task::Nodes("Layer".to_string())), "query Layer: bad");
    assert_eq!(refused(&Task::Tile), "get-tile: bad");
    assert_eq!(refused(&Task::RebuildIndexes), "rebuild failed: bad");
    assert_eq!(refused(&Task::StoredNodes("Layer".to_string())), "query 'Layer' failed: bad");
    assert_eq!(refused(&Task::DropNode("7".to_string())), "delete 7 failed: bad");
    assert_eq!(refused(&Task::SourceNode("7".to_string())), "get '7': bad");
    assert_eq!(gone(&Task::Transaction), "txn stream gone: closed");
    assert_eq!(lost(&Task::OpenTransaction), "txn open lost: dropped");
    assert_eq!(answer(&Task::Sync, Ok(7u8)), Ok(7));
}

#[test]
fn failed_tasks_make_failed_replies() {
    let f = || Failure::Refused("bad".to_string());
    assert_eq!(list_reply(Err(f())).unwrap_err(), "list layers failed: bad");
    assert_eq!(reorder_reply(Err(f())).unwrap_err(), "reorder layer: bad");
    assert_eq!(delete_reply(Err(f())).unwrap_err(), "delete layer: bad");
    assert_eq!(report_reply(&Task::Import, Err(f())).unwrap_err(), "import failed: bad");
    assert_eq!(box_answer(Err(f())).unwrap_err(), "spatial query: bad");
    assert_eq!(feature_answer("i", Err(f())).unwrap_err(), "get-feature failed: bad");
    assert_eq!(tile_answer(Err(f())).unwrap_err(), "get-tile: bad");
    assert_eq!(
        search_answer("t", "Feature", &None, 1, Err(f())).unwrap_err(),
        "semantic search: bad"
    );
}

// ---------------------------------------------------------------------------
// Queries on their way
// ---------------------------------------------------------------------------

fn node(id: &str, layer: &str, class: &str) -> AttrNode {
    let mut properties = json("{}").as_object().unwrap().copy();
    properties.set("FOLDERPATH", Json::text(class));
    properties.set("geometry", Json::text("copy"));
    AttrNode {
        id: id.to_string(),
        node_type: "Feature".to_string(),
        subtype: Some(layer.to_string()),
        name: id.to_string(),
        description: None,
        properties,
        geometry: Some(Geometry::Point(Coord { x: number("1.5"), y: number("2") })),
        point: None,
        embedding_id: None,
        created_at: String::new(),
        updated_at: String::new(),
        version: 1,
    }
}

fn hit(id: &str, layer: &str, class: &str) -> Hit {
    Hit { node: node(id, layer, class), distance: None }
}

#[test]
fn a_query_asks_layer_by_layer() {
    let q = parse_query(&json(
        r#"{"region":{"bbox":[1,2,3,4]},"layers":["a","b"],"classes":["c"],"limit":1}"#,
    ))
    .unwrap();
    let run = QueryRun::new(q, Finish::Plain);
    let (run, ask) = match run.step() {
        QueryStep::Ask(run, ask) => (run, ask),
        other => panic!("unexpected step {:?}", other),
    };
    assert_eq!(ask.layer, Some("a".to_string()));
    assert_eq!(ask.limit, 2_000);
    let run = run.supply(Ok(vec![hit("1", "a", "c"), hit("2", "a", "d")])).unwrap();
    let (run, ask) = match run.step() {
        QueryStep::Ask(run, ask) => (run, ask),
        other => panic!("unexpected step {:?}", other),
    };
    assert_eq!(ask.layer, Some("b".to_string()));
    let run = run.supply(Ok(vec![hit("3", "b", "c")])).unwrap();
    let reply = match run.step() {
        QueryStep::Reply(j) => j,
        other => panic!("unexpected step {:?}", other),
    };
    let expected = [
        r#"{"by_class":{"c":2},"features":{"features":[{"geometry":{"coordinates":[1.5,2.0],"#,
        r#""type":"Point"},"id":"1","properties":{"FOLDERPATH":"c","layer":"a"},"#,
        r#""type":"Feature"}],"type":"FeatureCollection"},"query":{"classes":["c"],"#,
        r#""layers":["a","b"],"limit":1,"output":"features","predicate":"bbox"},"#,
        r#""total":2,"truncated":true}"#,
    ]
    .concat();
    assert_eq!(reply.to_text(), expected);
}

#[test]
fn a_near_query_asks_once_and_keeps_its_layers() {
    let q = parse_query(&json(
        r#"{"predicate":"near_class","layers":["a"],"output":"count",
            "region":{"radius_m":500,"reference":{"classes":["roads"]}}}"#,
    ))
    .unwrap();
    let run = QueryRun::new(q, Finish::Plain);
    let (run, ask) = match run.step() {
        QueryStep::Ask(run, ask) => (run, ask),
        other => panic!("unexpected step {:?}", other),
    };
    assert_eq!(ask.layer, None);
    assert_eq!(ask.layers, vec!["a"]);
    assert!(ask.classes.is_empty());
    match ask.region {
        Region::Near { layers, classes, radius_m } => {
            assert!(layers.is_empty());
            assert_eq!(classes, vec!["roads"]);
            assert_eq!(float(&radius_m), 500.0);
        }
        other => panic!("unexpected region {:?}", other),
    }
    let run = run.supply(Ok(vec![hit("1", "a", "c"), hit("2", "b", "c")])).unwrap();
    let reply = match run.step() {
        QueryStep::Reply(j) => j,
        other => panic!("unexpected step {:?}", other),
    };
    assert_eq!(reply.get("total").unwrap(), &Json::from_u64(1));
    assert_eq!(
        reply.get("features").unwrap(),
        &json(r#"{"type":"FeatureCollection","features":[]}"#)
    );
}

#[test]
fn a_query_ends_with_the_complaint_of_the_store() {
    let q = parse_query(&json(r#"{"region":{"bbox":[1,2,3,4]}}"#)).unwrap();
    let run = QueryRun::new(q, Finish::Plain);
    let run = match run.step() {
        QueryStep::Ask(run, _) => run,
        other => panic!("unexpected step {:?}", other),
    };
    assert_eq!(
        run.supply(Err(Failure::Refused("bad".to_string()))).unwrap_err(),
        "spatial query: bad"
    );
}

#[test]
fn hits_carry_their_distance() {
    let q = parse_query(&json(r#"{"predicate":"radius","region":{"center":[1,2],"radius_m":9}}"#))
        .unwrap();
    let run = match QueryRun::new(q, Finish::Plain).step() {
        QueryStep::Ask(run, _) => run,
        other => panic!("unexpected step {:?}", other),
    };
    let mut h = hit("1", "a", "c");
    h.distance = Some(json("12.5"));
    let reply = match run.supply(Ok(vec![h])).unwrap().step() {
        QueryStep::Reply(j) => j,
        other => panic!("unexpected step {:?}", other),
    };
    let fs = reply.get("features").unwrap().get("features").unwrap().as_array().unwrap();
    assert_eq!(
        fs[0].get("properties").unwrap(),
        &json(r#"{"FOLDERPATH":"c","distance_m":12.5,"layer":"a"}"#)
    );
}

// ---------------------------------------------------------------------------
// Search by meaning
// ---------------------------------------------------------------------------

fn scored(id: &str, layer: &str, similarity: &str) -> Scored {
    Scored { node: node(id, layer, "c"), similarity: number(similarity) }
}

#[test]
fn search_ranks_and_limits() {
    let found = vec![
        scored("1", "a", "0.1"),
        scored("2", "b", "0.9"),
        scored("3", "a", "0.5"),
        scored("4", "a", "0.5"),
    ];
    let reply =
        search_answer("park", "Feature", &Some("a".to_string()), 2, Ok(found)).unwrap();
    assert_eq!(reply.text_at("query").unwrap(), "park");
    assert_eq!(reply.get("total").unwrap(), &Json::from_u64(3));
    let fs = reply.get("features").unwrap().get("features").unwrap().as_array().unwrap();
    let ids: Vec<&String> = fs.iter().map(|f| f.text_at("id").unwrap()).collect();
    assert_eq!(ids, vec!["3", "4"]);
    assert_eq!(
        fs[0].get("properties").unwrap(),
        &json(r#"{"FOLDERPATH":"c","layer":"a","similarity":0.5}"#)
    );
}

#[test]
fn search_can_look_for_layers() {
    let mut layer = scored("L", "x", "0.7");
    layer.node.node_type = "Layer".to_string();
    layer.node.properties.set("display_name", Json::text("Parks"));
    let reply =
        search_answer("park", "Layer", &None, 20, Ok(vec![layer, scored("1", "a", "0.9")]))
            .unwrap();
    assert_eq!(
        reply,
        json(
            r#"{"query":"park","total":1,
                "layers":[{"id":"L","name":"L","display_name":"Parks","similarity":0.7}]}"#
        )
    );
}

#[test]
fn search_asks_for_fifty_at_least() {
    assert_eq!(search_width(1), 50);
    assert_eq!(search_width(50), 50);
    assert_eq!(search_width(200), 200);
}

// ---------------------------------------------------------------------------
// Natural language
// ---------------------------------------------------------------------------

#[test]
fn prompts_carry_catalog_view_and_words() {
    let info = LayerInfo {
        id: "i".to_string(),
        name: "parks".to_string(),
        display_name: String::new(),
        description: String::new(),
        geometry_type: String::new(),
        source: String::new(),
        feature_count: 0,
        bounds: None,
        classes: vec![spire_gis::actors::layer::ClassCount {
            key: "Layers/Parks".to_string(),
            count: 3,
        }],
        z_order: 0,
    };
    let prompt = catalog_answer("green places", &json("[1,2,3,4]"), Ok(vec![info])).unwrap();
    assert!(prompt.starts_with("You translate a natural-language Singapore map query"));
    assert!(prompt.ends_with(
        "Available layers/classes:\n- layer \"parks\" class \"Layers/Parks\"\n\n\
         Current view bbox: [1,2,3,4]\nUser query: green places\n"
    ));
    assert_eq!(
        catalog_answer("x", &Json::null(), Err(Failure::Lost("gone".to_string()))).unwrap_err(),
        "layer reply lost: gone"
    );
}

fn completed(text: &str) -> Result<NlStep, String> {
    completion_answer(Ok(text.to_string()))
}

#[test]
fn answers_of_the_model_are_followed() {
    assert_eq!(
        completed("sorry").unwrap_err(),
        "nl-query: LLM returned no parseable JSON"
    );
    assert_eq!(completed("{}").unwrap_err(), "nl-query: LLM JSON missing 'params'");
    assert_eq!(
        completed(r#"{"params":{}}"#).unwrap_err(),
        "nl-query: LLM params missing 'predicate'"
    );
    assert_eq!(
        completed(r#"{"fallback":true}"#).unwrap(),
        NlStep::Reply(json(r#"{"fallback":true}"#))
    );
    assert_eq!(
        completed(r#"{"params":{"predicate":"bbox"}}"#).unwrap_err(),
        "gis/query bbox requires region.bbox [minLng,minLat,maxLng,maxLat]"
    );
    assert_eq!(
        completion_answer(Err(Failure::Refused("quota".to_string()))).unwrap_err(),
        "llm error: quota"
    );
}

#[test]
fn a_query_of_the_model_is_summed_up() {
    let text = "Here you go:\n```json\n{\"params\": {\"predicate\": \"bbox\", \
                \"region\": {\"bbox\": [1,2,3,4]}}, \"summary\": \"All of it\"}\n```";
    let run = match completed(text).unwrap() {
        NlStep::Run(run) => run,
        other => panic!("unexpected step {:?}", other),
    };
    let run = match run.step() {
        QueryStep::Ask(run, _) => run,
        other => panic!("unexpected step {:?}", other),
    };
    let reply = match run.supply(Ok(Vec::new())).unwrap().step() {
        QueryStep::Reply(j) => j,
        other => panic!("unexpected step {:?}", other),
    };
    assert_eq!(reply.text_at("summary").unwrap(), "All of it");
    assert_eq!(reply.text_at("source").unwrap(), "llm");
    assert_eq!(reply.get("total").unwrap(), &Json::from_u64(0));
}

// ---------------------------------------------------------------------------
// The smaller replies
// ---------------------------------------------------------------------------

#[test]
fn display_features_are_cached_by_layer() {
    let t = Some(number("0.5"));
    assert_eq!(cache_file("roads", &t, true), Some("display-roads.geojson".to_string()));
    assert_eq!(cache_file("roads", &t, false), None);
    assert_eq!(cache_file("roads", &None, true), None);
    assert_eq!(cached_reply(&b"{\"total\":1}".to_vec()), Some(json(r#"{"total":1}"#)));
    assert_eq!(cached_reply(&b"{\"total\":".to_vec()), None);
    assert_eq!(cached_reply(&vec![b'"', 0xff, b'"']), None);
}

#[test]
fn reindexing_has_its_order() {
    assert_eq!(
        reindex_phases(),
        vec![
            Phase::EnsureIndex,
            Phase::Embed("Feature".to_string()),
            Phase::Embed("Layer".to_string()),
            Phase::RebuildIndexes,
            Phase::Sync
        ]
    );
    assert_eq!(reindex_reply(12), json(r#"{"embedded":12}"#));
}

#[test]
fn features_are_inspected_without_plumbing() {
    let mut n = node("f", "parks", "c");
    n.properties.set("layer_id", Json::text("L"));
    n.properties.set("source_id", Json::text("S"));
    assert_eq!(
        feature_answer("f", Ok(Some(n.copy()))).unwrap(),
        json(r#"{"id":"f","layer":"parks","name":"f","attributes":{"FOLDERPATH":"c"}}"#)
    );
    assert_eq!(feature_answer("f", Ok(None)).unwrap_err(), "no feature with id 'f'");
    n.node_type = "Layer".to_string();
    assert_eq!(feature_answer("f", Ok(Some(n))).unwrap_err(), "node 'f' is not a feature");
}

#[test]
fn boxes_reply_with_features_and_counts() {
    let reply = box_answer(Ok(Found {
        nodes: vec![node("1", "a", "c")],
        total: 9,
        truncated: true,
    }))
    .unwrap();
    assert_eq!(
        reply,
        json(
            r#"{"type":"FeatureCollection","total":9,"truncated":true,"features":[
                {"type":"Feature","id":"1","geometry":{"type":"Point","coordinates":[1.5,2.0]},
                 "properties":{"FOLDERPATH":"c","geometry":"copy","layer":"a"}}]}"#
        )
    );
}

#[test]
fn a_single_feature_is_imported() {
    let mut g = Graph { nodes: Vec::new() };
    let text = r#"{"type":"Feature","properties":{"NAME":"A"},"geometry":{"type":"Point","coordinates":[103.8,1.3]}}"#;
    let report = run_import(&mut g, text, "demo", "Demo", "s").expect("import");
    assert_eq!(report.get("feature_count").unwrap(), &Json::from_u64(1));
    assert_eq!(report.text_at("geometry_type").unwrap(), "Point");
    assert_eq!(g.of_type(NODE_FEATURE)[0].name, "A");
}

#[test]
fn a_refused_import_deletes_nothing() {
    let mut g = Graph { nodes: Vec::new() };
    run_import(&mut g, SAMPLE_GEOJSON, "zones", "Zones", "s").expect("import");
    let before: Vec<String> = g.nodes.iter().map(|n| n.id.clone()).collect();
    let empty = r#"{"type":"FeatureCollection","features":[]}"#;
    assert_eq!(
        run_import(&mut g, empty, "zones", "Zones", "s").unwrap_err(),
        "geojson contained no features"
    );
    let after: Vec<String> = g.nodes.iter().map(|n| n.id.clone()).collect();
    assert_eq!(before, after);
}

#[test]
fn a_second_import_replaces_the_first() {
    let mut g = Graph { nodes: Vec::new() };
    let first = run_import(&mut g, SAMPLE_GEOJSON, "zones", "Zones", "s").expect("import");
    run_import(&mut g, SAMPLE_GEOJSON, "other", "Other", "s").expect("import");
    let second = run_import(&mut g, SAMPLE_GEOJSON, "zones", "Zones", "s").expect("import");
    assert_ne!(first.text_at("layer_id"), second.text_at("layer_id"));
    let layers = g.of_type(NODE_LAYER);
    assert_eq!(layers.iter().filter(|l| l.name == "zones").count(), 1);
    assert_eq!(layers.len(), 2);
    let of = |id: &str| {
        g.of_type(NODE_FEATURE).iter().filter(|f| f.text_at("layer_id").unwrap() == id).count()
    };
    assert_eq!(of(first.text_at("layer_id").unwrap()), 0);
    assert_eq!(of(second.text_at("layer_id").unwrap()), 3);
    assert_eq!(g.catalog().last().unwrap().name, "zones");
}

#[test]
fn a_failed_commit_is_rolled_back() {
    let mut run = ImportRun::begin_document(
        "m".to_string(),
        "M".to_string(),
        "s".to_string(),
        document(SAMPLE_GEOJSON),
    )
    .expect("import");
    let mut steps = Vec::new();
    loop {
        let step = run.step();
        let event = match &step {
            ImportStep::Layers => ImportEvent::Nodes(Ok(Vec::new())),
            ImportStep::Cells(lines) => ImportEvent::Cells(ends_of(lines)),
            ImportStep::Perform(ImportOp::Commit) => {
                ImportEvent::Done(Err(Failure::Refused("disk full".to_string())))
            }
            ImportStep::Reply(r) => {
                assert_eq!(r.as_ref().unwrap_err(), "txn op failed: disk full");
                break;
            }
            _ => ImportEvent::Done(Ok(())),
        };
        steps.push(step);
        run = run.supply(event).expect("an answer");
    }
    assert_eq!(steps.last(), Some(&ImportStep::Rollback));
    assert!(matches!(&steps[4], ImportStep::Perform(ImportOp::Store(n)) if n.node_type == NODE_LAYER));
    assert_eq!(steps[3], ImportStep::Open);
    assert!(run.supply(ImportEvent::Cells(Vec::new())).is_none());
}
