//! Data sources: definitions, drivers, the store and the service.

use spire_gis::actors::import::ImportOp;
use spire_gis::actors::import_run::{ImportEvent, ImportRun, ImportStep};
use spire_gis::actors::layer::list_layers;
use spire_gis::coordinator::features::{feature_json, get_feature, layer_reply};
use spire_gis::coordinator::request::{parse_request, Request};
use spire_gis::coordinator::route::{
    discovered_reply, feature_answer, kinds_reply, list_reply, report_reply,
    source_deleted_reply, source_reply, sources_reply, stored_reply,
};
use spire_gis::datasources::actor::{
    add, after_import, driver, fetched_import, require_source, update, with_discovery,
};
use spire_gis::datasources::data_gov_sg::{
    dataset_id, dataset_text, download_url, import_text, may_poll, poll_url, titles,
    DataGovSgDriver, KIND, MAX_POLLS,
};
use spire_gis::datasources::store::{delete, get, list, upsert};
use spire_gis::datasources::{
    analyze_geojson, datasource_from_nodes, datasource_to_node, default_true, schema_to_nodes,
    DataSource, DatasetInfo, DatasetPayload, Discovery, DriverRegistry, RefreshPolicy,
    ATTR_NODE_TYPE, SOURCE_NODE_TYPE,
};
use spire_gis::geometry::Coord;
use spire_gis::json::Json;
use spire_gis::models::geojson::{RawDocument, RawFeature};
use spire_gis::models::{AttrNode, NODE_FEATURE, NODE_LAYER};
use spire_gis::tasks::{Failure, Task};

const FIXTURE: &str = r#"{
      "type": "FeatureCollection",
      "features": [
        { "type": "Feature", "properties": { "NAME": "Alpha", "POP": 12 }, "geometry": { "type": "Point", "coordinates": [103.8, 1.3] } },
        { "type": "Feature", "properties": { "NAME": "Beta", "POP": "many" }, "geometry": { "type": "Point", "coordinates": [103.9, 1.4] } }
      ]
    }"#;

const SAMPLE_GEOJSON: &str = r#"{
  "type": "FeatureCollection",
  "features": [
    {"type":"Feature","properties":{"NAME":"Zone A","OBJECTID":1},
     "geometry":{"type":"Polygon","coordinates":[[[103.70,1.20],[103.90,1.20],[103.90,1.40],[103.70,1.40],[103.70,1.20]]]}},
    {"type":"Feature","properties":{"NAME":"Zone B","OBJECTID":2},
     "geometry":{"type":"Polygon","coordinates":[[[103.90,1.20],[104.10,1.20],[104.10,1.40],[103.90,1.40],[103.90,1.20]]]}},
    {"type":"Feature","properties":{"NAME":"Zone C","OBJECTID":3},
     "geometry":{"type":"Polygon","coordinates":[[[103.70,1.40],[103.90,1.40],[103.90,1.55],[103.70,1.55],[103.70,1.40]]]}}
  ]
}"#;

fn json(text: &str) -> Json {
    Json::parse(text).expect("json")
}

fn text(j: &Json) -> &str {
    j.as_str().expect("text")
}

/// A graph store in memory.
struct Graph {
    nodes: Vec<AttrNode>,
}

impl Graph {
    fn new() -> Graph {
        Graph { nodes: Vec::new() }
    }

    fn of_type(&self, node_type: &str) -> Vec<AttrNode> {
        self.nodes.iter().filter(|n| n.node_type == node_type).map(|n| n.copy()).collect()
    }

    fn with_id(&self, id: &str) -> Option<AttrNode> {
        self.nodes.iter().find(|n| n.id == id).map(|n| n.copy())
    }

    fn delete(&mut self, ids: &[String]) {
        self.nodes.retain(|n| !ids.contains(&n.id));
    }

    fn store(&mut self, nodes: Vec<AttrNode>) {
        for n in nodes {
            self.delete(&[n.id.clone()]);
            self.nodes.push(n);
        }
    }

    fn sources(&self) -> Vec<DataSource> {
        list(&self.of_type(SOURCE_NODE_TYPE), &self.of_type(ATTR_NODE_TYPE)).expect("list")
    }

    fn source(&self, id: &str) -> Option<DataSource> {
        get(&self.with_id(id), &self.of_type(ATTR_NODE_TYPE), id).expect("get")
    }

    fn upsert(&mut self, source: &DataSource) {
        let u = upsert(source, &self.with_id(&source.id), &self.of_type(ATTR_NODE_TYPE))
            .expect("upsert");
        self.delete(&u.delete);
        self.store(u.store);
    }

    fn delete_source(&mut self, id: &str) {
        let ids = delete(&self.of_type(ATTR_NODE_TYPE), id);
        self.delete(&ids);
    }
}

fn document(text: &str) -> RawDocument {
    let root = json(text);
    let part = |v: &Json, key: &str| v.get(key).map(|p| p.to_text());
    RawDocument {
        kind: root.text_at("type").cloned(),
        features: root
            .get("features")
            .and_then(|f| f.as_array())
            .map(|a| {
                a.iter()
                    .map(|f| RawFeature {
                        geometry: part(f, "geometry"),
                        properties: part(f, "properties"),
                    })
                    .collect()
            })
            .unwrap_or_default(),
        geometry: part(&root, "geometry"),
        properties: part(&root, "properties"),
    }
}

fn cell(c: &Coord) -> (i64, i64) {
    let x = f64::from_bits(c.x.bits());
    let y = f64::from_bits(c.y.bits());
    ((x * 1_000_000.0).round() as i64, (y * 1_000_000.0).round() as i64)
}

fn ends_of(lines: &[Vec<Vec<Coord>>]) -> Vec<Vec<((i64, i64), (i64, i64))>> {
    lines
        .iter()
        .map(|group| {
            group
                .iter()
                .map(|l| match (l.first(), l.last()) {
                    (Some(a), Some(b)) => (cell(a), cell(b)),
                    _ => ((0, 0), (0, 0)),
                })
                .collect()
        })
        .collect()
}

#[test]
fn dataset_id_required_and_read() {
    assert!(dataset_id(&Json::null()).is_err());
    assert!(dataset_id(&json("{}")).is_err());
    assert_eq!(dataset_id(&json(r#"{ "dataset_id": "d_abc" }"#)).unwrap(), "d_abc");
}

#[test]
fn dataset_id_must_not_be_empty() {
    assert_eq!(
        dataset_id(&json(r#"{ "dataset_id": "" }"#)).unwrap_err(),
        "data.gov.sg requires config.dataset_id"
    );
    assert!(dataset_id(&json(r#"{ "dataset_id": 7 }"#)).is_err());
}

#[test]
fn analyze_geojson_infers_schema_and_kinds() {
    let info = analyze_geojson(FIXTURE, "demo".to_string(), "fixture".to_string()).unwrap();
    assert_eq!(info.feature_count, 2);
    assert_eq!(info.geometry_types, vec!["Point".to_string()]);
    assert_eq!(text(info.schema.get("NAME").unwrap()), "string");
    // Same key with a number then a string collapses to "mixed".
    assert_eq!(text(info.schema.get("POP").unwrap()), "mixed");
}

#[test]
fn analysis_keeps_name_and_rejects_other_text() {
    let info = analyze_geojson(FIXTURE, "demo".to_string(), "fixture".to_string()).unwrap();
    assert_eq!(info.name, "demo");
    assert_eq!(info.description, "fixture");
    let e = analyze_geojson("{", "a".to_string(), "b".to_string()).unwrap_err();
    assert!(e.starts_with("invalid geojson json: "), "got {}", e);
    let e = analyze_geojson("{}", "a".to_string(), "b".to_string()).unwrap_err();
    assert_eq!(e, "missing geojson 'type'");
}

#[test]
fn codec_normalizes_config_and_schema() {
    let mut src = DataSource::new("data-gov-sg", "Demo", json("{}"));
    src.config = json(r#"{ "dataset_id": "d_x", "zoom": 14 }"#);
    src.discovered = Some(Discovery {
        feature_count: 2,
        geometry_types: vec!["Point".to_string()],
        schema: json(r#"{ "NAME": "string", "POP": "mixed" }"#),
    });
    let node = datasource_to_node(&src);
    let attrs = schema_to_nodes(&src);
    // Config becomes scalar properties, NOT a JSON blob.
    assert_eq!(node.properties.get("config_dataset_id"), Some(&Json::text("d_x")));
    assert_eq!(node.properties.get("config_zoom"), Some(&Json::from_u64(14)));
    assert_eq!(node.properties.get("enabled"), Some(&Json::from_bool(true)));
    assert_eq!(attrs.len(), 2);

    let back = datasource_from_nodes(&node, &attrs).unwrap();
    assert_eq!(back.id, src.id);
    assert_eq!(back.kind, "data-gov-sg");
    assert_eq!(back.label, "Demo");
    assert_eq!(text(back.config.get("dataset_id").unwrap()), "d_x");
    let d = back.discovered.unwrap();
    assert_eq!(d.feature_count, 2);
    assert_eq!(d.schema, json(r#"{ "NAME": "string", "POP": "mixed" }"#));
}

#[test]
fn codec_keeps_only_scalar_settings() {
    let src = DataSource::new(
        "k",
        "L",
        json(r#"{ "a": [1], "b": null, "c": true, "d": {"x":1}, "e": 1.5 }"#),
    );
    let node = datasource_to_node(&src);
    let back = datasource_from_nodes(&node, &Vec::new()).unwrap();
    assert_eq!(back.config, json(r#"{ "c": true, "e": 1.5 }"#));
    assert_eq!(back.discovered, None);
    assert_eq!(back.refresh, RefreshPolicy::Manual);
    assert!(back.enabled);
    assert!(default_true());
    assert_eq!(back.created_at, src.created_at);
    // Nothing was discovered, so there is no attribute either.
    assert!(schema_to_nodes(&src).is_empty());
}

#[test]
fn codec_rejects_unknown_refresh_mode() {
    let src = DataSource::new("k", "Roads", json("{}"));
    let mut node = datasource_to_node(&src);
    node.properties.set("refresh_mode", Json::text("hourly"));
    let e = datasource_from_nodes(&node, &Vec::new()).unwrap_err();
    assert_eq!(e, "unknown refresh_mode 'hourly' on datasource 'Roads'");
}

#[test]
fn geometry_types_are_joined_by_commas() {
    let mut src = DataSource::new("k", "L", json("{}"));
    src.discovered = Some(Discovery {
        feature_count: 7,
        geometry_types: vec!["LineString".to_string(), "Point".to_string()],
        schema: json("{}"),
    });
    let node = datasource_to_node(&src);
    assert_eq!(node.properties.get("geometry_types"), Some(&Json::text("LineString,Point")));
    assert_eq!(node.properties.get("feature_count"), Some(&Json::from_u64(7)));
    let back = datasource_from_nodes(&node, &schema_to_nodes(&src)).unwrap();
    assert_eq!(back.discovered, src.discovered);
}

#[test]
fn builtin_registry_contains_data_gov_sg() {
    let reg = DriverRegistry::<DataGovSgDriver>::builtin();
    assert!(reg.get("data-gov-sg").is_some());
    assert_eq!(reg.kinds(), vec!["data-gov-sg"]);
}

#[test]
fn registry_rejects_a_second_driver() {
    let mut reg: DriverRegistry<u32> = DriverRegistry::new();
    assert!(reg.is_empty());
    reg.register("b", 1).unwrap();
    reg.register("a", 2).unwrap();
    assert_eq!(reg.register("b", 3).unwrap_err(), "data source driver 'b' already registered");
    assert_eq!(reg.get("b"), Some(&1));
    assert_eq!(reg.get("c"), None);
    assert_eq!(reg.kinds(), vec!["a", "b"]);
    assert!(!reg.is_empty());
}

#[test]
fn graph_store_round_trips_definition_and_schema() {
    let mut store = Graph::new();
    let mut src = DataSource::new("data-gov-sg", "National Map Lines", json("{}"));
    src.config = json(r#"{ "dataset_id": "d_x" }"#);
    src.discovered = Some(Discovery {
        feature_count: 42,
        geometry_types: vec!["LineString".to_string()],
        schema: json(r#"{ "NAME": "string", "OBJECTID": "number" }"#),
    });
    store.upsert(&src);

    let listed = store.sources();
    assert_eq!(listed.len(), 1);
    let got = &listed[0];
    assert_eq!(got.id, src.id);
    assert_eq!(got.kind, "data-gov-sg");
    assert_eq!(text(got.config.get("dataset_id").unwrap()), "d_x");
    let d = got.discovered.as_ref().unwrap();
    assert_eq!(d.feature_count, 42);
    assert_eq!(d.geometry_types, vec!["LineString".to_string()]);
    assert_eq!(d.schema, json(r#"{ "NAME": "string", "OBJECTID": "number" }"#));

    // Edit label; upsert keeps the same id and replaces fields.
    let mut edited = got.copy();
    edited.label = "Renamed".to_string();
    store.upsert(&edited);
    assert_eq!(store.sources().len(), 1);
    let got2 = store.source(&src.id).unwrap();
    assert_eq!(got2.label, "Renamed");
    assert_eq!(text(got2.config.get("dataset_id").unwrap()), "d_x");

    // Delete cascades the schema attribute nodes.
    store.delete_source(&src.id);
    assert!(store.sources().is_empty());
    let remaining = store.of_type(ATTR_NODE_TYPE);
    assert!(remaining.is_empty());
}

#[test]
fn deleting_one_source_leaves_the_others() {
    let mut store = Graph::new();
    for label in ["One", "Two"] {
        let mut src = DataSource::new("k", label, json("{}"));
        src.discovered = Some(Discovery {
            feature_count: 1,
            geometry_types: Vec::new(),
            schema: json(r#"{ "A": "string" }"#),
        });
        store.upsert(&src);
    }
    let first = store.sources().into_iter().find(|s| s.label == "One").unwrap();
    store.delete_source(&first.id);
    let left = store.sources();
    assert_eq!(left.len(), 1);
    assert_eq!(left[0].label, "Two");
    assert_eq!(left[0].discovered.as_ref().unwrap().schema, json(r#"{ "A": "string" }"#));
    assert_eq!(store.of_type(ATTR_NODE_TYPE).len(), 1);
    assert_eq!(store.source(&first.id), None);
}

/// A driver that serves the sample without a network.
struct MockDriver;

impl MockDriver {
    fn discover(&self) -> Result<DatasetInfo, String> {
        analyze_geojson(SAMPLE_GEOJSON, "mock".to_string(), "mock fixture".to_string())
    }

    fn fetch(&self) -> DatasetPayload {
        DatasetPayload::GeoJsonText(SAMPLE_GEOJSON.to_string())
    }
}

enum Driver {
    DataGovSg,
    Mock(MockDriver),
}

fn import(
    g: &mut Graph,
    text: &str,
    name: &str,
    display: &str,
    source: &str,
) -> Result<Json, String> {
    let mut run = ImportRun::begin_document(name.to_string(), display.to_string(), source.to_string(), document(text))?;
    let mut pending: Vec<AttrNode> = Vec::new();
    loop {
        let event = match run.step() {
            ImportStep::Layers => ImportEvent::Nodes(Ok(g.of_type(NODE_LAYER))),
            ImportStep::Features => ImportEvent::Nodes(Ok(g.of_type(NODE_FEATURE))),
            ImportStep::Delete(id) => {
                g.delete(&[id]);
                ImportEvent::Done(Ok(()))
            }
            ImportStep::Cells(lines) => ImportEvent::Cells(ends_of(&lines)),
            ImportStep::Perform(ImportOp::Store(n)) => {
                pending.push(n);
                ImportEvent::Done(Ok(()))
            }
            ImportStep::Perform(ImportOp::Commit) => {
                g.nodes.append(&mut pending);
                ImportEvent::Done(Ok(()))
            }
            ImportStep::Reply(r) => return r,
            _ => ImportEvent::Done(Ok(())),
        };
        run = run.supply(event).expect("an answer");
    }
}

/// The data source service over a graph in memory.
fn rpc(
    g: &mut Graph,
    drivers: &DriverRegistry<Driver>,
    method: &str,
    params: &str,
) -> Result<Json, String> {
    match parse_request(method, &json(params))? {
        Request::SourceKinds => kinds_reply(Ok(drivers.kinds())),
        Request::SourceList => sources_reply(Ok(g.sources())),
        Request::SourceGet { id } => source_reply(Ok(g.source(&id))),
        Request::SourceAdd { kind, label, config } => {
            let r = match add(drivers, &kind, &label, config) {
                Ok(s) => {
                    g.upsert(&s);
                    Ok(s)
                }
                Err(e) => Err(Failure::Refused(e)),
            };
            stored_reply(&Task::SourceAdd, r)
        }
        Request::SourceUpdate { id, label, config, enabled } => {
            let r = match require_source(g.source(&id), &id) {
                Ok(s) => {
                    let s = update(s, label, config, enabled);
                    g.upsert(&s);
                    Ok(s)
                }
                Err(e) => Err(Failure::Refused(e)),
            };
            stored_reply(&Task::SourceUpdate, r)
        }
        Request::SourceDelete { id } => {
            g.delete_source(&id);
            source_deleted_reply(Ok(()))
        }
        Request::SourceDiscover { id } => {
            let s = require_source(g.source(&id), &id)?;
            let info = match driver(drivers, &s.kind)? {
                Driver::Mock(m) => m.discover()?,
                Driver::DataGovSg => panic!("no network"),
            };
            let s = with_discovery(s, &info);
            g.upsert(&s);
            discovered_reply(Ok(info))
        }
        Request::SourceFetch { id } => {
            let s = require_source(g.source(&id), &id)?;
            let payload = match driver(drivers, &s.kind)? {
                Driver::Mock(m) => m.fetch(),
                Driver::DataGovSg => panic!("no network"),
            };
            let i = fetched_import(&s, payload);
            let imported = import(g, &i.text, &i.name, &i.display_name, &i.source)
                .map_err(Failure::Refused);
            let (fetched, report) = after_import(s, imported)?;
            g.upsert(&fetched);
            report_reply(&Task::SourceFetch, Ok(report))
        }
        Request::ListLayers => {
            list_reply(Ok(list_layers(&g.of_type(NODE_LAYER), &g.of_type(NODE_FEATURE))))
        }
        Request::GetLayerGeojson { layer, limit, simplify, drop_props } => {
            assert_eq!(simplify, None);
            let none: Option<fn(&Coord, &Coord) -> bool> = None;
            let features: Vec<Json> = g
                .of_type(NODE_FEATURE)
                .iter()
                .filter(|n| n.subtype.as_deref() == Some(layer.as_str()))
                .filter_map(|n| feature_json(n, none, drop_props))
                .collect();
            Ok(layer_reply(features, limit))
        }
        Request::GetFeature { id } => feature_answer(&id, Ok(g.with_id(&id))),
        other => panic!("unexpected request {:?}", other),
    }
}

#[test]
fn datasource_crud_discover_and_fetch_import() {
    let mut g = Graph::new();
    let mut drivers = DriverRegistry::builtin_with(Driver::DataGovSg);
    drivers.register("mock", Driver::Mock(MockDriver)).unwrap();

    // Builtin + mock drivers are registered.
    let kinds = rpc(&mut g, &drivers, "gis/datasource/kinds", "{}").expect("kinds");
    let names: Vec<&str> = kinds.as_array().unwrap().iter().map(text).collect();
    assert!(names.contains(&"data-gov-sg"), "kinds: {:?}", names);
    assert!(names.contains(&"mock"), "kinds: {:?}", names);

    // Add a definition.
    let added = rpc(
        &mut g,
        &drivers,
        "gis/datasource/add",
        r#"{ "kind": "mock", "label": "Demo", "config": { "dataset_id": "d_x" } }"#,
    )
    .expect("add");
    let id = added.text_at("id").unwrap().clone();
    let by_id = format!(r#"{{ "id": "{}" }}"#, id);
    assert_eq!(added.text_at("kind").unwrap(), "mock");
    assert_eq!(added.text_at("label").unwrap(), "Demo");
    assert_eq!(added.get("config").unwrap().text_at("dataset_id").unwrap(), "d_x");

    // Unknown driver kinds are rejected.
    let err = rpc(
        &mut g,
        &drivers,
        "gis/datasource/add",
        r#"{ "kind": "nope", "label": "X", "config": {} }"#,
    )
    .expect_err("unknown kind must fail");
    assert!(err.contains("unknown data source kind"), "got {}", err);
    assert_eq!(
        err,
        "datasource add: unknown data source kind 'nope'; available: data-gov-sg, mock"
    );

    // List + get.
    let list = rpc(&mut g, &drivers, "gis/datasource/list", "{}").expect("list");
    assert_eq!(list.as_array().unwrap().len(), 1);
    let got = rpc(&mut g, &drivers, "gis/datasource/get", &by_id).expect("get");
    assert_eq!(got.text_at("label").unwrap(), "Demo");

    // Update label.
    let updated = rpc(
        &mut g,
        &drivers,
        "gis/datasource/update",
        &format!(r#"{{ "id": "{}", "label": "Renamed" }}"#, id),
    )
    .expect("update");
    assert_eq!(updated.text_at("id").unwrap(), &id);
    assert_eq!(updated.text_at("label").unwrap(), "Renamed");

    // Discover: metadata + schema cached on the definition.
    let info = rpc(&mut g, &drivers, "gis/datasource/discover", &by_id).expect("discover");
    assert_eq!(info.get("feature_count").unwrap(), &Json::from_u64(3));
    assert_eq!(info.get("geometry_types").unwrap(), &json(r#"["Polygon"]"#));
    assert_eq!(info.get("schema").unwrap().text_at("NAME").unwrap(), "string");
    let got2 = rpc(&mut g, &drivers, "gis/datasource/get", &by_id).expect("get after discover");
    let d = got2.get("discovered").unwrap();
    assert_eq!(d.get("feature_count").unwrap(), &Json::from_u64(3));
    assert_eq!(d.get("schema").unwrap().text_at("NAME").unwrap(), "string");

    // Fetch: driver payload is imported through the real import pipeline as a
    // layer named after the (updated) label.
    let report = rpc(&mut g, &drivers, "gis/datasource/fetch", &by_id).expect("fetch");
    assert_eq!(report.text_at("name").unwrap(), "Renamed");
    assert_eq!(report.get("feature_count").unwrap(), &Json::from_u64(3));

    // The imported layer shows up in the catalog.
    let layers = rpc(&mut g, &drivers, "gis/list-layers", "{}").expect("list layers");
    let names: Vec<&String> =
        layers.as_array().unwrap().iter().filter_map(|l| l.text_at("name")).collect();
    assert!(names.contains(&&"Renamed".to_string()), "layers: {:?}", names);

    // get-feature returns the full attribute map for one stored feature.
    let fc = rpc(
        &mut g,
        &drivers,
        "gis/get-layer-geojson",
        r#"{ "layer": "Renamed", "limit": 10 }"#,
    )
    .expect("layer geojson");
    let feat = fc
        .get("features")
        .and_then(|f| f.as_array())
        .unwrap()
        .iter()
        .find(|f| f.get("properties").unwrap().text_at("NAME").unwrap() == "Zone A")
        .expect("zone A feature");
    let feat_id = feat.text_at("id").expect("feature id").clone();
    let detail = rpc(
        &mut g,
        &drivers,
        "gis/get-feature",
        &format!(r#"{{ "id": "{}" }}"#, feat_id),
    )
    .expect("get-feature");
    assert_eq!(detail.text_at("id").unwrap(), &feat_id);
    assert_eq!(detail.text_at("layer").unwrap(), "Renamed");
    let attributes = detail.get("attributes").unwrap();
    assert_eq!(attributes.text_at("NAME").unwrap(), "Zone A");
    assert_eq!(attributes.get("OBJECTID").unwrap(), &Json::from_u64(1));
    assert!(attributes.get("geometry").is_none());
    assert!(attributes.get("layer_id").is_none());

    // Delete cascades the definition.
    rpc(&mut g, &drivers, "gis/datasource/delete", &by_id).expect("delete");
    let list2 = rpc(&mut g, &drivers, "gis/datasource/list", "{}").expect("list after delete");
    assert!(list2.as_array().unwrap().is_empty());
}

#[test]
fn missing_source_is_told_by_its_id() {
    assert_eq!(require_source(None, "x").unwrap_err(), "no data source with id 'x'");
    let s = DataSource::new("k", "L", json("{}"));
    let id = s.id.clone();
    assert_eq!(require_source(Some(s), "x").unwrap().id, id);
}

#[test]
fn update_changes_only_what_it_is_given() {
    let s = DataSource::new("k", "L", json(r#"{"a":1}"#));
    let before = s.copy();
    let s = update(s, None, None, Some(false));
    assert!(!s.enabled);
    assert_eq!(s.label, "L");
    assert_eq!(s.config, before.config);
    assert_eq!(s.created_at, before.created_at);
    let s = update(s, Some("M".to_string()), Some(json(r#"{"b":2}"#)), None);
    assert!(!s.enabled);
    assert_eq!(s.label, "M");
    assert_eq!(s.config, json(r#"{"b":2}"#));
    assert_eq!(s.id, before.id);
}

#[test]
fn polls_end_after_eight() {
    assert_eq!(MAX_POLLS, 8);
    assert_eq!(KIND, "data-gov-sg");
    assert_eq!(may_poll(0), Ok(()));
    assert_eq!(may_poll(7), Ok(()));
    assert_eq!(
        may_poll(8).unwrap_err(),
        "data.gov.sg poll-download never became ready"
    );
}

#[test]
fn addresses_are_built_and_found() {
    assert_eq!(
        poll_url("d_x"),
        "https://api-open.data.gov.sg/v1/public/api/datasets/d_x/poll-download"
    );
    assert_eq!(
        download_url(&json(r#"{"data":{"url":"https://a/b"}}"#)),
        Some("https://a/b".to_string())
    );
    assert_eq!(download_url(&json(r#"{"data":{}}"#)), None);
    assert_eq!(download_url(&json(r#"{"url":"https://a/b"}"#)), None);
}

#[test]
fn downloads_must_be_utf8() {
    assert_eq!(dataset_text(&"caf\u{e9}".as_bytes().to_vec()).unwrap(), "caf\u{e9}");
    assert_eq!(
        dataset_text(&vec![0x50, 0x4b, 0xff]).unwrap_err(),
        "dataset is not utf-8 text (zip/shapefile?); GeoJSON text only for now"
    );
    assert_eq!(import_text(&b"{}".to_vec()).unwrap(), "{}");
    assert_eq!(
        import_text(&vec![0x50, 0xff]).unwrap_err(),
        "dataset is not utf-8 text (zip/shapefile?): invalid utf-8 sequence of 1 bytes from index 1"
    );
}

#[test]
fn discovery_is_titled_by_its_label() {
    assert_eq!(
        titles(&json(r#"{"label":"Parks"}"#), "d_1"),
        ("Parks".to_string(), "data.gov.sg dataset d_1".to_string())
    );
    assert_eq!(
        titles(&json(r#"{"label":""}"#), "d_1"),
        ("data.gov.sg dataset d_1".to_string(), "data.gov.sg dataset d_1".to_string())
    );
}

#[test]
fn new_definitions_have_fresh_ids_and_times() {
    let a = DataSource::new("k", "L", json("{}"));
    let mut b = DataSource::new("k", "L", json("{}"));
    assert_ne!(a.id, b.id);
    assert_eq!(a.id.len(), 36);
    assert_eq!(a.id.as_bytes()[14], b'4');
    assert_eq!(a.created_at, a.updated_at);
    assert!(a.created_at.ends_with("+00:00"));
    let created = b.created_at.clone();
    b.touch();
    assert_eq!(b.created_at, created);
    assert!(b.updated_at.ends_with("+00:00"));
}

#[test]
fn a_feature_is_inspected_by_id() {
    assert_eq!(get_feature(&None, "x").unwrap_err(), "no feature with id 'x'");
}

#[test]
fn discovery_previews_the_import() {
    let info = analyze_geojson(SAMPLE_GEOJSON, "a".to_string(), "b".to_string()).unwrap();
    let mut g = Graph::new();
    let report = import(&mut g, SAMPLE_GEOJSON, "demo", "Demo", "mock").expect("import");
    let layer = &g.of_type(NODE_LAYER)[0];
    assert_eq!(layer.get("schema"), Some(&info.schema));
    assert_eq!(layer.text_at("geometry_type").unwrap(), &info.geometry_types[0]);
    assert_eq!(report.text_at("geometry_type").unwrap(), "Polygon");
    assert_eq!(info.schema, json(r#"{"NAME":"string","OBJECTID":"number"}"#));
}

#[test]
fn a_touched_definition_carries_a_time_in_utc() {
    let mut s = DataSource::new(KIND, "Hawkers", Json::null());
    s.updated_at = "never".to_string();
    let made = s.created_at.clone();
    s.touch();
    let t = s.updated_at.as_str();
    assert!(t.ends_with("+00:00"));
    assert_eq!(&t[4..5], "-");
    assert_eq!(&t[7..8], "-");
    assert_eq!(&t[10..11], "T");
    assert_eq!(&t[13..14], ":");
    assert_eq!(&t[16..17], ":");
    assert!(matches!(t.len(), 25 | 29 | 32 | 35));
    assert_eq!(spire_gis::stamp::ts(t), t);
    assert_eq!(s.created_at, made);
    assert_eq!(s.label, "Hawkers");
}

#[test]
fn a_failed_fetch_leaves_the_definition_alone() {
    let s = DataSource::new("k", "L", json("{}"));
    let report = json(r#"{"name":"L"}"#);
    let mut old = s.copy();
    old.updated_at = "never".to_string();
    let (fetched, told) = after_import(old, Ok(json(r#"{"name":"L"}"#))).expect("fetched");
    assert_eq!(told, report);
    assert!(fetched.updated_at.ends_with("+00:00"));
    assert_eq!((fetched.id, fetched.label, fetched.created_at), (s.id.clone(), s.label.clone(), s.created_at.clone()));
    assert_eq!(
        after_import(s, Err(Failure::Refused("no features".to_string()))).unwrap_err(),
        "import failed: no features"
    );
}

#[test]
fn writing_a_definition_again_changes_nothing() {
    let mut g = Graph::new();
    let s = DataSource::new("k", "L", json(r#"{"dataset_id":"d"}"#));
    g.upsert(&s);
    let once = g.source(&s.id).expect("definition");
    g.upsert(&once);
    assert_eq!(g.source(&s.id).expect("definition"), once);
    assert_eq!(g.sources().len(), 1);
}
