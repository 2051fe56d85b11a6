//! The layer catalog: counts, stacking order, deletion.

use spire_gis::actors::layer::{
    bounds_json, delete_layer, layers_json, list_layers, reorder_layer, ClassCount, ZUpdate,
};
use spire_gis::json::{Json, JsonObject};
use spire_gis::models::AttrNode;

fn node(id: &str, node_type: &str, name: &str, properties: &str) -> AttrNode {
    AttrNode {
        id: id.to_string(),
        node_type: node_type.to_string(),
        subtype: None,
        name: name.to_string(),
        description: None,
        properties: object(properties),
        geometry: None,
        point: None,
        embedding_id: None,
        created_at: String::new(),
        updated_at: String::new(),
        version: 1,
    }
}

fn object(text: &str) -> JsonObject {
    Json::parse(text).expect("json").as_object().expect("object").copy()
}

fn layer(id: &str, name: &str, z: i64) -> AttrNode {
    let mut n = node(id, "Layer", name, "{}");
    n.properties.set("z_order", Json::from_i64(z));
    n
}

fn feature(id: &str, layer: &str, class: Option<&str>) -> AttrNode {
    let mut n = node(id, "Feature", id, "{}");
    n.properties.set("layer_id", Json::text(layer));
    if let Some(c) = class {
        n.properties.set("FOLDERPATH", Json::text(c));
    }
    n
}

fn apply(layers: &mut Vec<AttrNode>, updates: &[ZUpdate]) {
    for u in updates {
        for l in layers.iter_mut() {
            if l.id == u.id {
                l.properties.set("z_order", Json::from_u64(u.z_order));
            }
        }
    }
}

fn names(layers: &Vec<AttrNode>) -> Vec<String> {
    list_layers(layers, &Vec::new()).into_iter().map(|l| l.name).collect()
}

#[test]
fn catalog_counts_features_and_classes() {
    let layers = vec![layer("L", "roads", 0), layer("M", "parks", 0)];
    let features = vec![
        feature("1", "L", Some("b")),
        feature("2", "L", Some("a")),
        feature("3", "L", Some("c")),
        feature("4", "L", Some("c")),
        feature("5", "L", None),
        feature("6", "X", Some("a")),
    ];
    let infos = list_layers(&layers, &features);
    assert_eq!(infos.len(), 2);
    // Equal stacking orders stand by name.
    assert_eq!(infos[0].name, "parks");
    assert_eq!(infos[0].feature_count, 0);
    assert_eq!(infos[0].geometry_type, "Mixed");
    assert_eq!(infos[1].feature_count, 5);
    // Most frequent first, then by key.
    assert_eq!(
        infos[1].classes,
        vec![
            ClassCount { key: "c".to_string(), count: 2 },
            ClassCount { key: "a".to_string(), count: 1 },
            ClassCount { key: "b".to_string(), count: 1 },
        ]
    );
}

#[test]
fn catalog_reads_the_layer_node() {
    let mut n = node(
        "L",
        "Layer",
        "roads",
        r#"{"display_name":"Roads","geometry_type":"LineString","source":"s","z_order":4,
            "description":"from properties"}"#,
    );
    let infos = list_layers(&vec![n.copy()], &Vec::new());
    assert_eq!(infos[0].description, "from properties");
    n.description = Some("own".to_string());
    let infos = list_layers(&vec![n], &Vec::new());
    assert_eq!(infos[0].description, "own");
    assert_eq!(
        layers_json(&infos).to_text(),
        r#"[{"bounds":null,"classes":[],"description":"own","display_name":"Roads","feature_count":0,"geometry_type":"LineString","id":"L","name":"roads","source":"s","z_order":4}]"#
    );
    assert_eq!(bounds_json(&None), Json::null());
}

#[test]
fn catalog_is_stacked_from_the_bottom() {
    let layers = vec![layer("a", "top", 9), layer("b", "low", -3), layer("c", "mid", 2)];
    assert_eq!(names(&layers), vec!["low", "mid", "top"]);
}

#[test]
fn reordering_numbers_the_whole_stack() {
    // Layers that all share the default order become reorderable one by one.
    let mut layers = vec![layer("c", "c", 0), layer("a", "a", 0), layer("b", "b", 0)];
    let updates = reorder_layer(&layers, "a", "up").unwrap();
    assert_eq!(
        updates,
        vec![
            ZUpdate { id: "a".to_string(), z_order: 1 },
            ZUpdate { id: "c".to_string(), z_order: 2 },
        ]
    );
    apply(&mut layers, &updates);
    assert_eq!(names(&layers), vec!["b", "a", "c"]);
    // Down again restores the order.
    let updates = reorder_layer(&layers, "a", "down").unwrap();
    apply(&mut layers, &updates);
    assert_eq!(names(&layers), vec!["a", "b", "c"]);
    // The ends do not move.
    assert!(reorder_layer(&layers, "a", "down").unwrap().is_empty());
    assert!(reorder_layer(&layers, "c", "up").unwrap().is_empty());
}

#[test]
fn reordering_is_refused() {
    let layers = vec![layer("a", "a", 0)];
    assert_eq!(reorder_layer(&layers, "x", "up").unwrap_err(), "no layer with id 'x'");
    assert_eq!(
        reorder_layer(&layers, "a", "left").unwrap_err(),
        "direction must be 'up' or 'down', got 'left'"
    );
    // A missing layer is told before a wrong direction.
    assert_eq!(reorder_layer(&layers, "x", "left").unwrap_err(), "no layer with id 'x'");
}

#[test]
fn deleting_takes_the_features_of_the_layer() {
    let features =
        vec![feature("1", "L", None), feature("2", "M", None), feature("3", "L", None)];
    assert_eq!(delete_layer(&features, "L"), vec!["1", "3", "L"]);
    assert_eq!(delete_layer(&features, "none"), vec!["none"]);
}
