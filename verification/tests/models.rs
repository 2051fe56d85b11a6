//! Nodes, attributes and GeoJSON.

use spire_gis::config::gis_data_dir;
use spire_gis::geometry::{close_ring, Bounds, Coord, Geometry, Polygon};
use spire_gis::json::{Json, JsonObject, Real};
use spire_gis::models::geojson::{
    decimate_geometry, decode_geometry, document_features, geometry_to_geojson,
    node_geometry_geojson, parse_geojson, parse_geojson_stream, RawFeature,
};
use spire_gis::models::{
    default_style, feature_node, geometry_kind, is_plumbing_key, layer_node, node_search_text,
    sanitize_attributes, sanitize_key, sanitize_string_value, AttrNode, EDGE_CONTAINS,
    MAX_ATTR_STRING_LEN, NODE_FEATURE, NODE_LAYER, RESERVED_PROPS,
};
use spire_gis::stamp::ts;

fn json(text: &str) -> Json {
    Json::parse(text).expect("json")
}

fn object(text: &str) -> JsonObject {
    json(text).as_object().expect("object").copy()
}

fn number(text: &str) -> Real {
    json(text).as_real().expect("number")
}

fn at(x: &str, y: &str) -> Coord {
    Coord { x: number(x), y: number(y) }
}

fn float(r: &Real) -> f64 {
    f64::from_bits(r.bits())
}

#[test]
fn keys_become_identifiers() {
    assert_eq!(sanitize_key("SHAPE.LEN"), Some("SHAPE_LEN".to_string()));
    assert_eq!(sanitize_key("__a b__"), Some("a_b".to_string()));
    assert_eq!(sanitize_key("caf\u{e9} 1"), Some("caf__1".to_string()));
    assert_eq!(sanitize_key("1abc"), None);
    assert_eq!(sanitize_key("_1"), None);
    assert_eq!(sanitize_key(""), None);
    assert_eq!(sanitize_key("\u{65e5}\u{672c}"), None);
}

#[test]
fn texts_lose_control_characters_and_length() {
    assert_eq!(sanitize_string_value("a\nb\u{7f}c\u{85}d"), "abcd");
    let long: String = vec!['x'; MAX_ATTR_STRING_LEN + 5].into_iter().collect();
    assert_eq!(sanitize_string_value(&long).len(), 4096);
}

#[test]
fn attributes_keep_safe_scalars() {
    let a = object(
        r#"{"A.B":1,"id":2,"uuid":"x","version":3,"list":[1],"none":null,"ok":true,"t":"a\tb"}"#,
    );
    assert_eq!(sanitize_attributes(&a), object(r#"{"A_B":1,"ok":true,"t":"ab"}"#));
    assert_eq!(RESERVED_PROPS, ["id", "name", "source_id", "layer_id"]);
    // Of two keys that become the same, the later one in order stands.
    assert_eq!(sanitize_attributes(&object(r#"{"a.b":1,"a_b":2}"#)), object(r#"{"a_b":2}"#));
}

#[test]
fn feature_nodes_hold_attributes_and_geometry() {
    let g = Geometry::Point(at("1", "2"));
    let n = feature_node("L", "S", "Name", &g, &object(r#"{"layer_id":"other","K":"v"}"#));
    assert_eq!(n.node_type, NODE_FEATURE);
    assert_eq!(n.name, "Name");
    assert_eq!(n.properties, object(r#"{"K":"v","layer_id":"L","source_id":"S"}"#));
    assert_eq!(n.geometry, Some(g));
    assert_eq!(n.subtype, None);
    assert_eq!(n.version, 1);
    assert_eq!(n.id.len(), 36);
    assert!(n.created_at.ends_with("+00:00"));
}

#[test]
fn layer_nodes_hold_their_catalog_entry() {
    let n = layer_node("m", "D", "text", "Point", "src", json(r#"{"s":1}"#), json("{}"));
    assert_eq!(n.node_type, NODE_LAYER);
    assert_eq!(n.description, Some("text".to_string()));
    assert_eq!(
        n.properties,
        object(
            r#"{"display_name":"D","geometry_type":"Point","source":"src","style":{"s":1},
                "schema":{},"z_order":0}"#
        )
    );
    assert_eq!(EDGE_CONTAINS, "CONTAINS");
}

#[test]
fn styles_follow_the_kind() {
    assert_eq!(
        default_style("Point"),
        json(
            r##"{"type":"circle","paint":
                {"circle-radius":5,"circle-color":"#3388ff","circle-opacity":0.9}}"##
        )
    );
    assert_eq!(
        default_style("LineString"),
        json(
            r##"{"type":"line","paint":
                {"line-color":"#3388ff","line-width":2,"line-opacity":0.9}}"##
        )
    );
    for kind in ["Polygon", "Mixed", "x"] {
        assert_eq!(
            default_style(kind),
            json(
                r##"{"type":"fill","paint":{"fill-color":"#3388ff","fill-opacity":0.35}}"##
            )
        );
    }
}

#[test]
fn kinds_of_geometries() {
    let p = || Polygon { exterior: Vec::new(), interiors: Vec::new() };
    let b = || Bounds { min: at("0", "0"), max: at("1", "1") };
    assert_eq!(geometry_kind(&Geometry::Point(at("0", "0"))), "Point");
    assert_eq!(geometry_kind(&Geometry::MultiPoint(Vec::new())), "Point");
    assert_eq!(geometry_kind(&Geometry::Line(at("0", "0"), at("1", "1"))), "LineString");
    assert_eq!(geometry_kind(&Geometry::LineString(Vec::new())), "LineString");
    assert_eq!(geometry_kind(&Geometry::MultiLineString(Vec::new())), "LineString");
    assert_eq!(geometry_kind(&Geometry::Polygon(p())), "Polygon");
    assert_eq!(geometry_kind(&Geometry::MultiPolygon(vec![p()])), "Polygon");
    assert_eq!(geometry_kind(&Geometry::Rect(b())), "Polygon");
    assert_eq!(geometry_kind(&Geometry::Other(0, Some(b()))), "Mixed");
}

#[test]
fn search_texts_skip_plumbing() {
    for k in ["geometry", "layer_id", "embedding", "OBJECTID", "fid", "min_x", "max_y", ""] {
        assert!(is_plumbing_key(k), "{}", k);
    }
    assert!(!is_plumbing_key("NAME"));
    assert!(!is_plumbing_key("minor"));
    let mut n = feature_node(
        "L",
        "S",
        "Bishan",
        &Geometry::Point(at("1", "2")),
        &object(r#"{"FOLDERPATH":"Layers/Parks","AREA":2.5,"OBJECTID":9,"Z":"","open":true}"#),
    );
    n.subtype = Some("parks".to_string());
    assert_eq!(node_search_text(&n), "Bishan | Layers/Parks | parks | 2.5 | Layers/Parks | true");
}

#[test]
fn search_texts_hold_every_attribute() {
    let mut n = feature_node("L", "S", "N", &Geometry::Point(at("1", "2")), &object("{}"));
    let long: String = vec!['x'; 500].into_iter().collect();
    for i in 0..20 {
        n.properties.set(&format!("k{:02}", i), Json::text(&long));
    }
    // Of each attribute the first two hundred characters.
    assert_eq!(node_search_text(&n).len(), 1 + 20 * (3 + 200));
    let many: String = vec!['\u{e9}'; 199].into_iter().collect();
    n.properties = JsonObject::new();
    n.properties.set("a", Json::text(&format!("{}yz", many)));
    n.properties.set("b", Json::text(&many));
    assert_eq!(node_search_text(&n), format!("N | {}y | {}", many, many));
    n.properties = object(r#"{"b":"second","a":"first","layer_id":"L","c":[1]}"#);
    assert_eq!(node_search_text(&n), "N | first | second");
}

// ---------------------------------------------------------------------------
// GeoJSON
// ---------------------------------------------------------------------------

#[test]
fn geometries_are_decoded_and_encoded() {
    let texts = [
        r#"{"coordinates":[1.5,2.0],"type":"Point"}"#,
        r#"{"coordinates":[[1.0,2.0],[3.0,4.0]],"type":"MultiPoint"}"#,
        r#"{"coordinates":[[1.0,2.0],[3.0,4.0]],"type":"LineString"}"#,
        r#"{"coordinates":[[[1.0,2.0],[3.0,4.0]],[[5.0,6.0],[7.0,8.0]]],"type":"MultiLineString"}"#,
        r#"{"coordinates":[[[0.0,0.0],[4.0,0.0],[4.0,4.0],[0.0,0.0]],[[1.0,1.0],[2.0,1.0],[2.0,2.0],[1.0,1.0]]],"type":"Polygon"}"#,
        r#"{"coordinates":[[[[0.0,0.0],[4.0,0.0],[4.0,4.0],[0.0,0.0]]]],"type":"MultiPolygon"}"#,
    ];
    for t in texts {
        let g = decode_geometry(&json(t)).expect("geometry");
        assert_eq!(geometry_to_geojson(&g).to_text(), t);
    }
}

#[test]
fn integers_are_read_as_coordinates() {
    let g = decode_geometry(&json(r#"{"type":"Point","coordinates":[103,-1]}"#)).unwrap();
    assert_eq!(
        geometry_to_geojson(&g).to_text(),
        r#"{"coordinates":[103.0,-1.0],"type":"Point"}"#
    );
}

#[test]
fn broken_geometries_are_rejected() {
    for t in [
        "null",
        r#"{"type":"Point"}"#,
        r#"{"type":"Point","coordinates":[1]}"#,
        r#"{"type":"Point","coordinates":["1",2]}"#,
        r#"{"type":"LineString","coordinates":[[1,2]]}"#,
        r#"{"type":"Polygon","coordinates":[[[1,2],[3,4]]]}"#,
        r#"{"type":"Polygon","coordinates":[]}"#,
        r#"{"type":"MultiPoint","coordinates":[]}"#,
        r#"{"type":"GeometryCollection","coordinates":[]}"#,
    ] {
        assert_eq!(decode_geometry(&json(t)), None, "{}", t);
    }
}

#[test]
fn broken_parts_are_passed_over() {
    let g = decode_geometry(&json(
        r#"{"type":"MultiLineString","coordinates":[[[1,2]],[[1,2],["x",0],[3,4]]]}"#,
    ))
    .unwrap();
    assert_eq!(
        geometry_to_geojson(&g).to_text(),
        r#"{"coordinates":[[[1.0,2.0],[3.0,4.0]]],"type":"MultiLineString"}"#
    );
}

#[test]
fn polygon_rings_are_closed() {
    let g = decode_geometry(&json(r#"{"type":"Polygon","coordinates":[[[0,0],[4,0],[4,4]]]}"#))
        .unwrap();
    assert_eq!(
        geometry_to_geojson(&g).to_text(),
        r#"{"coordinates":[[[0.0,0.0],[4.0,0.0],[4.0,4.0],[0.0,0.0]]],"type":"Polygon"}"#
    );
    assert_eq!(close_ring(vec![at("1", "1"), at("2", "2")]).len(), 3);
    assert_eq!(close_ring(vec![at("1", "1"), at("2", "2"), at("1.0", "1")]).len(), 3);
    assert!(close_ring(Vec::new()).is_empty());
}

#[test]
fn other_geometries_are_encoded_as_empty_collections() {
    let g = Geometry::Other(3, None);
    assert_eq!(
        geometry_to_geojson(&g).to_text(),
        r#"{"geometries":[],"type":"GeometryCollection"}"#
    );
    let r = Geometry::Rect(Bounds { min: at("0", "0"), max: at("1", "1") });
    assert_eq!(
        geometry_to_geojson(&r).to_text(),
        r#"{"geometries":[],"type":"GeometryCollection"}"#
    );
    let l = Geometry::Line(at("0", "0"), at("1", "1"));
    assert_eq!(
        geometry_to_geojson(&l).to_text(),
        r#"{"coordinates":[[0.0,0.0],[1.0,1.0]],"type":"LineString"}"#
    );
}

#[test]
fn documents_are_collections_features_or_geometries() {
    let fs = parse_geojson(r#"{"type":"Point","coordinates":[1,2]}"#).unwrap();
    assert_eq!(fs.len(), 1);
    assert!(fs[0].properties.is_empty());
    let fs = parse_geojson(
        r#"{"type":"Feature","geometry":{"type":"Point","coordinates":[1,2]},"properties":{"a":1}}"#,
    )
    .unwrap();
    assert_eq!(fs[0].properties, object(r#"{"a":1}"#));
    let fs = document_features(&json(
        r#"{"type":"FeatureCollection","features":[{"geometry":null},1,
            {"geometry":{"type":"Point","coordinates":[1,2]},"properties":7}]}"#,
    ))
    .unwrap();
    assert_eq!(fs.len(), 1);
    assert!(fs[0].properties.is_empty());
    assert!(parse_geojson(r#"{"type":"FeatureCollection"}"#).unwrap().is_empty());
    assert_eq!(parse_geojson("[]").unwrap_err(), "missing geojson 'type'");
    assert_eq!(
        parse_geojson("[1").unwrap_err(),
        "invalid geojson json: EOF while parsing a list at line 1 column 2"
    );
}

fn raw(geometry: Option<&str>, properties: Option<&str>) -> RawFeature {
    RawFeature {
        geometry: geometry.map(|s| s.to_string()),
        properties: properties.map(|s| s.to_string()),
    }
}

#[test]
fn streams_are_decoded_feature_by_feature() {
    let point = r#"{"type":"Point","coordinates":[1,2]}"#;
    let raws = vec![
        raw(None, Some("{}")),
        raw(Some("null"), None),
        raw(Some(point), Some(r#"{"a":1}"#)),
        raw(Some(point), Some("[1]")),
        raw(Some(point), None),
    ];
    let fs = parse_geojson_stream(&raws, None).unwrap();
    assert_eq!(fs.len(), 3);
    assert_eq!(fs[0].properties, object(r#"{"a":1}"#));
    assert!(fs[1].properties.is_empty());
    // The limit is kept.
    assert_eq!(parse_geojson_stream(&raws, Some(2)).unwrap(), fs[..2]);
    assert_eq!(parse_geojson_stream(&raws, Some(0)).unwrap().len(), 0);
    let e = parse_geojson_stream(&vec![raw(Some("{"), None)], None).unwrap_err();
    assert_eq!(e, "bad geometry: EOF while parsing an object at line 1 column 1");
}

#[test]
fn streams_agree_with_documents() {
    let document = r#"{"type":"FeatureCollection","features":[
        {"geometry":null,"properties":{"a":1}},
        {"geometry":{"type":"Point","coordinates":[1,2]},"properties":null},
        {"geometry":{"type":"Point","coordinates":[3]}},
        {"geometry":{"type":"LineString","coordinates":[[1,2],[3,4]]},"properties":{"b":2}}]}"#;
    let root = json(document);
    let raws: Vec<RawFeature> = root
        .get("features")
        .and_then(|f| f.as_array())
        .unwrap()
        .iter()
        .map(|f| RawFeature {
            geometry: f.get("geometry").map(|g| g.to_text()),
            properties: f.get("properties").map(|p| p.to_text()),
        })
        .collect();
    let streamed = parse_geojson_stream(&raws, None).unwrap();
    assert_eq!(streamed, parse_geojson(document).unwrap());
    assert_eq!(streamed.len(), 2);
}

#[test]
fn lines_are_thinned_by_distance() {
    let line = |xs: &[&str]| xs.iter().map(|x| at(x, "0")).collect::<Vec<Coord>>();
    let far = |a: &Coord, b: &Coord| {
        let dx = float(&a.x) - float(&b.x);
        let dy = float(&a.y) - float(&b.y);
        (dx * dx + dy * dy).sqrt() >= 1.0
    };
    let g = Geometry::LineString(line(&["0", "0.4", "0.9", "1.2", "1.3", "2.5", "2.6"]));
    let thin = decimate_geometry(&g, far);
    assert_eq!(thin, Geometry::LineString(line(&["0", "1.2", "2.5", "2.6"])));
    let g = Geometry::MultiLineString(vec![line(&["0"]), line(&["0", "0.1", "0.2"])]);
    assert_eq!(
        decimate_geometry(&g, far),
        Geometry::MultiLineString(vec![line(&["0"]), line(&["0", "0.2"])])
    );
    let g = Geometry::MultiPoint(line(&["0", "0.1"]));
    assert_eq!(decimate_geometry(&g, far), g);
}

#[test]
fn nodes_show_their_geometry_or_point() {
    let mut n = feature_node("L", "S", "N", &Geometry::Point(at("1", "2")), &object("{}"));
    n.point = Some(at("7", "8"));
    assert_eq!(
        node_geometry_geojson(&n).unwrap().to_text(),
        r#"{"coordinates":[1.0,2.0],"type":"Point"}"#
    );
    n.geometry = None;
    assert_eq!(
        node_geometry_geojson(&n).unwrap().to_text(),
        r#"{"coordinates":[7.0,8.0],"type":"Point"}"#
    );
    n.point = None;
    assert_eq!(node_geometry_geojson(&n), None);
}

#[test]
fn boxes_hold_their_coordinates() {
    let g = decode_geometry(&json(
        r#"{"type":"MultiLineString","coordinates":[[[3,-4],[1,2]],[[-1,0],[0,9]]]}"#,
    ))
    .unwrap();
    assert_eq!(
        g.bounding_rect(),
        Some(Bounds { min: at("-1", "-4"), max: at("3", "9") })
    );
    assert_eq!(Geometry::MultiPoint(Vec::new()).bounding_rect(), None);
}

// ---------------------------------------------------------------------------
// Times and places
// ---------------------------------------------------------------------------

#[test]
fn times_are_read_as_utc() {
    assert_eq!(ts("2024-05-01T08:30:00+08:00"), "2024-05-01T00:30:00+00:00");
    assert_eq!(ts("2024-05-01T00:30:00.25Z"), "2024-05-01T00:30:00.250+00:00");
    // What is no time stands for now.
    let now = ts("yesterday");
    assert!(now.ends_with("+00:00") && now.starts_with("2"), "{}", now);
}

#[test]
fn data_directories() {
    assert_eq!(gis_data_dir(&Some(" /data ".to_string()), &None), vec!["/data"]);
    assert_eq!(
        gis_data_dir(&Some("  ".to_string()), &Some("/home/x".to_string())),
        vec!["/home/x", ".spire", "gis-data"]
    );
    assert_eq!(gis_data_dir(&None, &None), vec![".", ".spire", "gis-data"]);
}

#[test]
fn nodes_are_copied_whole() {
    let n: AttrNode =
        feature_node("L", "S", "N", &Geometry::Point(at("1", "2")), &object(r#"{"a":[1]}"#));
    assert_eq!(n.copy(), n);
    assert_eq!(n.text_at("layer_id").unwrap(), "L");
    assert_eq!(n.get("missing"), None);
}
