//! Importing: names, schemas, grouping, merging of fragments, embedding in batches.

use spire_gis::actors::embedding::{
    batch_end, collect_items, pair_embeddings, EmbedRun, EmbedStep, TEXTS_PER_BATCH,
    VECTORS_PER_WRITE,
};
use spire_gis::actors::import::{
    checked_import, checked_merge, feature_name, feature_source_id, geometry_kinds, group_features, import_layer, import_lines, import_ops,
    infer_schema, layer_geometry_type, merge_layer, merge_lines, merge_report, names_for_dataset,
    names_for_file, next_z_order, plan_import, replace_layer, slugify, top_z, write_features, ImportOp,
};
use spire_gis::actors::layer_embedding::{FlowEvent, FlowStep, LayerEmbedding};
use spire_gis::chains::{lines_of, merge_geometries, trace_chains};
use spire_gis::geometry::{Coord, Geometry, Polygon};
use spire_gis::json::{Json, JsonObject, Real};
use spire_gis::models::geojson::{geometry_to_geojson, parse_geojson, DecodedFeature};
use spire_gis::models::{feature_node, AttrNode};
use spire_gis::tasks::Failure;

type Ends = Vec<((i64, i64), (i64, i64))>;

fn json(text: &str) -> Json {
    Json::parse(text).expect("json")
}

fn object(text: &str) -> JsonObject {
    json(text).as_object().expect("object").copy()
}

fn number(text: &str) -> Real {
    json(text).as_real().expect("number")
}

fn cell(c: &Coord) -> (i64, i64) {
    let x = f64::from_bits(c.x.bits());
    let y = f64::from_bits(c.y.bits());
    ((x * 1_000_000.0).round() as i64, (y * 1_000_000.0).round() as i64)
}

fn ends(lines: &[Vec<Coord>]) -> Ends {
    lines
        .iter()
        .map(|l| match (l.first(), l.last()) {
            (Some(a), Some(b)) => (cell(a), cell(b)),
            _ => ((0, 0), (0, 0)),
        })
        .collect()
}

fn line(xs: &[i32]) -> Vec<Coord> {
    xs.iter().map(|x| Coord { x: number(&x.to_string()), y: number("0") }).collect()
}

fn path(places: &[(i32, i32)]) -> Vec<Coord> {
    places
        .iter()
        .map(|(x, y)| Coord { x: number(&x.to_string()), y: number(&y.to_string()) })
        .collect()
}

fn chains(parts: Vec<Vec<Coord>>) -> Vec<Vec<Coord>> {
    let e = ends(&parts);
    trace_chains(parts, &e)
}

fn features(collection: &str) -> Vec<DecodedFeature> {
    parse_geojson(&format!(r#"{{"type":"FeatureCollection","features":[{}]}}"#, collection))
        .expect("features")
}

fn road(name: &str, class: &str, a: i32, b: i32) -> String {
    format!(
        r#"{{"properties":{{"NAME":"{}","FOLDERPATH":"{}","OBJECTID":{}}},"geometry":
            {{"type":"LineString","coordinates":[[{},0],[{},0]]}}}}"#,
        name, class, a, a, b
    )
}

// ---------------------------------------------------------------------------
// Names
// ---------------------------------------------------------------------------

#[test]
fn slugs() {
    assert_eq!(slugify("National Map (Lines)!"), Some("national-map-lines-".to_string()));
    assert_eq!(slugify("--a--b"), Some("a-b".to_string()));
    // Only ASCII letters are lowered.
    assert_eq!(slugify("\u{c9}cole A"), Some("\u{c9}cole-a".to_string()));
    assert_eq!(slugify("?!"), None);
    assert_eq!(slugify(""), None);
}

#[test]
fn file_layers_are_named() {
    let some = |s: &str| Some(s.to_string());
    assert_eq!(
        names_for_file("My File", &None, &None),
        ("my-file".to_string(), "my-file".to_string())
    );
    assert_eq!(
        names_for_file("f", &some("m"), &some(" Shown ")),
        ("m".to_string(), "Shown".to_string())
    );
    assert_eq!(
        names_for_file("f", &None, &some("Big Map")),
        ("big-map".to_string(), "Big Map".to_string())
    );
    // A title without letters leaves the name of the file.
    assert_eq!(names_for_file("f", &None, &some("?")), ("f".to_string(), "?".to_string()));
}

#[test]
fn dataset_layers_are_named() {
    let some = |s: &str| Some(s.to_string());
    assert_eq!(
        names_for_dataset(&None, &None),
        ("data-gov-layer".to_string(), "data-gov-layer".to_string())
    );
    assert_eq!(
        names_for_dataset(&some("x"), &some(" Y ")),
        ("x".to_string(), "Y".to_string())
    );
}

#[test]
fn features_are_named_and_numbered() {
    let fs = features(
        r#"{"properties":{"OBJECTID":7,"NAME":"A"},"geometry":{"type":"Point","coordinates":[1,2]}},
           {"properties":{"FID":"x"},"geometry":{"type":"Point","coordinates":[1,2]}},
           {"properties":{"objectid":"q"},"geometry":{"type":"Point","coordinates":[1,2]}},
           {"properties":{"Name":"B"},"geometry":{"type":"Point","coordinates":[1,2]}}"#,
    );
    assert_eq!(feature_source_id(&fs[0], 0), "7");
    assert_eq!(feature_name(&fs[0], 0), "A");
    assert_eq!(feature_source_id(&fs[1], 1), "x");
    assert_eq!(feature_name(&fs[1], 1), "x");
    assert_eq!(feature_source_id(&fs[2], 2), "q");
    assert_eq!(feature_source_id(&fs[3], 3), "f3");
    assert_eq!(feature_name(&fs[3], 3), "B");
}

// ---------------------------------------------------------------------------
// Schema and kind
// ---------------------------------------------------------------------------

#[test]
fn schema_is_that_of_the_stored_attributes() {
    let fs = features(
        r#"{"properties":{"A.B":1,"t":"x","list":[1],"id":5},"geometry":{"type":"Point","coordinates":[1,2]}},
           {"properties":{"A.B":"y","b":true},"geometry":{"type":"Point","coordinates":[1,2]}}"#,
    );
    assert_eq!(
        infer_schema(&fs),
        json(r#"{"A_B":"mixed","b":"boolean","t":"string"}"#)
    );
    assert_eq!(infer_schema(&Vec::new()), json("{}"));
}

#[test]
fn layers_of_several_kinds_are_mixed() {
    let fs = features(
        r#"{"geometry":{"type":"Point","coordinates":[1,2]}},
           {"geometry":{"type":"LineString","coordinates":[[1,2],[3,4]]}},
           {"geometry":{"type":"MultiPoint","coordinates":[[1,2]]}}"#,
    );
    assert_eq!(geometry_kinds(&fs), vec!["LineString", "Point"]);
    assert_eq!(layer_geometry_type(&fs), "Mixed");
    let fs = features(r#"{"geometry":{"type":"MultiPoint","coordinates":[[1,2]]}}"#);
    assert_eq!(layer_geometry_type(&fs), "Point");
}

// ---------------------------------------------------------------------------
// Chains
// ---------------------------------------------------------------------------

#[test]
fn fragments_are_joined_end_to_end() {
    assert_eq!(chains(vec![line(&[0, 1]), line(&[1, 2]), line(&[2, 3])]), vec![line(&[0, 1, 2, 3])]);
    // A fragment that runs the other way is turned round.
    assert_eq!(chains(vec![line(&[0, 1]), line(&[2, 1])]), vec![line(&[0, 1, 2])]);
    // A chain grows at both ends of the fragment that comes first.
    assert_eq!(chains(vec![line(&[1, 2]), line(&[0, 1])]), vec![line(&[0, 1, 2])]);
    assert_eq!(
        chains(vec![line(&[2, 3]), line(&[1, 0]), line(&[4, 3]), line(&[2, 1])]),
        vec![line(&[0, 1, 2, 3, 4])]
    );
}

#[test]
fn chains_stop_at_forks() {
    let parts = vec![
        path(&[(0, 0), (1, 0)]),
        path(&[(1, 0), (2, 0)]),
        path(&[(1, 0), (1, 1)]),
    ];
    assert_eq!(chains(parts.iter().map(|p| copy(p)).collect()), parts);
}

fn copy(p: &[Coord]) -> Vec<Coord> {
    p.iter().map(|c| c.copy()).collect()
}

#[test]
fn loops_and_stubs_are_left_out() {
    assert!(chains(vec![path(&[(0, 0), (1, 1), (0, 0)])]).is_empty());
    assert!(chains(vec![line(&[5])]).is_empty());
    assert!(chains(vec![Vec::new()]).is_empty());
    // A ring of fragments is traced once round.
    let ring = chains(vec![
        path(&[(0, 0), (1, 0)]),
        path(&[(1, 0), (1, 1)]),
        path(&[(1, 1), (0, 0)]),
    ]);
    assert_eq!(ring, vec![path(&[(0, 0), (1, 0), (1, 1), (0, 0)])]);
}

#[test]
fn near_ends_fall_into_one_cell() {
    let at = |x: &str| Coord { x: number(x), y: number("0") };
    let parts = vec![vec![at("0"), at("1.0000001")], vec![at("1.0000002"), at("2")]];
    let joined = chains(parts);
    assert_eq!(joined.len(), 1);
    assert_eq!(joined[0].len(), 3);
}

fn merged(geoms: Vec<Geometry>) -> Geometry {
    let e = ends(&lines_of(&geoms));
    merge_geometries(&geoms, &e)
}

#[test]
fn geometries_of_one_kind_are_merged() {
    let square = || Polygon { exterior: path(&[(0, 0), (1, 0), (1, 1), (0, 0)]), interiors: vec![] };
    let point = |x: i32| Coord { x: number(&x.to_string()), y: number("0") };
    assert_eq!(
        merged(vec![Geometry::LineString(line(&[0, 1])), Geometry::Line(point(1), point(2))]),
        Geometry::LineString(line(&[0, 1, 2]))
    );
    assert_eq!(
        merged(vec![
            Geometry::MultiLineString(vec![line(&[0, 1]), line(&[5, 6])]),
            Geometry::LineString(line(&[8, 9]))
        ]),
        Geometry::MultiLineString(vec![line(&[0, 1]), line(&[5, 6]), line(&[8, 9])])
    );
    assert_eq!(
        merged(vec![Geometry::Polygon(square()), Geometry::MultiPolygon(vec![square()])]),
        Geometry::MultiPolygon(vec![square(), square()])
    );
    assert_eq!(
        merged(vec![Geometry::Point(point(1)), Geometry::MultiPoint(vec![point(2)])]),
        Geometry::MultiPoint(vec![point(1), point(2)])
    );
    // What does not go together stays as the first part is.
    assert_eq!(
        merged(vec![Geometry::Point(point(1)), Geometry::LineString(line(&[0, 1]))]),
        Geometry::Point(point(1))
    );
    assert_eq!(merged(Vec::new()), Geometry::Point(point(0)));
    // A closed line stands beside an open one.
    let closed = || path(&[(5, 5), (6, 5), (6, 6), (5, 5)]);
    assert_eq!(
        merged(vec![Geometry::LineString(closed()), Geometry::LineString(line(&[0, 1]))]),
        Geometry::MultiLineString(vec![line(&[0, 1]), closed()])
    );
    // A closed line alone stays as it is.
    let ring = Geometry::LineString(path(&[(0, 0), (1, 1), (0, 0)]));
    assert_eq!(merged(vec![ring.copy()]), ring);
}

// ---------------------------------------------------------------------------
// Planning an import
// ---------------------------------------------------------------------------

fn group_ends(lines: &[Vec<Vec<Coord>>]) -> Vec<Ends> {
    lines.iter().map(|g| ends(g)).collect()
}

#[test]
fn namesakes_of_a_class_become_one_node() {
    let fs = features(&[
        road("PIE", "Expressway", 0, 1),
        road("AYE", "Expressway", 9, 8),
        road(" PIE ", "Expressway", 1, 2),
        road("PIE", "Ramp", 4, 5),
        road("", "Expressway", 6, 7),
        road("", "Expressway", 7, 8),
    ].join(","));
    assert_eq!(
        group_features(&fs),
        vec![vec![1], vec![0, 2], vec![3], vec![4], vec![5]]
    );
    let e = group_ends(&import_lines(&fs));
    let (nodes, bounds) = write_features("L", "roads", &fs, &e);
    assert_eq!(nodes.len(), 5);
    let pie = &nodes[1];
    assert_eq!(pie.name, "PIE");
    assert_eq!(pie.subtype, Some("roads".to_string()));
    assert_eq!(pie.text_at("layer_id").unwrap(), "L");
    assert_eq!(pie.text_at("source_id").unwrap(), "0");
    assert_eq!(
        geometry_to_geojson(pie.geometry.as_ref().unwrap()).to_text(),
        r#"{"coordinates":[[0.0,0.0],[1.0,0.0],[2.0,0.0]],"type":"LineString"}"#
    );
    let b = bounds.unwrap();
    assert_eq!(f64::from_bits(b.min.x.bits()), 0.0);
    assert_eq!(f64::from_bits(b.max.x.bits()), 9.0);
}

#[test]
fn a_separator_in_a_class_joins_nothing() {
    let fs = features(&[
        road("c", "a\\u0001b", 0, 1),
        road("b\\u0001c", "a", 1, 2),
        road("c", "a\\u0001b", 2, 3),
        road("c\\u00013", "a\\u0001b", 3, 4),
    ].join(","));
    let mut groups = group_features(&fs);
    groups.sort();
    assert_eq!(groups, vec![vec![0, 2], vec![1], vec![3]]);
    let e = group_ends(&import_lines(&fs));
    let (nodes, _) = write_features("L", "roads", &fs, &e);
    assert_eq!(nodes.len(), 3);
}

#[test]
fn points_of_one_name_stay_apart() {
    let fs = features(
        r#"{"properties":{"NAME":"Tree"},"geometry":{"type":"Point","coordinates":[1,2]}},
           {"properties":{"NAME":"Tree"},"geometry":{"type":"Point","coordinates":[3,4]}}"#,
    );
    assert_eq!(group_features(&fs), vec![vec![0], vec![1]]);
}

#[test]
fn lines_named_by_an_id_alone_stay_apart() {
    let line = |props: &str, x: i32| {
        format!(
            r#"{{"properties":{props},"geometry":{{"type":"LineString","coordinates":[[{x},0],[{},0]]}}}}"#,
            x + 1
        )
    };
    let fs = features(&[
        line(r#"{"OBJECTID":7}"#, 0),
        line(r#"{"OBJECTID":7}"#, 1),
        line(r#"{"NAME":"7"}"#, 2),
        line(r#"{"NAME":"7","OBJECTID":7}"#, 3),
        line(r#"{"NAME":7,"OBJECTID":5}"#, 4),
    ].join(","));
    assert_eq!(
        group_features(&fs),
        vec![vec![4], vec![0], vec![1], vec![2, 3]]
    );
}

fn layer_with_z(id: &str, name: &str, z: Option<i64>) -> AttrNode {
    let mut n = feature_node("", "", name, &Geometry::MultiPoint(Vec::new()), &object("{}"));
    n.id = id.to_string();
    n.node_type = "Layer".to_string();
    if let Some(z) = z {
        n.properties.set("z_order", Json::from_i64(z));
    }
    n
}

#[test]
fn new_layers_lie_on_top() {
    let layers = vec![
        layer_with_z("a", "a", Some(-4)),
        layer_with_z("b", "b", None),
        layer_with_z("c", "c", Some(6)),
    ];
    assert_eq!(top_z(&layers), Some(6));
    assert_eq!(next_z_order(Some(6)), 7);
    assert_eq!(top_z(&Vec::new()), None);
    assert_eq!(next_z_order(None), 0);
    let fs = features(&road("PIE", "x", 0, 1));
    let e = group_ends(&import_lines(&fs));
    let plan = plan_import("roads", "Roads", "src", &fs, &layers, &e).unwrap();
    assert_eq!(plan.layer.get("z_order"), Some(&Json::from_i64(7)));
    assert_eq!(plan.layer.description, Some("Imported from src".to_string()));
    assert_eq!(plan.layer.text_at("geometry_type").unwrap(), "LineString");
    assert_eq!(plan.nodes.len(), 1);
    assert_eq!(plan.nodes[0].text_at("layer_id").unwrap(), &plan.layer.id);
    assert_eq!(plan.report.text_at("layer_id").unwrap(), &plan.layer.id);
    assert_eq!(plan.report.get("bounds").unwrap(), &json("[0.0,0.0,1.0,0.0]"));
}

#[test]
fn nothing_is_no_import() {
    let none: Vec<DecodedFeature> = Vec::new();
    assert_eq!(
        import_layer("m", "d", "s", &none, 0).unwrap_err(),
        "geojson contained no features"
    );
    assert_eq!(
        plan_import("m", "d", "s", &none, &Vec::new(), &Vec::new()).unwrap_err(),
        "geojson contained no features"
    );
}

#[test]
fn reimport_replaces_the_layer_of_that_name() {
    let layers = vec![layer_with_z("a", "roads", None), layer_with_z("b", "parks", None)];
    let mut mine = feature_node("a", "", "1", &Geometry::MultiPoint(Vec::new()), &object("{}"));
    mine.id = "1".to_string();
    let mut other = feature_node("b", "", "2", &Geometry::MultiPoint(Vec::new()), &object("{}"));
    other.id = "2".to_string();
    let fs = vec![mine, other];
    assert_eq!(replace_layer(&layers, &fs, "roads"), vec!["1", "a"]);
    assert!(replace_layer(&layers, &fs, "rivers").is_empty());
}

// ---------------------------------------------------------------------------
// Merging a stored layer
// ---------------------------------------------------------------------------

fn stored(id: &str, name: &str, geometry: Option<Geometry>) -> AttrNode {
    let mut n = feature_node(
        "L",
        "s",
        "node",
        &Geometry::MultiPoint(Vec::new()),
        &object(&format!(r#"{{"NAME":"{}","FOLDERPATH":"c"}}"#, name)),
    );
    n.id = id.to_string();
    n.geometry = geometry;
    n
}

#[test]
fn stored_fragments_are_coalesced() {
    let nodes = vec![
        stored("1", "PIE", Some(Geometry::LineString(line(&[0, 1])))),
        stored("2", "PIE", Some(Geometry::LineString(line(&[1, 2])))),
        stored("3", "AYE", Some(Geometry::LineString(line(&[5, 6])))),
        stored("4", "gone", None),
    ];
    let e = group_ends(&merge_lines(&nodes));
    let steps = merge_layer("roads", &nodes, &e);
    assert_eq!(steps.len(), 2);
    assert_eq!(steps[0].delete, vec!["3"]);
    assert_eq!(steps[1].delete, vec!["1", "2"]);
    let pie = &steps[1].store;
    assert_eq!(pie.name, "PIE");
    assert_eq!(pie.subtype, Some("roads".to_string()));
    assert_eq!(pie.text_at("layer_id").unwrap(), "L");
    assert_eq!(pie.text_at("source_id").unwrap(), "");
    assert_eq!(pie.geometry, Some(Geometry::LineString(line(&[0, 1, 2]))));
    assert_eq!(
        merge_report("roads", &steps),
        json(r#"{"name":"roads","deleted":3,"stored":2}"#)
    );
    assert_eq!(
        merge_report("roads", &merge_layer("roads", &Vec::new(), &Vec::new())),
        json(r#"{"name":"roads","deleted":0,"stored":0}"#)
    );
}

#[test]
fn a_separator_in_a_stored_class_joins_nothing() {
    let road = |id: &str, name: &str, class: &str, xs: &[i32]| {
        let mut n = stored(id, "", Some(Geometry::LineString(line(xs))));
        n.properties.set("NAME", Json::text(name));
        n.properties.set("FOLDERPATH", Json::text(class));
        n
    };
    let nodes = vec![
        road("1", "c", "a\u{1}b", &[0, 1]),
        road("2", "b\u{1}c", "a", &[1, 2]),
        road("3", "c", "a\u{1}b", &[1, 2]),
    ];
    let e = group_ends(&merge_lines(&nodes));
    let mut deleted: Vec<Vec<String>> =
        merge_layer("roads", &nodes, &e).into_iter().map(|s| s.delete).collect();
    deleted.sort();
    assert_eq!(deleted, vec![vec!["1".to_string(), "3".to_string()], vec!["2".to_string()]]);
}

// ---------------------------------------------------------------------------
// Embedding
// ---------------------------------------------------------------------------

fn named(i: usize) -> AttrNode {
    let mut n = feature_node("L", "s", "n", &Geometry::MultiPoint(Vec::new()), &object("{}"));
    n.id = i.to_string();
    n
}

fn run(count: usize, carry: bool, lose: usize) -> (Vec<usize>, Vec<(String, usize)>, u64) {
    let nodes: Vec<AttrNode> = (0..count).map(named).collect();
    let mut run: EmbedRun<usize> = EmbedRun::new(nodes, carry);
    let mut batches: Vec<usize> = Vec::new();
    let mut written: Vec<(String, usize)> = Vec::new();
    let mut sizes: Vec<usize> = Vec::new();
    let mut next = 0;
    loop {
        let (r, step) = run.next();
        run = r;
        match step {
            EmbedStep::Embed(texts) => {
                batches.push(texts.len());
                let vectors: Vec<usize> = (next..next + texts.len() - lose).collect();
                next += texts.len();
                run = run.supply(vectors);
            }
            EmbedStep::Write(items) => {
                sizes.push(items.len());
                written.extend(items);
            }
            EmbedStep::Done(n) => {
                assert_eq!(batches.iter().sum::<usize>(), count);
                return (sizes, written, n);
            }
        }
    }
}

#[test]
fn runs_carry_vectors_over_batches() {
    let (sizes, written, n) = run(300, true, 0);
    assert_eq!(sizes, vec![256, 44]);
    assert_eq!(n, 300);
    let expected: Vec<(String, usize)> = (0..300).map(|i| (i.to_string(), i)).collect();
    assert_eq!(written, expected);
}

#[test]
fn runs_write_batch_by_batch() {
    let (sizes, written, n) = run(130, false, 0);
    assert_eq!(sizes, vec![64, 64, 2]);
    assert_eq!(n, 130);
    assert_eq!(written.len(), 130);
    assert_eq!(run(0, true, 0), (Vec::new(), Vec::new(), 0));
}

#[test]
fn missing_vectors_leave_their_nodes_out() {
    let (sizes, written, n) = run(65, true, 1);
    assert_eq!(sizes, vec![63]);
    assert_eq!(n, 63);
    assert_eq!(written[62], ("62".to_string(), 62));
}

#[test]
fn batches_have_their_size() {
    assert_eq!((TEXTS_PER_BATCH, VECTORS_PER_WRITE), (64, 256));
    assert_eq!(batch_end(0, 100), 64);
    assert_eq!(batch_end(64, 100), 100);
    let nodes: Vec<AttrNode> = (0..3).map(named).collect();
    assert_eq!(
        pair_embeddings(&nodes, 1, 3, vec!['x', 'y', 'z']),
        vec![("1".to_string(), 'x'), ("2".to_string(), 'y')]
    );
    let items = |n: usize| (0..n).map(|i| (i.to_string(), i)).collect::<Vec<_>>();
    let (writes, rest) = collect_items(items(250), items(10));
    assert_eq!(writes.len(), 1);
    assert_eq!(writes[0].len(), 256);
    assert_eq!(rest.len(), 4);
}

#[test]
fn cells_must_be_those_of_the_lines() {
    let fs = features(&road("PIE", "x", 0, 1));
    let e = group_ends(&import_lines(&fs));
    assert!(checked_import("m", "d", "s", &fs, &Vec::new(), &e).unwrap().is_ok());
    assert!(checked_import("m", "d", "s", &fs, &Vec::new(), &Vec::new()).is_none());
    assert!(checked_import("m", "d", "s", &fs, &Vec::new(), &vec![Vec::new()]).is_none());
    let full = vec![layer_with_z("a", "a", Some(i64::MAX))];
    assert!(checked_import("m", "d", "s", &fs, &full, &e).is_none());
    let nodes = vec![stored("1", "PIE", Some(Geometry::LineString(line(&[0, 1]))))];
    let e = group_ends(&merge_lines(&nodes));
    assert_eq!(checked_merge("m", &nodes, &e).unwrap().len(), 1);
    assert!(checked_merge("m", &nodes, &Vec::new()).is_none());
}

#[test]
fn points_and_unnamed_features_are_stored_unchanged() {
    let nodes = vec![
        stored("1", "Tree", Some(Geometry::Point(line(&[1]).remove(0)))),
        stored("2", " ", Some(Geometry::LineString(line(&[0, 1])))),
        stored("3", " ", Some(Geometry::LineString(line(&[1, 2])))),
        stored("4", "Tree", Some(Geometry::Point(line(&[1]).remove(0)))),
    ];
    let e = group_ends(&merge_lines(&nodes));
    let steps = merge_layer("m", &nodes, &e);
    assert_eq!(steps.len(), 4);
    for (step, node) in steps.iter().zip(&nodes) {
        assert_eq!(step.delete, vec![node.id.clone()]);
        assert_eq!(&step.store, node);
    }
}

#[test]
fn a_second_merge_joins_nothing() {
    let nodes = vec![
        stored("1", "PIE", Some(Geometry::LineString(line(&[1, 2])))),
        stored("2", "PIE", Some(Geometry::LineString(line(&[0, 1])))),
        stored("3", "", Some(Geometry::LineString(line(&[5, 6])))),
        stored("4", "gone", None),
    ];
    let first = merge_layer("roads", &nodes, &group_ends(&merge_lines(&nodes)));
    assert_eq!(first.iter().map(|s| s.delete.len()).sum::<usize>(), 3);
    let left: Vec<AttrNode> = first.iter().map(|s| s.store.copy()).collect();
    let again = merge_layer("roads", &left, &group_ends(&merge_lines(&left)));
    assert_eq!(again.len(), left.len());
    for (step, node) in again.iter().zip(&left) {
        assert_eq!(step.delete, vec![node.id.clone()]);
        assert_eq!(step.store.geometry, node.geometry);
        assert_eq!(step.store.properties, node.properties);
        assert_eq!(step.store.name, node.name);
    }
}

#[test]
fn an_import_is_one_transaction() {
    let fs = features(&road("PIE", "c", 0, 1));
    let e = group_ends(&import_lines(&fs));
    let plan = plan_import("roads", "Roads", "src", &fs, &Vec::new(), &e).unwrap();
    let ops = import_ops(&plan);
    assert_eq!(ops.len(), 3);
    assert_eq!(ops[0], ImportOp::Store(plan.layer.copy()));
    assert_eq!(ops[1], ImportOp::Store(plan.nodes[0].copy()));
    assert_eq!(ops[2], ImportOp::Commit);
}

/// What the embedding of a layer asks for, with an embedder or without one.
fn embedding_steps(nodes: Vec<AttrNode>, embedder: bool) -> Vec<String> {
    let mut nodes = Some(nodes);
    let (mut flow, mut step) = LayerEmbedding::<usize>::start("roads");
    let mut told = Vec::new();
    loop {
        let event = match step {
            FlowStep::Nodes(name) => {
                told.push(format!("nodes {}", name));
                FlowEvent::Nodes(Ok(nodes.take().unwrap_or_default()))
            }
            FlowStep::EnsureIndex => {
                told.push("index".to_string());
                FlowEvent::Done(Err(Failure::Refused("there already".to_string())))
            }
            FlowStep::Embed(texts) => {
                told.push(format!("embed {}", texts.len()));
                if embedder {
                    FlowEvent::Vectors(Ok((0..texts.len()).collect()))
                } else {
                    FlowEvent::Vectors(Err(Failure::Refused("no embedder".to_string())))
                }
            }
            FlowStep::Write(items) => {
                told.push(format!("write {}", items.len()));
                FlowEvent::Done(Ok(()))
            }
            FlowStep::RebuildIndexes => {
                told.push("rebuild".to_string());
                FlowEvent::Done(Ok(()))
            }
            FlowStep::Sync => {
                told.push("sync".to_string());
                FlowEvent::Done(Ok(()))
            }
            FlowStep::Stop => return told,
        };
        (flow, step) = flow.supply(event);
    }
}

#[test]
fn a_layer_is_embedded_in_order() {
    let nodes = |n: usize| (0..n).map(|i| stored(&i.to_string(), "a", None)).collect::<Vec<_>>();
    assert_eq!(
        embedding_steps(nodes(300), true),
        vec![
            "nodes roads", "index", "embed 64", "embed 64", "embed 64", "embed 64", "write 256",
            "embed 44", "write 44", "rebuild", "sync"
        ]
    );
    assert_eq!(embedding_steps(nodes(3), false), vec!["nodes roads", "index", "embed 3"]);
    assert_eq!(embedding_steps(nodes(0), true), vec!["nodes roads"]);
}
