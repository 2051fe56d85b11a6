//! Filters on attributes, and features for display.

use spire_gis::coordinator::features::{feature_json, feature_with, layer_reply};
use spire_gis::coordinator::language::{extract_json_object, interpret_answer, NlPlan};
use spire_gis::coordinator::query::attr_list_match;
use spire_gis::geometry::{Coord, Geometry};
use spire_gis::json::{Json, JsonObject};
use spire_gis::models::{feature_node, AttrNode};

fn json(text: &str) -> Json {
    Json::parse(text).expect("json")
}

fn object(text: &str) -> JsonObject {
    json(text).as_object().expect("object").copy()
}

fn point(x: &str, y: &str) -> Coord {
    Coord { x: json(x).as_real().unwrap(), y: json(y).as_real().unwrap() }
}

fn node(properties: &str) -> AttrNode {
    let mut n = feature_node("L", "S", "N", &Geometry::Point(point("1", "2")), &object("{}"));
    n.id = "i".to_string();
    n.properties = object(properties);
    n
}

fn holds(properties: &str, constraints: &str) -> bool {
    attr_list_match(&node(properties), json(constraints).as_array().unwrap())
}

#[test]
fn constraints_compare_texts_and_numbers() {
    let p = r#"{"NAME":"Bishan Park","AREA":12,"open":true,"low":"9","list":[1]}"#;
    for c in [
        "[]",
        r#"[{"key":"NAME","value":"Bishan Park"}]"#,
        r#"[{"key":"NAME","op":"!=","value":"x"}]"#,
        r#"[{"key":"NAME","op":"contains","value":"han P"}]"#,
        r#"[{"key":"NAME","op":"starts_with","value":"Bis"}]"#,
        r#"[{"key":"AREA","op":"=","value":"12"}]"#,
        r#"[{"key":"AREA","op":">","value":9}]"#,
        r#"[{"key":"AREA","op":">=","value":12.0}]"#,
        r#"[{"key":"AREA","op":"<","value":12.5}]"#,
        r#"[{"key":"AREA","op":"<=","value":12}]"#,
        // Texts are compared as texts.
        r#"[{"key":"low","op":">","value":"12"}]"#,
        r#"[{"key":"low","op":">=","value":"9"}]"#,
        r#"[{"key":"open","value":true}]"#,
        // What is neither text nor number nor flag reads as nothing.
        r#"[{"key":"list","value":null}]"#,
        // A constraint without a key is passed over.
        r#"[{"value":"x"}, 5]"#,
    ] {
        assert!(holds(p, c), "{}", c);
    }
    for c in [
        r#"[{"key":"missing","op":"!=","value":"x"}]"#,
        r#"[{"key":"AREA","op":"like","value":"12"}]"#,
        r#"[{"key":"AREA","op":">","value":12}]"#,
        r#"[{"key":"AREA","op":"<","value":"0"}]"#,
        r#"[{"key":"low","op":"<","value":"12"}]"#,
        r#"[{"key":"NAME","value":"Bishan Park"},{"key":"AREA","value":1}]"#,
    ] {
        assert!(!holds(p, c), "{}", c);
    }
}

#[test]
fn display_features_keep_what_selection_needs() {
    let n = node(
        r#"{"FOLDERPATH":"Layers/Parks","NAME":"","PARK_NAME":"Bishan","objectid":5,"x":1}"#,
    );
    let none: Option<fn(&Coord, &Coord) -> bool> = None;
    assert_eq!(
        feature_json(&n, none, true).unwrap(),
        json(
            r#"{"type":"Feature","id":"i","geometry":{"type":"Point","coordinates":[1.0,2.0]},
                "properties":{"class":"Layers/Parks","name":"Bishan","objectid":"5","id":"i"}}"#
        )
    );
    let n = node(r#"{"geometry":"copy","a":1}"#);
    assert_eq!(
        feature_json(&n, none, false).unwrap().get("properties").unwrap(),
        &json(r#"{"a":1}"#)
    );
    assert_eq!(
        feature_with(&n, Json::null(), true).get("properties").unwrap(),
        &json(r#"{"class":"","name":"","objectid":"","id":"i"}"#)
    );
}

#[test]
fn display_features_are_thinned() {
    let mut n = node("{}");
    n.geometry = Some(Geometry::LineString(vec![
        point("0", "0"),
        point("0.1", "0"),
        point("5", "0"),
    ]));
    let far = |a: &Coord, b: &Coord| {
        (f64::from_bits(a.x.bits()) - f64::from_bits(b.x.bits())).abs() >= 1.0
    };
    let f = feature_json(&n, Some(far), true).unwrap();
    assert_eq!(
        f.get("geometry").unwrap(),
        &json(r#"{"type":"LineString","coordinates":[[0.0,0.0],[5.0,0.0]]}"#)
    );
    // A thinned feature needs a stored geometry; a point alone does not do.
    n.geometry = None;
    n.point = Some(point("1", "1"));
    assert_eq!(feature_json(&n, Some(far), true), None);
    let none: Option<fn(&Coord, &Coord) -> bool> = None;
    assert!(feature_json(&n, none, true).is_some());
}

#[test]
fn layers_say_whether_features_were_left_out() {
    let reply = layer_reply(vec![json("1"), json("2")], 3);
    assert_eq!(
        reply,
        json(r#"{"type":"FeatureCollection","features":[1,2],"total":2,"truncated":false}"#)
    );
    let reply = layer_reply(vec![json("1"), json("2")], 2);
    assert_eq!(reply.get("truncated").unwrap(), &Json::from_bool(true));
}

#[test]
fn json_is_found_in_answers() {
    let found = |s: &str| extract_json_object(s).map(|j| j.to_text());
    assert_eq!(found(" {\"a\":1} "), Some("{\"a\":1}".to_string()));
    assert_eq!(found("```json\n{\"a\":1}\n```"), Some("{\"a\":1}".to_string()));
    assert_eq!(found("```\n[1]\n```"), Some("[1]".to_string()));
    assert_eq!(
        found("Sure! {not json} but {\"a\":{\"b\":2}} follows"),
        Some("{\"a\":{\"b\":2}}".to_string())
    );
    assert_eq!(found(r#"Answer: {"a":"}"} ok"#), Some(r#"{"a":"}"}"#.to_string()));
    assert_eq!(found(r#"So: {"a":"\"}{"} ok"#), Some(r#"{"a":"\"}{"}"#.to_string()));
    assert_eq!(found(r#"{of "two} the {"a":1}"#), Some(r#"{"a":1}"#.to_string()));
    assert_eq!(found("{\"a\":"), None);
    assert_eq!(found("no braces"), None);
    assert_eq!(found("} {"), None);
}

#[test]
fn answers_are_interpreted() {
    assert_eq!(interpret_answer(r#"{"fallback":true}"#), Ok(NlPlan::Fallback));
    assert_eq!(
        interpret_answer(r#"{"fallback":false,"params":{"predicate":"bbox"},"summary":"s"}"#),
        Ok(NlPlan::Run {
            params: json(r#"{"predicate":"bbox"}"#),
            summary: Some("s".to_string())
        })
    );
}
