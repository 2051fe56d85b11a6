//! Texts, JSON values and the ordered containers.

use spire_gis::grouping::group_by;
use spire_gis::hash_embedder::{fnv1a, tokens, HashEmbedder, DIMENSIONS};
use spire_gis::json::{Json, JsonObject, Real};
use spire_gis::order::{sorted_order, SortKey};
use spire_gis::text::{
    decimal_text, has_part, has_prefix, joined, split_pieces, text_before, trimmed,
};
use spire_gis::textmap::TextMap;

fn json(text: &str) -> Json {
    Json::parse(text).expect("json")
}

#[test]
fn texts_are_compared_by_code_points() {
    assert!(text_before("a", "b"));
    assert!(text_before("a", "ab"));
    assert!(text_before("Z", "a"));
    assert!(text_before("\u{ffff}", "\u{10000}"));
    assert!(!text_before("a", "a"));
    assert!(!text_before("b", "a"));
}

#[test]
fn texts_are_searched() {
    assert!(has_prefix("config_x", "config_"));
    assert!(!has_prefix("conf", "config_"));
    assert!(has_part("expressway", "press"));
    assert!(has_part("x", ""));
    assert!(!has_part("x", "xy"));
    assert_eq!(trimmed(" \t\u{3000}a b\n"), "a b");
}

#[test]
fn texts_are_joined_and_split() {
    let parts = vec!["a".to_string(), "".to_string(), "c".to_string()];
    assert_eq!(joined(&parts, ", "), "a, , c");
    assert_eq!(split_pieces("a,,c", ','), vec!["a", "c"]);
    assert!(split_pieces("", ',').is_empty());
    assert_eq!(decimal_text(0), "0");
    assert_eq!(decimal_text(18446744073709551615), "18446744073709551615");
}

#[test]
fn json_is_read_and_written() {
    let text = r#"{"a":[1,-2,2.5,true,null,"é\n"],"b":{}}"#;
    let j = json(text);
    assert_eq!(j.to_text(), "{\"a\":[1,-2,2.5,true,null,\"\u{e9}\\n\"],\"b\":{}}");
    assert_eq!(Json::from_value(j.to_value()), j);
    assert_eq!(
        Json::parse("nope").unwrap_err(),
        "expected ident at line 1 column 2"
    );
    assert_eq!(j.get("a").unwrap().as_array().unwrap().len(), 6);
    assert_eq!(j.get("c"), None);
    assert_eq!(json("[1]").get("a"), None);
}

#[test]
fn members_stand_in_order_of_their_keys() {
    let mut o = JsonObject::new();
    o.set("b", Json::from_u64(1));
    o.set("a", Json::from_i64(-1));
    o.set("b", Json::from_bool(true));
    assert_eq!(o.len(), 2);
    assert_eq!(o.key_at(0), "a");
    assert_eq!(Json::object(o.copy()).to_text(), r#"{"a":-1,"b":true}"#);
    assert_eq!(o.remove("a"), Some(Json::from_i64(-1)));
    assert_eq!(o.remove("a"), None);
    assert!(!o.contains_key("a"));
}

#[test]
fn numbers_have_their_readings() {
    assert_eq!(json("7").as_u64(), Some(7));
    assert_eq!(json("7").as_i64(), Some(7));
    assert_eq!(json("-7").as_u64(), None);
    assert_eq!(json("-7").as_i64(), Some(-7));
    assert_eq!(json("7.0").as_u64(), None);
    assert_eq!(json("18446744073709551615").as_i64(), None);
    assert_eq!(json("\"7\"").as_u64(), None);
    assert_eq!(json("7").as_real().map(|r| r.bits()), Some(7.0f64.to_bits()));
    assert_eq!(json("1e2").as_real().map(|r| r.bits()), Some(100.0f64.to_bits()));
    assert_eq!(json("2.50").number_to_text(), Some("2.5".to_string()));
    assert_eq!(json("12").number_to_text(), Some("12".to_string()));
    assert_eq!(json("true").number_to_text(), None);
    assert_eq!(Real::from_u64(3).to_json().to_text(), "3.0");
    assert_eq!(json("\"x\"").as_str().unwrap(), "x");
    assert_eq!(json("true").as_bool(), Some(true));
}

#[test]
fn reals_are_ranked() {
    let place = |t: &str| json(t).as_real().unwrap().place();
    let ascending = ["-1e300", "-2", "-0.5", "0", "1e-300", "0.5", "1", "1.5", "2", "1e300"];
    for w in ascending.windows(2) {
        assert!(place(w[0]) < place(w[1]), "{} {}", w[0], w[1]);
    }
    assert_eq!(place("-0.0"), place("0"));
    assert_eq!(place("0"), 0);
}

#[test]
fn maps_are_searched_by_key() {
    let mut m: TextMap<u8> = TextMap::new();
    assert!(m.is_empty());
    for (i, k) in ["d", "a", "c", "b"].iter().enumerate() {
        m.insert(k.to_string(), i as u8);
    }
    m.insert("a".to_string(), 9);
    assert_eq!(m.len(), 4);
    assert_eq!(m.key_at(0), "a");
    assert_eq!(m.value_at(0), &9);
    assert_eq!(m.get("c"), Some(&2));
    assert_eq!(m.get("e"), None);
    assert_eq!(m.remove("c"), Some(2));
    assert!(!m.contains_key("c"));
    assert_eq!(m.len(), 3);
}

#[test]
fn orders_are_stable() {
    let key = |rank: i128, text: &str| SortKey { rank, text: text.to_string() };
    let keys = vec![key(2, "a"), key(1, "b"), key(1, "a"), key(2, "a"), key(-1, "z")];
    assert_eq!(sorted_order(&keys), vec![4, 2, 1, 0, 3]);
}

#[test]
fn groups_stand_in_order_of_their_keys() {
    let keys = vec![
        Some("b".to_string()),
        None,
        Some("a".to_string()),
        Some("b".to_string()),
    ];
    assert_eq!(group_by(&keys), vec![vec![2], vec![0, 3]]);
}

// ---------------------------------------------------------------------------
// Embedding by hashes
// ---------------------------------------------------------------------------

#[test]
fn hashes_are_fnv1a() {
    assert_eq!(fnv1a(""), 0xcbf29ce484222325);
    assert_eq!(fnv1a("a"), 0xaf63dc4c8601ec8c);
    assert_eq!(fnv1a("foobar"), 0x85944171f73967e8);
    assert_eq!(fnv1a("\u{e9}"), {
        let mut h: u64 = 0xcbf29ce484222325;
        for b in [0xc3u64, 0xa9] {
            h = (h ^ b).wrapping_mul(0x100000001b3);
        }
        h
    });
}

#[test]
fn tokens_are_words_pairs_and_grams() {
    assert_eq!(
        tokens("ANG-Mo"),
        vec![
            "ang", "mo", "ang mo", "an", "ng", "gm", "mo", "ang", "ngm", "gmo"
        ]
    );
    assert!(tokens("?!").is_empty());
    assert_eq!(tokens("\u{c9}"), vec!["\u{e9}"]);
}

#[test]
fn every_token_is_counted() {
    let e = HashEmbedder::new();
    assert_eq!(e.dimensions(), 384);
    assert_eq!(DIMENSIONS, 384);
    let counts = e.counts("ANG-Mo");
    assert_eq!(counts.len(), 384);
    assert_eq!(counts.iter().sum::<u64>(), 10);
    assert!(counts[(fnv1a("ang") % 384) as usize] >= 2);
    assert!(HashEmbedder::default().counts("").iter().all(|c| *c == 0));
}

// ---------------------------------------------------------------------------
// Integers as floats
// ---------------------------------------------------------------------------

/// The bits of the float for a positive integer, from its exponent and its significand.
fn nearest_bits(n: u64) -> u64 {
    let e = 63 - n.leading_zeros() as u64;
    let significand = if e <= 52 {
        n << (52 - e)
    } else {
        let d = 1u64 << (e - 52);
        let (q, r) = (n / d, n % d);
        if 2 * r > d || (2 * r == d && q % 2 == 1) {
            q + 1
        } else {
            q
        }
    };
    (1022 + e) * (1u64 << 52) + significand
}

#[test]
fn integers_go_to_the_nearest_float() {
    assert_eq!(Real::from_u64(0).bits(), 0);
    assert_eq!(Real::from_u64(1).bits(), 0x3ff0_0000_0000_0000);
    assert_eq!(Real::from_u64(10).bits(), 0x4024_0000_0000_0000);
    // From halfway to the even significand.
    assert_eq!(Real::from_u64((1 << 53) + 1).bits(), 0x4340_0000_0000_0000);
    assert_eq!(Real::from_u64((1 << 53) + 3).bits(), 0x4340_0000_0000_0002);
    // Rounding up to the next power of two raises the exponent.
    assert_eq!(Real::from_u64(u64::MAX).bits(), 0x43f0_0000_0000_0000);
    for shift in 0..64 {
        let p = 1u64 << shift;
        for n in [p - p / 2, p - 1, p, p + p / 2, p.saturating_add(1), p.saturating_add(1025)] {
            if n > 0 {
                assert_eq!(Real::from_u64(n).bits(), nearest_bits(n), "{}", n);
            }
            if n > 0 && n <= i64::MAX as u64 {
                let r = Json::parse(&format!("-{}", n)).unwrap().as_real().unwrap();
                assert_eq!(r.bits(), (1u64 << 63) + nearest_bits(n), "-{}", n);
            }
        }
    }
}

#[test]
fn integers_keep_their_order_as_floats() {
    let place = |t: &str| Json::parse(t).unwrap().as_real().unwrap().place();
    let up = ["-9007199254740992", "-10", "-9", "-1", "0", "1", "9", "10", "9007199254740992"];
    for pair in up.windows(2) {
        assert!(place(pair[0]) < place(pair[1]), "{:?}", pair);
    }
    // Beyond, neighbours may share a float.
    assert_eq!(place("9007199254740992"), place("9007199254740993"));
    assert!(place("9007199254740993") < place("9007199254740994"));
}
