//! Importing features as a layer: the attribute schema, the coalescing of fragments, and the
//! nodes that are stored.
//!
//! An import replaces the layer with the same name. Named line and polygon fragments (a road cut
//! into segments, a park cut into adjacent areas) become one node each; points and unnamed
//! features are never merged.

use vstd::prelude::*;

use crate::actors::layer::{bounds_json, delete_layer};
use crate::chains::{lines_of, merge_geometries, Cell};
use crate::geometry::{join_bounds, Bounds, Coord, Geometry};
use crate::grouping::group_by;
use crate::json::{Json, JsonObject};
use crate::models::geojson::DecodedFeature;
use crate::models::{
    default_style, feature_node, geometry_kind, layer_node, sanitize_attributes, AttrNode,
};
use crate::text::{
    chars_of, concat, concat3, decimal_text, is_alphanumeric, push_char, same_text, to_ascii_lower,
    trimmed,
};
use crate::textmap::TextMap;
#[allow(unused_imports)]
use crate::actors::layer::{
    belongs_to, bounds_out, deletions, ids_differ, lists_type, without_nodes, z_of,
};
#[allow(unused_imports)]
use crate::chains::{
    all_lines, geometries_view, lines_apart, lone_part_is_unchanged, merged,
    merging_keeps_the_kind,
};
#[allow(unused_imports)]
use crate::geometry::{
    geometry_bounds, joined_bounds, lines_view, opt_bounds_view, BoundsView, GeometryView,
};
#[allow(unused_imports)]
use crate::grouping::{
    a_new_key_makes_a_group, each_in_exactly_one_group, grouped, groups_are_by_key,
    groups_hold_every_item, groups_of, groups_share_nothing, groups_view, keyed_count,
    lemma_group_places, lemma_group_shares_key, opt_texts, total_len,
};
#[allow(unused_imports)]
use crate::json::{
    int_json, lemma_json_view, no_entries, number_text, opt_view, str_json, Entries, JsonView,
};
#[allow(unused_imports)]
use crate::models::geojson::{features_view, FeatureView};
#[allow(unused_imports)]
use crate::models::{
    are_stored_properties, blank_node, feature_keeps_its_layer, feature_view, kind_of,
    layer_properties, nodes_view, safe_attributes, sanitized_attributes_are_safe,
    stored_attribute, stored_attributes_are_kept, stored_properties_are_kept, style_for, NodeView,
};
#[allow(unused_imports)]
use crate::order::places_view;
#[allow(unused_imports)]
use crate::stamp::{is_stamp, uuid_shape};
#[allow(unused_imports)]
use crate::text::{alphanumeric, ascii_lower, decimal, digit_char, texts, trim};
#[allow(unused_imports)]
use crate::textmap::{ascending, has_key, keys, lemma_lookup, lemma_put, lookup, put};

verus! {

// ---------------------------------------------------------------------------
// Names
// ---------------------------------------------------------------------------

/// The slug of a text: letters and digits in lower case, and one hyphen for each run of other
/// characters that follows one of them.
pub open spec fn slug(s: Seq<char>) -> Seq<char>
    decreases s.len(),
{
    if s.len() == 0 {
        Seq::empty()
    } else {
        let before = slug(s.drop_last());
        if alphanumeric(s.last()) {
            before.push(ascii_lower(s.last()))
        } else if before.len() > 0 && alphanumeric(s[s.len() - 2]) {
            before.push('-')
        } else {
            before
        }
    }
}

proof fn lemma_slug_state(s: Seq<char>)
    ensures
        slug(s).len() > 0 <==> exists|i: int| 0 <= i < s.len() && alphanumeric(#[trigger] s[i]),
    decreases s.len(),
{
    if s.len() > 0 {
        let d = s.drop_last();
        lemma_slug_state(d);
        if slug(s).len() > 0 {
            if slug(d).len() > 0 {
                let i = choose|i: int| 0 <= i < d.len() && alphanumeric(#[trigger] d[i]);
                assert(alphanumeric(s[i]));
            } else {
                assert(alphanumeric(s[s.len() - 1]));
            }
        }
        if exists|i: int| 0 <= i < s.len() && alphanumeric(#[trigger] s[i]) {
            let i = choose|i: int| 0 <= i < s.len() && alphanumeric(#[trigger] s[i]);
            if i < d.len() {
                assert(alphanumeric(d[i]));
            }
        }
    }
}

/// A text that does not start with a hyphen and has no two hyphens in a row.
pub open spec fn tidy(t: Seq<char>) -> bool {
    &&& t.len() > 0 ==> t[0] != '-'
    &&& forall|i: int, j: int|
        0 <= i && i + 1 == j && j < t.len() ==> !(#[trigger] t[i] == '-' && #[trigger] t[j] == '-')
}

/// A machine name for a text; nothing where it has neither letters nor digits.
pub fn slugify(s: &str) -> (r: Option<String>)
    ensures
        match r {
            Some(t) => t@ == slug(s@) && t@.len() > 0 && tidy(t@),
            None => slug(s@).len() == 0,
        },
        r is Some <==> exists|i: int| 0 <= i < s@.len() && alphanumeric(#[trigger] s@[i]),
{
    let mut out = String::new();
    let mut some = false;
    let mut prev_kept = false;
    for c in it: s.chars()
        invariant
            it.seq() == s@,
            out@ == slug(s@.take(it.index())),
            some == (out@.len() > 0),
            prev_kept == (it.index() > 0 && alphanumeric(s@[it.index() - 1])),
            forall|i: int|
                0 <= i < it.index() && alphanumeric(#[trigger] s@[i]) ==> ascii_lower(s@[i]) != '-',
    {
        proof {
            let i = it.index();
            assert(s@.take(i + 1).drop_last() =~= s@.take(i));
            assert(s@.take(i + 1).last() == c);
        }
        if is_alphanumeric(c) {
            push_char(&mut out, to_ascii_lower(c));
            some = true;
            prev_kept = true;
        } else {
            if some && prev_kept {
                push_char(&mut out, '-');
            }
            prev_kept = false;
        }
    }
    proof {
        assert(s@.take(s@.len() as int) =~= s@);
        lemma_slug_state(s@);
        lemma_slug_shape(s@);
    }
    if some {
        Some(out)
    } else {
        None
    }
}

proof fn lemma_slug_shape(s: Seq<char>)
    requires
        forall|i: int|
            0 <= i < s.len() && alphanumeric(#[trigger] s[i]) ==> ascii_lower(s[i]) != '-',
    ensures
        slug(s).len() > 0 && alphanumeric(s.last()) ==> slug(s).last() != '-',
        tidy(slug(s)),
    decreases s.len(),
{
    if s.len() > 0 {
        let d = s.drop_last();
        assert forall|i: int| 0 <= i < d.len() && alphanumeric(#[trigger] d[i]) implies ascii_lower(
            d[i],
        ) != '-' by {
            assert(alphanumeric(s[i]));
        }
        lemma_slug_shape(d);
        let before = slug(d);
        let after = slug(s);
        if alphanumeric(s.last()) {
            assert(ascii_lower(s[s.len() - 1]) != '-');
        }
        assert forall|i: int, j: int| 0 <= i && i + 1 == j && j < after.len() implies !(
        #[trigger] after[i] == '-' && #[trigger] after[j] == '-') by {
            if j < before.len() {
                assert(before[i] == after[i]);
                assert(before[j] == after[j]);
            } else if before.len() > 0 {
                assert(after[i] == before.last());
            }
        }
    }
}

/// The machine name and the display name of a layer that is imported from a file: the name that
/// is given, else the slug of the display name or of the file stem, else the stem.
pub open spec fn file_layer_names(
    stem: Seq<char>,
    name: Option<Seq<char>>,
    display: Option<Seq<char>>,
) -> (Seq<char>, Seq<char>) {
    let machine = match name {
        Some(n) => n,
        None => {
            let base = match display {
                Some(d) => d,
                None => stem,
            };
            if slug(base).len() > 0 {
                slug(base)
            } else {
                stem
            }
        },
    };
    let shown = match display {
        Some(d) => d,
        None => machine,
    };
    (machine, trim(shown))
}

/// The machine name and the display name of a layer that is imported from a file.
pub fn names_for_file(stem: &str, name: &Option<String>, display: &Option<String>) -> (r: (
    String,
    String,
))
    ensures
        (r.0@, r.1@) == file_layer_names(stem@, opt_view(*name), opt_view(*display)),
{
    let machine = match name {
        Some(n) => n.clone(),
        None => {
            let slugged = match display {
                Some(d) => slugify(d.as_str()),
                None => slugify(stem),
            };
            match slugged {
                Some(t) => t,
                None => stem.to_owned(),
            }
        },
    };
    let shown = match display {
        Some(d) => trimmed(d.as_str()),
        None => trimmed(machine.as_str()),
    };
    (machine, shown)
}

/// The machine name and the display name of a layer that is imported from data.gov.sg.
pub open spec fn dataset_layer_names(
    name: Option<Seq<char>>,
    display: Option<Seq<char>>,
) -> (Seq<char>, Seq<char>) {
    let machine = match name {
        Some(n) => n,
        None => "data-gov-layer"@,
    };
    let shown = match display {
        Some(d) => d,
        None => machine,
    };
    (machine, trim(shown))
}

/// The machine name and the display name of a layer that is imported from data.gov.sg.
pub fn names_for_dataset(name: &Option<String>, display: &Option<String>) -> (r: (String, String))
    ensures
        (r.0@, r.1@) == dataset_layer_names(opt_view(*name), opt_view(*display)),
{
    let machine = match name {
        Some(n) => n.clone(),
        None => "data-gov-layer".to_owned(),
    };
    let shown = match display {
        Some(d) => trimmed(d.as_str()),
        None => trimmed(machine.as_str()),
    };
    (machine, shown)
}

// ---------------------------------------------------------------------------
// The schema
// ---------------------------------------------------------------------------

/// The type of a scalar.
pub open spec fn scalar_kind(v: JsonView) -> Option<Seq<char>> {
    match v {
        JsonView::Str(_) => Some("string"@),
        JsonView::Number(_) => Some("number"@),
        JsonView::Bool(_) => Some("boolean"@),
        _ => None,
    }
}

/// The schema with the type of one more value under a key: a second type makes it mixed.
pub open spec fn with_type(schema: Entries, k: Seq<char>, v: JsonView) -> Entries {
    match scalar_kind(v) {
        None => schema,
        Some(t) => match lookup(schema, k) {
            None => put(schema, k, str_json(t)),
            Some(old) => if old.as_str() == Some(t) {
                schema
            } else {
                put(schema, k, str_json("mixed"@))
            },
        },
    }
}

pub open spec fn with_types(schema: Entries, attrs: Entries) -> Entries
    decreases attrs.len(),
{
    if attrs.len() == 0 {
        schema
    } else {
        with_type(with_types(schema, attrs.drop_last()), attrs.last().0, attrs.last().1)
    }
}

/// The attributes of all features with their types.
pub open spec fn schema_of(features: Seq<FeatureView>) -> Entries
    decreases features.len(),
{
    if features.len() == 0 {
        no_entries()
    } else {
        with_types(
            schema_of(features.drop_last()),
            safe_attributes(features.last().properties),
        )
    }
}

fn scalar_type(v: &Json) -> (r: Option<&'static str>)
    ensures
        match r {
            Some(t) => scalar_kind(v@) == Some(t@),
            None => scalar_kind(v@) is None,
        },
{
    broadcast use lemma_json_view;

    match v {
        Json::Str(_) => Some("string"),
        Json::Number(_) => Some("number"),
        Json::Bool(_) => Some("boolean"),
        _ => None,
    }
}

fn add_type(schema: &mut JsonObject, k: &String, v: &Json)
    ensures
        final(schema)@ == with_type(old(schema)@, k@, v@),
{
    match scalar_type(v) {
        None => {},
        Some(t) => {
            let new = match schema.get(k.as_str()) {
                None => Some(t),
                Some(old) => match old.as_str() {
                    Some(o) => if same_text(o.as_str(), t) {
                        None
                    } else {
                        Some("mixed")
                    },
                    None => Some("mixed"),
                },
            };
            match new {
                Some(t) => schema.insert(k.clone(), Json::text(t)),
                None => {},
            }
        },
    }
}

fn add_types(schema: &mut JsonObject, attrs: &JsonObject)
    ensures
        final(schema)@ == with_types(old(schema)@, attrs@),
{
    let n = attrs.len();
    let ghost a = attrs@;
    let ghost start = schema@;
    let mut i: usize = 0;
    while i < n
        invariant
            i <= n,
            n == attrs@.len(),
            a == attrs@,
            schema@ == with_types(start, a.take(i as int)),
        decreases n - i,
    {
        proof {
            assert(a.take(i + 1).drop_last() =~= a.take(i as int));
            assert(a.take(i + 1).last() == a[i as int]);
        }
        add_type(schema, attrs.key_at(i), attrs.value_at(i));
        i += 1;
    }
    proof {
        assert(a.take(n as int) =~= a);
    }
}

/// The attribute schema of features (`{ key: "string" | "number" | "boolean" | "mixed" }`) over
/// the keys under which the attributes are stored.
pub fn infer_schema(features: &Vec<DecodedFeature>) -> (r: Json)
    ensures
        r@ == JsonView::Object(schema_of(features_view(features@))),
{
    let n = features.len();
    let ghost fs = features_view(features@);
    let mut schema = JsonObject::new();
    let mut i: usize = 0;
    while i < n
        invariant
            i <= n,
            n == features@.len(),
            fs == features_view(features@),
            schema@ == schema_of(fs.take(i as int)),
        decreases n - i,
    {
        proof {
            assert(fs.take(i + 1).drop_last() =~= fs.take(i as int));
            assert(fs.take(i + 1).last() == features@[i as int]@);
        }
        add_types(&mut schema, &sanitize_attributes(&features[i].properties));
        i += 1;
    }
    proof {
        assert(fs.take(n as int) =~= fs);
    }
    Json::object(schema)
}

/// What the schema says of a key after some attributes: nothing, one type, or mixed.
pub open spec fn joined_type(old: Option<JsonView>, v: Option<JsonView>) -> Option<JsonView> {
    match v {
        None => old,
        Some(v) => match scalar_kind(v) {
            None => old,
            Some(t) => match old {
                None => Some(str_json(t)),
                Some(o) => if o.as_str() == Some(t) {
                    Some(o)
                } else {
                    Some(str_json("mixed"@))
                },
            },
        },
    }
}

proof fn lemma_with_types(schema: Entries, attrs: Entries, k: Seq<char>)
    requires
        ascending(keys(schema)),
        ascending(keys(attrs)),
    ensures
        ascending(keys(with_types(schema, attrs))),
        lookup(with_types(schema, attrs), k) == joined_type(lookup(schema, k), lookup(attrs, k)),
    decreases attrs.len(),
{
    if attrs.len() > 0 {
        let d = attrs.drop_last();
        let (lk, lv) = attrs.last();
        assert(keys(d) =~= keys(attrs).drop_last());
        lemma_with_types(schema, d, k);
        let before = with_types(schema, d);
        lemma_put(before, lk, str_json("mixed"@));
        if let Some(t) = scalar_kind(lv) {
            lemma_put(before, lk, str_json(t));
        }
        assert forall|i: int| 0 <= i < d.len() implies crate::text::text_lt(
            #[trigger] d[i].0,
            lk,
        ) by {
            assert(keys(attrs)[i] == d[i].0);
            assert(keys(attrs)[attrs.len() - 1] == lk);
        }
        crate::textmap::lemma_put_last(d, lk, lv);
        assert(attrs =~= d.push(attrs.last()));
        lemma_put(d, lk, lv);
        if k == lk {
            if let Some(v) = lookup(d, k) {
                lemma_lookup(d, k, v);
                let i = choose|i: int| 0 <= i < d.len() && d[i] == (k, v);
                crate::text::text_lt_irreflexive(k);
                assert(crate::text::text_lt(d[i].0, lk));
            }
        }
    }
}

/// The value that a feature stores under a key.
pub open spec fn stored_value(f: FeatureView, k: Seq<char>) -> Option<JsonView> {
    lookup(safe_attributes(f.properties), k)
}

/// A feature stores a value of some type under a key.
pub open spec fn stores_type(f: FeatureView, k: Seq<char>, t: Seq<char>) -> bool {
    stored_value(f, k) matches Some(v) && scalar_kind(v) == Some(t)
}

proof fn lemma_stored_scalar(f: FeatureView, k: Seq<char>)
    ensures
        ascending(keys(safe_attributes(f.properties))),
        stored_value(f, k) matches Some(v) ==> scalar_kind(v) is Some,
{
    let a = safe_attributes(f.properties);
    sanitized_attributes_are_safe(f.properties);
    if let Some(v) = lookup(a, k) {
        lemma_lookup(a, k, v);
        let i = choose|i: int| 0 <= i < a.len() && a[i] == (k, v);
        assert(stored_attribute(a[i]));
    }
}

/// The schema lists exactly the keys under which some feature stores an attribute. A key has the
/// type that all its values have, and is mixed where two of them differ.
pub proof fn schema_is_what_is_stored(features: Seq<FeatureView>, k: Seq<char>)
    ensures
        ascending(keys(schema_of(features))),
        has_key(schema_of(features), k) <==> exists|i: int|
            0 <= i < features.len() && stored_value(#[trigger] features[i], k) is Some,
        has_key(schema_of(features), k) ==> {
            let said = lookup(schema_of(features), k)->0;
            ||| (said == str_json("mixed"@) && exists|i: int, j: int, t: Seq<char>|
                0 <= i < features.len() && 0 <= j < features.len() && stored_value(
                    #[trigger] features[j],
                    k,
                ) is Some && #[trigger] stores_type(features[i], k, t) && !stores_type(
                    features[j],
                    k,
                    t,
                ))
            ||| exists|t: Seq<char>|
                said == str_json(t) && t != "mixed"@ && #[trigger] all_of_type(features, k, t)
        },
    decreases features.len(),
{
    if features.len() > 0 {
        let d = features.drop_last();
        let f = features.last();
        let n = features.len() - 1;
        schema_is_what_is_stored(d, k);
        lemma_stored_scalar(f, k);
        let before = schema_of(d);
        lemma_with_types(before, safe_attributes(f.properties), k);
        let old = lookup(before, k);
        let v = stored_value(f, k);
        lemma_scalar_kinds(v);
        if has_key(before, k) {
            let i = choose|i: int| 0 <= i < d.len() && stored_value(#[trigger] d[i], k) is Some;
            assert(stored_value(features[i], k) is Some);
        }
        if v is Some {
            assert(stored_value(features[n], k) is Some);
        }
        if exists|i: int|
            0 <= i < features.len() && stored_value(#[trigger] features[i], k) is Some {
            let i = choose|i: int|
                0 <= i < features.len() && stored_value(#[trigger] features[i], k) is Some;
            if i < n {
                assert(d[i] == features[i]);
            }
        }
        if has_key(schema_of(features), k) {
            let said = lookup(schema_of(features), k)->0;
            if !has_key(before, k) {
                let t = scalar_kind(v->0)->0;
                assert forall|i: int|
                    0 <= i < features.len() && stored_value(
                        #[trigger] features[i],
                        k,
                    ) is Some implies stores_type(features[i], k, t) by {
                    if i < n {
                        assert(d[i] == features[i]);
                    }
                }
                assert(all_of_type(features, k, t));
                assert(said == str_json(t));
            } else {
                let was = old->0;
                if exists|t: Seq<char>|
                    was == str_json(t) && t != "mixed"@ && #[trigger] all_of_type(d, k, t) {
                    let t = choose|t: Seq<char>|
                        was == str_json(t) && t != "mixed"@ && #[trigger] all_of_type(d, k, t);
                    let i = choose|i: int|
                        0 <= i < d.len() && stored_value(#[trigger] d[i], k) is Some;
                    assert(stores_type(d[i], k, t));
                    assert(d[i] == features[i]);
                    if v is Some && scalar_kind(v->0) != Some(t) {
                        assert(stores_type(features[i], k, t));
                        assert(!stores_type(features[n], k, t));
                        assert(stored_value(features[n], k) is Some);
                        assert(said == str_json("mixed"@));
                    } else {
                        assert forall|j: int|
                            0 <= j < features.len() && stored_value(
                                #[trigger] features[j],
                                k,
                            ) is Some implies stores_type(features[j], k, t) by {
                            if j < n {
                                assert(d[j] == features[j]);
                            }
                        }
                        assert(all_of_type(features, k, t));
                    }
                } else {
                    assert(was == str_json("mixed"@));
                    let (i, j, t) = choose|i: int, j: int, t: Seq<char>|
                        0 <= i < d.len() && 0 <= j < d.len() && stored_value(
                            #[trigger] d[j],
                            k,
                        ) is Some && #[trigger] stores_type(d[i], k, t) && !stores_type(d[j], k, t);
                    assert(features[i] == d[i] && features[j] == d[j]);
                    assert(stores_type(features[i], k, t));
                    assert(stored_value(features[j], k) is Some);
                    assert(said == str_json("mixed"@));
                }
            }
        }
    } else {
        assert(keys(schema_of(features)) =~= Seq::empty());
    }
}

/// Every feature that stores a value under the key stores one of the type.
pub open spec fn all_of_type(features: Seq<FeatureView>, k: Seq<char>, t: Seq<char>) -> bool {
    forall|i: int|
        0 <= i < features.len() && stored_value(#[trigger] features[i], k) is Some ==> stores_type(
            features[i],
            k,
            t,
        )
}

proof fn lemma_scalar_kinds(v: Option<JsonView>)
    ensures
        v matches Some(x) ==> scalar_kind(x) != Some("mixed"@),
{
    reveal_strlit("string");
    reveal_strlit("number");
    reveal_strlit("boolean");
    reveal_strlit("mixed");
    assert("mixed"@.len() == 5 && "string"@.len() == 6 && "number"@.len() == 6 && "boolean"@.len()
        == 7);
}

// ---------------------------------------------------------------------------
// What a feature is called
// ---------------------------------------------------------------------------

/// The value under the first of two keys that is there.
pub open spec fn first_of(e: Entries, a: Seq<char>, b: Seq<char>) -> Option<JsonView> {
    match lookup(e, a) {
        Some(v) => Some(v),
        None => lookup(e, b),
    }
}

fn first_attr<'a>(props: &'a JsonObject, a: &str, b: &str) -> (r: Option<&'a Json>)
    ensures
        match r {
            Some(v) => first_of(props@, a@, b@) == Some(v@),
            None => first_of(props@, a@, b@) is None,
        },
{
    match props.get(a) {
        Some(v) => Some(v),
        None => props.get(b),
    }
}

/// The object id of the source (`OBJECTID`, `objectid` or `FID`), else the place of the feature.
pub open spec fn source_id_of(f: FeatureView, i: int) -> Seq<char> {
    let v = match first_of(f.properties, "OBJECTID"@, "objectid"@) {
        Some(v) => Some(v),
        None => lookup(f.properties, "FID"@),
    };
    match v {
        Some(JsonView::Number(n)) => number_text(n),
        Some(JsonView::Str(s)) => s,
        _ => "f"@ + decimal(i as nat),
    }
}

/// The name that attributes give (`NAME` or `Name`).
pub open spec fn own_name(e: Entries) -> Option<Seq<char>> {
    match first_of(e, "NAME"@, "Name"@) {
        Some(JsonView::Str(s)) => Some(s),
        _ => None,
    }
}

/// The name of a feature, else its source id.
pub open spec fn name_of(f: FeatureView, i: int) -> Seq<char> {
    match own_name(f.properties) {
        Some(s) => s,
        None => source_id_of(f, i),
    }
}

pub fn feature_source_id(feat: &DecodedFeature, index: usize) -> (r: String)
    ensures
        r@ == source_id_of(feat@, index as int),
{
    let v = match first_attr(&feat.properties, "OBJECTID", "objectid") {
        Some(v) => Some(v),
        None => feat.properties.get("FID"),
    };
    match v {
        Some(v) => match v.number_to_text() {
            Some(t) => t,
            None => match v.as_str() {
                Some(s) => s.clone(),
                None => concat("f", decimal_text(index as u64).as_str()),
            },
        },
        None => concat("f", decimal_text(index as u64).as_str()),
    }
}

pub fn feature_name(feat: &DecodedFeature, index: usize) -> (r: String)
    ensures
        r@ == name_of(feat@, index as int),
{
    match given_name(&feat.properties) {
        Some(s) => s,
        None => feature_source_id(feat, index),
    }
}

fn given_name(props: &JsonObject) -> (r: Option<String>)
    ensures
        opt_view(r) == own_name(props@),
{
    match first_attr(props, "NAME", "Name") {
        Some(v) => match v.as_str() {
            Some(s) => Some(s.clone()),
            None => None,
        },
        None => None,
    }
}

// ---------------------------------------------------------------------------
// Coalescing
// ---------------------------------------------------------------------------

/// Lines and polygons that have a name are merged with their namesakes.
pub open spec fn mergeable(kind: Seq<char>, name: Seq<char>) -> bool {
    (kind == "LineString"@ || kind == "Polygon"@) && name.len() > 0
}

/// The key under which features become one: kind, class and name, or the place of a feature that
/// stays by itself. The length of the class tells where the class ends and the name begins.
pub open spec fn merge_key(
    kind: Seq<char>,
    class: Seq<char>,
    name: Seq<char>,
    i: int,
) -> Seq<char> {
    if mergeable(kind, name) {
        kind + "\u{1}"@ + class + "\u{1}"@ + name + "\u{1}"@ + decimal(class.len())
    } else {
        "solo"@ + "\u{1}"@ + decimal(i as nat)
    }
}

/// The class of attributes: the text under `FOLDERPATH`, else the empty text.
pub open spec fn class_in(e: Entries) -> Seq<char> {
    match lookup(e, "FOLDERPATH"@) {
        Some(JsonView::Str(s)) => s,
        _ => ""@,
    }
}

fn class_text(props: &JsonObject) -> (r: String)
    ensures
        r@ == class_in(props@),
{
    match props.get("FOLDERPATH") {
        Some(v) => match v.as_str() {
            Some(s) => s.clone(),
            None => "".to_owned(),
        },
        None => "".to_owned(),
    }
}

fn can_merge(kind: &str, name: &str) -> (r: bool)
    ensures
        r == mergeable(kind@, name@),
{
    proof {
        reveal_strlit("");
        if name@.len() == 0 {
            assert(name@ =~= ""@);
        }
    }
    (same_text(kind, "LineString") || same_text(kind, "Polygon")) && !same_text(name, "")
}

fn make_key(kind: &str, class: &str, name: &str, i: usize) -> (r: String)
    ensures
        r@ == merge_key(kind@, class@, name@, i as int),
{
    if can_merge(kind, name) {
        let front = concat3(kind, "\u{1}", class);
        let middle = concat3(front.as_str(), "\u{1}", name);
        let n = chars_of(class).len();
        concat3(middle.as_str(), "\u{1}", decimal_text(n as u64).as_str())
    } else {
        concat3("solo", "\u{1}", decimal_text(i as u64).as_str())
    }
}

/// The key of a line or a polygon that only its source id names: it stays by itself, whatever
/// other features have the same id.
pub open spec fn lone_key(
    kind: Seq<char>,
    class: Seq<char>,
    name: Seq<char>,
    i: int,
) -> Seq<char> {
    kind + "\0"@ + class + "\0"@ + name + "\0"@ + decimal(i as nat)
}

/// The merge key of a feature.
pub open spec fn feature_key(f: FeatureView, i: int) -> Seq<char> {
    let kind = kind_of(f.geometry);
    let name = trim(name_of(f, i));
    if mergeable(kind, name) && own_name(f.properties) is None {
        lone_key(kind, class_in(f.properties), name, i)
    } else {
        merge_key(kind, class_in(f.properties), name, i)
    }
}

fn make_feature_key(f: &DecodedFeature, i: usize) -> (r: String)
    ensures
        r@ == feature_key(f@, i as int),
{
    let kind = geometry_kind(&f.geometry);
    let class = class_text(&f.properties);
    let bare = trimmed(feature_name(f, i).as_str());
    if can_merge(kind, bare.as_str()) && given_name(&f.properties).is_none() {
        let front = concat3(kind, "\0", class.as_str());
        let middle = concat3(front.as_str(), "\0", bare.as_str());
        concat3(middle.as_str(), "\0", decimal_text(i as u64).as_str())
    } else {
        make_key(kind, class.as_str(), bare.as_str(), i)
    }
}

pub open spec fn feature_keys(fs: Seq<FeatureView>) -> Seq<Option<Seq<char>>> {
    Seq::new(fs.len(), |i: int| Some(feature_key(fs[i], i)))
}

/// The features that become one node each, as places in the list of features.
pub open spec fn feature_groups(fs: Seq<FeatureView>) -> Seq<Seq<int>> {
    groups_of(feature_keys(fs))
}

/// Groups features that become one node.
pub fn group_features(features: &Vec<DecodedFeature>) -> (r: Vec<Vec<usize>>)
    ensures
        groups_view(r@) == feature_groups(features_view(features@)),
        forall|a: int|
            0 <= a < r@.len() ==> (#[trigger] r@[a])@.len() > 0 && forall|x: int|
                0 <= x < r@[a]@.len() ==> #[trigger] r@[a]@[x] < features@.len(),
{
    let n = features.len();
    let ghost fs = features_view(features@);
    let mut ks: Vec<Option<String>> = Vec::new();
    let mut i: usize = 0;
    while i < n
        invariant
            i <= n,
            n == features@.len(),
            fs == features_view(features@),
            ks@.len() == i,
            forall|k: int| 0 <= k < i ==> opt_view(#[trigger] ks@[k]) == feature_keys(fs)[k],
        decreases n - i,
    {
        ks.push(Some(make_feature_key(&features[i], i)));
        i += 1;
    }
    proof {
        assert(opt_texts(ks@) =~= feature_keys(fs));
    }
    let r = group_by(&ks);
    proof {
        lemma_group_bounds(feature_keys(fs), r@, n as int);
    }
    r
}

proof fn lemma_group_bounds(ks: Seq<Option<Seq<char>>>, r: Seq<Vec<usize>>, n: int)
    requires
        groups_view(r) == groups_of(ks),
        ks.len() == n,
    ensures
        forall|a: int|
            0 <= a < r.len() ==> (#[trigger] r[a])@.len() > 0 && forall|x: int|
                0 <= x < r[a]@.len() ==> #[trigger] r[a]@[x] < n && ks[r[a]@[x] as int] is Some,
{
    assert forall|a: int| 0 <= a < r.len() implies (#[trigger] r[a])@.len() > 0 && forall|x: int|
        0 <= x < r[a]@.len() ==> #[trigger] r[a]@[x] < n && ks[r[a]@[x] as int] is Some by {
        lemma_group_places(ks, a);
        assert(groups_view(r)[a] == places_view(r[a]@));
        assert forall|x: int| 0 <= x < r[a]@.len() implies #[trigger] r[a]@[x] < n
            && ks[r[a]@[x] as int] is Some by {
            assert(groups_of(ks)[a][x] == r[a]@[x]);
        }
    }
}

/// The geometries of the features of a group.
pub open spec fn group_geometries(fs: Seq<FeatureView>, g: Seq<int>) -> Seq<GeometryView> {
    g.map_values(|i: int| fs[i].geometry)
}

fn collect_geometries(features: &Vec<DecodedFeature>, group: &Vec<usize>) -> (r: Vec<Geometry>)
    requires
        forall|x: int| 0 <= x < group@.len() ==> #[trigger] group@[x] < features@.len(),
    ensures
        geometries_view(r@) == group_geometries(features_view(features@), places_view(group@)),
{
    let n = group.len();
    let ghost fs = features_view(features@);
    let mut out: Vec<Geometry> = Vec::new();
    let mut i: usize = 0;
    while i < n
        invariant
            i <= n,
            n == group@.len(),
            fs == features_view(features@),
            forall|x: int| 0 <= x < group@.len() ==> #[trigger] group@[x] < features@.len(),
            out@.len() == i,
            forall|k: int| 0 <= k < i ==> (#[trigger] out@[k])@ == fs[group@[k] as int].geometry,
        decreases n - i,
    {
        out.push(features[group[i]].geometry.copy());
        i += 1;
    }
    proof {
        assert(geometries_view(out@) =~= group_geometries(fs, places_view(group@)));
    }
    out
}

/// The lines of each group of features, whose ends have to be placed on the grid.
pub fn import_lines(features: &Vec<DecodedFeature>) -> (r: Vec<Vec<Vec<Coord>>>)
    ensures
        r@.len() == feature_groups(features_view(features@)).len(),
        forall|a: int|
            0 <= a < r@.len() ==> lines_view((#[trigger] r@[a])@) == all_lines(
                group_geometries(
                    features_view(features@),
                    feature_groups(features_view(features@))[a],
                ),
            ),
{
    let ghost fs = features_view(features@);
    let groups = group_features(features);
    let n = groups.len();
    let mut out: Vec<Vec<Vec<Coord>>> = Vec::new();
    let mut i: usize = 0;
    while i < n
        invariant
            i <= n,
            n == groups@.len(),
            fs == features_view(features@),
            groups_view(groups@) == feature_groups(fs),
            forall|a: int|
                0 <= a < groups@.len() ==> (#[trigger] groups@[a])@.len() > 0 && forall|x: int|
                    0 <= x < groups@[a]@.len() ==> #[trigger] groups@[a]@[x] < features@.len(),
            out@.len() == i,
            forall|a: int|
                0 <= a < i ==> lines_view((#[trigger] out@[a])@) == all_lines(
                    group_geometries(fs, feature_groups(fs)[a]),
                ),
        decreases n - i,
    {
        let group = &groups[i];
        proof {
            assert(groups_view(groups@)[i as int] == places_view(group@));
        }
        let geoms = collect_geometries(features, group);
        out.push(lines_of(&geoms));
        i += 1;
    }
    proof {
        assert(groups_view(groups@).len() == n);
    }
    out
}

/// The node that a group of features becomes: the attributes of its first feature, the merged
/// geometry of all of them, and the machine name of the layer as subtype.
pub open spec fn is_group_node(
    n: NodeView,
    layer_id: Seq<char>,
    machine_name: Seq<char>,
    fs: Seq<FeatureView>,
    g: Seq<int>,
    ends: Seq<(Cell, Cell)>,
) -> bool {
    let i = g[0];
    let f = fs[i];
    &&& uuid_shape(n.id)
    &&& is_stamp(n.created_at)
    &&& is_stamp(n.updated_at)
    &&& n == (NodeView {
        subtype: Some(machine_name),
        ..feature_view(
            n.id,
            layer_id,
            source_id_of(f, i),
            name_of(f, i),
            merged(group_geometries(fs, g), ends),
            f.properties,
            n.created_at,
            n.updated_at,
        )
    })
}

/// The box around the geometries of nodes.
pub open spec fn nodes_bounds(nodes: Seq<NodeView>) -> Option<BoundsView>
    decreases nodes.len(),
{
    if nodes.len() == 0 {
        None
    } else {
        joined_bounds(
            nodes_bounds(nodes.drop_last()),
            match nodes.last().geometry {
                Some(g) => geometry_bounds(g),
                None => None,
            },
        )
    }
}

fn group_node(
    layer_id: &str,
    machine_name: &str,
    features: &Vec<DecodedFeature>,
    group: &Vec<usize>,
    ends: &Vec<(Cell, Cell)>,
) -> (r: (AttrNode, Option<Bounds>))
    requires
        group@.len() > 0,
        forall|x: int| 0 <= x < group@.len() ==> #[trigger] group@[x] < features@.len(),
        ends@.len() == all_lines(
            group_geometries(features_view(features@), places_view(group@)),
        ).len(),
    ensures
        is_group_node(
            r.0@,
            layer_id@,
            machine_name@,
            features_view(features@),
            places_view(group@),
            ends@,
        ),
        opt_bounds_view(r.1) == geometry_bounds(r.0@.geometry->0),
{
    let geoms = collect_geometries(features, group);
    let geometry = merge_geometries(&geoms, ends);
    let first = group[0];
    proof {
        assert(places_view(group@)[0] == first);
        assert(features_view(features@)[first as int] == features@[first as int]@);
    }
    let f = &features[first];
    let source_id = feature_source_id(f, first);
    let name = feature_name(f, first);
    let mut node = feature_node(
        layer_id,
        source_id.as_str(),
        name.as_str(),
        &geometry,
        &f.properties,
    );
    node.subtype = Some(machine_name.to_owned());
    let bounds = geometry.bounding_rect();
    (node, bounds)
}

/// Each list of cells has as many entries as the group has lines.
pub open spec fn ends_match(fs: Seq<FeatureView>, ends: Seq<Vec<(Cell, Cell)>>) -> bool {
    &&& ends.len() == feature_groups(fs).len()
    &&& forall|a: int|
        0 <= a < ends.len() ==> (#[trigger] ends[a])@.len() == all_lines(
            group_geometries(fs, feature_groups(fs)[a]),
        ).len()
}

/// The feature nodes of an imported layer, one for each group of features in order of the merge
/// keys, and the box around them. `ends` gives the grid cells in which the lines of
/// [`import_lines`] start and end.
pub fn write_features(
    layer_id: &str,
    machine_name: &str,
    features: &Vec<DecodedFeature>,
    ends: &Vec<Vec<(Cell, Cell)>>,
) -> (r: (Vec<AttrNode>, Option<Bounds>))
    requires
        ends_match(features_view(features@), ends@),
    ensures
        r.0@.len() == feature_groups(features_view(features@)).len(),
        forall|a: int|
            0 <= a < r.0@.len() ==> is_group_node(
                (#[trigger] r.0@[a])@,
                layer_id@,
                machine_name@,
                features_view(features@),
                feature_groups(features_view(features@))[a],
                ends@[a]@,
            ),
        opt_bounds_view(r.1) == nodes_bounds(nodes_view(r.0@)),
{
    let ghost fs = features_view(features@);
    let groups = group_features(features);
    let n = groups.len();
    let mut out: Vec<AttrNode> = Vec::new();
    let mut bounds: Option<Bounds> = None;
    let mut i: usize = 0;
    proof {
        assert(groups_view(groups@).len() == n);
        assert(nodes_view(out@) =~= Seq::empty());
    }
    while i < n
        invariant
            i <= n,
            n == groups@.len(),
            fs == features_view(features@),
            groups_view(groups@) == feature_groups(fs),
            ends_match(fs, ends@),
            ends@.len() == n,
            forall|a: int|
                0 <= a < groups@.len() ==> (#[trigger] groups@[a])@.len() > 0 && forall|x: int|
                    0 <= x < groups@[a]@.len() ==> #[trigger] groups@[a]@[x] < features@.len(),
            out@.len() == i,
            forall|a: int|
                0 <= a < i ==> is_group_node(
                    (#[trigger] out@[a])@,
                    layer_id@,
                    machine_name@,
                    fs,
                    feature_groups(fs)[a],
                    ends@[a]@,
                ),
            opt_bounds_view(bounds) == nodes_bounds(nodes_view(out@)),
        decreases n - i,
    {
        proof {
            assert(groups_view(groups@)[i as int] == places_view(groups@[i as int]@));
            assert(ends@[i as int]@.len() == all_lines(
                group_geometries(fs, feature_groups(fs)[i as int]),
            ).len());
        }
        let (node, b) = group_node(layer_id, machine_name, features, &groups[i], &ends[i]);
        bounds = join_bounds(bounds, b);
        let ghost before = out@;
        out.push(node);
        proof {
            assert(nodes_view(out@).drop_last() =~= nodes_view(before));
            assert(nodes_view(out@).last() == node@);
        }
        i += 1;
    }
    (out, bounds)
}

// ---------------------------------------------------------------------------
// What coalescing keeps
// ---------------------------------------------------------------------------

/// Every feature goes into exactly one node of an import: none is lost, none is doubled.
pub proof fn import_takes_each_feature_once(fs: Seq<FeatureView>, i: int)
    requires
        0 <= i < fs.len(),
    ensures
        exists|a: int|
            0 <= a < feature_groups(fs).len() && (#[trigger] feature_groups(fs)[a]).contains(i),
        forall|a: int, b: int|
            0 <= a < feature_groups(fs).len() && 0 <= b < feature_groups(fs).len()
                && #[trigger] feature_groups(fs)[a].contains(i)
                && #[trigger] feature_groups(fs)[b].contains(i) ==> a == b,
{
    let ks = feature_keys(fs);
    let a = each_in_exactly_one_group(ks, i);
    assert(feature_groups(fs)[a].contains(i));
    assert forall|a: int, b: int|
        0 <= a < feature_groups(fs).len() && 0 <= b < feature_groups(fs).len()
            && #[trigger] feature_groups(fs)[a].contains(i)
            && #[trigger] feature_groups(fs)[b].contains(i) implies a == b by {
        if a < b {
            groups_share_nothing(ks, a, b);
        } else if b < a {
            groups_share_nothing(ks, b, a);
        }
    }
}

proof fn lemma_decimal_len(n: nat)
    ensures
        decimal(n).len() >= 1,
        n >= 10 ==> decimal(n).len() >= 2,
    decreases n,
{
    if n >= 10 {
        lemma_decimal_len(n / 10);
    }
}

proof fn lemma_decimal_injective(a: nat, b: nat)
    requires
        decimal(a) == decimal(b),
    ensures
        a == b,
    decreases a,
{
    lemma_decimal_len(a);
    lemma_decimal_len(b);
    assert(decimal(a).last() == digit_char(a % 10));
    assert(decimal(b).last() == digit_char(b % 10));
    assert(a % 10 == b % 10);
    if a < 10 {
        assert(decimal(a).len() == 1);
    } else {
        assert(b >= 10);
        assert(decimal(a).drop_last() =~= decimal(a / 10));
        assert(decimal(b).drop_last() =~= decimal(b / 10));
        lemma_decimal_injective(a / 10, b / 10);
    }
}

proof fn lemma_decimal_digits(n: nat, i: int)
    requires
        0 <= i < decimal(n).len(),
    ensures
        decimal(n)[i] != '\0',
        decimal(n)[i] != '\u{1}',
    decreases n,
{
    if n >= 10 && i < decimal(n / 10).len() {
        lemma_decimal_digits(n / 10, i);
    }
}

/// A feature with the key of its place alone.
spec fn is_solo(f: FeatureView, i: int) -> bool {
    !mergeable(kind_of(f.geometry), trim(name_of(f, i)))
}

spec fn is_lone(f: FeatureView, i: int) -> bool {
    !is_solo(f, i) && own_name(f.properties) is None
}

/// How the kinds of keys differ: by their first character, or by the separator after the kind.
proof fn lemma_key_kind(f: FeatureView, i: int)
    ensures
        feature_key(f, i).len() > 0,
        is_solo(f, i) <==> feature_key(f, i)[0] == 's',
        !is_solo(f, i) ==> feature_key(f, i)[0] == kind_of(f.geometry)[0],
        !is_solo(f, i) && feature_key(f, i)[0] == 'L' ==> feature_key(f, i).len() > 10,
        !is_solo(f, i) && feature_key(f, i)[0] == 'P' ==> feature_key(f, i).len() > 7,
        !is_solo(f, i) && feature_key(f, i)[0] == 'L' ==> (is_lone(f, i) <==> feature_key(f, i)[10]
            == '\0'),
        !is_solo(f, i) && feature_key(f, i)[0] == 'P' ==> (is_lone(f, i) <==> feature_key(f, i)[7]
            == '\0'),
        is_solo(f, i) || feature_key(f, i)[0] == 'L' || feature_key(f, i)[0] == 'P',
{
    reveal_strlit("solo");
    reveal_strlit("LineString");
    reveal_strlit("Polygon");
    reveal_strlit("\0");
    reveal_strlit("\u{1}");
    let kind = kind_of(f.geometry);
    let k = feature_key(f, i);
    if is_solo(f, i) {
        assert(k[0] == "solo"@[0]);
    } else {
        assert(k[0] == kind[0]);
        if is_lone(f, i) {
            assert(k[kind.len() as int] == "\0"@[0]);
        } else {
            assert(k[kind.len() as int] == "\u{1}"@[0]);
        }
    }
}

/// A number behind a separator that no digit is can be told from what stands before it.
proof fn lemma_last_part(a: Seq<char>, b: Seq<char>, c: char, i: nat, j: nat)
    requires
        c == '\0' || c == '\u{1}',
        a.push(c) + decimal(i) == b.push(c) + decimal(j),
    ensures
        a == b,
        i == j,
{
    let l = a.push(c) + decimal(i);
    let r = b.push(c) + decimal(j);
    let (m, n) = (a.len() as int, b.len() as int);
    assert(l.len() == m + 1 + decimal(i).len());
    assert(r.len() == n + 1 + decimal(j).len());
    assert(l[m] == c);
    assert(r[n] == c);
    if m < n {
        lemma_decimal_digits(i, n - m - 1);
        assert(l[n] == decimal(i)[n - m - 1]);
    }
    if n < m {
        lemma_decimal_digits(j, m - n - 1);
        assert(r[m] == decimal(j)[m - n - 1]);
    }
    assert(l.take(m) =~= a);
    assert(r.take(n) =~= b);
    assert(l.skip(m + 1) =~= decimal(i));
    assert(r.skip(n + 1) =~= decimal(j));
    lemma_decimal_injective(i, j);
}

proof fn lemma_solo_same(i: nat, j: nat)
    requires
        "solo"@ + "\u{1}"@ + decimal(i) == "solo"@ + "\u{1}"@ + decimal(j),
    ensures
        i == j,
{
    let front = "solo"@ + "\u{1}"@;
    assert((front + decimal(i)).skip(front.len() as int) =~= decimal(i));
    assert((front + decimal(j)).skip(front.len() as int) =~= decimal(j));
    lemma_decimal_injective(i, j);
}

/// Whether a feature is a line or a polygon with a name that is not blank.
pub open spec fn is_named_shape(f: FeatureView) -> bool {
    own_name(f.properties) matches Some(s) && mergeable(kind_of(f.geometry), trim(s))
}

/// A feature that is no named shape shares its key with no other.
proof fn lemma_own_key(f: FeatureView, i: int, g: FeatureView, j: int)
    requires
        0 <= i,
        0 <= j,
        !is_named_shape(f),
        feature_key(f, i) == feature_key(g, j),
    ensures
        i == j,
{
    lemma_key_kind(f, i);
    lemma_key_kind(g, j);
    if is_solo(f, i) {
        lemma_solo_same(i as nat, j as nat);
    } else {
        assert(is_lone(g, j));
        let front = |f: FeatureView, p: int|
            kind_of(f.geometry) + "\0"@ + class_in(f.properties) + "\0"@ + trim(name_of(f, p));
        let (a, b) = (front(f, i), front(g, j));
        reveal_strlit("\0");
        assert(a + "\0"@ =~= a.push('\0'));
        assert(b + "\0"@ =~= b.push('\0'));
        lemma_last_part(a, b, '\0', i as nat, j as nat);
    }
}

/// Points, geometries of another kind and features without a name are never merged: each is the
/// only one in its group.
pub proof fn unnamed_stay_alone(fs: Seq<FeatureView>, i: int)
    requires
        0 <= i < fs.len(),
        !is_named_shape(fs[i]),
    ensures
        lookup(grouped(feature_keys(fs)), feature_key(fs[i], i)) == Some(seq![i]),
{
    let ks = feature_keys(fs);
    let k = feature_key(fs[i], i);
    assert(ks[i] == Some(k));
    groups_are_by_key(ks, i, k);
    let g = lookup(grouped(ks), k)->0;
    assert forall|a: int| 0 <= a < g.len() implies #[trigger] g[a] == i by {
        let j = g[a];
        assert(ks[j] == Some(feature_key(fs[j], j)));
        lemma_own_key(fs[i], i, fs[j], j);
    }
    if g.len() > 1 {
        assert(g[0] < g[1]);
    }
    assert(g =~= seq![i]);
}

/// Merge keys agree exactly where kind, class and name do.
proof fn lemma_same_key(
    k1: Seq<char>,
    c1: Seq<char>,
    n1: Seq<char>,
    i: int,
    k2: Seq<char>,
    c2: Seq<char>,
    n2: Seq<char>,
    j: int,
)
    requires
        mergeable(k1, n1),
        mergeable(k2, n2),
    ensures
        merge_key(k1, c1, n1, i) == merge_key(k2, c2, n2, j) <==> k1 == k2 && c1 == c2 && n1 == n2,
{
    if merge_key(k1, c1, n1, i) == merge_key(k2, c2, n2, j) {
        reveal_strlit("LineString");
        reveal_strlit("Polygon");
        reveal_strlit("\u{1}");
        let sep = "\u{1}"@;
        let a = k1 + sep + c1 + sep + n1;
        let b = k2 + sep + c2 + sep + n2;
        assert(a + sep =~= a.push('\u{1}'));
        assert(b + sep =~= b.push('\u{1}'));
        lemma_last_part(a, b, '\u{1}', c1.len(), c2.len());
        assert(a[0] == k1[0]);
        assert(b[0] == k2[0]);
        assert(k1 == k2);
        let m = k1.len() as int + 1;
        let n = m + c1.len();
        assert(a.subrange(m, n) =~= c1);
        assert(b.subrange(m, n) =~= c2);
        assert(a.skip(n + 1) =~= n1);
        assert(b.skip(n + 1) =~= n2);
    }
}

/// A group holds what has its key, and nothing else.
proof fn lemma_group_of(ks: Seq<Option<Seq<char>>>, i: int, j: int)
    requires
        0 <= i < ks.len(),
        0 <= j < ks.len(),
        ks[i] is Some,
    ensures
        lookup(grouped(ks), ks[i]->0) matches Some(g) && g.contains(i) && (g.contains(j) <==> ks[j]
            == ks[i]),
{
    let k = ks[i]->0;
    groups_are_by_key(ks, i, k);
    let g = lookup(grouped(ks), k)->0;
    if g.contains(j) {
        let a = choose|a: int| 0 <= a < g.len() && g[a] == j;
        assert(ks[g[a]] == Some(k));
    }
}

/// Two named features of a mergeable kind become one node exactly where kind, class and trimmed
/// name agree.
pub proof fn namesakes_are_merged(fs: Seq<FeatureView>, i: int, j: int)
    requires
        0 <= i < fs.len(),
        0 <= j < fs.len(),
        is_named_shape(fs[i]),
        is_named_shape(fs[j]),
    ensures
        lookup(grouped(feature_keys(fs)), feature_key(fs[i], i)) matches Some(g) && g.contains(i)
            && (g.contains(j) <==> kind_of(fs[i].geometry) == kind_of(fs[j].geometry) && class_in(
            fs[i].properties,
        ) == class_in(fs[j].properties) && trim(name_of(fs[i], i)) == trim(name_of(fs[j], j))),
{
    lemma_same_identity(fs[i], i, fs[j], j);
    let ks = feature_keys(fs);
    assert(ks[i] == Some(feature_key(fs[i], i)));
    assert(ks[j] == Some(feature_key(fs[j], j)));
    lemma_group_of(ks, i, j);
}

/// By what a named shape is merged: its kind, its class and its trimmed name.
pub open spec fn identity(f: FeatureView) -> (Seq<char>, Seq<char>, Seq<char>) {
    (
        kind_of(f.geometry),
        class_in(f.properties),
        match own_name(f.properties) {
            Some(s) => trim(s),
            None => ""@,
        },
    )
}

/// The identities of the named shapes.
pub open spec fn identities(fs: Seq<FeatureView>) -> Set<(Seq<char>, Seq<char>, Seq<char>)>
    decreases fs.len(),
{
    if fs.len() == 0 {
        Set::empty()
    } else if is_named_shape(fs.last()) {
        identities(fs.drop_last()).insert(identity(fs.last()))
    } else {
        identities(fs.drop_last())
    }
}

/// How many features stay by themselves.
pub open spec fn alone_count(fs: Seq<FeatureView>) -> nat
    decreases fs.len(),
{
    if fs.len() == 0 {
        0
    } else {
        alone_count(fs.drop_last()) + if is_named_shape(fs.last()) {
            0nat
        } else {
            1nat
        }
    }
}

proof fn lemma_identities(fs: Seq<FeatureView>, x: (Seq<char>, Seq<char>, Seq<char>))
    ensures
        identities(fs).finite(),
        identities(fs).contains(x) <==> exists|j: int|
            0 <= j < fs.len() && is_named_shape(#[trigger] fs[j]) && identity(fs[j]) == x,
    decreases fs.len(),
{
    if fs.len() > 0 {
        let d = fs.drop_last();
        lemma_identities(d, x);
        if identities(d).contains(x) {
            let j = choose|j: int|
                0 <= j < d.len() && is_named_shape(#[trigger] d[j]) && identity(d[j]) == x;
            assert(fs[j] == d[j]);
        }
        assert forall|j: int|
            0 <= j < fs.len() && is_named_shape(#[trigger] fs[j]) && identity(fs[j])
                == x implies identities(fs).contains(x) by {
            if j < d.len() {
                assert(d[j] == fs[j]);
            }
        }
    }
}

/// Features become one node for each kind, class and name of a line or a polygon, and one for
/// each feature that stays by itself.
pub proof fn one_node_for_each_identity(fs: Seq<FeatureView>)
    ensures
        identities(fs).finite(),
        feature_groups(fs).len() == identities(fs).len() + alone_count(fs),
    decreases fs.len(),
{
    let ks = feature_keys(fs);
    if fs.len() == 0 {
        assert(ks =~= Seq::empty());
    } else {
        let d = fs.drop_last();
        let i = fs.len() - 1;
        let f = fs.last();
        let k = feature_key(f, i);
        one_node_for_each_identity(d);
        lemma_identities(fs, identity(f));
        lemma_identities(d, identity(f));
        assert(ks.drop_last() =~= feature_keys(d));
        a_new_key_makes_a_group(ks, k);
        if feature_keys(d).contains(Some(k)) {
            let j = choose|j: int| 0 <= j < d.len() && feature_keys(d)[j] == Some(k);
            assert(feature_key(d[j], j) == k);
            if !is_named_shape(f) {
                lemma_own_key(f, i, d[j], j);
            }
            if !is_named_shape(d[j]) {
                lemma_own_key(d[j], j, f, i);
            }
            lemma_same_identity(f, i, d[j], j);
            assert(identities(d).contains(identity(f)));
        }
        if is_named_shape(f) && identities(d).contains(identity(f)) {
            let j = choose|j: int|
                0 <= j < d.len() && is_named_shape(#[trigger] d[j]) && identity(d[j]) == identity(
                    f,
                );
            lemma_same_identity(f, i, d[j], j);
            assert(feature_keys(d)[j] == Some(k));
        }
    }
}

proof fn lemma_same_identity(f: FeatureView, i: int, g: FeatureView, j: int)
    requires
        is_named_shape(f),
        is_named_shape(g),
    ensures
        feature_key(f, i) == feature_key(g, j) <==> identity(f) == identity(g),
{
    lemma_same_key(
        kind_of(f.geometry),
        class_in(f.properties),
        trim(name_of(f, i)),
        i,
        kind_of(g.geometry),
        class_in(g.properties),
        trim(name_of(g, j)),
        j,
    );
}

// ---------------------------------------------------------------------------
// The layer
// ---------------------------------------------------------------------------

pub open spec fn kind_map(fs: Seq<FeatureView>) -> Seq<(Seq<char>, bool)>
    decreases fs.len(),
{
    if fs.len() == 0 {
        Seq::empty()
    } else {
        put(kind_map(fs.drop_last()), kind_of(fs.last().geometry), true)
    }
}

/// The geometry kinds that occur, each once, in order.
pub open spec fn kinds_of(fs: Seq<FeatureView>) -> Seq<Seq<char>> {
    keys(kind_map(fs))
}

/// The kinds are those of the features, sorted and without repetition.
pub proof fn kinds_are_distinct(fs: Seq<FeatureView>, kind: Seq<char>)
    ensures
        ascending(kinds_of(fs)),
        kinds_of(fs).contains(kind) <==> exists|i: int|
            0 <= i < fs.len() && kind_of((#[trigger] fs[i]).geometry) == kind,
    decreases fs.len(),
{
    let m = kind_map(fs);
    lemma_kind_map(fs, kind);
    lemma_lookup(m, kind, true);
    if kinds_of(fs).contains(kind) {
        let i = choose|i: int| 0 <= i < m.len() && keys(m)[i] == kind;
        assert(m[i].0 == kind);
        lemma_lookup(m, kind, m[i].1);
        assert(m.contains((m[i].0, m[i].1)));
    }
    if lookup(m, kind) == Some(true) {
        let i = choose|i: int| 0 <= i < m.len() && m[i] == (kind, true);
        assert(keys(m)[i] == kind);
    }
}

proof fn lemma_kind_map(fs: Seq<FeatureView>, kind: Seq<char>)
    ensures
        ascending(keys(kind_map(fs))),
        lookup(kind_map(fs), kind) is Some ==> lookup(kind_map(fs), kind) == Some(true),
        lookup(kind_map(fs), kind) == Some(true) <==> exists|i: int|
            0 <= i < fs.len() && kind_of((#[trigger] fs[i]).geometry) == kind,
    decreases fs.len(),
{
    if fs.len() > 0 {
        let d = fs.drop_last();
        lemma_kind_map(d, kind);
        let last = kind_of(fs.last().geometry);
        lemma_put(kind_map(d), last, true);
        if lookup(kind_map(fs), kind) == Some(true) {
            if kind == last {
                assert(kind_of(fs[fs.len() - 1].geometry) == kind);
            } else {
                let i = choose|i: int|
                    0 <= i < d.len() && kind_of((#[trigger] d[i]).geometry) == kind;
                assert(fs[i] == d[i]);
            }
        }
        if exists|i: int| 0 <= i < fs.len() && kind_of((#[trigger] fs[i]).geometry) == kind {
            let i = choose|i: int|
                0 <= i < fs.len() && kind_of((#[trigger] fs[i]).geometry) == kind;
            if i < d.len() {
                assert(d[i] == fs[i]);
            }
        }
    } else {
        assert(keys(kind_map(fs)) =~= Seq::empty());
    }
}

/// The geometry kinds that occur among features, each once, in order.
pub fn geometry_kinds(features: &Vec<DecodedFeature>) -> (r: Vec<String>)
    ensures
        texts(r@) == kinds_of(features_view(features@)),
{
    let n = features.len();
    let ghost fs = features_view(features@);
    let mut m: TextMap<bool> = TextMap::new();
    let mut i: usize = 0;
    while i < n
        invariant
            i <= n,
            n == features@.len(),
            fs == features_view(features@),
            m@ == kind_map(fs.take(i as int)),
        decreases n - i,
    {
        proof {
            assert(fs.take(i + 1).drop_last() =~= fs.take(i as int));
            assert(fs.take(i + 1).last() == features@[i as int]@);
        }
        m.insert(geometry_kind(&features[i].geometry).to_owned(), true);
        i += 1;
    }
    proof {
        assert(fs.take(n as int) =~= fs);
    }
    let count = m.len();
    let mut out: Vec<String> = Vec::new();
    let mut j: usize = 0;
    while j < count
        invariant
            j <= count,
            count == m@.len(),
            out@.len() == j,
            forall|k: int| 0 <= k < j ==> (#[trigger] out@[k])@ == m@[k].0,
        decreases count - j,
    {
        out.push(m.key_at(j).clone());
        j += 1;
    }
    proof {
        assert(texts(out@) =~= kinds_of(fs));
    }
    out
}

/// The geometry type of a layer: the kind of its features, or `"Mixed"` where there are several.
pub open spec fn layer_kind(fs: Seq<FeatureView>) -> Seq<char> {
    if kinds_of(fs).len() == 1 {
        kinds_of(fs)[0]
    } else {
        "Mixed"@
    }
}

pub fn layer_geometry_type(features: &Vec<DecodedFeature>) -> (r: String)
    ensures
        r@ == layer_kind(features_view(features@)),
{
    let mut kinds = geometry_kinds(features);
    proof {
        assert(texts(kinds@).len() == kinds@.len());
        if kinds@.len() == 1 {
            assert(texts(kinds@)[0] == kinds@[0]@);
        }
    }
    if kinds.len() == 1 {
        kinds.swap_remove(0)
    } else {
        "Mixed".to_owned()
    }
}

/// The highest stacking order among layer nodes; nothing where none has one.
pub open spec fn highest_z(layers: Seq<NodeView>) -> Option<i64>
    decreases layers.len(),
{
    if layers.len() == 0 {
        None
    } else {
        let before = highest_z(layers.drop_last());
        match layers.last().get("z_order"@) {
            Some(v) => match v.as_i64() {
                Some(z) => match before {
                    Some(b) => if b >= z {
                        Some(b)
                    } else {
                        Some(z)
                    },
                    None => Some(z),
                },
                None => before,
            },
            None => before,
        }
    }
}

/// The highest stacking order among layer nodes.
pub fn top_z(layers: &Vec<AttrNode>) -> (r: Option<i64>)
    ensures
        r == highest_z(nodes_view(layers@)),
{
    let n = layers.len();
    let ghost ls = nodes_view(layers@);
    let mut top: Option<i64> = None;
    let mut i: usize = 0;
    while i < n
        invariant
            i <= n,
            n == layers@.len(),
            ls == nodes_view(layers@),
            top == highest_z(ls.take(i as int)),
        decreases n - i,
    {
        proof {
            assert(ls.take(i + 1).drop_last() =~= ls.take(i as int));
            assert(ls.take(i + 1).last() == layers@[i as int]@);
        }
        let z = match layers[i].get("z_order") {
            Some(v) => v.as_i64(),
            None => None,
        };
        match z {
            Some(z) => {
                top = match top {
                    Some(b) => if b >= z {
                        Some(b)
                    } else {
                        Some(z)
                    },
                    None => Some(z),
                };
            },
            None => {},
        }
        i += 1;
    }
    proof {
        assert(ls.take(n as int) =~= ls);
    }
    top
}

/// The stacking order of a new layer: one above the highest, 0 for the first.
pub open spec fn next_z(top: Option<i64>) -> int {
    match top {
        Some(z) => z + 1,
        None => 0,
    }
}

/// The stacking order of a new layer.
pub fn next_z_order(top: Option<i64>) -> (r: i64)
    requires
        top != Some(i64::MAX),
    ensures
        r == next_z(top),
{
    match top {
        Some(z) => z + 1,
        None => 0,
    }
}

/// A new layer lands above every layer that has a stacking order.
pub proof fn new_layer_is_on_top(layers: Seq<NodeView>, i: int)
    requires
        0 <= i < layers.len(),
        layers[i].get("z_order"@) matches Some(v) && v.as_i64() is Some,
    ensures
        highest_z(layers) is Some,
        z_of(layers[i]) < next_z(highest_z(layers)),
    decreases layers.len(),
{
    let d = layers.drop_last();
    if i < d.len() {
        assert(d[i] == layers[i]);
        new_layer_is_on_top(d, i);
    }
}

/// The layer node of an import.
pub open spec fn is_import_layer(
    n: NodeView,
    machine_name: Seq<char>,
    display_name: Seq<char>,
    source: Seq<char>,
    fs: Seq<FeatureView>,
    z: int,
) -> bool {
    &&& uuid_shape(n.id)
    &&& is_stamp(n.created_at)
    &&& is_stamp(n.updated_at)
    &&& n == (NodeView {
        description: Some("Imported from "@ + source),
        properties: put(
            layer_properties(
                display_name,
                layer_kind(fs),
                source,
                style_for(layer_kind(fs)),
                JsonView::Object(schema_of(fs)),
                0,
            ),
            "z_order"@,
            int_json(z),
        ),
        ..blank_node(n.id, "Layer"@, machine_name, n.created_at, n.updated_at)
    })
}

/// The layer node for features that are imported; features are required.
pub fn import_layer(
    machine_name: &str,
    display_name: &str,
    source: &str,
    features: &Vec<DecodedFeature>,
    z_order: i64,
) -> (r: Result<AttrNode, String>)
    ensures
        r is Err <==> features@.len() == 0,
        match r {
            Ok(n) => is_import_layer(
                n@,
                machine_name@,
                display_name@,
                source@,
                features_view(features@),
                z_order as int,
            ),
            Err(e) => e@ == "geojson contained no features"@,
        },
{
    if features.len() == 0 {
        return Err("geojson contained no features".to_owned());
    }
    let geometry_type = layer_geometry_type(features);
    let description = concat("Imported from ", source);
    let mut layer = layer_node(
        machine_name,
        display_name,
        description.as_str(),
        geometry_type.as_str(),
        source,
        default_style(geometry_type.as_str()),
        infer_schema(features),
    );
    layer.properties.set("z_order", Json::from_i64(z_order));
    Ok(layer)
}

/// The report of an import.
pub open spec fn report_out(
    layer_id: Seq<char>,
    machine_name: Seq<char>,
    display_name: Seq<char>,
    geometry_type: Seq<char>,
    feature_count: int,
    source: Seq<char>,
    bounds: Option<BoundsView>,
) -> JsonView {
    let e = put(no_entries(), "layer_id"@, str_json(layer_id));
    let e = put(e, "name"@, str_json(machine_name));
    let e = put(e, "display_name"@, str_json(display_name));
    let e = put(e, "geometry_type"@, str_json(geometry_type));
    let e = put(e, "feature_count"@, int_json(feature_count));
    let e = put(e, "source"@, str_json(source));
    JsonView::Object(put(e, "bounds"@, bounds_out(bounds)))
}

/// The report of an import.
pub fn import_report(
    layer_id: &str,
    machine_name: &str,
    display_name: &str,
    features: &Vec<DecodedFeature>,
    feature_count: u64,
    source: &str,
    bounds: &Option<Bounds>,
) -> (r: Json)
    ensures
        r@ == report_out(
            layer_id@,
            machine_name@,
            display_name@,
            layer_kind(features_view(features@)),
            feature_count as int,
            source@,
            opt_bounds_view(*bounds),
        ),
{
    let mut o = JsonObject::new();
    o.set("layer_id", Json::text(layer_id));
    o.set("name", Json::text(machine_name));
    o.set("display_name", Json::text(display_name));
    o.set("geometry_type", Json::text(layer_geometry_type(features).as_str()));
    o.set("feature_count", Json::from_u64(feature_count));
    o.set("source", Json::text(source));
    o.set("bounds", bounds_json(bounds));
    Json::object(o)
}

/// All that an import writes: the layer, then its features; and the report of it.
#[derive(Debug, PartialEq)]
pub struct ImportPlan {
    pub layer: AttrNode,
    pub nodes: Vec<AttrNode>,
    pub report: Json,
}

pub struct PlanView {
    pub layer: NodeView,
    pub nodes: Seq<NodeView>,
    pub report: JsonView,
}

impl View for ImportPlan {
    type V = PlanView;

    open spec fn view(&self) -> PlanView {
        PlanView {
            layer: self.layer@,
            nodes: nodes_view(self.nodes@),
            report: self.report@,
        }
    }
}

/// An operation of the transaction in which an import is written.
#[derive(Debug, PartialEq)]
pub enum ImportOp {
    Store(AttrNode),
    Commit,
}

pub enum ImportOpView {
    Store(NodeView),
    Commit,
}

impl View for ImportOp {
    type V = ImportOpView;

    open spec fn view(&self) -> ImportOpView {
        match self {
            ImportOp::Store(n) => ImportOpView::Store(n@),
            ImportOp::Commit => ImportOpView::Commit,
        }
    }
}

impl ImportOp {
    pub fn copy(&self) -> (r: Self)
        ensures
            r@ == self@,
    {
        match self {
            ImportOp::Store(n) => ImportOp::Store(n.copy()),
            ImportOp::Commit => ImportOp::Commit,
        }
    }
}

pub open spec fn ops_view(ops: Seq<ImportOp>) -> Seq<ImportOpView> {
    ops.map_values(|o: ImportOp| o@)
}

/// The operations of an import: the layer is stored, then its features, and one commit comes last.
pub open spec fn ops_of(p: PlanView) -> Seq<ImportOpView> {
    seq![ImportOpView::Store(p.layer)] + p.nodes.map_values(|n: NodeView| ImportOpView::Store(n))
        + seq![ImportOpView::Commit]
}

/// The operations of the transaction in which an import is written, in order.
pub fn import_ops(plan: &ImportPlan) -> (r: Vec<ImportOp>)
    ensures
        ops_view(r@) == ops_of(plan@),
{
    let n = plan.nodes.len();
    let mut out: Vec<ImportOp> = Vec::new();
    out.push(ImportOp::Store(plan.layer.copy()));
    let mut i: usize = 0;
    while i < n
        invariant
            i <= n,
            n == plan.nodes@.len(),
            out@.len() == i + 1,
            out@[0]@ == ImportOpView::Store(plan.layer@),
            forall|k: int|
                0 < k <= i ==> (#[trigger] out@[k])@ == ImportOpView::Store(plan.nodes@[k - 1]@),
        decreases n - i,
    {
        out.push(ImportOp::Store(plan.nodes[i].copy()));
        i += 1;
    }
    out.push(ImportOp::Commit);
    proof {
        assert(ops_view(out@) =~= ops_of(plan@));
    }
    out
}

/// The nodes of an import, one for each group of features.
pub open spec fn are_group_nodes(
    nodes: Seq<NodeView>,
    layer_id: Seq<char>,
    machine_name: Seq<char>,
    fs: Seq<FeatureView>,
    ends: Seq<Vec<(Cell, Cell)>>,
) -> bool {
    &&& nodes.len() == feature_groups(fs).len()
    &&& forall|a: int|
        0 <= a < nodes.len() ==> is_group_node(
            #[trigger] nodes[a],
            layer_id,
            machine_name,
            fs,
            feature_groups(fs)[a],
            ends[a]@,
        )
}

/// The plan of an import: the layer on top of those there are, its features, and the report.
pub open spec fn is_plan(
    p: PlanView,
    machine_name: Seq<char>,
    display_name: Seq<char>,
    source: Seq<char>,
    fs: Seq<FeatureView>,
    layers: Seq<NodeView>,
    ends: Seq<Vec<(Cell, Cell)>>,
) -> bool {
    &&& is_import_layer(
        p.layer,
        machine_name,
        display_name,
        source,
        fs,
        next_z(highest_z(layers)),
    )
    &&& are_group_nodes(p.nodes, p.layer.id, machine_name, fs, ends)
    &&& p.report == report_out(
        p.layer.id,
        machine_name,
        display_name,
        layer_kind(fs),
        p.nodes.len() as int,
        source,
        nodes_bounds(p.nodes),
    )
}

/// What planning an import gives; features are required.
pub open spec fn is_import_plan(
    r: Result<ImportPlan, String>,
    machine_name: Seq<char>,
    display_name: Seq<char>,
    source: Seq<char>,
    fs: Seq<FeatureView>,
    layers: Seq<NodeView>,
    ends: Seq<Vec<(Cell, Cell)>>,
) -> bool {
    &&& r is Err <==> fs.len() == 0
    &&& match r {
        Ok(p) => is_plan(p@, machine_name, display_name, source, fs, layers, ends),
        Err(e) => e@ == "geojson contained no features"@,
    }
}

/// Plans an import. `ends` gives the grid cells in which the lines of [`import_lines`] start and
/// end.
pub fn plan_import(
    machine_name: &str,
    display_name: &str,
    source: &str,
    features: &Vec<DecodedFeature>,
    layers: &Vec<AttrNode>,
    ends: &Vec<Vec<(Cell, Cell)>>,
) -> (r: Result<ImportPlan, String>)
    requires
        ends_match(features_view(features@), ends@),
        highest_z(nodes_view(layers@)) != Some(i64::MAX),
    ensures
        is_import_plan(
            r,
            machine_name@,
            display_name@,
            source@,
            features_view(features@),
            nodes_view(layers@),
            ends@,
        ),
{
    let z = next_z_order(top_z(layers));
    let layer = match import_layer(machine_name, display_name, source, features, z) {
        Ok(layer) => layer,
        Err(e) => {
            return Err(e);
        },
    };
    let (nodes, bounds) = write_features(layer.id.as_str(), machine_name, features, ends);
    let report = import_report(
        layer.id.as_str(),
        machine_name,
        display_name,
        features,
        nodes.len() as u64,
        source,
        &bounds,
    );
    proof {
        let ns = nodes_view(nodes@);
        assert(ns.len() == nodes@.len());
        assert forall|a: int| 0 <= a < ns.len() implies is_group_node(
            #[trigger] ns[a],
            layer@.id,
            machine_name@,
            features_view(features@),
            feature_groups(features_view(features@))[a],
            ends@[a]@,
        ) by {
            assert(ns[a] == nodes@[a]@);
        }
    }
    Ok(ImportPlan { layer, nodes, report })
}

/// Whether there is a pair of cells for each line of each group.
fn cells_fit(lines: &Vec<Vec<Vec<Coord>>>, ends: &Vec<Vec<(Cell, Cell)>>) -> (r: bool)
    ensures
        r == (ends@.len() == lines@.len() && forall|a: int|
            0 <= a < ends@.len() ==> (#[trigger] ends@[a])@.len() == lines@[a]@.len()),
{
    let n = ends.len();
    if n != lines.len() {
        return false;
    }
    let mut i: usize = 0;
    while i < n
        invariant
            i <= n,
            n == ends@.len(),
            n == lines@.len(),
            forall|a: int| 0 <= a < i ==> (#[trigger] ends@[a])@.len() == lines@[a]@.len(),
        decreases n - i,
    {
        if ends[i].len() != lines[i].len() {
            return false;
        }
        i += 1;
    }
    true
}

/// Whether cells are given for exactly the lines of the features.
pub fn import_ends_fit(features: &Vec<DecodedFeature>, ends: &Vec<Vec<(Cell, Cell)>>) -> (r: bool)
    ensures
        r == ends_match(features_view(features@), ends@),
{
    let lines = import_lines(features);
    proof {
        let fs = features_view(features@);
        assert forall|a: int| 0 <= a < lines@.len() implies (#[trigger] lines@[a])@.len()
            == all_lines(group_geometries(fs, feature_groups(fs)[a])).len() by {
            assert(lines_view(lines@[a]@).len() == lines@[a]@.len());
        }
    }
    cells_fit(&lines, ends)
}

/// Plans an import as [`plan_import`] does, where the cells are those of the lines and there is
/// room above the layers; nothing else.
pub fn checked_import(
    machine_name: &str,
    display_name: &str,
    source: &str,
    features: &Vec<DecodedFeature>,
    layers: &Vec<AttrNode>,
    ends: &Vec<Vec<(Cell, Cell)>>,
) -> (r: Option<Result<ImportPlan, String>>)
    ensures
        r is Some <==> ends_match(features_view(features@), ends@) && highest_z(
            nodes_view(layers@),
        ) != Some(i64::MAX),
        r matches Some(x) ==> is_import_plan(
            x,
            machine_name@,
            display_name@,
            source@,
            features_view(features@),
            nodes_view(layers@),
            ends@,
        ),
{
    if !import_ends_fit(features, ends) {
        return None;
    }
    match top_z(layers) {
        Some(z) => if z == i64::MAX {
            return None;
        },
        None => {},
    }
    Some(plan_import(machine_name, display_name, source, features, layers, ends))
}

// ---------------------------------------------------------------------------
// Replacing by name
// ---------------------------------------------------------------------------

/// The first layer with a name.
pub open spec fn named_layer(layers: Seq<NodeView>, name: Seq<char>) -> Option<NodeView>
    decreases layers.len(),
{
    if layers.len() == 0 {
        None
    } else if layers[0].name == name {
        Some(layers[0])
    } else {
        named_layer(layers.drop_first(), name)
    }
}

/// What is deleted before a layer is imported under a name: the layer that has it, with its
/// features.
pub open spec fn replacements(
    layers: Seq<NodeView>,
    features: Seq<NodeView>,
    name: Seq<char>,
) -> Seq<Seq<char>> {
    match named_layer(layers, name) {
        Some(l) => deletions(features, l.id),
        None => Seq::empty(),
    }
}

/// The nodes to delete so that an import replaces the layer with the same name.
pub fn replace_layer(layers: &Vec<AttrNode>, features: &Vec<AttrNode>, name: &str) -> (r: Vec<
    String,
>)
    ensures
        texts(r@) == replacements(nodes_view(layers@), nodes_view(features@), name@),
{
    let n = layers.len();
    let ghost ls = nodes_view(layers@);
    let mut i: usize = 0;
    proof {
        assert(ls.skip(0) =~= ls);
    }
    while i < n
        invariant
            i <= n,
            n == layers@.len(),
            ls == nodes_view(layers@),
            named_layer(ls, name@) == named_layer(ls.skip(i as int), name@),
        decreases n - i,
    {
        proof {
            assert(ls.skip(i as int)[0] == layers@[i as int]@);
            assert(ls.skip(i as int).drop_first() =~= ls.skip(i + 1));
        }
        if same_text(layers[i].name.as_str(), name) {
            return delete_layer(features, layers[i].id.as_str());
        }
        i += 1;
    }
    let none: Vec<String> = Vec::new();
    proof {
        assert(ls.skip(n as int).len() == 0);
        assert(texts(none@) =~= Seq::empty());
    }
    none
}

/// The layers of a graph have different names.
pub open spec fn names_differ(graph: Map<Seq<char>, NodeView>) -> bool {
    forall|a: Seq<char>, b: Seq<char>|
        #![trigger graph[a], graph[b]]
        graph.dom().contains(a) && graph.dom().contains(b) && graph[a].node_type == "Layer"@
            && graph[b].node_type == "Layer"@ && graph[a].name == graph[b].name ==> a == b
}

/// After a replacement no layer has the name any more, so that importing under the name again does
/// not make a second layer. Layers of other names stay.
pub proof fn reimport_does_not_duplicate(
    graph: Map<Seq<char>, NodeView>,
    layers: Seq<NodeView>,
    features: Seq<NodeView>,
    name: Seq<char>,
    layer: NodeView,
)
    requires
        lists_type(graph, layers, "Layer"@),
        lists_type(graph, features, "Feature"@),
        names_differ(graph),
        layer.node_type == "Layer"@,
        layer.name == name,
    ensures
        forall|x: Seq<char>|
            #![trigger graph[x]]
            graph.dom().contains(x) && graph[x].node_type == "Layer"@ && graph[x].name != name ==> (
            without_nodes(graph, replacements(layers, features, name)).dom().contains(x)),
        forall|x: Seq<char>| #[trigger]
            without_nodes(graph, replacements(layers, features, name)).dom().contains(x) && graph[x].node_type
                == "Layer"@ ==> graph[x].name != name,
        names_differ(
            without_nodes(graph, replacements(layers, features, name)).insert(layer.id, layer),
        ),
{
    let ids = replacements(layers, features, name);
    let after = without_nodes(graph, ids);
    lemma_named_layer(layers, name);
    match named_layer(layers, name) {
        Some(l) => {
            let at = choose|i: int| 0 <= i < layers.len() && layers[i] == l;
            assert(graph.dom().contains(layers[at].id) && graph[layers[at].id] == layers[at]);
            assert forall|x: Seq<char>|
                #![trigger graph[x]]
                graph.dom().contains(x) && graph[x].node_type == "Layer"@ && graph[x].name
                    != name implies after.dom().contains(x) by {
                crate::actors::layer::delete_removes_exactly_the_layer(graph, features, l.id, x);
                reveal_strlit("Layer");
                reveal_strlit("Feature");
                assert("Layer"@.len() != "Feature"@.len());
                if x == l.id {
                    assert(graph[x] == l);
                }
            }
            assert forall|x: Seq<char>| #[trigger] after.dom().contains(x) && graph[x].node_type
                == "Layer"@ implies graph[x].name != name by {
                crate::actors::layer::delete_removes_exactly_the_layer(graph, features, l.id, x);
                if graph[x].name == name {
                    assert(graph[l.id] == l);
                    assert(x == l.id);
                }
            }
        },
        None => {
            assert(ids.to_set() =~= Set::empty());
            assert forall|x: Seq<char>| #[trigger] after.dom().contains(x) && graph[x].node_type
                == "Layer"@ implies graph[x].name != name by {
                assert(graph.dom().contains(x));
                assert(layers.contains(graph[x]));
            }
            assert forall|x: Seq<char>|
                #![trigger graph[x]]
                graph.dom().contains(x) && graph[x].node_type == "Layer"@ && graph[x].name
                    != name implies after.dom().contains(x) by {}
        },
    }
    let stored = after.insert(layer.id, layer);
    assert forall|a: Seq<char>, b: Seq<char>|
        #![trigger stored[a], stored[b]]
        stored.dom().contains(a) && stored.dom().contains(b) && stored[a].node_type == "Layer"@
            && stored[b].node_type == "Layer"@ && stored[a].name == stored[b].name implies a
        == b by {
        if a != layer.id {
            assert(after.dom().contains(a));
            assert(stored[a] == graph[a]);
        }
        if b != layer.id {
            assert(after.dom().contains(b));
            assert(stored[b] == graph[b]);
        }
    }
}

/// A graph with nodes stored in it.
pub open spec fn with_nodes(graph: Map<Seq<char>, NodeView>, nodes: Seq<NodeView>) -> Map<
    Seq<char>,
    NodeView,
>
    decreases nodes.len(),
{
    if nodes.len() == 0 {
        graph
    } else {
        with_nodes(graph, nodes.drop_last()).insert(nodes.last().id, nodes.last())
    }
}

proof fn lemma_with_nodes(graph: Map<Seq<char>, NodeView>, nodes: Seq<NodeView>)
    requires
        ids_differ(nodes),
    ensures
        forall|i: int|
            0 <= i < nodes.len() ==> with_nodes(graph, nodes).dom().contains(
                (#[trigger] nodes[i]).id,
            ) && with_nodes(graph, nodes)[nodes[i].id] == nodes[i],
        forall|x: Seq<char>| #[trigger]
            with_nodes(graph, nodes).dom().contains(x) ==> graph.dom().contains(x) || exists|
                i: int,
            | 0 <= i < nodes.len() && (#[trigger] nodes[i]).id == x,
        forall|x: Seq<char>|
            (forall|i: int| 0 <= i < nodes.len() ==> (#[trigger] nodes[i]).id != x) ==> (
            #[trigger] with_nodes(graph, nodes).dom().contains(x) <==> graph.dom().contains(x))
                && with_nodes(graph, nodes)[x] == graph[x],
    decreases nodes.len(),
{
    if nodes.len() > 0 {
        let d = nodes.drop_last();
        let n = nodes.len() - 1;
        assert(ids_differ(d)) by {
            assert forall|i: int, j: int| 0 <= i < j < d.len() implies (#[trigger] d[i]).id != (
            #[trigger] d[j]).id by {
                assert(nodes[i].id != nodes[j].id);
            }
        }
        lemma_with_nodes(graph, d);
        let before = with_nodes(graph, d);
        let after = with_nodes(graph, nodes);
        assert forall|i: int| 0 <= i < nodes.len() implies after.dom().contains(
            (#[trigger] nodes[i]).id,
        ) && after[nodes[i].id] == nodes[i] by {
            if i < n {
                assert(d[i] == nodes[i]);
                assert(nodes[i].id != nodes[n].id);
            }
        }
        assert forall|x: Seq<char>| #[trigger] after.dom().contains(x) implies graph.dom().contains(
            x,
        ) || exists|i: int| 0 <= i < nodes.len() && (#[trigger] nodes[i]).id == x by {
            if x == nodes[n].id {
            } else {
                assert(before.dom().contains(x));
                if !graph.dom().contains(x) {
                    let i = choose|i: int| 0 <= i < d.len() && (#[trigger] d[i]).id == x;
                    assert(nodes[i].id == x);
                }
            }
        }
        assert forall|x: Seq<char>|
            (forall|i: int| 0 <= i < nodes.len() ==> (#[trigger] nodes[i]).id != x) implies (
        #[trigger] after.dom().contains(x) <==> graph.dom().contains(x)) && after[x] == graph[x] by {
            assert(nodes[n].id != x);
            assert forall|i: int| 0 <= i < d.len() implies (#[trigger] d[i]).id != x by {
                assert(nodes[i].id != x);
            }
            assert(before.dom().contains(x) <==> graph.dom().contains(x));
        }
    }
}

/// All nodes that an import stores.
pub open spec fn plan_nodes(p: PlanView) -> Seq<NodeView> {
    seq![p.layer] + p.nodes
}

/// The ids of a plan are new to a graph: no node has one, none refers to the new layer, and they
/// are all different.
pub open spec fn is_new_to(p: PlanView, graph: Map<Seq<char>, NodeView>) -> bool {
    &&& ids_differ(plan_nodes(p))
    &&& forall|x: Seq<char>| #[trigger]
        graph.dom().contains(x) ==> !belongs_to(graph[x], p.layer.id)
    &&& forall|i: int|
        0 <= i < plan_nodes(p).len() ==> !graph.dom().contains(
            (#[trigger] plan_nodes(p)[i]).id,
        )
}

/// The graph after an import: the layer of the same name is gone with its features, and the nodes
/// of the plan are stored.
pub open spec fn imported(
    graph: Map<Seq<char>, NodeView>,
    layers: Seq<NodeView>,
    features: Seq<NodeView>,
    name: Seq<char>,
    p: PlanView,
) -> Map<Seq<char>, NodeView> {
    with_nodes(without_nodes(graph, replacements(layers, features, name)), plan_nodes(p))
}

/// The features of a layer in a graph.
pub open spec fn features_of(graph: Map<Seq<char>, NodeView>, layer_id: Seq<char>) -> Set<
    Seq<char>,
> {
    Set::new(
        |x: Seq<char>|
            graph.dom().contains(x) && graph[x].node_type == "Feature"@ && belongs_to(
                graph[x],
                layer_id,
            ),
    )
}

proof fn lemma_layer_properties(
    display_name: Seq<char>,
    geometry_type: Seq<char>,
    source: Seq<char>,
    style: JsonView,
    schema: JsonView,
    z: int,
)
    ensures
        ascending(keys(layer_properties(display_name, geometry_type, source, style, schema, z))),
{
    let e0 = no_entries();
    assert(keys(e0) =~= Seq::empty());
    lemma_put(e0, "display_name"@, str_json(display_name));
    let e1 = put(e0, "display_name"@, str_json(display_name));
    lemma_put(e1, "geometry_type"@, str_json(geometry_type));
    let e2 = put(e1, "geometry_type"@, str_json(geometry_type));
    lemma_put(e2, "source"@, str_json(source));
    let e3 = put(e2, "source"@, str_json(source));
    lemma_put(e3, "style"@, style);
    let e4 = put(e3, "style"@, style);
    lemma_put(e4, "schema"@, schema);
    let e5 = put(e4, "schema"@, schema);
    lemma_put(e5, "z_order"@, int_json(z));
}

/// A plan for a graph: made for the layers that are left once the layer of the name is deleted, and
/// new to the graph.
pub open spec fn is_plan_for(
    p: PlanView,
    graph: Map<Seq<char>, NodeView>,
    layers: Seq<NodeView>,
    features: Seq<NodeView>,
    above: Seq<NodeView>,
    name: Seq<char>,
    display_name: Seq<char>,
    source: Seq<char>,
    fs: Seq<FeatureView>,
    ends: Seq<Vec<(Cell, Cell)>>,
) -> bool {
    &&& lists_type(graph, layers, "Layer"@)
    &&& lists_type(graph, features, "Feature"@)
    &&& names_differ(graph)
    &&& lists_type(without_nodes(graph, replacements(layers, features, name)), above, "Layer"@)
    &&& highest_z(above) != Some(i64::MAX)
    &&& is_plan(p, name, display_name, source, fs, above, ends)
    &&& is_new_to(p, graph)
}

/// A node goes with the layer of a name: the layer itself, or a feature of it.
pub open spec fn goes_with(layers: Seq<NodeView>, name: Seq<char>, n: NodeView) -> bool {
    named_layer(layers, name) matches Some(l) && (n.id == l.id || n.node_type == "Feature"@
        && belongs_to(n, l.id))
}

/// A place of a plan has a node with an id.
pub open spec fn plans(p: PlanView, x: Seq<char>) -> bool {
    exists|a: int| 0 <= a < p.nodes.len() && (#[trigger] p.nodes[a]).id == x
}

proof fn lemma_left(
    graph: Map<Seq<char>, NodeView>,
    layers: Seq<NodeView>,
    features: Seq<NodeView>,
    name: Seq<char>,
    x: Seq<char>,
)
    requires
        lists_type(graph, features, "Feature"@),
        graph.dom().contains(x),
        graph[x].id == x,
    ensures
        ({
            let left = without_nodes(graph, replacements(layers, features, name));
            &&& left.dom().contains(x) <==> !goes_with(layers, name, graph[x])
            &&& left.dom().contains(x) ==> left[x] == graph[x]
        }),
{
    match named_layer(layers, name) {
        Some(l) => {
            crate::actors::layer::delete_removes_exactly_the_layer(graph, features, l.id, x);
        },
        None => {
            assert(replacements(layers, features, name).to_set() =~= Set::empty());
        },
    }
}

/// What a node of the graph after an import is.
proof fn lemma_imported(
    graph: Map<Seq<char>, NodeView>,
    layers: Seq<NodeView>,
    features: Seq<NodeView>,
    above: Seq<NodeView>,
    name: Seq<char>,
    display_name: Seq<char>,
    source: Seq<char>,
    fs: Seq<FeatureView>,
    ends: Seq<Vec<(Cell, Cell)>>,
    p: PlanView,
    x: Seq<char>,
)
    requires
        is_plan_for(p, graph, layers, features, above, name, display_name, source, fs, ends),
    ensures
        ({
            let after = imported(graph, layers, features, name, p);
            &&& after.dom().contains(p.layer.id) && after[p.layer.id] == p.layer
            &&& after.dom().contains(x) ==> x == p.layer.id || plans(p, x) || (
            graph.dom().contains(x) && after[x] == graph[x] && !goes_with(layers, name, graph[x]))
            &&& plans(p, x) ==> after.dom().contains(x) && after[x].node_type == "Feature"@
                && belongs_to(after[x], p.layer.id) && x != p.layer.id && !graph.dom().contains(x)
            &&& graph.dom().contains(x) ==> x != p.layer.id && !belongs_to(
                graph[x],
                p.layer.id,
            )
            &&& graph.dom().contains(x) && !goes_with(layers, name, graph[x])
                ==> after.dom().contains(x) && after[x] == graph[x]
        }),
{
    let left = without_nodes(graph, replacements(layers, features, name));
    let after = imported(graph, layers, features, name, p);
    let all = plan_nodes(p);
    lemma_with_nodes(left, all);
    assert(all[0] == p.layer);
    if graph.dom().contains(x) {
        lemma_left(graph, layers, features, name, x);
        assert forall|i: int| 0 <= i < all.len() implies (#[trigger] all[i]).id != x by {
            assert(!graph.dom().contains(all[i].id));
        }
        assert(after.dom().contains(x) <==> left.dom().contains(x));
        assert(all[0].id != x);
    } else if after.dom().contains(x) {
        let i = choose|i: int| 0 <= i < all.len() && (#[trigger] all[i]).id == x;
        if i > 0 {
            assert(p.nodes[i - 1].id == x);
        }
    }
    if plans(p, x) {
        let a = choose|a: int| 0 <= a < p.nodes.len() && (#[trigger] p.nodes[a]).id == x;
        let n = p.nodes[a];
        assert(all[a + 1] == n);
        assert(all[0].id != all[a + 1].id);
        let i = feature_groups(fs)[a][0];
        assert(is_group_node(n, p.layer.id, name, fs, feature_groups(fs)[a], ends[a]@));
        feature_keeps_its_layer(p.layer.id, source_id_of(fs[i], i), fs[i].properties, ""@);
    }
}

/// After an import exactly one layer has the name, the new one, and it lies above every other
/// layer that has a stacking order. `above` are the layers that are left when the stack is looked
/// at.
pub proof fn imported_layer_is_the_only_one(
    graph: Map<Seq<char>, NodeView>,
    layers: Seq<NodeView>,
    features: Seq<NodeView>,
    above: Seq<NodeView>,
    name: Seq<char>,
    display_name: Seq<char>,
    source: Seq<char>,
    fs: Seq<FeatureView>,
    ends: Seq<Vec<(Cell, Cell)>>,
    p: PlanView,
    x: Seq<char>,
)
    requires
        is_plan_for(p, graph, layers, features, above, name, display_name, source, fs, ends),
        imported(graph, layers, features, name, p).dom().contains(x),
    ensures
        imported(graph, layers, features, name, p).dom().contains(p.layer.id),
        p.report.text_at("layer_id"@) == Some(p.layer.id),
        ({
            let n = imported(graph, layers, features, name, p)[x];
            &&& n.node_type == "Layer"@ && n.name == name <==> x == p.layer.id
            &&& x != p.layer.id && n.node_type == "Layer"@ && (n.get("z_order"@) matches Some(v)
                && v.as_i64() is Some) ==> z_of(n) < z_of(p.layer)
        }),
{
    let left = without_nodes(graph, replacements(layers, features, name));
    let after = imported(graph, layers, features, name, p);
    let n = after[x];
    reveal_strlit("Layer");
    reveal_strlit("Feature");
    assert("Layer"@.len() != "Feature"@.len());
    lemma_imported(
        graph,
        layers,
        features,
        above,
        name,
        display_name,
        source,
        fs,
        ends,
        p,
        x,
    );
    lemma_report(p, name, display_name, source, fs);
    let z = next_z(highest_z(above));
    let e = layer_properties(
        display_name,
        layer_kind(fs),
        source,
        style_for(layer_kind(fs)),
        JsonView::Object(schema_of(fs)),
        0,
    );
    lemma_layer_properties(
        display_name,
        layer_kind(fs),
        source,
        style_for(layer_kind(fs)),
        JsonView::Object(schema_of(fs)),
        0,
    );
    lemma_put(e, "z_order"@, int_json(z));
    assert(z_of(p.layer) == z);
    if x != p.layer.id && n.node_type == "Layer"@ {
        assert(graph.dom().contains(x) && graph[x] == n);
        lemma_left(graph, layers, features, name, x);
        assert(left.dom().contains(x) && left[x] == n);
        assert(n.name != name) by {
            lemma_named_layer(layers, name);
            assert(layers.contains(graph[x]));
            let i = choose|i: int| 0 <= i < layers.len() && layers[i] == n;
            if n.name == name {
                assert(layers[i].name == name);
                let l = named_layer(layers, name)->0;
                let j = choose|j: int| 0 <= j < layers.len() && layers[j] == l;
                assert(graph.dom().contains(layers[j].id) && graph[layers[j].id] == layers[j]);
                assert(graph[l.id].name == graph[x].name);
            }
        }
        if n.get("z_order"@) matches Some(v) && v.as_i64() is Some {
            assert(above.contains(left[x]));
            let i = choose|i: int| 0 <= i < above.len() && above[i] == n;
            new_layer_is_on_top(above, i);
        }
    }
}

/// After an import no node of the replaced layer is left, and every other node stays as it was.
pub proof fn import_replaces_nothing_else(
    graph: Map<Seq<char>, NodeView>,
    layers: Seq<NodeView>,
    features: Seq<NodeView>,
    above: Seq<NodeView>,
    name: Seq<char>,
    display_name: Seq<char>,
    source: Seq<char>,
    fs: Seq<FeatureView>,
    ends: Seq<Vec<(Cell, Cell)>>,
    p: PlanView,
    x: Seq<char>,
)
    requires
        is_plan_for(p, graph, layers, features, above, name, display_name, source, fs, ends),
    ensures
        ({
            let after = imported(graph, layers, features, name, p);
            &&& graph.dom().contains(x) && !goes_with(layers, name, graph[x])
                ==> after.dom().contains(x) && after[x] == graph[x]
            &&& after.dom().contains(x) ==> !goes_with(layers, name, after[x])
        }),
{
    let after = imported(graph, layers, features, name, p);
    lemma_imported(
        graph,
        layers,
        features,
        above,
        name,
        display_name,
        source,
        fs,
        ends,
        p,
        x,
    );
    lemma_named_layer(layers, name);
    if let Some(l) = named_layer(layers, name) {
        let j = choose|j: int| 0 <= j < layers.len() && layers[j] == l;
        assert(graph.dom().contains(layers[j].id));
        lemma_imported(
            graph,
            layers,
            features,
            above,
            name,
            display_name,
            source,
            fs,
            ends,
            p,
            l.id,
        );
        reveal_strlit("Layer");
        reveal_strlit("Feature");
        assert("Layer"@.len() != "Feature"@.len());
        if after.dom().contains(x) && x != p.layer.id && plans(p, x) {
            let all = plan_nodes(p);
            lemma_with_nodes(without_nodes(graph, replacements(layers, features, name)), all);
            let a = choose|a: int| 0 <= a < p.nodes.len() && (#[trigger] p.nodes[a]).id == x;
            assert(all[a + 1] == p.nodes[a]);
            assert(after[x].id == x);
        }
    }
}

/// After an import the features of the new layer are exactly the nodes of the plan, as many as the
/// report says.
pub proof fn report_counts_the_features(
    graph: Map<Seq<char>, NodeView>,
    layers: Seq<NodeView>,
    features: Seq<NodeView>,
    above: Seq<NodeView>,
    name: Seq<char>,
    display_name: Seq<char>,
    source: Seq<char>,
    fs: Seq<FeatureView>,
    ends: Seq<Vec<(Cell, Cell)>>,
    p: PlanView,
)
    requires
        is_plan_for(p, graph, layers, features, above, name, display_name, source, fs, ends),
    ensures
        ({
            let found = features_of(imported(graph, layers, features, name, p), p.layer.id);
            &&& found.finite()
            &&& forall|x: Seq<char>| #[trigger] found.contains(x) <==> plans(p, x)
            &&& p.report.get("feature_count"@) == Some(int_json(found.len() as int))
        }),
{
    let after = imported(graph, layers, features, name, p);
    let found = features_of(after, p.layer.id);
    let all = plan_nodes(p);
    let news = p.nodes.map_values(|n: NodeView| n.id);
    reveal_strlit("Layer");
    reveal_strlit("Feature");
    assert("Layer"@.len() != "Feature"@.len());
    assert(news.no_duplicates()) by {
        assert forall|i: int, j: int| 0 <= i < news.len() && 0 <= j < news.len() && i
            != j implies news[i] != news[j] by {
            assert(all[i + 1] == p.nodes[i] && all[j + 1] == p.nodes[j]);
            if i < j {
                assert(all[i + 1].id != all[j + 1].id);
            } else {
                assert(all[j + 1].id != all[i + 1].id);
            }
        }
    }
    assert forall|x: Seq<char>| #[trigger] found.contains(x) <==> plans(p, x) by {
        lemma_imported(
            graph,
            layers,
            features,
            above,
            name,
            display_name,
            source,
            fs,
            ends,
            p,
            x,
        );
    }
    assert forall|x: Seq<char>| #[trigger] news.contains(x) <==> plans(p, x) by {
        if news.contains(x) {
            let a = choose|a: int| 0 <= a < news.len() && news[a] == x;
            assert(p.nodes[a].id == x);
        }
        if plans(p, x) {
            let a = choose|a: int| 0 <= a < p.nodes.len() && (#[trigger] p.nodes[a]).id == x;
            assert(news[a] == x);
        }
    }
    assert(found =~= news.to_set());
    news.unique_seq_to_set();
    lemma_report(p, name, display_name, source, fs);
}

proof fn lemma_report(
    p: PlanView,
    name: Seq<char>,
    display_name: Seq<char>,
    source: Seq<char>,
    fs: Seq<FeatureView>,
)
    requires
        p.report == report_out(
            p.layer.id,
            name,
            display_name,
            layer_kind(fs),
            p.nodes.len() as int,
            source,
            nodes_bounds(p.nodes),
        ),
    ensures
        p.report.text_at("layer_id"@) == Some(p.layer.id),
        p.report.get("feature_count"@) == Some(int_json(p.nodes.len() as int)),
{
    reveal_strlit("layer_id");
    reveal_strlit("name");
    reveal_strlit("display_name");
    reveal_strlit("geometry_type");
    reveal_strlit("feature_count");
    reveal_strlit("source");
    reveal_strlit("bounds");
    assert("geometry_type"@[0] == 'g' && "feature_count"@[0] == 'f');
    let e0 = no_entries();
    assert(keys(e0) =~= Seq::empty());
    lemma_put(e0, "layer_id"@, str_json(p.layer.id));
    let e1 = put(e0, "layer_id"@, str_json(p.layer.id));
    lemma_put(e1, "name"@, str_json(name));
    let e2 = put(e1, "name"@, str_json(name));
    lemma_put(e2, "display_name"@, str_json(display_name));
    let e3 = put(e2, "display_name"@, str_json(display_name));
    lemma_put(e3, "geometry_type"@, str_json(layer_kind(fs)));
    let e4 = put(e3, "geometry_type"@, str_json(layer_kind(fs)));
    lemma_put(e4, "feature_count"@, int_json(p.nodes.len() as int));
    let e5 = put(e4, "feature_count"@, int_json(p.nodes.len() as int));
    lemma_put(e5, "source"@, str_json(source));
    let e6 = put(e5, "source"@, str_json(source));
    lemma_put(e6, "bounds"@, bounds_out(nodes_bounds(p.nodes)));
}

proof fn lemma_named_layer(layers: Seq<NodeView>, name: Seq<char>)
    ensures
        match named_layer(layers, name) {
            Some(l) => layers.contains(l) && l.name == name,
            None => forall|i: int| 0 <= i < layers.len() ==> (#[trigger] layers[i]).name != name,
        },
    decreases layers.len(),
{
    if layers.len() > 0 {
        if layers[0].name == name {
            assert(layers.contains(layers[0]));
        } else {
            let rest = layers.drop_first();
            lemma_named_layer(rest, name);
            match named_layer(rest, name) {
                Some(l) => {
                    let i = choose|i: int| 0 <= i < rest.len() && rest[i] == l;
                    assert(layers[i + 1] == l);
                },
                None => {
                    assert forall|i: int| 0 <= i < layers.len() implies (#[trigger] layers[i]).name
                        != name by {
                        if i > 0 {
                            assert(rest[i - 1] == layers[i]);
                        }
                    }
                },
            }
        }
    }
}

// ---------------------------------------------------------------------------
// Merging a stored layer in place
// ---------------------------------------------------------------------------

/// The name by which a stored feature is merged.
pub open spec fn stored_name(n: NodeView) -> Seq<char> {
    match own_name(n.properties) {
        Some(s) => trim(s),
        None => ""@,
    }
}

/// Whether a stored feature is a line or a polygon with a name that is not blank.
pub open spec fn is_named_node(n: NodeView) -> bool {
    n.geometry matches Some(g) && mergeable(kind_of(g), stored_name(n))
}

/// The merge key of a stored feature; one without a geometry has none.
pub open spec fn node_key(n: NodeView, i: int) -> Option<Seq<char>> {
    match n.geometry {
        Some(g) => Some(merge_key(kind_of(g), class_in(n.properties), stored_name(n), i)),
        None => None,
    }
}

pub open spec fn node_keys(nodes: Seq<NodeView>) -> Seq<Option<Seq<char>>> {
    Seq::new(nodes.len(), |i: int| node_key(nodes[i], i))
}

/// The stored features that become one, as places in the list of nodes.
pub open spec fn node_groups(nodes: Seq<NodeView>) -> Seq<Seq<int>> {
    groups_of(node_keys(nodes))
}

pub open spec fn node_geometries(nodes: Seq<NodeView>, g: Seq<int>) -> Seq<GeometryView> {
    g.map_values(|i: int| nodes[i].geometry->0)
}

pub open spec fn node_ids(nodes: Seq<NodeView>, g: Seq<int>) -> Seq<Seq<char>> {
    g.map_values(|i: int| nodes[i].id)
}

fn merge_name(n: &AttrNode) -> (r: String)
    ensures
        r@ == stored_name(n@),
{
    match given_name(&n.properties) {
        Some(s) => trimmed(s.as_str()),
        None => "".to_owned(),
    }
}

fn group_nodes(nodes: &Vec<AttrNode>) -> (r: Vec<Vec<usize>>)
    ensures
        groups_view(r@) == node_groups(nodes_view(nodes@)),
        forall|a: int|
            0 <= a < r@.len() ==> (#[trigger] r@[a])@.len() > 0 && forall|x: int|
                0 <= x < r@[a]@.len() ==> #[trigger] r@[a]@[x] < nodes@.len()
                    && nodes@[r@[a]@[x] as int].geometry is Some,
{
    let n = nodes.len();
    let ghost ns = nodes_view(nodes@);
    let mut ks: Vec<Option<String>> = Vec::new();
    let mut i: usize = 0;
    while i < n
        invariant
            i <= n,
            n == nodes@.len(),
            ns == nodes_view(nodes@),
            ks@.len() == i,
            forall|k: int| 0 <= k < i ==> opt_view(#[trigger] ks@[k]) == node_keys(ns)[k],
        decreases n - i,
    {
        let node = &nodes[i];
        match &node.geometry {
            Some(g) => {
                let name = merge_name(node);
                let class = class_text(&node.properties);
                ks.push(Some(make_key(geometry_kind(g), class.as_str(), name.as_str(), i)));
            },
            None => {
                ks.push(None);
            },
        }
        i += 1;
    }
    proof {
        assert(opt_texts(ks@) =~= node_keys(ns));
    }
    let r = group_by(&ks);
    proof {
        lemma_group_bounds(node_keys(ns), r@, n as int);
        assert forall|a: int| 0 <= a < r@.len() implies (#[trigger] r@[a])@.len() > 0
            && forall|x: int|
            0 <= x < r@[a]@.len() ==> #[trigger] r@[a]@[x] < nodes@.len()
                && nodes@[r@[a]@[x] as int].geometry is Some by {
            assert forall|x: int| 0 <= x < r@[a]@.len() implies #[trigger] r@[a]@[x] < nodes@.len()
                && nodes@[r@[a]@[x] as int].geometry is Some by {
                let p = r@[a]@[x] as int;
                assert(node_keys(ns)[p] is Some);
                assert(ns[p] == nodes@[p]@);
            }
        }
    }
    r
}

fn stored_geometries(nodes: &Vec<AttrNode>, group: &Vec<usize>) -> (r: Vec<Geometry>)
    requires
        forall|x: int|
            0 <= x < group@.len() ==> #[trigger] group@[x] < nodes@.len()
                && nodes@[group@[x] as int].geometry is Some,
    ensures
        geometries_view(r@) == node_geometries(nodes_view(nodes@), places_view(group@)),
{
    let n = group.len();
    let ghost ns = nodes_view(nodes@);
    let mut out: Vec<Geometry> = Vec::new();
    let mut i: usize = 0;
    while i < n
        invariant
            i <= n,
            n == group@.len(),
            ns == nodes_view(nodes@),
            forall|x: int|
                0 <= x < group@.len() ==> #[trigger] group@[x] < nodes@.len()
                    && nodes@[group@[x] as int].geometry is Some,
            out@.len() == i,
            forall|k: int|
                0 <= k < i ==> (#[trigger] out@[k])@ == ns[group@[k] as int].geometry->0,
        decreases n - i,
    {
        let at = group[i];
        match &nodes[at].geometry {
            Some(g) => {
                out.push(g.copy());
            },
            None => {
                assert(nodes@[group@[i as int] as int].geometry is Some);
            },
        }
        i += 1;
    }
    proof {
        assert(geometries_view(out@) =~= node_geometries(ns, places_view(group@)));
    }
    out
}

/// The lines of each group of stored features, whose ends have to be placed on the grid.
pub fn merge_lines(nodes: &Vec<AttrNode>) -> (r: Vec<Vec<Vec<Coord>>>)
    ensures
        r@.len() == node_groups(nodes_view(nodes@)).len(),
        forall|a: int|
            0 <= a < r@.len() ==> lines_view((#[trigger] r@[a])@) == all_lines(
                node_geometries(nodes_view(nodes@), node_groups(nodes_view(nodes@))[a]),
            ),
{
    let ghost ns = nodes_view(nodes@);
    let groups = group_nodes(nodes);
    let n = groups.len();
    let mut out: Vec<Vec<Vec<Coord>>> = Vec::new();
    let mut i: usize = 0;
    while i < n
        invariant
            i <= n,
            n == groups@.len(),
            ns == nodes_view(nodes@),
            groups_view(groups@) == node_groups(ns),
            forall|a: int|
                0 <= a < groups@.len() ==> (#[trigger] groups@[a])@.len() > 0 && forall|x: int|
                    0 <= x < groups@[a]@.len() ==> #[trigger] groups@[a]@[x] < nodes@.len()
                        && nodes@[groups@[a]@[x] as int].geometry is Some,
            out@.len() == i,
            forall|a: int|
                0 <= a < i ==> lines_view((#[trigger] out@[a])@) == all_lines(
                    node_geometries(ns, node_groups(ns)[a]),
                ),
        decreases n - i,
    {
        let group = &groups[i];
        proof {
            assert(groups_view(groups@)[i as int] == places_view(group@));
        }
        let geoms = stored_geometries(nodes, group);
        out.push(lines_of(&geoms));
        i += 1;
    }
    proof {
        assert(groups_view(groups@).len() == n);
    }
    out
}

/// The layer that stored features belong to, by the first of them.
pub open spec fn stored_layer_id(nodes: Seq<NodeView>) -> Seq<char> {
    if nodes.len() > 0 {
        match nodes[0].text_at("layer_id"@) {
            Some(s) => s,
            None => ""@,
        }
    } else {
        ""@
    }
}

/// The name of the node that stored features become.
pub open spec fn kept_name(n: NodeView) -> Seq<char> {
    match own_name(n.properties) {
        Some(s) => s,
        None => n.name,
    }
}

/// The node that a group of stored features becomes: lines and polygons of one name are one node
/// with the attributes of the first; any other feature is stored unchanged.
pub open spec fn is_merged_node(
    n: NodeView,
    layer_name: Seq<char>,
    nodes: Seq<NodeView>,
    g: Seq<int>,
    ends: Seq<(Cell, Cell)>,
) -> bool {
    let first = nodes[g[0]];
    if is_named_node(first) {
        &&& uuid_shape(n.id)
        &&& is_stamp(n.created_at)
        &&& is_stamp(n.updated_at)
        &&& n == (NodeView {
            subtype: Some(layer_name),
            ..feature_view(
                n.id,
                stored_layer_id(nodes),
                ""@,
                kept_name(first),
                merged(node_geometries(nodes, g), ends),
                first.properties,
                n.created_at,
                n.updated_at,
            )
        })
    } else {
        n == first
    }
}

/// What merging does to one group: the nodes that are deleted, and the node that is stored.
#[derive(Debug, PartialEq)]
pub struct MergeStep {
    pub delete: Vec<String>,
    pub store: AttrNode,
}

pub open spec fn merge_ends_match(nodes: Seq<NodeView>, ends: Seq<Vec<(Cell, Cell)>>) -> bool {
    &&& ends.len() == node_groups(nodes).len()
    &&& forall|a: int|
        0 <= a < ends.len() ==> (#[trigger] ends[a])@.len() == all_lines(
            node_geometries(nodes, node_groups(nodes)[a]),
        ).len()
}

fn is_named(n: &AttrNode) -> (r: bool)
    ensures
        r == is_named_node(n@),
{
    match &n.geometry {
        Some(g) => can_merge(geometry_kind(g), merge_name(n).as_str()),
        None => false,
    }
}

fn merge_step(
    layer_name: &str,
    layer_id: &str,
    nodes: &Vec<AttrNode>,
    group: &Vec<usize>,
    ends: &Vec<(Cell, Cell)>,
) -> (r: MergeStep)
    requires
        group@.len() > 0,
        forall|x: int|
            0 <= x < group@.len() ==> #[trigger] group@[x] < nodes@.len()
                && nodes@[group@[x] as int].geometry is Some,
        ends@.len() == all_lines(
            node_geometries(nodes_view(nodes@), places_view(group@)),
        ).len(),
        layer_id@ == stored_layer_id(nodes_view(nodes@)),
    ensures
        texts(r.delete@) == node_ids(nodes_view(nodes@), places_view(group@)),
        is_merged_node(
            r.store@,
            layer_name@,
            nodes_view(nodes@),
            places_view(group@),
            ends@,
        ),
{
    let ghost ns = nodes_view(nodes@);
    let n = group.len();
    let mut delete: Vec<String> = Vec::new();
    let mut i: usize = 0;
    while i < n
        invariant
            i <= n,
            n == group@.len(),
            ns == nodes_view(nodes@),
            forall|x: int| 0 <= x < group@.len() ==> #[trigger] group@[x] < nodes@.len(),
            delete@.len() == i,
            forall|k: int| 0 <= k < i ==> (#[trigger] delete@[k])@ == ns[group@[k] as int].id,
        decreases n - i,
    {
        delete.push(nodes[group[i]].id.clone());
        i += 1;
    }
    proof {
        assert(texts(delete@) =~= node_ids(ns, places_view(group@)));
    }
    let at = group[0];
    proof {
        assert(places_view(group@)[0] == at);
        assert(ns[at as int] == nodes@[at as int]@);
    }
    let first = &nodes[at];
    if is_named(first) {
        let geoms = stored_geometries(nodes, group);
        let geometry = merge_geometries(&geoms, ends);
        let name = match given_name(&first.properties) {
            Some(s) => s,
            None => first.name.clone(),
        };
        let mut store = feature_node(layer_id, "", name.as_str(), &geometry, &first.properties);
        store.subtype = Some(layer_name.to_owned());
        MergeStep { delete, store }
    } else {
        MergeStep { delete, store: first.copy() }
    }
}

/// What coalescing a layer does: a step for each group, in order of the merge keys.
pub open spec fn are_merge_steps(
    steps: Seq<MergeStep>,
    layer_name: Seq<char>,
    nodes: Seq<NodeView>,
    ends: Seq<Vec<(Cell, Cell)>>,
) -> bool {
    &&& steps.len() == node_groups(nodes).len()
    &&& forall|a: int|
        0 <= a < steps.len() ==> texts((#[trigger] steps[a]).delete@) == node_ids(
            nodes,
            node_groups(nodes)[a],
        ) && is_merged_node(
            steps[a].store@,
            layer_name,
            nodes,
            node_groups(nodes)[a],
            ends[a]@,
        )
}

/// Coalesces the stored features of a layer: for each group, in order of the merge keys, its
/// nodes are deleted and one node is stored. `ends` gives the grid cells in which the lines of
/// [`merge_lines`] start and end.
pub fn merge_layer(layer_name: &str, nodes: &Vec<AttrNode>, ends: &Vec<Vec<(Cell, Cell)>>) -> (r:
    Vec<MergeStep>)
    requires
        merge_ends_match(nodes_view(nodes@), ends@),
    ensures
        are_merge_steps(r@, layer_name@, nodes_view(nodes@), ends@),
{
    let ghost ns = nodes_view(nodes@);
    let layer_id = if nodes.len() > 0 {
        proof {
            assert(ns[0] == nodes@[0]@);
        }
        match nodes[0].text_at("layer_id") {
            Some(s) => s.clone(),
            None => "".to_owned(),
        }
    } else {
        "".to_owned()
    };
    let groups = group_nodes(nodes);
    let n = groups.len();
    let mut out: Vec<MergeStep> = Vec::new();
    let mut i: usize = 0;
    proof {
        assert(groups_view(groups@).len() == n);
    }
    while i < n
        invariant
            i <= n,
            n == groups@.len(),
            ns == nodes_view(nodes@),
            layer_id@ == stored_layer_id(ns),
            groups_view(groups@) == node_groups(ns),
            merge_ends_match(ns, ends@),
            ends@.len() == n,
            forall|a: int|
                0 <= a < groups@.len() ==> (#[trigger] groups@[a])@.len() > 0 && forall|x: int|
                    0 <= x < groups@[a]@.len() ==> #[trigger] groups@[a]@[x] < nodes@.len()
                        && nodes@[groups@[a]@[x] as int].geometry is Some,
            out@.len() == i,
            forall|a: int|
                0 <= a < i ==> texts((#[trigger] out@[a]).delete@) == node_ids(
                    ns,
                    node_groups(ns)[a],
                ) && is_merged_node(
                    out@[a].store@,
                    layer_name@,
                    ns,
                    node_groups(ns)[a],
                    ends@[a]@,
                ),
        decreases n - i,
    {
        proof {
            assert(groups_view(groups@)[i as int] == places_view(groups@[i as int]@));
            assert(ends@[i as int]@.len() == all_lines(
                node_geometries(ns, node_groups(ns)[i as int]),
            ).len());
        }
        out.push(merge_step(layer_name, layer_id.as_str(), nodes, &groups[i], &ends[i]));
        i += 1;
    }
    out
}

/// The report of a merge.
pub open spec fn merge_report_out(name: Seq<char>, deleted: int, stored: int) -> JsonView {
    let e = put(no_entries(), "name"@, str_json(name));
    let e = put(e, "deleted"@, int_json(deleted));
    JsonView::Object(put(e, "stored"@, int_json(stored)))
}

/// Whether cells are given for exactly the lines of the stored features.
pub fn merge_ends_fit(nodes: &Vec<AttrNode>, ends: &Vec<Vec<(Cell, Cell)>>) -> (r: bool)
    ensures
        r == merge_ends_match(nodes_view(nodes@), ends@),
{
    let lines = merge_lines(nodes);
    proof {
        let ns = nodes_view(nodes@);
        assert forall|a: int| 0 <= a < lines@.len() implies (#[trigger] lines@[a])@.len()
            == all_lines(node_geometries(ns, node_groups(ns)[a])).len() by {
            assert(lines_view(lines@[a]@).len() == lines@[a]@.len());
        }
    }
    cells_fit(&lines, ends)
}

/// Coalesces the stored features of a layer as [`merge_layer`] does, where the cells are those of
/// the lines; nothing else.
pub fn checked_merge(layer_name: &str, nodes: &Vec<AttrNode>, ends: &Vec<Vec<(Cell, Cell)>>) -> (r:
    Option<Vec<MergeStep>>)
    ensures
        r is Some <==> merge_ends_match(nodes_view(nodes@), ends@),
        r matches Some(steps) ==> are_merge_steps(
            steps@,
            layer_name@,
            nodes_view(nodes@),
            ends@,
        ),
{
    if merge_ends_fit(nodes, ends) {
        Some(merge_layer(layer_name, nodes, ends))
    } else {
        None
    }
}

/// Every stored feature with a geometry is deleted by exactly one step of a merge, which stores
/// the shape that it goes into; one without a geometry is left alone.
pub proof fn merge_takes_each_feature_once(nodes: Seq<NodeView>, i: int)
    requires
        0 <= i < nodes.len(),
    ensures
        nodes[i].geometry is Some ==> exists|a: int|
            0 <= a < node_groups(nodes).len() && (#[trigger] node_groups(nodes)[a]).contains(i),
        forall|a: int, b: int|
            0 <= a < node_groups(nodes).len() && 0 <= b < node_groups(nodes).len()
                && #[trigger] node_groups(nodes)[a].contains(i)
                && #[trigger] node_groups(nodes)[b].contains(i) ==> a == b,
        nodes[i].geometry is None ==> forall|a: int|
            0 <= a < node_groups(nodes).len() ==> !(#[trigger] node_groups(nodes)[a]).contains(i),
{
    let ks = node_keys(nodes);
    if nodes[i].geometry is Some {
        let a = each_in_exactly_one_group(ks, i);
        assert(node_groups(nodes)[a].contains(i));
    } else {
        assert forall|a: int| 0 <= a < node_groups(nodes).len() implies !(#[trigger] node_groups(
            nodes,
        )[a]).contains(i) by {
            lemma_group_places(ks, a);
            let g = node_groups(nodes)[a];
            if g.contains(i) {
                let x = choose|x: int| 0 <= x < g.len() && g[x] == i;
                assert(ks[g[x]] is Some);
            }
        }
    }
    assert forall|a: int, b: int|
        0 <= a < node_groups(nodes).len() && 0 <= b < node_groups(nodes).len()
            && #[trigger] node_groups(nodes)[a].contains(i)
            && #[trigger] node_groups(nodes)[b].contains(i) implies a == b by {
        if a < b {
            groups_share_nothing(ks, a, b);
        } else if b < a {
            groups_share_nothing(ks, b, a);
        }
    }
}

/// A merge stores points, geometries of another kind and features without a name unchanged, each
/// in a step of its own.
pub proof fn unnamed_are_stored_unchanged(
    steps: Seq<MergeStep>,
    layer_name: Seq<char>,
    nodes: Seq<NodeView>,
    ends: Seq<Vec<(Cell, Cell)>>,
    i: int,
) -> (a: int)
    requires
        are_merge_steps(steps, layer_name, nodes, ends),
        0 <= i < nodes.len(),
        nodes[i].geometry is Some,
        !is_named_node(nodes[i]),
    ensures
        0 <= a < steps.len(),
        texts(steps[a].delete@) == seq![nodes[i].id],
        steps[a].store@ == nodes[i],
{
    let ks = node_keys(nodes);
    let a = each_in_exactly_one_group(ks, i);
    let g = node_groups(nodes)[a];
    groups_are_by_key(ks, i, ks[i]->0);
    assert forall|x: int| 0 <= x < g.len() implies #[trigger] g[x] == i by {
        assert(ks[g[x]] == ks[i]);
        lemma_solo_alone(nodes, i, g[x]);
    }
    if g.len() > 1 {
        assert(g[0] < g[1]);
    }
    assert(g =~= seq![i]);
    assert(node_ids(nodes, g) =~= seq![nodes[i].id]);
    a
}

proof fn lemma_solo_alone(nodes: Seq<NodeView>, i: int, j: int)
    requires
        0 <= i < nodes.len(),
        0 <= j < nodes.len(),
        nodes[i].geometry is Some,
        !is_named_node(nodes[i]),
        node_key(nodes[i], i) == node_key(nodes[j], j),
    ensures
        i == j,
{
    reveal_strlit("solo");
    reveal_strlit("LineString");
    reveal_strlit("Polygon");
    let k = node_key(nodes[i], i)->0;
    assert(k[0] == "solo"@[0]);
    if is_named_node(nodes[j]) {
        assert(node_key(nodes[j], j)->0[0] == kind_of(nodes[j].geometry->0)[0]);
    }
    lemma_solo_same(i as nat, j as nat);
}

/// Two named lines or polygons of a stored layer go into one node exactly where kind, class and
/// trimmed name agree.
pub proof fn stored_namesakes_are_merged(nodes: Seq<NodeView>, i: int, j: int)
    requires
        0 <= i < nodes.len(),
        0 <= j < nodes.len(),
        is_named_node(nodes[i]),
        is_named_node(nodes[j]),
    ensures
        exists|a: int|
            0 <= a < node_groups(nodes).len() && (#[trigger] node_groups(nodes)[a]).contains(i) && (
            node_groups(nodes)[a].contains(j) <==> kind_of(nodes[i].geometry->0) == kind_of(
                nodes[j].geometry->0,
            ) && class_in(nodes[i].properties) == class_in(nodes[j].properties) && stored_name(
                nodes[i],
            ) == stored_name(nodes[j])),
{
    let ks = node_keys(nodes);
    lemma_same_stored_identity(nodes[i], i, nodes[j], j);
    lemma_group_of(ks, i, j);
    let a = each_in_exactly_one_group(ks, i);
    assert(node_groups(nodes)[a].contains(i));
}

/// By what a named node is merged: its kind, its class and its trimmed name.
pub open spec fn stored_identity(n: NodeView) -> (Seq<char>, Seq<char>, Seq<char>) {
    (kind_of(n.geometry->0), class_in(n.properties), stored_name(n))
}

/// The identities of the named lines and polygons of a stored layer.
pub open spec fn stored_identities(nodes: Seq<NodeView>) -> Set<(Seq<char>, Seq<char>, Seq<char>)>
    decreases nodes.len(),
{
    if nodes.len() == 0 {
        Set::empty()
    } else if is_named_node(nodes.last()) {
        stored_identities(nodes.drop_last()).insert(stored_identity(nodes.last()))
    } else {
        stored_identities(nodes.drop_last())
    }
}

/// How many stored shapes stay by themselves.
pub open spec fn stored_alone_count(nodes: Seq<NodeView>) -> nat
    decreases nodes.len(),
{
    if nodes.len() == 0 {
        0
    } else {
        let n = nodes.last();
        stored_alone_count(nodes.drop_last()) + if n.geometry is Some && !is_named_node(n) {
            1nat
        } else {
            0nat
        }
    }
}

proof fn lemma_stored_identities(nodes: Seq<NodeView>, x: (Seq<char>, Seq<char>, Seq<char>))
    ensures
        stored_identities(nodes).finite(),
        stored_identities(nodes).contains(x) <==> exists|j: int|
            0 <= j < nodes.len() && is_named_node(#[trigger] nodes[j]) && stored_identity(nodes[j])
                == x,
    decreases nodes.len(),
{
    if nodes.len() > 0 {
        let d = nodes.drop_last();
        lemma_stored_identities(d, x);
        if stored_identities(d).contains(x) {
            let j = choose|j: int|
                0 <= j < d.len() && is_named_node(#[trigger] d[j]) && stored_identity(d[j]) == x;
            assert(nodes[j] == d[j]);
        }
        assert forall|j: int|
            0 <= j < nodes.len() && is_named_node(#[trigger] nodes[j]) && stored_identity(nodes[j])
                == x implies stored_identities(nodes).contains(x) by {
            if j < d.len() {
                assert(d[j] == nodes[j]);
            }
        }
    }
}

/// A merge stores one node for each kind, class and name of a line or a polygon, and one for each
/// shape that stays by itself.
pub proof fn one_stored_node_for_each_identity(nodes: Seq<NodeView>)
    ensures
        stored_identities(nodes).finite(),
        node_groups(nodes).len() == stored_identities(nodes).len() + stored_alone_count(nodes),
    decreases nodes.len(),
{
    let ks = node_keys(nodes);
    if nodes.len() == 0 {
        assert(ks =~= Seq::empty());
    } else {
        let d = nodes.drop_last();
        let i = nodes.len() - 1;
        let n = nodes.last();
        one_stored_node_for_each_identity(d);
        lemma_stored_identities(nodes, stored_identity(n));
        lemma_stored_identities(d, stored_identity(n));
        assert(ks.drop_last() =~= node_keys(d));
        if let Some(k) = node_key(n, i) {
            a_new_key_makes_a_group(ks, k);
            if node_keys(d).contains(Some(k)) {
                let j = choose|j: int| 0 <= j < d.len() && node_keys(d)[j] == Some(k);
                assert(nodes[j] == d[j]);
                if !is_named_node(n) {
                    lemma_solo_alone(nodes, i, j);
                }
                if !is_named_node(d[j]) {
                    lemma_solo_alone(nodes, j, i);
                }
                lemma_same_stored_identity(n, i, d[j], j);
                assert(stored_identities(d).contains(stored_identity(n)));
            }
            if is_named_node(n) && stored_identities(d).contains(stored_identity(n)) {
                let j = choose|j: int|
                    0 <= j < d.len() && is_named_node(#[trigger] d[j]) && stored_identity(d[j])
                        == stored_identity(n);
                lemma_same_stored_identity(n, i, d[j], j);
                assert(node_keys(d)[j] == Some(k));
            }
        }
    }
}

proof fn lemma_same_stored_identity(m: NodeView, i: int, n: NodeView, j: int)
    requires
        is_named_node(m),
        is_named_node(n),
    ensures
        node_key(m, i) == node_key(n, j) <==> stored_identity(m) == stored_identity(n),
{
    lemma_same_key(
        kind_of(m.geometry->0),
        class_in(m.properties),
        stored_name(m),
        i,
        kind_of(n.geometry->0),
        class_in(n.properties),
        stored_name(n),
        j,
    );
}

/// How many nodes a merge deletes.
pub open spec fn deleted_count(steps: Seq<MergeStep>) -> nat
    decreases steps.len(),
{
    if steps.len() == 0 {
        0
    } else {
        deleted_count(steps.drop_last()) + steps.last().delete@.len()
    }
}

/// How many features have a geometry.
pub open spec fn shape_count(nodes: Seq<NodeView>) -> nat
    decreases nodes.len(),
{
    if nodes.len() == 0 {
        0
    } else {
        shape_count(nodes.drop_last()) + if nodes.last().geometry is Some {
            1nat
        } else {
            0nat
        }
    }
}

proof fn lemma_shape_count(nodes: Seq<NodeView>)
    ensures
        keyed_count(node_keys(nodes)) == shape_count(nodes),
    decreases nodes.len(),
{
    if nodes.len() > 0 {
        lemma_shape_count(nodes.drop_last());
        assert(node_keys(nodes).drop_last() =~= node_keys(nodes.drop_last()));
    }
}

proof fn lemma_deleted_count(steps: Seq<MergeStep>, nodes: Seq<NodeView>, gs: Seq<Seq<int>>)
    requires
        steps.len() == gs.len(),
        forall|a: int|
            0 <= a < steps.len() ==> texts((#[trigger] steps[a]).delete@) == node_ids(nodes, gs[a]),
    ensures
        deleted_count(steps) == total_len(gs),
    decreases steps.len(),
{
    if steps.len() > 0 {
        let d = steps.drop_last();
        let n = steps.len() - 1;
        assert forall|a: int| 0 <= a < d.len() implies texts((#[trigger] d[a]).delete@)
            == node_ids(nodes, gs.drop_last()[a]) by {
            assert(texts(steps[a].delete@) == node_ids(nodes, gs[a]));
        }
        lemma_deleted_count(d, nodes, gs.drop_last());
        assert(texts(steps[n].delete@) == node_ids(nodes, gs[n]));
        assert(texts(steps[n].delete@).len() == steps[n].delete@.len());
        assert(node_ids(nodes, gs[n]).len() == gs[n].len());
    }
}

/// A merge deletes as many nodes as features have a geometry.
pub proof fn merge_deletes_every_shape(
    steps: Seq<MergeStep>,
    layer_name: Seq<char>,
    nodes: Seq<NodeView>,
    ends: Seq<Vec<(Cell, Cell)>>,
)
    requires
        are_merge_steps(steps, layer_name, nodes, ends),
    ensures
        deleted_count(steps) == shape_count(nodes),
{
    lemma_deleted_count(steps, nodes, node_groups(nodes));
    groups_hold_every_item(node_keys(nodes));
    lemma_shape_count(nodes);
}

/// The node that a step stores for a named group has the key of the group.
proof fn lemma_stored_key(
    steps: Seq<MergeStep>,
    layer_name: Seq<char>,
    nodes: Seq<NodeView>,
    ends: Seq<Vec<(Cell, Cell)>>,
    a: int,
    i: int,
)
    requires
        are_merge_steps(steps, layer_name, nodes, ends),
        merge_ends_match(nodes, ends),
        0 <= a < steps.len(),
        are_stored_properties(nodes[node_groups(nodes)[a][0]].properties),
    ensures
        ({
            let first = node_groups(nodes)[a][0];
            &&& 0 <= first < nodes.len()
            &&& node_groups(nodes)[a].contains(first)
            &&& nodes[first].geometry is Some
            &&& is_named_node(steps[a].store@) == is_named_node(nodes[first])
            &&& steps[a].store@.geometry is Some
            &&& is_named_node(nodes[first]) ==> node_key(steps[a].store@, i) == node_key(
                nodes[first],
                first,
            )
        }),
{
    let ks = node_keys(nodes);
    let g = node_groups(nodes)[a];
    lemma_group_places(ks, a);
    let first = g[0];
    assert(ks[g[0]] is Some);
    assert(g.contains(first));
    let n = steps[a].store@;
    assert(is_merged_node(n, layer_name, nodes, g, ends[a]@));
    if is_named_node(nodes[first]) {
        let e = nodes[first].properties;
        reveal_strlit("layer_id");
        reveal_strlit("source_id");
        reveal_strlit("NAME");
        reveal_strlit("Name");
        reveal_strlit("FOLDERPATH");
        assert("layer_id"@.len() == 8 && "source_id"@.len() == 9 && "NAME"@.len() == 4
            && "Name"@.len() == 4 && "FOLDERPATH"@.len() == 10);
        let l = stored_layer_id(nodes);
        stored_attributes_are_kept(e, l, ""@, "NAME"@);
        stored_attributes_are_kept(e, l, ""@, "Name"@);
        stored_attributes_are_kept(e, l, ""@, "FOLDERPATH"@);
        let gs = node_geometries(nodes, g);
        let kind = kind_of(nodes[first].geometry->0);
        assert forall|x: int| 0 <= x < gs.len() implies kind_of(#[trigger] gs[x]) == kind by {
            assert(g.contains(g[x]));
            lemma_group_shares_key(ks, a, first, g[x]);
            lemma_same_kind(nodes, first, g[x]);
        }
        merging_keeps_the_kind(gs, ends[a]@, kind);
    }
}

/// A feature with the key of a named one is of its kind.
proof fn lemma_same_kind(nodes: Seq<NodeView>, i: int, j: int)
    requires
        0 <= i < nodes.len(),
        0 <= j < nodes.len(),
        is_named_node(nodes[i]),
        node_key(nodes[i], i) == node_key(nodes[j], j),
    ensures
        nodes[j].geometry is Some,
        kind_of(nodes[j].geometry->0) == kind_of(nodes[i].geometry->0),
{
    reveal_strlit("LineString");
    reveal_strlit("Polygon");
    reveal_strlit("solo");
    let k = node_key(nodes[i], i)->0;
    let (a, b) = (kind_of(nodes[i].geometry->0), kind_of(nodes[j].geometry->0));
    assert(k[0] == a[0]);
    if is_named_node(nodes[j]) {
        assert(node_key(nodes[j], j)->0[0] == b[0]);
    } else {
        assert(node_key(nodes[j], j)->0[0] == "solo"@[0]);
    }
}

/// A second merge joins nothing: of the features that a merge has left, in whatever order, each is
/// in a group of its own. `from` tells which step has stored a feature; it is negative for one
/// without a geometry.
pub proof fn second_merge_joins_nothing(
    steps: Seq<MergeStep>,
    layer_name: Seq<char>,
    nodes: Seq<NodeView>,
    ends: Seq<Vec<(Cell, Cell)>>,
    left: Seq<NodeView>,
    from: Seq<int>,
    b: int,
)
    requires
        are_merge_steps(steps, layer_name, nodes, ends),
        merge_ends_match(nodes, ends),
        forall|i: int|
            0 <= i < nodes.len() ==> are_stored_properties((#[trigger] nodes[i]).properties),
        from.len() == left.len(),
        forall|j: int|
            0 <= j < left.len() ==> (#[trigger] from[j] < 0 && left[j].geometry is None) || (0
                <= from[j] < steps.len() && left[j] == steps[from[j]].store@),
        forall|i: int, j: int|
            0 <= i < j < left.len() && #[trigger] from[i] >= 0 ==> from[i] != #[trigger] from[j],
        0 <= b < node_groups(left).len(),
    ensures
        node_groups(left)[b].len() == 1,
{
    let ks = node_keys(left);
    let g = node_groups(left)[b];
    lemma_group_places(ks, b);
    if g.len() > 1 {
        let (x, y) = (g[0], g[1]);
        assert(g.contains(g[0]) && g.contains(g[1]));
        lemma_group_shares_key(ks, b, x, y);
        groups_are_by_key(ks, x, ks[x]->0);
        let c = each_in_exactly_one_group(ks, x);
        assert(c == b);
        assert(g[0] < g[1]);
        assert(from[x] >= 0 && from[y] >= 0);
        let (p, q) = (from[x], from[y]);
        let old = node_keys(nodes);
        let (gp, gq) = (node_groups(nodes)[p], node_groups(nodes)[q]);
        lemma_group_places(old, p);
        lemma_group_places(old, q);
        assert(0 <= gp[0] < nodes.len() && 0 <= gq[0] < nodes.len());
        lemma_stored_key(steps, layer_name, nodes, ends, p, x);
        lemma_stored_key(steps, layer_name, nodes, ends, q, y);
        if !is_named_node(left[x]) {
            lemma_solo_alone(left, x, y);
        } else if !is_named_node(left[y]) {
            lemma_solo_alone(left, y, x);
        } else {
            let (i, j) = (gp[0], gq[0]);
            assert(old[i] == old[j]);
            let r = each_in_exactly_one_group(old, i);
            assert(r == p);
            groups_are_by_key(old, i, old[i]->0);
            assert(gp.contains(j));
            let t = each_in_exactly_one_group(old, j);
            assert(t == q);
            assert(p == q);
            assert(from[x] != from[y]);
        }
    }
}

/// A second merge stores what a merge has stored as it is, but for its id and its times; chains
/// that stand side by side have to lie apart, as those do that come from tracing.
pub proof fn second_merge_keeps_the_shape(
    nodes: Seq<NodeView>,
    g: Seq<int>,
    ends: Seq<(Cell, Cell)>,
    layer_name: Seq<char>,
    left: Seq<NodeView>,
    i: int,
    ends2: Seq<(Cell, Cell)>,
    again: NodeView,
)
    requires
        0 <= i < left.len(),
        is_merged_node(left[i], layer_name, nodes, g, ends),
        is_named_node(nodes[g[0]]),
        is_merged_node(again, layer_name, left, seq![i], ends2),
        ends2.len() == all_lines(seq![left[i].geometry->0]).len(),
        stored_layer_id(left) == stored_layer_id(nodes),
        match left[i].geometry->0 {
            GeometryView::MultiPoint(cs) => cs.len() != 1,
            GeometryView::MultiPolygon(ps) => ps.len() != 1,
            GeometryView::MultiLineString(ls) => lines_apart(ls, ends2),
            GeometryView::Line(_, _) => false,
            _ => true,
        },
        are_stored_properties(nodes[g[0]].properties),
    ensures
        again == (NodeView {
            id: again.id,
            created_at: again.created_at,
            updated_at: again.updated_at,
            ..left[i]
        }),
{
    let n = left[i];
    let shape = n.geometry->0;
    lone_part_is_unchanged(shape, ends2);
    assert(node_geometries(left, seq![i]) =~= seq![shape]);
    let l = stored_layer_id(nodes);
    let e = nodes[g[0]].properties;
    stored_properties_are_kept(l, ""@, e);
    reveal_strlit("layer_id");
    reveal_strlit("source_id");
    reveal_strlit("NAME");
    reveal_strlit("Name");
    assert("layer_id"@.len() == 8 && "source_id"@.len() == 9 && "NAME"@.len() == 4 && "Name"@.len()
        == 4);
    stored_attributes_are_kept(e, l, ""@, "NAME"@);
    stored_attributes_are_kept(e, l, ""@, "Name"@);
    if is_named_node(n) {
        assert(own_name(n.properties) == own_name(e));
        assert(again.properties == n.properties);
        assert(again.name == n.name);
        assert(again.geometry == n.geometry);
    }
}

/// The report of a merge: how many nodes it deletes and how many it stores. The counts are those
/// of the steps, of which no more can be reported than a `u64` holds.
pub fn merge_report(layer_name: &str, steps: &Vec<MergeStep>) -> (r: Json)
    requires
        deleted_count(steps@) <= u64::MAX,
    ensures
        r@ == merge_report_out(layer_name@, deleted_count(steps@) as int, steps@.len() as int),
{
    let n = steps.len();
    let mut deleted: u64 = 0;
    let mut i: usize = 0;
    while i < n
        invariant
            i <= n,
            n == steps@.len(),
            deleted == deleted_count(steps@.take(i as int)),
            deleted_count(steps@) <= u64::MAX,
        decreases n - i,
    {
        proof {
            assert(steps@.take(i + 1).drop_last() =~= steps@.take(i as int));
            assert(steps@.take(i + 1).last() == steps@[i as int]);
            lemma_deleted_grows(steps@, i + 1);
        }
        deleted += steps[i].delete.len() as u64;
        i += 1;
    }
    proof {
        assert(steps@.take(n as int) =~= steps@);
    }
    let mut o = JsonObject::new();
    o.set("name", Json::text(layer_name));
    o.set("deleted", Json::from_u64(deleted));
    o.set("stored", Json::from_u64(n as u64));
    Json::object(o)
}

proof fn lemma_deleted_grows(steps: Seq<MergeStep>, i: int)
    requires
        0 <= i <= steps.len(),
    ensures
        deleted_count(steps.take(i)) <= deleted_count(steps),
    decreases steps.len() - i,
{
    if i == steps.len() {
        assert(steps.take(i) =~= steps);
    } else {
        assert(steps.take(i + 1).drop_last() =~= steps.take(i));
        lemma_deleted_grows(steps, i + 1);
    }
}

} // verus!
