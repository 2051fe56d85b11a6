//! Imports and merges: the names, the types, the nodes and the reports that they make.

use vstd::prelude::*;

#[allow(unused_imports)]
use crate::actors::import::{
    all_of_type, class_in, dataset_layer_names, deleted_count, feature_groups, feature_key,
    feature_keys, file_layer_names, highest_z, is_group_node, is_import_layer, is_merged_node,
    is_named_node, kinds_are_distinct, kinds_of, layer_kind, merge_report_out, name_of, named_layer,
    namesakes_are_merged, next_z, node_groups, ops_of, own_name, replacements, report_out,
    schema_is_what_is_stored, schema_of, shape_count, slug, source_id_of, stored_layer_id,
    stored_namesakes_are_merged, stored_value, stores_type, unnamed_stay_alone, ImportOpView,
    PlanView,
};
#[allow(unused_imports)]
use crate::actors::layer::bounds_out;
#[allow(unused_imports)]
use crate::chains::{merged, Cell};
#[allow(unused_imports)]
use crate::geometry::{BoundsView, GeometryView};
#[allow(unused_imports)]
use crate::grouping::each_in_exactly_one_group;
#[allow(unused_imports)]
use crate::json::{int_json, no_entries, number_text, str_json, Entries, JsonView, NumberView};
#[allow(unused_imports)]
use crate::laws::attributes::a_layer_holds_its_settings;
#[allow(unused_imports)]
use crate::laws::catalog::{a_layer_goes_with_its_features, is_under};
#[allow(unused_imports)]
use crate::models::geojson::FeatureView;
#[allow(unused_imports)]
use crate::models::{
    feature_keeps_its_layer, kind_of, layer_properties, safe_attributes, style_for, NodeView,
};
#[allow(unused_imports)]
use crate::text::{alphanumeric, decimal, trim};
#[allow(unused_imports)]
use crate::textmap::{has_key, keys, lemma_put, lookup, put};

verus! {

// ---------------------------------------------------------------------------
// Names of layers
// ---------------------------------------------------------------------------

/// Text without a letter or a digit.
pub open spec fn is_gap(s: Seq<char>) -> bool {
    forall|i: int| 0 <= i < s.len() ==> !alphanumeric(#[trigger] s[i])
}

/// Text of letters and digits alone.
pub open spec fn is_word(s: Seq<char>) -> bool {
    forall|i: int| 0 <= i < s.len() ==> alphanumeric(#[trigger] s[i])
}

/// A character with ASCII letters lowered.
pub open spec fn lowered(c: char) -> char {
    if 'A' <= c && c <= 'Z' {
        ((c as u32) + 32) as char
    } else {
        c
    }
}

/// Letters and digits go into a name as they stand, in lower case.
pub proof fn a_word_is_lowered(a: Seq<char>, w: Seq<char>)
    requires
        is_word(w),
    ensures
        slug(a + w) == slug(a) + w.map_values(|c: char| lowered(c)),
    decreases w.len(),
{
    let f = |c: char| lowered(c);
    if w.len() == 0 {
        assert(a + w =~= a);
        assert(slug(a) + w.map_values(f) =~= slug(a));
    } else {
        let d = w.drop_last();
        assert forall|i: int| 0 <= i < d.len() implies alphanumeric(#[trigger] d[i]) by {
            assert(alphanumeric(w[i]));
        }
        a_word_is_lowered(a, d);
        let s = a + w;
        assert(s.drop_last() =~= a + d);
        assert(s.last() == w[w.len() - 1]);
        assert(alphanumeric(w[w.len() - 1]));
        assert(slug(s) =~= slug(a) + w.map_values(f));
    }
}

proof fn lemma_gap(a: Seq<char>, g: Seq<char>)
    requires
        is_gap(g),
        g.len() > 0,
    ensures
        a.len() > 0 && alphanumeric(a.last()) ==> slug(a + g) == slug(a).push('-'),
        slug(a).len() == 0 ==> slug(a + g).len() == 0,
    decreases g.len(),
{
    let s = a + g;
    let d = g.drop_last();
    assert(s.last() == g[g.len() - 1]);
    assert(!alphanumeric(g[g.len() - 1]));
    assert(s.drop_last() =~= a + d);
    assert forall|i: int| 0 <= i < d.len() implies !alphanumeric(#[trigger] d[i]) by {
        assert(!alphanumeric(g[i]));
    }
    if d.len() == 0 {
        assert(a + d =~= a);
        if a.len() > 0 && alphanumeric(a.last()) {
            assert(s[s.len() - 2] == a.last());
            assert(slug(a).len() > 0);
        }
    } else {
        lemma_gap(a, d);
        assert(s[s.len() - 2] == g[g.len() - 2]);
        assert(!alphanumeric(g[g.len() - 2]));
    }
}

/// Whatever stands between two words becomes one hyphen, however long it is.
pub proof fn a_gap_becomes_a_hyphen(a: Seq<char>, g: Seq<char>, w: Seq<char>)
    requires
        a.len() > 0,
        alphanumeric(a.last()),
        g.len() > 0,
        is_gap(g),
        is_word(w),
    ensures
        slug(a + g) == slug(a).push('-'),
        slug(a + g + w) == slug(a).push('-') + w.map_values(|c: char| lowered(c)),
{
    lemma_gap(a, g);
    a_word_is_lowered(a + g, w);
}

/// What stands before the first word leaves nothing.
pub proof fn a_gap_in_front_is_dropped(g: Seq<char>, w: Seq<char>)
    requires
        is_gap(g),
        is_word(w),
    ensures
        slug(g) == Seq::<char>::empty(),
        slug(g + w) == w.map_values(|c: char| lowered(c)),
{
    if g.len() > 0 {
        lemma_gap(Seq::empty(), g);
        assert(Seq::<char>::empty() + g =~= g);
    }
    assert(slug(g) =~= Seq::<char>::empty());
    a_word_is_lowered(g, w);
    assert(slug(g) + w.map_values(|c: char| lowered(c)) =~= w.map_values(|c: char| lowered(c)));
}

/// A layer has the name that it is given. Without one, a file gives it: from the title, else from
/// the name of the file, written plainly where that leaves anything. It is shown by its title,
/// else by its name.
pub proof fn layers_are_named(
    stem: Seq<char>,
    name: Option<Seq<char>>,
    display: Option<Seq<char>>,
)
    ensures
        name matches Some(n) ==> file_layer_names(stem, name, display).0 == n
            && dataset_layer_names(name, display).0 == n,
        name is None && display is None ==> file_layer_names(stem, name, display).0 == (if slug(
            stem,
        ).len() > 0 {
            slug(stem)
        } else {
            stem
        }),
        name is None && (display matches Some(d) && slug(d).len() > 0) ==> file_layer_names(
            stem,
            name,
            display,
        ).0 == slug(display->0),
        name is None && (display matches Some(d) && slug(d).len() == 0) ==> file_layer_names(
            stem,
            name,
            display,
        ).0 == stem,
        name is None ==> dataset_layer_names(name, display).0 == "data-gov-layer"@,
        display matches Some(d) ==> file_layer_names(stem, name, display).1 == trim(d)
            && dataset_layer_names(name, display).1 == trim(d),
        display is None ==> file_layer_names(stem, name, display).1 == trim(
            file_layer_names(stem, name, display).0,
        ) && dataset_layer_names(name, display).1 == trim(dataset_layer_names(name, display).0),
{
}

// ---------------------------------------------------------------------------
// Names of features
// ---------------------------------------------------------------------------

/// The name that a feature has: the text under `NAME`, or under `Name` where there is no `NAME`.
pub open spec fn is_given_name(e: Entries, s: Seq<char>) -> bool {
    match lookup(e, "NAME"@) {
        Some(v) => v == JsonView::Str(s),
        None => lookup(e, "Name"@) == Some(JsonView::Str(s)),
    }
}

/// The number that a feature has: under `OBJECTID`, else under `objectid`, else under `FID`.
pub open spec fn numbered_by(e: Entries) -> Option<JsonView> {
    if lookup(e, "OBJECTID"@) is Some {
        lookup(e, "OBJECTID"@)
    } else if lookup(e, "objectid"@) is Some {
        lookup(e, "objectid"@)
    } else {
        lookup(e, "FID"@)
    }
}

/// A feature is known by its number, or by its place where it has none, and it is named by its
/// name, else by what it is known by.
pub proof fn features_are_named(f: FeatureView, i: int, s: Seq<char>)
    ensures
        numbered_by(f.properties) matches Some(JsonView::Number(n)) ==> source_id_of(f, i)
            == number_text(n),
        numbered_by(f.properties) matches Some(JsonView::Str(t)) ==> source_id_of(f, i) == t,
        !(numbered_by(f.properties) matches Some(v) && (v is Number || v is Str)) ==> source_id_of(
            f,
            i,
        ) == "f"@ + decimal(i as nat),
        is_given_name(f.properties, s) ==> name_of(f, i) == s,
        (forall|t: Seq<char>| !#[trigger] is_given_name(f.properties, t)) ==> name_of(f, i)
            == source_id_of(f, i),
{
    if let Some(t) = own_name(f.properties) {
        assert(is_given_name(f.properties, t));
    }
}

// ---------------------------------------------------------------------------
// Coalescing
// ---------------------------------------------------------------------------

/// Whether a geometry is made of lines.
pub open spec fn is_linear(g: GeometryView) -> bool {
    g is Line || g is LineString || g is MultiLineString
}

/// Whether a geometry is made of areas.
pub open spec fn is_areal(g: GeometryView) -> bool {
    g is Polygon || g is MultiPolygon || g is Rect
}

/// The class of attributes, empty where they have none.
pub open spec fn is_class(e: Entries, c: Seq<char>) -> bool {
    match lookup(e, "FOLDERPATH"@) {
        Some(JsonView::Str(s)) => c == s,
        _ => c.len() == 0,
    }
}

proof fn lemma_kinds(g: GeometryView)
    ensures
        is_linear(g) <==> kind_of(g) == "LineString"@,
        is_areal(g) <==> kind_of(g) == "Polygon"@,
{
    reveal_strlit("Point");
    reveal_strlit("LineString");
    reveal_strlit("Polygon");
    reveal_strlit("Mixed");
    assert("Point"@.len() == 5 && "LineString"@.len() == 10 && "Polygon"@.len() == 7
        && "Mixed"@.len() == 5);
}

/// Two lines or areas with names become one node exactly where both are lines or both areas, of
/// the same class, with the same name but for white space around it.
pub proof fn fragments_become_one_node(
    fs: Seq<FeatureView>,
    i: int,
    j: int,
    s: Seq<char>,
    t: Seq<char>,
    c: Seq<char>,
    d: Seq<char>,
) -> (a: int)
    requires
        0 <= i < fs.len(),
        0 <= j < fs.len(),
        is_linear(fs[i].geometry) || is_areal(fs[i].geometry),
        is_linear(fs[j].geometry) || is_areal(fs[j].geometry),
        is_given_name(fs[i].properties, s),
        is_given_name(fs[j].properties, t),
        trim(s).len() > 0,
        trim(t).len() > 0,
        is_class(fs[i].properties, c),
        is_class(fs[j].properties, d),
    ensures
        0 <= a < feature_groups(fs).len(),
        feature_groups(fs)[a].contains(i),
        feature_groups(fs)[a].contains(j) <==> is_linear(fs[i].geometry) == is_linear(
            fs[j].geometry,
        ) && c == d && trim(s) == trim(t),
{
    reveal_strlit("");
    reveal_strlit("LineString");
    reveal_strlit("Polygon");
    assert("LineString"@.len() == 10 && "Polygon"@.len() == 7);
    lemma_kinds(fs[i].geometry);
    lemma_kinds(fs[j].geometry);
    assert(own_name(fs[i].properties) == Some(s));
    assert(own_name(fs[j].properties) == Some(t));
    assert(c =~= class_in(fs[i].properties));
    assert(d =~= class_in(fs[j].properties));
    namesakes_are_merged(fs, i, j);
    let ks = feature_keys(fs);
    assert(ks[i] == Some(feature_key(fs[i], i)));
    each_in_exactly_one_group(ks, i)
}

/// A point, a feature without a name and one with a blank name become a node of their own.
pub proof fn other_features_stay_by_themselves(fs: Seq<FeatureView>, i: int) -> (a: int)
    requires
        0 <= i < fs.len(),
        !(is_linear(fs[i].geometry) || is_areal(fs[i].geometry)) || forall|s: Seq<char>| #[trigger]
            is_given_name(fs[i].properties, s) ==> trim(s).len() == 0,
    ensures
        0 <= a < feature_groups(fs).len(),
        feature_groups(fs)[a] == seq![i],
{
    lemma_kinds(fs[i].geometry);
    if let Some(s) = own_name(fs[i].properties) {
        assert(is_given_name(fs[i].properties, s));
    }
    unnamed_stay_alone(fs, i);
    let ks = feature_keys(fs);
    assert(ks[i] == Some(feature_key(fs[i], i)));
    each_in_exactly_one_group(ks, i)
}

/// What a stored feature is: a feature of its layer with the name and the number of its first
/// fragment, that fragment's attributes, and the merged geometry of all of them.
pub proof fn a_node_stands_for_its_fragments(
    n: NodeView,
    layer_id: Seq<char>,
    machine_name: Seq<char>,
    fs: Seq<FeatureView>,
    g: Seq<int>,
    ends: Seq<(Cell, Cell)>,
    k: Seq<char>,
)
    requires
        is_group_node(n, layer_id, machine_name, fs, g, ends),
    ensures
        n.node_type == "Feature"@,
        n.subtype == Some(machine_name),
        n.name == name_of(fs[g[0]], g[0]),
        n.geometry == Some(merged(g.map_values(|i: int| fs[i].geometry), ends)),
        lookup(n.properties, "layer_id"@) == Some(JsonView::Str(layer_id)),
        lookup(n.properties, "source_id"@) == Some(JsonView::Str(source_id_of(fs[g[0]], g[0]))),
        k != "layer_id"@ && k != "source_id"@ ==> lookup(n.properties, k) == lookup(
            safe_attributes(fs[g[0]].properties),
            k,
        ),
{
    feature_keeps_its_layer(layer_id, source_id_of(fs[g[0]], g[0]), fs[g[0]].properties, k);
}

/// What a merge stores for the fragments of a stored thing: a feature of the layer with the name
/// of the first, its attributes, and the merged geometry of all of them.
pub proof fn a_merged_node_stands_for_its_fragments(
    n: NodeView,
    layer_name: Seq<char>,
    nodes: Seq<NodeView>,
    g: Seq<int>,
    ends: Seq<(Cell, Cell)>,
    s: Seq<char>,
    k: Seq<char>,
)
    requires
        is_merged_node(n, layer_name, nodes, g, ends),
        nodes[g[0]].geometry matches Some(x) && (is_linear(x) || is_areal(x)),
        is_given_name(nodes[g[0]].properties, s),
        trim(s).len() > 0,
    ensures
        n.node_type == "Feature"@,
        n.subtype == Some(layer_name),
        n.name == s,
        n.geometry == Some(merged(g.map_values(|i: int| nodes[i].geometry->0), ends)),
        nodes[0].text_at("layer_id"@) matches Some(l) && nodes.len() > 0 ==> lookup(
            n.properties,
            "layer_id"@,
        ) == Some(JsonView::Str(nodes[0].text_at("layer_id"@)->0)),
        k != "layer_id"@ && k != "source_id"@ ==> lookup(n.properties, k) == lookup(
            safe_attributes(nodes[g[0]].properties),
            k,
        ),
{
    let first = nodes[g[0]];
    lemma_kinds(first.geometry->0);
    assert(own_name(first.properties) == Some(s));
    assert(is_named_node(first));
    feature_keeps_its_layer(stored_layer_id(nodes), ""@, first.properties, k);
}

/// Two stored lines or areas with names go into one node exactly where both are lines or both
/// areas, of the same class, with the same name but for white space around it.
pub proof fn stored_fragments_become_one_node(
    nodes: Seq<NodeView>,
    i: int,
    j: int,
    s: Seq<char>,
    t: Seq<char>,
    c: Seq<char>,
    d: Seq<char>,
)
    requires
        0 <= i < nodes.len(),
        0 <= j < nodes.len(),
        nodes[i].geometry matches Some(g) && (is_linear(g) || is_areal(g)),
        nodes[j].geometry matches Some(g) && (is_linear(g) || is_areal(g)),
        is_given_name(nodes[i].properties, s),
        is_given_name(nodes[j].properties, t),
        trim(s).len() > 0,
        trim(t).len() > 0,
        is_class(nodes[i].properties, c),
        is_class(nodes[j].properties, d),
    ensures
        exists|a: int|
            0 <= a < node_groups(nodes).len() && (#[trigger] node_groups(nodes)[a]).contains(i) && (
            node_groups(nodes)[a].contains(j) <==> is_linear(nodes[i].geometry->0) == is_linear(
                nodes[j].geometry->0,
            ) && c == d && trim(s) == trim(t)),
{
    reveal_strlit("");
    reveal_strlit("LineString");
    reveal_strlit("Polygon");
    assert("LineString"@.len() == 10 && "Polygon"@.len() == 7);
    lemma_kinds(nodes[i].geometry->0);
    lemma_kinds(nodes[j].geometry->0);
    assert(own_name(nodes[i].properties) == Some(s));
    assert(own_name(nodes[j].properties) == Some(t));
    assert(c =~= class_in(nodes[i].properties));
    assert(d =~= class_in(nodes[j].properties));
    stored_namesakes_are_merged(nodes, i, j);
}

proof fn lemma_shapes(nodes: Seq<NodeView>)
    ensures
        shape_count(nodes) == nodes.filter(|n: NodeView| n.geometry is Some).len(),
    decreases nodes.len(),
{
    reveal(Seq::filter);
    if nodes.len() > 0 {
        lemma_shapes(nodes.drop_last());
    }
}

/// A merge takes away every stored feature that has a geometry, and no other.
pub proof fn a_merge_takes_away_every_shape(
    steps: Seq<crate::actors::import::MergeStep>,
    layer_name: Seq<char>,
    nodes: Seq<NodeView>,
    ends: Seq<Vec<(Cell, Cell)>>,
)
    requires
        crate::actors::import::are_merge_steps(steps, layer_name, nodes, ends),
    ensures
        deleted_count(steps) == nodes.filter(|n: NodeView| n.geometry is Some).len(),
{
    crate::actors::import::merge_deletes_every_shape(steps, layer_name, nodes, ends);
    lemma_shapes(nodes);
}

// ---------------------------------------------------------------------------
// The layer
// ---------------------------------------------------------------------------

/// The type of what a feature stores under a key: a text is a `string`, a number a `number`, a
/// truth value a `boolean`.
pub open spec fn stored_type(f: FeatureView, k: Seq<char>) -> Option<Seq<char>> {
    match lookup(safe_attributes(f.properties), k) {
        Some(JsonView::Str(_)) => Some("string"@),
        Some(JsonView::Number(_)) => Some("number"@),
        Some(JsonView::Bool(_)) => Some("boolean"@),
        _ => None,
    }
}

/// A schema names, for each key under which a feature stores something, the type of what is stored
/// there, or says that it is mixed where two features store different types; it has no other key.
pub proof fn a_schema_names_the_type(fs: Seq<FeatureView>, k: Seq<char>, i: int, j: int)
    requires
        0 <= i < fs.len(),
        0 <= j < fs.len(),
    ensures
        stored_type(fs[i], k) is Some && (forall|x: int|
            0 <= x < fs.len() && stored_type(#[trigger] fs[x], k) is Some ==> stored_type(fs[x], k)
                == stored_type(fs[i], k)) ==> lookup(schema_of(fs), k) == Some(
            JsonView::Str(stored_type(fs[i], k)->0),
        ),
        stored_type(fs[i], k) is Some && stored_type(fs[j], k) is Some && stored_type(fs[i], k)
            != stored_type(fs[j], k) ==> lookup(schema_of(fs), k) == Some(JsonView::Str("mixed"@)),
        (forall|x: int| 0 <= x < fs.len() ==> stored_type(#[trigger] fs[x], k) is None) ==> lookup(
            schema_of(fs),
            k,
        ) is None,
{
    schema_is_what_is_stored(fs, k);
    assert forall|x: int| 0 <= x < fs.len() implies (stored_type(#[trigger] fs[x], k) is Some
        <==> stored_value(fs[x], k) is Some) && forall|t: Seq<char>| #[trigger]
        stores_type(fs[x], k, t) <==> stored_type(fs[x], k) == Some(t) by {
        crate::models::sanitized_attributes_are_safe(fs[x].properties);
        if let Some(v) = stored_value(fs[x], k) {
            let e = safe_attributes(fs[x].properties);
            crate::textmap::lemma_lookup(e, k, v);
            let n = choose|n: int| 0 <= n < e.len() && e[n] == (k, v);
            assert(crate::models::stored_attribute(e[n]));
        }
    }
    if has_key(schema_of(fs), k) {
        let said = lookup(schema_of(fs), k)->0;
        if exists|t: Seq<char>|
            said == str_json(t) && t != "mixed"@ && #[trigger] all_of_type(fs, k, t) {
            let t = choose|t: Seq<char>|
                said == str_json(t) && t != "mixed"@ && #[trigger] all_of_type(fs, k, t);
            if stored_type(fs[i], k) is Some {
                assert(stores_type(fs[i], k, t));
            }
            if stored_type(fs[j], k) is Some {
                assert(stores_type(fs[j], k, t));
            }
        } else {
            let (a, b, t) = choose|a: int, b: int, t: Seq<char>|
                0 <= a < fs.len() && 0 <= b < fs.len() && stored_value(#[trigger] fs[b], k) is Some
                    && #[trigger] stores_type(fs[a], k, t) && !stores_type(fs[b], k, t);
            assert(stored_type(fs[a], k) == Some(t));
            assert(stored_type(fs[b], k) is Some && stored_type(fs[b], k) != Some(t));
        }
    }
}

/// A layer has the kind of its features where they are all of one kind; else it is mixed.
pub proof fn a_layer_has_the_kind_of_its_features(fs: Seq<FeatureView>, i: int)
    requires
        0 <= i < fs.len(),
    ensures
        (forall|j: int|
            0 <= j < fs.len() ==> kind_of((#[trigger] fs[j]).geometry) == kind_of(fs[i].geometry))
            ==> layer_kind(fs) == kind_of(fs[i].geometry),
        (exists|j: int|
            0 <= j < fs.len() && kind_of((#[trigger] fs[j]).geometry) != kind_of(fs[i].geometry))
            ==> layer_kind(fs) == "Mixed"@,
{
    let ks = kinds_of(fs);
    let k = kind_of(fs[i].geometry);
    kinds_are_distinct(fs, k);
    assert(ks.contains(k));
    let a = choose|a: int| 0 <= a < ks.len() && ks[a] == k;
    if forall|j: int| 0 <= j < fs.len() ==> kind_of((#[trigger] fs[j]).geometry) == k {
        assert forall|b: int| 0 <= b < ks.len() implies #[trigger] ks[b] == k by {
            kinds_are_distinct(fs, ks[b]);
            assert(ks.contains(ks[b]));
        }
        if ks.len() > 1 {
            assert(crate::text::text_lt(ks[0], ks[1]));
            crate::text::text_lt_irreflexive(k);
        }
    }
    if exists|j: int| 0 <= j < fs.len() && kind_of((#[trigger] fs[j]).geometry) != k {
        let j = choose|j: int| 0 <= j < fs.len() && kind_of((#[trigger] fs[j]).geometry) != k;
        kinds_are_distinct(fs, kind_of(fs[j].geometry));
        assert(ks.contains(kind_of(fs[j].geometry)));
        let b = choose|b: int| 0 <= b < ks.len() && ks[b] == kind_of(fs[j].geometry);
        assert(a != b);
    }
}

/// A stacking order that a layer has.
pub open spec fn has_z(n: NodeView, z: i64) -> bool {
    lookup(n.properties, "z_order"@) matches Some(JsonView::Number(x)) && match x {
        NumberView::PosInt(u) => u == z,
        NumberView::NegInt(i) => i == z,
        _ => false,
    }
}

/// The highest stacking order is that of one of the layers, and none has a higher one; without any
/// there is none.
pub proof fn the_top_is_the_highest(layers: Seq<NodeView>)
    ensures
        match highest_z(layers) {
            Some(z) => (exists|i: int| 0 <= i < layers.len() && #[trigger] has_z(layers[i], z))
                && forall|i: int, y: i64|
                0 <= i < layers.len() && #[trigger] has_z(layers[i], y) ==> y <= z,
            None => forall|i: int, y: i64|
                0 <= i < layers.len() ==> !#[trigger] has_z(layers[i], y),
        },
        next_z(highest_z(layers)) == (match highest_z(layers) {
            Some(z) => z + 1,
            None => 0,
        }),
    decreases layers.len(),
{
    if layers.len() > 0 {
        let d = layers.drop_last();
        let n = layers.len() - 1;
        the_top_is_the_highest(d);
        assert(layers[n] == layers.last());
        assert forall|i: int, y: i64| 0 <= i < n implies has_z(d[i], y) == #[trigger] has_z(
            layers[i],
            y,
        ) by {}
        let own = match layers.last().get("z_order"@) {
            Some(v) => v.as_i64(),
            None => None,
        };
        if let Some(z) = own {
            assert(has_z(layers[n], z));
            assert forall|y: i64| #[trigger] has_z(layers[n], y) implies y == z by {}
        } else {
            assert forall|y: i64| !#[trigger] has_z(layers[n], y) by {}
        }
        if let Some(b) = highest_z(d) {
            let i = choose|i: int| 0 <= i < d.len() && #[trigger] has_z(d[i], b);
            assert(has_z(layers[i], b));
        }
    }
}

/// The node of an imported layer holds its names, what its features are, where they come from and
/// its place in the stack.
pub proof fn an_imported_layer_is_described(
    n: NodeView,
    machine_name: Seq<char>,
    display_name: Seq<char>,
    source: Seq<char>,
    fs: Seq<FeatureView>,
    z: int,
)
    requires
        is_import_layer(n, machine_name, display_name, source, fs, z),
    ensures
        n.node_type == "Layer"@,
        n.name == machine_name,
        n.description == Some("Imported from "@ + source),
        lookup(n.properties, "display_name"@) == Some(JsonView::Str(display_name)),
        lookup(n.properties, "geometry_type"@) == Some(JsonView::Str(layer_kind(fs))),
        lookup(n.properties, "source"@) == Some(JsonView::Str(source)),
        lookup(n.properties, "style"@) == Some(style_for(layer_kind(fs))),
        lookup(n.properties, "schema"@) == Some(JsonView::Object(schema_of(fs))),
        lookup(n.properties, "z_order"@) == Some(int_json(z)),
{
    let kind = layer_kind(fs);
    let schema = JsonView::Object(schema_of(fs));
    a_layer_holds_its_settings(display_name, kind, source, style_for(kind), schema, 0);
    reveal_strlit("display_name");
    reveal_strlit("geometry_type");
    reveal_strlit("source");
    reveal_strlit("style");
    reveal_strlit("schema");
    reveal_strlit("z_order");
    assert("display_name"@.len() == 12 && "geometry_type"@.len() == 13 && "source"@.len() == 6
        && "style"@.len() == 5 && "schema"@.len() == 6 && "z_order"@.len() == 7);
    lemma_put(
        layer_properties(display_name, kind, source, style_for(kind), schema, 0),
        "z_order"@,
        int_json(z),
    );
}

/// An import stores the layer first, then each feature, in order, and then makes it last.
pub proof fn an_import_stores_and_commits(p: PlanView)
    ensures
        ops_of(p).len() == p.nodes.len() + 2,
        ops_of(p)[0] == ImportOpView::Store(p.layer),
        forall|i: int|
            0 <= i < p.nodes.len() ==> ops_of(p)[i + 1] == ImportOpView::Store(
                #[trigger] p.nodes[i],
            ),
        ops_of(p).last() == ImportOpView::Commit,
{
}

/// An import replaces the first layer of its name, with the features that are stored under it, and
/// nothing where no layer has the name.
pub proof fn an_import_replaces_its_namesake(
    layers: Seq<NodeView>,
    features: Seq<NodeView>,
    name: Seq<char>,
    i: int,
)
    ensures
        (forall|j: int| 0 <= j < layers.len() ==> (#[trigger] layers[j]).name != name)
            ==> replacements(layers, features, name).len() == 0,
        0 <= i < layers.len() && layers[i].name == name && (forall|j: int|
            0 <= j < i ==> (#[trigger] layers[j]).name != name) ==> replacements(
            layers,
            features,
            name,
        ) == features.filter(|f: NodeView| is_under(f, layers[i].id)).map_values(
            |f: NodeView| f.id,
        ).push(layers[i].id),
{
    lemma_named(layers, name, i);
    if 0 <= i < layers.len() {
        a_layer_goes_with_its_features(features, layers[i].id);
    }
}

proof fn lemma_named(layers: Seq<NodeView>, name: Seq<char>, i: int)
    ensures
        (forall|j: int| 0 <= j < layers.len() ==> (#[trigger] layers[j]).name != name)
            ==> named_layer(layers, name) is None,
        0 <= i < layers.len() && layers[i].name == name && (forall|j: int|
            0 <= j < i ==> (#[trigger] layers[j]).name != name) ==> named_layer(layers, name)
            == Some(layers[i]),
    decreases layers.len(),
{
    if layers.len() > 0 {
        let d = layers.drop_first();
        lemma_named(d, name, i - 1);
        if forall|j: int| 0 <= j < layers.len() ==> (#[trigger] layers[j]).name != name {
            assert forall|j: int| 0 <= j < d.len() implies (#[trigger] d[j]).name != name by {
                assert(layers[j + 1].name != name);
            }
            assert(layers[0].name != name);
        }
        if 0 < i < layers.len() && layers[i].name == name && (forall|j: int|
            0 <= j < i ==> (#[trigger] layers[j]).name != name) {
            assert(d[i - 1] == layers[i]);
            assert forall|j: int| 0 <= j < i - 1 implies (#[trigger] d[j]).name != name by {
                assert(layers[j + 1].name != name);
            }
            assert(layers[0].name != name);
        }
    }
}

// ---------------------------------------------------------------------------
// Reports
// ---------------------------------------------------------------------------

/// The report of an import tells which layer was made, from what, with how many features and where
/// they lie.
pub proof fn a_report_tells_what_was_imported(
    layer_id: Seq<char>,
    machine_name: Seq<char>,
    display_name: Seq<char>,
    geometry_type: Seq<char>,
    feature_count: int,
    source: Seq<char>,
    bounds: Option<BoundsView>,
)
    ensures
        ({
            let j = report_out(
                layer_id,
                machine_name,
                display_name,
                geometry_type,
                feature_count,
                source,
                bounds,
            );
            &&& j.text_at("layer_id"@) == Some(layer_id)
            &&& j.text_at("name"@) == Some(machine_name)
            &&& j.text_at("display_name"@) == Some(display_name)
            &&& j.text_at("geometry_type"@) == Some(geometry_type)
            &&& j.get("feature_count"@) == Some(int_json(feature_count))
            &&& j.text_at("source"@) == Some(source)
            &&& j.get("bounds"@) == Some(bounds_out(bounds))
        }),
{
    reveal_strlit("layer_id");
    reveal_strlit("name");
    reveal_strlit("display_name");
    reveal_strlit("geometry_type");
    reveal_strlit("feature_count");
    reveal_strlit("source");
    reveal_strlit("bounds");
    assert("layer_id"@.len() == 8 && "name"@.len() == 4 && "display_name"@.len() == 12
        && "geometry_type"@.len() == 13 && "feature_count"@.len() == 13 && "source"@.len() == 6
        && "bounds"@.len() == 6);
    assert("geometry_type"@[0] == 'g' && "feature_count"@[0] == 'f' && "source"@[0] == 's'
        && "bounds"@[0] == 'b');
    assert(keys(no_entries()) =~= Seq::empty());
    let e0 = no_entries();
    lemma_put(e0, "layer_id"@, str_json(layer_id));
    let e1 = put(e0, "layer_id"@, str_json(layer_id));
    lemma_put(e1, "name"@, str_json(machine_name));
    let e2 = put(e1, "name"@, str_json(machine_name));
    lemma_put(e2, "display_name"@, str_json(display_name));
    let e3 = put(e2, "display_name"@, str_json(display_name));
    lemma_put(e3, "geometry_type"@, str_json(geometry_type));
    let e4 = put(e3, "geometry_type"@, str_json(geometry_type));
    lemma_put(e4, "feature_count"@, int_json(feature_count));
    let e5 = put(e4, "feature_count"@, int_json(feature_count));
    lemma_put(e5, "source"@, str_json(source));
    let e6 = put(e5, "source"@, str_json(source));
    lemma_put(e6, "bounds"@, bounds_out(bounds));
}

/// The report of a merge tells how many features were taken away and how many stored.
pub proof fn a_report_tells_what_was_merged(name: Seq<char>, deleted: int, stored: int)
    ensures
        merge_report_out(name, deleted, stored).text_at("name"@) == Some(name),
        merge_report_out(name, deleted, stored).get("deleted"@) == Some(int_json(deleted)),
        merge_report_out(name, deleted, stored).get("stored"@) == Some(int_json(stored)),
{
    reveal_strlit("name");
    reveal_strlit("deleted");
    reveal_strlit("stored");
    assert("name"@.len() == 4 && "deleted"@.len() == 7 && "stored"@.len() == 6);
    assert(keys(no_entries()) =~= Seq::empty());
    let e0 = no_entries();
    lemma_put(e0, "name"@, str_json(name));
    let e1 = put(e0, "name"@, str_json(name));
    lemma_put(e1, "deleted"@, int_json(deleted));
    let e2 = put(e1, "deleted"@, int_json(deleted));
    lemma_put(e2, "stored"@, int_json(stored));
}

} // verus!
