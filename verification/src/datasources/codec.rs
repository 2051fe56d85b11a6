//! Data sources as graph nodes. Every part of a definition is a scalar property (`config_*`,
//! `enabled`, `refresh_mode`, `feature_count`, `geometry_types`) or a node of its own (one for
//! each attribute of the discovered schema).

use vstd::prelude::*;

use crate::datasources::{DataSource, Discovery, RefreshPolicy};
use crate::json::{Json, JsonObject};
use crate::models::AttrNode;
use crate::stamp::{fresh_id, ts};
use crate::text::{
    chars_of, concat, has_prefix, joined, same_text, split_pieces, string_of_range,
};
#[allow(unused_imports)]
use crate::datasources::{DiscoveryView, SourceView};
#[allow(unused_imports)]
use crate::json::{int_json, lemma_json_view, no_entries, str_json, Entries, JsonView};
#[allow(unused_imports)]
use crate::models::{blank_node, nodes_view, NodeView};
#[allow(unused_imports)]
use crate::stamp::{is_stamp, utc_text, uuid_shape};
#[allow(unused_imports)]
use crate::text::{is_part, join, pieces, split_after_join, starts_with, text_lt, texts};
#[allow(unused_imports)]
use crate::textmap::{
    ascending, keys, lemma_lookup, lemma_put, lemma_put_last, lemma_same_lookup, lookup, put,
};

verus! {

/// `node_type` of a data source definition.
pub const SOURCE_NODE_TYPE: &'static str = "DataSource";

/// `node_type` of one attribute of a discovered schema.
pub const ATTR_NODE_TYPE: &'static str = "DataSourceAttribute";

// ---------------------------------------------------------------------------
// Writing
// ---------------------------------------------------------------------------

pub open spec fn is_scalar(v: JsonView) -> bool {
    v is Str || v is Number || v is Bool
}

/// The key under which a setting is stored.
pub open spec fn config_key(k: Seq<char>) -> Seq<char> {
    "config_"@ + k
}

/// The properties with every scalar setting stored under its key.
pub open spec fn with_config(e: Entries, config: Entries) -> Entries
    decreases config.len(),
{
    if config.len() == 0 {
        e
    } else {
        let before = with_config(e, config.drop_last());
        let (k, v) = config.last();
        if is_scalar(v) {
            put(before, config_key(k), v)
        } else {
            before
        }
    }
}

/// The properties of a definition node.
pub open spec fn source_properties(s: SourceView) -> Entries {
    let e = put(no_entries(), "enabled"@, JsonView::Bool(s.enabled));
    let e = put(e, "refresh_mode"@, str_json("manual"@));
    let e = match s.config {
        JsonView::Object(c) => with_config(e, c),
        _ => e,
    };
    match s.discovered {
        Some(d) => put(
            put(e, "feature_count"@, int_json(d.feature_count as int)),
            "geometry_types"@,
            str_json(join(d.geometry_types, ","@)),
        ),
        None => e,
    }
}

/// The definition node of a data source, but for its times.
pub open spec fn source_node(
    s: SourceView,
    created_at: Seq<char>,
    updated_at: Seq<char>,
) -> NodeView {
    NodeView {
        subtype: Some(s.kind),
        properties: source_properties(s),
        ..blank_node(s.id, "DataSource"@, s.label, created_at, updated_at)
    }
}

fn scalar_value(v: &Json) -> (r: Option<Json>)
    ensures
        match r {
            Some(x) => is_scalar(v@) && x@ == v@,
            None => !is_scalar(v@),
        },
{
    broadcast use lemma_json_view;

    match v {
        Json::Str(_) | Json::Number(_) | Json::Bool(_) => Some(v.copy()),
        _ => None,
    }
}

fn set_config(props: &mut JsonObject, config: &JsonObject)
    ensures
        final(props)@ == with_config(old(props)@, config@),
{
    let n = config.len();
    let ghost c = config@;
    let ghost start = props@;
    let mut i: usize = 0;
    while i < n
        invariant
            i <= n,
            n == config@.len(),
            c == config@,
            props@ == with_config(start, c.take(i as int)),
        decreases n - i,
    {
        proof {
            assert(c.take(i + 1).drop_last() =~= c.take(i as int));
            assert(c.take(i + 1).last() == c[i as int]);
        }
        match scalar_value(config.value_at(i)) {
            Some(v) => {
                props.insert(concat("config_", config.key_at(i).as_str()), v);
            },
            None => {},
        }
        i += 1;
    }
    proof {
        assert(c.take(n as int) =~= c);
    }
}

/// A time is stored as the UTC text of the time that the definition names.
pub open spec fn time_kept(text: Seq<char>, stored: Seq<char>) -> bool {
    &&& is_stamp(stored)
    &&& utc_text(text) matches Some(t) ==> stored == t
}

/// The definition node of a data source.
pub fn datasource_to_node(src: &DataSource) -> (r: AttrNode)
    ensures
        r@ == source_node(src@, r@.created_at, r@.updated_at),
        time_kept(src@.created_at, r@.created_at),
        time_kept(src@.updated_at, r@.updated_at),
{
    let mut props = JsonObject::new();
    props.set("enabled", Json::from_bool(src.enabled));
    props.set(
        "refresh_mode",
        Json::text(
            match src.refresh {
                RefreshPolicy::Manual => "manual",
            },
        ),
    );
    match src.config.as_object() {
        Some(c) => set_config(&mut props, c),
        None => {},
    }
    match &src.discovered {
        Some(d) => {
            props.set("feature_count", Json::from_u64(d.feature_count as u64));
            props.set("geometry_types", Json::text(joined(&d.geometry_types, ",").as_str()));
        },
        None => {},
    }
    AttrNode {
        id: src.id.clone(),
        node_type: SOURCE_NODE_TYPE.to_owned(),
        subtype: Some(src.kind.clone()),
        name: src.label.clone(),
        description: None,
        properties: props,
        geometry: None,
        point: None,
        embedding_id: None,
        created_at: ts(src.created_at.as_str()),
        updated_at: ts(src.updated_at.as_str()),
        version: 1,
    }
}

/// The properties of an attribute node: the source that it belongs to, and its type where it is
/// given as a text.
pub open spec fn attr_properties(source_id: Seq<char>, ty: JsonView) -> Entries {
    let e = put(no_entries(), "source_id"@, str_json(source_id));
    match ty {
        JsonView::Str(t) => put(e, "data_type"@, str_json(t)),
        _ => e,
    }
}

/// The node of one schema attribute, but for its id and its time.
pub open spec fn is_attr_node(n: NodeView, s: SourceView, entry: (Seq<char>, JsonView)) -> bool {
    &&& uuid_shape(n.id)
    &&& time_kept(s.created_at, n.created_at)
    &&& n == (NodeView {
        subtype: Some(s.kind),
        properties: attr_properties(s.id, entry.1),
        ..blank_node(n.id, "DataSourceAttribute"@, entry.0, n.created_at, n.created_at)
    })
}

/// The attributes of the discovered schema of a data source.
pub open spec fn schema_entries(s: SourceView) -> Entries {
    match s.discovered {
        Some(d) => match d.schema {
            JsonView::Object(e) => e,
            _ => no_entries(),
        },
        None => no_entries(),
    }
}

/// One node for each attribute of the discovered schema, in order.
pub open spec fn are_schema_nodes(nodes: Seq<NodeView>, s: SourceView) -> bool {
    &&& nodes.len() == schema_entries(s).len()
    &&& forall|i: int|
        0 <= i < nodes.len() ==> is_attr_node(#[trigger] nodes[i], s, schema_entries(s)[i])
}

/// One node for each attribute of the discovered schema.
pub fn schema_to_nodes(src: &DataSource) -> (r: Vec<AttrNode>)
    ensures
        are_schema_nodes(nodes_view(r@), src@),
{
    let mut out: Vec<AttrNode> = Vec::new();
    let d = match &src.discovered {
        Some(d) => d,
        None => {
            return out;
        },
    };
    let schema = match d.schema.as_object() {
        Some(o) => o,
        None => {
            return out;
        },
    };
    let created = ts(src.created_at.as_str());
    let ghost e = schema_entries(src@);
    let n = schema.len();
    let mut i: usize = 0;
    while i < n
        invariant
            i <= n,
            n == schema@.len(),
            e == schema@,
            time_kept(src@.created_at, created@),
            out@.len() == i,
            forall|k: int| 0 <= k < i ==> is_attr_node((#[trigger] out@[k])@, src@, e[k]),
        decreases n - i,
    {
        broadcast use lemma_json_view;

        let mut props = JsonObject::new();
        props.set("source_id", Json::text(src.id.as_str()));
        match schema.value_at(i).as_str() {
            Some(t) => {
                props.set("data_type", Json::text(t.as_str()));
            },
            None => {},
        }
        let node = AttrNode {
            id: fresh_id(),
            node_type: ATTR_NODE_TYPE.to_owned(),
            subtype: Some(src.kind.clone()),
            name: schema.key_at(i).clone(),
            description: None,
            properties: props,
            geometry: None,
            point: None,
            embedding_id: None,
            created_at: created.clone(),
            updated_at: created.clone(),
            version: 1,
        };
        proof {
            assert(is_attr_node(node@, src@, e[i as int]));
        }
        out.push(node);
        i += 1;
    }
    out
}

// ---------------------------------------------------------------------------
// Reading
// ---------------------------------------------------------------------------

/// The text of a property, else the empty text.
pub open spec fn prop_text(e: Entries, key: Seq<char>) -> Seq<char> {
    match lookup(e, key) {
        Some(JsonView::Str(s)) => s,
        _ => ""@,
    }
}

pub(crate) fn prop_str(props: &JsonObject, key: &str) -> (r: String)
    ensures
        r@ == prop_text(props@, key@),
{
    match props.get(key) {
        Some(v) => match v.as_str() {
            Some(s) => s.clone(),
            None => "".to_owned(),
        },
        None => "".to_owned(),
    }
}

/// The settings among properties.
pub open spec fn config_in(e: Entries) -> Entries
    decreases e.len(),
{
    if e.len() == 0 {
        no_entries()
    } else {
        let before = config_in(e.drop_last());
        let (k, v) = e.last();
        if starts_with(k, "config_"@) {
            put(before, k.skip("config_"@.len() as int), v)
        } else {
            before
        }
    }
}

/// The schema that attribute nodes make up.
pub open spec fn schema_in(nodes: Seq<NodeView>) -> Entries
    decreases nodes.len(),
{
    if nodes.len() == 0 {
        no_entries()
    } else {
        put(
            schema_in(nodes.drop_last()),
            nodes.last().name,
            str_json(prop_text(nodes.last().properties, "data_type"@)),
        )
    }
}

pub open spec fn count_in(e: Entries) -> Option<usize> {
    match lookup(e, "feature_count"@) {
        Some(v) => match v.as_u64() {
            Some(n) => Some(n as usize),
            None => None,
        },
        None => None,
    }
}

/// What was discovered, if a count, a geometry type or a schema attribute is stored.
pub open spec fn discovery_in(e: Entries, nodes: Seq<NodeView>) -> Option<DiscoveryView> {
    let kinds = pieces(prop_text(e, "geometry_types"@), ',');
    if count_in(e) is Some || kinds.len() > 0 || nodes.len() > 0 {
        Some(
            DiscoveryView {
                feature_count: match count_in(e) {
                    Some(n) => n,
                    None => 0,
                },
                geometry_types: kinds,
                schema: JsonView::Object(schema_in(nodes)),
            },
        )
    } else {
        None
    }
}

/// The data source that a definition node and its attribute nodes make up; an unknown refresh
/// mode is refused.
pub open spec fn source_in(n: NodeView, nodes: Seq<NodeView>) -> Result<SourceView, Seq<char>> {
    let mode = prop_text(n.properties, "refresh_mode"@);
    if mode == "manual"@ {
        Ok(
            SourceView {
                id: n.id,
                kind: match n.subtype {
                    Some(s) => s,
                    None => ""@,
                },
                label: n.name,
                config: JsonView::Object(config_in(n.properties)),
                refresh: RefreshPolicy::Manual,
                enabled: match lookup(n.properties, "enabled"@) {
                    Some(JsonView::Bool(b)) => b,
                    _ => true,
                },
                discovered: discovery_in(n.properties, nodes),
                created_at: n.created_at,
                updated_at: n.updated_at,
            },
        )
    } else {
        Err("unknown refresh_mode '"@ + mode + "' on datasource '"@ + n.name + "'"@)
    }
}

fn read_config(props: &JsonObject) -> (r: JsonObject)
    ensures
        r@ == config_in(props@),
{
    let n = props.len();
    let ghost e = props@;
    let mut out = JsonObject::new();
    let mut i: usize = 0;
    while i < n
        invariant
            i <= n,
            n == props@.len(),
            e == props@,
            out@ == config_in(e.take(i as int)),
        decreases n - i,
    {
        proof {
            assert(e.take(i + 1).drop_last() =~= e.take(i as int));
            assert(e.take(i + 1).last() == e[i as int]);
        }
        let key = props.key_at(i);
        if has_prefix(key.as_str(), "config_") {
            let chars = chars_of(key.as_str());
            proof {
                reveal_strlit("config_");
                assert("config_"@.len() == 7);
                assert(chars@.subrange(7, chars@.len() as int) =~= chars@.skip(7));
            }
            let rest = string_of_range(&chars, 7, chars.len());
            out.insert(rest, props.value_at(i).copy());
        }
        i += 1;
    }
    proof {
        assert(e.take(n as int) =~= e);
    }
    out
}

fn read_schema(nodes: &Vec<AttrNode>) -> (r: JsonObject)
    ensures
        r@ == schema_in(nodes_view(nodes@)),
{
    let n = nodes.len();
    let ghost ns = nodes_view(nodes@);
    let mut out = JsonObject::new();
    let mut i: usize = 0;
    while i < n
        invariant
            i <= n,
            n == nodes@.len(),
            ns == nodes_view(nodes@),
            out@ == schema_in(ns.take(i as int)),
        decreases n - i,
    {
        proof {
            assert(ns.take(i + 1).drop_last() =~= ns.take(i as int));
            assert(ns.take(i + 1).last() == nodes@[i as int]@);
        }
        let ty = prop_str(&nodes[i].properties, "data_type");
        out.insert(nodes[i].name.clone(), Json::text(ty.as_str()));
        i += 1;
    }
    proof {
        assert(ns.take(n as int) =~= ns);
    }
    out
}

pub open spec fn source_result(r: Result<DataSource, String>) -> Result<SourceView, Seq<char>> {
    match r {
        Ok(s) => Ok(s@),
        Err(e) => Err(e@),
    }
}

/// The data source that a definition node and its attribute nodes make up.
pub fn datasource_from_nodes(node: &AttrNode, schema_nodes: &Vec<AttrNode>) -> (r: Result<
    DataSource,
    String,
>)
    ensures
        source_result(r) == source_in(node@, nodes_view(schema_nodes@)),
{
    broadcast use lemma_json_view;

    let mode = prop_str(&node.properties, "refresh_mode");
    if !same_text(mode.as_str(), "manual") {
        let front = concat("unknown refresh_mode '", mode.as_str());
        let front = concat(front.as_str(), "' on datasource '");
        let front = concat(front.as_str(), node.name.as_str());
        return Err(concat(front.as_str(), "'"));
    }
    let enabled = match node.properties.get("enabled") {
        Some(v) => match v.as_bool() {
            Some(b) => b,
            None => true,
        },
        None => true,
    };
    let feature_count: Option<usize> = match node.properties.get("feature_count") {
        Some(v) => match v.as_u64() {
            Some(n) => Some(n as usize),
            None => None,
        },
        None => None,
    };
    let geometry_types = split_pieces(
        prop_str(&node.properties, "geometry_types").as_str(),
        ',',
    );
    proof {
        assert(texts(geometry_types@).len() == geometry_types@.len());
        assert(nodes_view(schema_nodes@).len() == schema_nodes@.len());
    }
    let discovered = if feature_count.is_some() || geometry_types.len() > 0 || schema_nodes.len()
        > 0 {
        Some(
            Discovery {
                feature_count: match feature_count {
                    Some(n) => n,
                    None => 0,
                },
                geometry_types,
                schema: Json::object(read_schema(schema_nodes)),
            },
        )
    } else {
        None
    };
    Ok(
        DataSource {
            id: node.id.clone(),
            kind: match &node.subtype {
                Some(s) => s.clone(),
                None => "".to_owned(),
            },
            label: node.name.clone(),
            config: Json::object(read_config(&node.properties)),
            refresh: RefreshPolicy::Manual,
            enabled,
            discovered,
            created_at: node.created_at.clone(),
            updated_at: node.updated_at.clone(),
        },
    )
}

// ---------------------------------------------------------------------------
// What is written is read back
// ---------------------------------------------------------------------------

/// A definition that nodes can hold: scalar settings, geometry types that are no lists, a schema
/// of texts.
pub open spec fn normal_source(s: SourceView) -> bool {
    &&& s.config matches JsonView::Object(c) && ascending(keys(c)) && forall|i: int|
        0 <= i < c.len() ==> is_scalar((#[trigger] c[i]).1)
    &&& s.discovered matches Some(d) ==> {
        &&& forall|i: int|
            0 <= i < d.geometry_types.len() ==> is_part(#[trigger] d.geometry_types[i], ',')
        &&& d.schema matches JsonView::Object(e) && ascending(keys(e)) && forall|i: int|
            0 <= i < e.len() ==> (#[trigger] e[i]).1 is Str
    }
}

proof fn lemma_config_key(a: Seq<char>, b: Seq<char>)
    ensures
        starts_with(config_key(a), "config_"@),
        config_key(a).skip("config_"@.len() as int) == a,
        config_key(a) == config_key(b) ==> a == b,
{
    assert(config_key(a).take("config_"@.len() as int) =~= "config_"@);
    assert(config_key(a).skip("config_"@.len() as int) =~= a);
    assert(config_key(b).skip("config_"@.len() as int) =~= b);
}

proof fn lemma_prefixed(k: Seq<char>)
    requires
        starts_with(k, "config_"@),
    ensures
        config_key(k.skip("config_"@.len() as int)) == k,
{
    let n = "config_"@.len() as int;
    assert(k.take(n) + k.skip(n) =~= k);
}

pub(crate) proof fn lemma_config_in(e: Entries, k: Seq<char>)
    requires
        ascending(keys(e)),
    ensures
        ascending(keys(config_in(e))),
        lookup(config_in(e), k) == lookup(e, config_key(k)),
    decreases e.len(),
{
    if e.len() > 0 {
        let d = e.drop_last();
        let (lk, lv) = e.last();
        assert(keys(d) =~= keys(e).drop_last());
        lemma_config_in(d, k);
        lemma_config_key(k, k);
        assert forall|i: int| 0 <= i < d.len() implies text_lt(#[trigger] d[i].0, lk) by {
            assert(keys(e)[i] == d[i].0);
            assert(keys(e)[e.len() - 1] == lk);
        }
        lemma_put_last(d, lk, lv);
        assert(e =~= d.push(e.last()));
        lemma_put(d, lk, lv);
        if starts_with(lk, "config_"@) {
            let rest = lk.skip("config_"@.len() as int);
            lemma_prefixed(lk);
            lemma_put(config_in(d), rest, lv);
            if k != rest {
                lemma_config_key(k, rest);
            }
        }
    } else {
        assert(keys(config_in(e)) =~= Seq::empty());
    }
}

proof fn lemma_with_config(e: Entries, config: Entries, k: Seq<char>)
    requires
        ascending(keys(e)),
        ascending(keys(config)),
        forall|i: int| 0 <= i < config.len() ==> is_scalar((#[trigger] config[i]).1),
    ensures
        ascending(keys(with_config(e, config))),
        starts_with(k, "config_"@) ==> lookup(with_config(e, config), k) == match lookup(
            config,
            k.skip("config_"@.len() as int),
        ) {
            Some(v) => Some(v),
            None => lookup(e, k),
        },
        !starts_with(k, "config_"@) ==> lookup(with_config(e, config), k) == lookup(e, k),
    decreases config.len(),
{
    if config.len() > 0 {
        let d = config.drop_last();
        let (lk, lv) = config.last();
        assert(keys(d) =~= keys(config).drop_last());
        assert forall|i: int| 0 <= i < d.len() implies is_scalar((#[trigger] d[i]).1) by {
            assert(is_scalar(config[i].1));
        }
        assert(is_scalar(config[config.len() - 1].1));
        lemma_with_config(e, d, k);
        lemma_put(with_config(e, d), config_key(lk), lv);
        assert forall|i: int| 0 <= i < d.len() implies text_lt(#[trigger] d[i].0, lk) by {
            assert(keys(config)[i] == d[i].0);
            assert(keys(config)[config.len() - 1] == lk);
        }
        lemma_put_last(d, lk, lv);
        assert(config =~= d.push(config.last()));
        lemma_put(d, lk, lv);
        lemma_config_key(lk, lk);
        if starts_with(k, "config_"@) {
            lemma_prefixed(k);
        }
    }
}

pub(crate) proof fn lemma_fixed_keys()
    ensures
        !starts_with("enabled"@, "config_"@),
        !starts_with("refresh_mode"@, "config_"@),
        !starts_with("feature_count"@, "config_"@),
        !starts_with("geometry_types"@, "config_"@),
        "enabled"@ != "refresh_mode"@,
        "enabled"@ != "feature_count"@,
        "enabled"@ != "geometry_types"@,
        "refresh_mode"@ != "feature_count"@,
        "refresh_mode"@ != "geometry_types"@,
        "feature_count"@ != "geometry_types"@,
{
    reveal_strlit("config_");
    reveal_strlit("enabled");
    reveal_strlit("refresh_mode");
    reveal_strlit("feature_count");
    reveal_strlit("geometry_types");
    assert("config_"@[0] == 'c');
    assert("enabled"@[0] == 'e' && "refresh_mode"@[0] == 'r' && "feature_count"@[0] == 'f'
        && "geometry_types"@[0] == 'g');
    assert forall|k: Seq<char>| #[trigger] starts_with(k, "config_"@) implies k[0] == 'c' by {
        assert(k.take("config_"@.len() as int)[0] == "config_"@[0]);
    }
}

/// The lookups that matter in the properties of a definition.
proof fn lemma_source_properties(s: SourceView, k: Seq<char>)
    requires
        normal_source(s),
    ensures
        ascending(keys(source_properties(s))),
        starts_with(k, "config_"@) ==> lookup(source_properties(s), k) == lookup(
            s.config->Object_0,
            k.skip("config_"@.len() as int),
        ),
        lookup(source_properties(s), "enabled"@) == Some(JsonView::Bool(s.enabled)),
        lookup(source_properties(s), "refresh_mode"@) == Some(str_json("manual"@)),
        lookup(source_properties(s), "feature_count"@) == match s.discovered {
            Some(d) => Some(int_json(d.feature_count as int)),
            None => None,
        },
        lookup(source_properties(s), "geometry_types"@) == match s.discovered {
            Some(d) => Some(str_json(join(d.geometry_types, ","@))),
            None => None,
        },
{
    lemma_fixed_keys();
    let c = s.config->Object_0;
    assert(keys(no_entries()) =~= Seq::empty());
    let e1 = put(no_entries(), "enabled"@, JsonView::Bool(s.enabled));
    lemma_put(no_entries(), "enabled"@, JsonView::Bool(s.enabled));
    let e2 = put(e1, "refresh_mode"@, str_json("manual"@));
    lemma_put(e1, "refresh_mode"@, str_json("manual"@));
    lemma_with_config(e2, c, k);
    lemma_with_config(e2, c, "enabled"@);
    lemma_with_config(e2, c, "refresh_mode"@);
    lemma_with_config(e2, c, "feature_count"@);
    lemma_with_config(e2, c, "geometry_types"@);
    let e3 = with_config(e2, c);
    assert forall|x: Seq<char>| x != "enabled"@ && x != "refresh_mode"@ implies #[trigger] lookup(
        e2,
        x,
    ) is None by {
        assert(lookup(e2, x) == lookup(e1, x));
        assert(lookup(e1, x) == lookup(no_entries(), x));
    }
    if starts_with(k, "config_"@) {
        assert(k != "enabled"@ && k != "refresh_mode"@ && k != "feature_count"@ && k
            != "geometry_types"@);
        assert(lookup(e2, k) is None);
    }
    if let Some(d) = s.discovered {
        let n = int_json(d.feature_count as int);
        let t = str_json(join(d.geometry_types, ","@));
        lemma_put(e3, "feature_count"@, n);
        let e4 = put(e3, "feature_count"@, n);
        lemma_put(e4, "geometry_types"@, t);
    } else {
        assert(lookup(e2, "feature_count"@) is None);
        assert(lookup(e2, "geometry_types"@) is None);
    }
}

proof fn lemma_schema_in(nodes: Seq<NodeView>, s: SourceView, e: Entries)
    requires
        ascending(keys(e)),
        nodes.len() == e.len(),
        forall|i: int| 0 <= i < e.len() ==> (#[trigger] e[i]).1 is Str,
        forall|i: int| 0 <= i < nodes.len() ==> is_attr_node(#[trigger] nodes[i], s, e[i]),
    ensures
        schema_in(nodes) == e,
    decreases nodes.len(),
{
    if nodes.len() > 0 {
        let d = nodes.drop_last();
        let de = e.drop_last();
        assert(keys(de) =~= keys(e).drop_last());
        assert forall|i: int| 0 <= i < de.len() implies (#[trigger] de[i]).1 is Str by {
            assert(e[i].1 is Str);
        }
        assert forall|i: int| 0 <= i < d.len() implies is_attr_node(
            #[trigger] d[i],
            s,
            de[i],
        ) by {
            assert(is_attr_node(nodes[i], s, e[i]));
        }
        lemma_schema_in(d, s, de);
        let n = nodes.len() - 1;
        assert(is_attr_node(nodes[n], s, e[n]));
        assert(e[n].1 is Str);
        let t = e[n].1->Str_0;
        reveal_strlit("source_id");
        reveal_strlit("data_type");
        assert("source_id"@[0] == 's' && "data_type"@[0] == 'd');
        assert(keys(no_entries()) =~= Seq::empty());
        lemma_put(no_entries(), "source_id"@, str_json(s.id));
        lemma_put(
            put(no_entries(), "source_id"@, str_json(s.id)),
            "data_type"@,
            str_json(t),
        );
        assert(prop_text(nodes[n].properties, "data_type"@) == t);
        assert forall|i: int| 0 <= i < de.len() implies text_lt(#[trigger] de[i].0, e[n].0) by {
            assert(keys(e)[i] == de[i].0);
            assert(keys(e)[n] == e[n].0);
        }
        lemma_put_last(de, e[n].0, e[n].1);
        assert(e =~= de.push(e[n]));
    } else {
        assert(e =~= no_entries());
    }
}

/// Reading a definition back from its nodes gives the definition that was written: its id, kind,
/// label, settings, whether it is enabled, and what was discovered. The times come back as they
/// were stored.
pub proof fn read_after_write(
    s: SourceView,
    created_at: Seq<char>,
    updated_at: Seq<char>,
    nodes: Seq<NodeView>,
)
    requires
        normal_source(s),
        are_schema_nodes(nodes, s),
    ensures
        source_in(source_node(s, created_at, updated_at), nodes) == Ok::<SourceView, Seq<char>>(
            SourceView { created_at, updated_at, ..s },
        ),
{
    let n = source_node(s, created_at, updated_at);
    let e = n.properties;
    lemma_source_properties(s, ""@);
    let c = s.config->Object_0;
    lemma_config_in(e, ""@);
    assert forall|k: Seq<char>| #[trigger] lookup(config_in(e), k) == lookup(c, k) by {
        lemma_config_in(e, k);
        lemma_config_key(k, k);
        lemma_source_properties(s, config_key(k));
    }
    lemma_same_lookup(config_in(e), c);
    reveal_strlit("");
    reveal_strlit(",");
    assert(","@ =~= seq![',']);
    match s.discovered {
        Some(d) => {
            split_after_join(d.geometry_types, ',');
            lemma_schema_in(nodes, s, d.schema->Object_0);
            assert(count_in(e) == Some(d.feature_count));
        },
        None => {
            assert(pieces(""@, ',') =~= Seq::empty());
            assert(nodes.len() == 0);
            assert(count_in(e) is None);
        },
    }
}

/// No property of a definition node holds a nested value: everything is a scalar.
pub proof fn definition_is_normalized(s: SourceView, k: Seq<char>)
    requires
        normal_source(s),
    ensures
        lookup(source_properties(s), k) matches Some(v) ==> is_scalar(v),
{
    lemma_source_properties(s, k);
    lemma_fixed_keys();
    let c = s.config->Object_0;
    if starts_with(k, "config_"@) {
        let rest = k.skip("config_"@.len() as int);
        if let Some(v) = lookup(c, rest) {
            lemma_lookup(c, rest, v);
            let i = choose|i: int| 0 <= i < c.len() && c[i] == (rest, v);
            assert(is_scalar(c[i].1));
        }
    } else if k != "enabled"@ && k != "refresh_mode"@ && k != "feature_count"@ && k
        != "geometry_types"@ {
        lemma_no_other_key(s, k);
    }
}

proof fn lemma_no_other_key(s: SourceView, k: Seq<char>)
    requires
        normal_source(s),
        !starts_with(k, "config_"@),
        k != "enabled"@,
        k != "refresh_mode"@,
        k != "feature_count"@,
        k != "geometry_types"@,
    ensures
        lookup(source_properties(s), k) is None,
{
    let c = s.config->Object_0;
    assert(keys(no_entries()) =~= Seq::empty());
    let e1 = put(no_entries(), "enabled"@, JsonView::Bool(s.enabled));
    lemma_put(no_entries(), "enabled"@, JsonView::Bool(s.enabled));
    let e2 = put(e1, "refresh_mode"@, str_json("manual"@));
    lemma_put(e1, "refresh_mode"@, str_json("manual"@));
    assert(lookup(e2, k) == lookup(e1, k));
    assert(lookup(e1, k) == lookup(no_entries(), k));
    lemma_with_config(e2, c, k);
    let e3 = with_config(e2, c);
    if let Some(d) = s.discovered {
        let n = int_json(d.feature_count as int);
        let t = str_json(join(d.geometry_types, ","@));
        lemma_put(e3, "feature_count"@, n);
        lemma_put(put(e3, "feature_count"@, n), "geometry_types"@, t);
        assert(lookup(put(e3, "feature_count"@, n), k) == lookup(e3, k));
    }
}

} // verus!
