//! Data sources: how a definition is told from the nodes that hold it, and which nodes are its
//! own.

use vstd::prelude::*;

#[allow(unused_imports)]
use crate::datasources::codec::{
    discovery_in, is_attr_node, lemma_config_in, prop_text, schema_in, source_in, source_node,
    source_properties, with_config,
};
#[allow(unused_imports)]
use crate::datasources::data_gov_sg::{dataset_titles, setting, url_in};
#[allow(unused_imports)]
use crate::datasources::store::{found, listed, own_nodes, removals};
#[allow(unused_imports)]
use crate::datasources::{info_of, SourceView};
#[allow(unused_imports)]
use crate::actors::import::{kinds_of, schema_of};
#[allow(unused_imports)]
use crate::json::{no_entries, str_json, Entries, JsonView, NumberView};
#[allow(unused_imports)]
use crate::models::geojson::FeatureView;
#[allow(unused_imports)]
use crate::models::NodeView;
#[allow(unused_imports)]
use crate::text::pieces;
#[allow(unused_imports)]
use crate::textmap::{ascending, keys, lemma_put, lookup, put};

verus! {

// ---------------------------------------------------------------------------
// Which nodes are whose
// ---------------------------------------------------------------------------

/// Whether an attribute node belongs to a data source.
pub open spec fn is_attribute_of(n: NodeView, id: Seq<char>) -> bool {
    match lookup(n.properties, "source_id"@) {
        Some(JsonView::Str(s)) => s == id,
        _ => id.len() == 0,
    }
}

/// The attribute nodes of a data source are those that name it, in order.
pub proof fn attribute_nodes_name_their_source(nodes: Seq<NodeView>, id: Seq<char>)
    ensures
        own_nodes(nodes, id) == nodes.filter(|n: NodeView| is_attribute_of(n, id)),
    decreases nodes.len(),
{
    reveal(Seq::filter);
    reveal_strlit("");
    if nodes.len() > 0 {
        attribute_nodes_name_their_source(nodes.drop_last(), id);
        if id.len() == 0 {
            assert(id =~= ""@);
        }
    } else {
        assert(own_nodes(nodes, id) =~= nodes.filter(|n: NodeView| is_attribute_of(n, id)));
    }
}

/// Deleting a data source takes away its attribute nodes, in order, and then its own node.
pub proof fn a_source_goes_with_its_attributes(attrs: Seq<NodeView>, id: Seq<char>)
    ensures
        removals(attrs, id) == attrs.filter(|n: NodeView| is_attribute_of(n, id)).map_values(
            |n: NodeView| n.id,
        ).push(id),
{
    attribute_nodes_name_their_source(attrs, id);
}

proof fn lemma_listed(sources: Seq<NodeView>, attrs: Seq<NodeView>)
    ensures
        match listed(sources, attrs) {
            Ok(v) => v.len() == sources.len() && forall|i: int|
                0 <= i < v.len() ==> source_in(sources[i], own_nodes(attrs, sources[i].id)) == Ok::<
                    SourceView,
                    Seq<char>,
                >(#[trigger] v[i]),
            Err(e) => exists|i: int|
                0 <= i < sources.len() && source_in(
                    #[trigger] sources[i],
                    own_nodes(attrs, sources[i].id),
                ) == Err::<SourceView, Seq<char>>(e),
        },
    decreases sources.len(),
{
    if sources.len() > 0 {
        let d = sources.drop_last();
        let n = sources.len() - 1;
        lemma_listed(d, attrs);
        assert(sources[n] == sources.last());
        match listed(d, attrs) {
            Ok(before) => {
                if let Ok(v) = listed(sources, attrs) {
                    assert forall|i: int| 0 <= i < v.len() implies source_in(
                        sources[i],
                        own_nodes(attrs, sources[i].id),
                    ) == Ok::<SourceView, Seq<char>>(#[trigger] v[i]) by {
                        if i < n {
                            assert(v[i] == before[i]);
                            assert(d[i] == sources[i]);
                        }
                    }
                }
            },
            Err(e) => {
                let i = choose|i: int|
                    0 <= i < d.len() && source_in(#[trigger] d[i], own_nodes(attrs, d[i].id))
                        == Err::<SourceView, Seq<char>>(e);
                assert(sources[i] == d[i]);
            },
        }
    }
}

/// All data sources are listed, in order, each read from its node and its own attributes; where
/// one cannot be read the listing fails with its complaint.
pub proof fn every_source_is_listed(sources: Seq<NodeView>, attrs: Seq<NodeView>)
    ensures
        match listed(sources, attrs) {
            Ok(v) => v.len() == sources.len() && forall|i: int|
                0 <= i < v.len() ==> source_in(
                    sources[i],
                    attrs.filter(|n: NodeView| is_attribute_of(n, sources[i].id)),
                ) == Ok::<SourceView, Seq<char>>(#[trigger] v[i]),
            Err(e) => exists|i: int|
                0 <= i < sources.len() && source_in(
                    #[trigger] sources[i],
                    own_nodes(attrs, sources[i].id),
                ) == Err::<SourceView, Seq<char>>(e),
        },
{
    lemma_listed(sources, attrs);
    if let Ok(v) = listed(sources, attrs) {
        assert forall|i: int| 0 <= i < v.len() implies source_in(
            sources[i],
            attrs.filter(|n: NodeView| is_attribute_of(n, sources[i].id)),
        ) == Ok::<SourceView, Seq<char>>(#[trigger] v[i]) by {
            attribute_nodes_name_their_source(attrs, sources[i].id);
        }
    }
}

/// A data source is found where it has a node, and read from it and its own attributes.
pub proof fn a_source_is_found_by_its_node(n: NodeView, attrs: Seq<NodeView>, id: Seq<char>)
    ensures
        found(None, attrs, id) == Ok::<Option<SourceView>, Seq<char>>(None),
        match source_in(n, attrs.filter(|a: NodeView| is_attribute_of(a, id))) {
            Ok(s) => found(Some(n), attrs, id) == Ok::<Option<SourceView>, Seq<char>>(Some(s)),
            Err(e) => found(Some(n), attrs, id) == Err::<Option<SourceView>, Seq<char>>(e),
        },
{
    attribute_nodes_name_their_source(attrs, id);
    assert(attrs.filter(|a: NodeView| is_attribute_of(a, id)) == attrs.filter(
        |n: NodeView| is_attribute_of(n, id),
    ));
}

// ---------------------------------------------------------------------------
// Reading
// ---------------------------------------------------------------------------

/// A data source is read from its node: its names, its settings under their prefix, whether it is
/// enabled, which it is where nothing is said, and its times. Only a manual refresh is known.
pub proof fn a_source_is_read_from_its_node(n: NodeView, attrs: Seq<NodeView>, k: Seq<char>)
    requires
        ascending(keys(n.properties)),
    ensures
        source_in(n, attrs) is Ok <==> lookup(n.properties, "refresh_mode"@) == Some(
            JsonView::Str("manual"@),
        ),
        source_in(n, attrs) matches Ok(s) ==> {
            &&& s.id == n.id
            &&& s.label == n.name
            &&& n.subtype matches Some(x) ==> s.kind == x
            &&& n.subtype is None ==> s.kind.len() == 0
            &&& lookup(n.properties, "enabled"@) matches Some(JsonView::Bool(b)) ==> s.enabled == b
            &&& !(lookup(n.properties, "enabled"@) matches Some(v) && v is Bool) ==> s.enabled
            &&& s.config matches JsonView::Object(c) && lookup(c, k) == lookup(
                n.properties,
                "config_"@ + k,
            )
            &&& s.created_at == n.created_at && s.updated_at == n.updated_at
        },
{
    reveal_strlit("");
    reveal_strlit("manual");
    assert("manual"@.len() == 6);
    lemma_config_in(n.properties, k);
}

/// How many features were found, where the node says so.
pub open spec fn is_found_count(e: Entries, n: int) -> bool {
    lookup(e, "feature_count"@) matches Some(JsonView::Number(NumberView::PosInt(u))) && n == (
    u as usize)
}

/// What was discovered is read from the node and the attribute nodes: the number of features, the
/// kinds of geometry, and a type for each attribute. Where none of these is there, nothing was
/// discovered.
pub proof fn a_discovery_is_read(e: Entries, attrs: Seq<NodeView>, n: int)
    ensures
        discovery_in(e, attrs) matches Some(d) ==> {
            &&& is_found_count(e, n) ==> d.feature_count == n
            &&& lookup(e, "feature_count"@) is None ==> d.feature_count == 0
            &&& lookup(e, "geometry_types"@) matches Some(JsonView::Str(t)) ==> d.geometry_types
                == pieces(t, ',')
            &&& d.schema == JsonView::Object(schema_in(attrs))
        },
        is_found_count(e, n) || attrs.len() > 0 ==> discovery_in(e, attrs) is Some,
        !(lookup(e, "feature_count"@) is Some) && attrs.len() == 0 && !(lookup(
            e,
            "geometry_types"@,
        ) is Some) ==> discovery_in(e, attrs) is None,
{
    reveal_strlit("");
    assert(pieces(""@, ',') =~= Seq::empty());
}

/// The schema has, for each name of an attribute node, the type that the last node of that name
/// says; a type that is no text is an empty one.
pub proof fn a_schema_is_read_from_its_nodes(nodes: Seq<NodeView>, k: Seq<char>, i: int)
    ensures
        ascending(keys(schema_in(nodes))),
        0 <= i < nodes.len() && nodes[i].name == k && (forall|j: int|
            i < j < nodes.len() ==> (#[trigger] nodes[j]).name != k) ==> (match lookup(
            schema_in(nodes),
            k,
        ) {
            Some(JsonView::Str(t)) => match lookup(nodes[i].properties, "data_type"@) {
                Some(JsonView::Str(s)) => t == s,
                _ => t.len() == 0,
            },
            _ => false,
        }),
        (forall|j: int| 0 <= j < nodes.len() ==> (#[trigger] nodes[j]).name != k) ==> lookup(
            schema_in(nodes),
            k,
        ) is None,
    decreases nodes.len(),
{
    reveal_strlit("");
    if nodes.len() == 0 {
        assert(keys(schema_in(nodes)) =~= Seq::empty());
    } else {
        let d = nodes.drop_last();
        let n = nodes.len() - 1;
        a_schema_is_read_from_its_nodes(d, k, i);
        let t = str_json(prop_text(nodes.last().properties, "data_type"@));
        lemma_put(schema_in(d), nodes.last().name, t);
        assert(nodes[n] == nodes.last());
        if 0 <= i < n && nodes[i].name == k && (forall|j: int|
            i < j < nodes.len() ==> (#[trigger] nodes[j]).name != k) {
            assert(nodes[n].name != k);
            assert(d[i] == nodes[i]);
            assert forall|j: int| i < j < d.len() implies (#[trigger] d[j]).name != k by {
                assert(nodes[j].name != k);
            }
        }
        if forall|j: int| 0 <= j < nodes.len() ==> (#[trigger] nodes[j]).name != k {
            assert(nodes[n].name != k);
            assert forall|j: int| 0 <= j < d.len() implies (#[trigger] d[j]).name != k by {
                assert(nodes[j].name != k);
            }
        }
    }
}

/// What is told of a dataset: how many features it has, of which kinds, and with which attributes.
pub proof fn a_dataset_is_told_of(fs: Seq<FeatureView>, name: Seq<char>, description: Seq<char>)
    requires
        fs.len() <= usize::MAX,
    ensures
        info_of(fs, name, description).name == name,
        info_of(fs, name, description).description == description,
        info_of(fs, name, description).feature_count == fs.len(),
        info_of(fs, name, description).geometry_types == kinds_of(fs),
        info_of(fs, name, description).schema == JsonView::Object(schema_of(fs)),
{
}

/// A dataset of the government portal is asked for by its id, which may not be empty, found under
/// the address that the portal gives, and titled by its label where it has one.
pub proof fn a_dataset_is_fetched_by_its_id(config: JsonView, body: JsonView, id: Seq<char>)
    ensures
        match config.get("dataset_id"@) {
            Some(JsonView::Str(s)) => setting(config, "dataset_id"@) == (if s.len() > 0 {
                Some(s)
            } else {
                None
            }),
            _ => setting(config, "dataset_id"@) is None,
        },
        body.get("data"@) is None ==> url_in(body) is None,
        body.get("data"@) matches Some(d) ==> url_in(body) == d.text_at("url"@),
        dataset_titles(config, id).1 == "data.gov.sg dataset "@ + id,
        match config.get("label"@) {
            Some(JsonView::Str(s)) => s.len() > 0 ==> dataset_titles(config, id).0 == s,
            _ => dataset_titles(config, id).0 == dataset_titles(config, id).1,
        },
{
}

// ---------------------------------------------------------------------------
// Writing
// ---------------------------------------------------------------------------

proof fn lemma_setting(e: Entries, c: Entries, i: int)
    requires
        ascending(keys(e)),
        0 <= i < c.len(),
        forall|a: int, b: int|
            0 <= a < b < c.len() ==> (#[trigger] c[a]).0 != (#[trigger] c[b]).0,
    ensures
        ascending(keys(with_config(e, c))),
        lookup(with_config(e, c), "config_"@ + c[i].0) == (if c[i].1 is Str || c[i].1 is Number
            || c[i].1 is Bool {
            Some(c[i].1)
        } else {
            lookup(e, "config_"@ + c[i].0)
        }),
    decreases c.len(),
{
    let d = c.drop_last();
    let n = c.len() - 1;
    let key = "config_"@ + c[i].0;
    assert forall|a: int, b: int| 0 <= a < b < d.len() implies (#[trigger] d[a]).0 != (
    #[trigger] d[b]).0 by {
        assert(c[a].0 != c[b].0);
    }
    assert(c[n] == c.last());
    if i < n {
        lemma_setting(e, d, i);
        assert(c[i].0 != c[n].0);
        lemma_other_setting(c[i].0, c[n].0);
    } else {
        lemma_no_setting(e, d, c[n].0);
    }
    lemma_put(with_config(e, d), "config_"@ + c[n].0, c[n].1);
}

proof fn lemma_other_setting(a: Seq<char>, b: Seq<char>)
    requires
        a != b,
    ensures
        "config_"@ + a != "config_"@ + b,
{
    let n = "config_"@.len() as int;
    assert(("config_"@ + a).skip(n) =~= a);
    assert(("config_"@ + b).skip(n) =~= b);
}

proof fn lemma_no_setting(e: Entries, c: Entries, k: Seq<char>)
    requires
        ascending(keys(e)),
        forall|a: int| 0 <= a < c.len() ==> (#[trigger] c[a]).0 != k,
    ensures
        ascending(keys(with_config(e, c))),
        lookup(with_config(e, c), "config_"@ + k) == lookup(e, "config_"@ + k),
    decreases c.len(),
{
    if c.len() > 0 {
        let d = c.drop_last();
        assert forall|a: int| 0 <= a < d.len() implies (#[trigger] d[a]).0 != k by {
            assert(c[a].0 != k);
        }
        lemma_no_setting(e, d, k);
        assert(c[c.len() - 1].0 != k);
        lemma_other_setting(k, c.last().0);
        lemma_put(with_config(e, d), "config_"@ + c.last().0, c.last().1);
    }
}

/// The node of a data source holds each of its settings that is a text, a number or a truth value
/// under its prefixed key; a nested setting is left out.
pub proof fn a_source_node_holds_the_settings(s: SourceView, c: Entries, i: int)
    requires
        s.config == JsonView::Object(c),
        ascending(keys(c)),
        0 <= i < c.len(),
    ensures
        lookup(source_properties(s), "config_"@ + c[i].0) == (if c[i].1 is Str || c[i].1 is Number
            || c[i].1 is Bool {
            Some(c[i].1)
        } else {
            None
        }),
{
    crate::datasources::codec::lemma_fixed_keys();
    assert(keys(no_entries()) =~= Seq::empty());
    let key = "config_"@ + c[i].0;
    assert(crate::text::starts_with(key, "config_"@)) by {
        assert(key.take("config_"@.len() as int) =~= "config_"@);
    }
    let e0 = no_entries();
    lemma_put(e0, "enabled"@, JsonView::Bool(s.enabled));
    let e1 = put(e0, "enabled"@, JsonView::Bool(s.enabled));
    lemma_put(e1, "refresh_mode"@, str_json("manual"@));
    let e2 = put(e1, "refresh_mode"@, str_json("manual"@));
    assert forall|a: int, b: int| 0 <= a < b < c.len() implies (#[trigger] c[a]).0 != (
    #[trigger] c[b]).0 by {
        assert(crate::text::text_lt(keys(c)[a], keys(c)[b]));
        crate::text::text_lt_irreflexive(keys(c)[a]);
    }
    lemma_setting(e2, c, i);
    assert(lookup(e2, key) == lookup(e1, key));
    assert(lookup(e1, key) == lookup(e0, key));
    let e3 = with_config(e2, c);
    if let Some(d) = s.discovered {
        let n = crate::json::int_json(d.feature_count as int);
        lemma_put(e3, "feature_count"@, n);
        lemma_put(
            put(e3, "feature_count"@, n),
            "geometry_types"@,
            str_json(crate::text::join(d.geometry_types, ","@)),
        );
    }
}

/// The node of a data source has its id, its label and its kind.
pub proof fn a_source_node_is_named(s: SourceView, created_at: Seq<char>, updated_at: Seq<char>)
    ensures
        source_node(s, created_at, updated_at).id == s.id,
        source_node(s, created_at, updated_at).name == s.label,
        source_node(s, created_at, updated_at).subtype == Some(s.kind),
        source_node(s, created_at, updated_at).node_type == "DataSource"@,
{
}

/// An attribute node names its attribute, its source and the type, where that is a text.
pub proof fn an_attribute_node_tells_its_type(n: NodeView, s: SourceView, k: Seq<char>, t: Seq<char>)
    requires
        is_attr_node(n, s, (k, JsonView::Str(t))),
    ensures
        n.node_type == "DataSourceAttribute"@,
        n.name == k,
        lookup(n.properties, "source_id"@) == Some(JsonView::Str(s.id)),
        lookup(n.properties, "data_type"@) == Some(JsonView::Str(t)),
{
    reveal_strlit("source_id");
    reveal_strlit("data_type");
    assert("source_id"@[0] == 's' && "data_type"@[0] == 'd');
    assert(keys(no_entries()) =~= Seq::empty());
    lemma_put(no_entries(), "source_id"@, str_json(s.id));
    lemma_put(put(no_entries(), "source_id"@, str_json(s.id)), "data_type"@, str_json(t));
}

} // verus!
