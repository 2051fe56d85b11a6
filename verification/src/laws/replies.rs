//! Replies about features, tiles and data sources.

use vstd::prelude::*;

#[allow(unused_imports)]
use crate::coordinator::features::{
    first_text, inspection, layer_out, name_keys, number_keys, opt_text_or, plain_text,
    shown_properties,
};
#[allow(unused_imports)]
use crate::coordinator::reply::{
    all_found_out, base64_text, flag_out, found_out, spatial_out, tile_out,
};
#[allow(unused_imports)]
use crate::datasources::actor::{
    discovery_out, info_out, patched, source_out, sources_out, texts_out,
};
#[allow(unused_imports)]
use crate::datasources::{DiscoveryView, InfoView, SourceView};
#[allow(unused_imports)]
use crate::json::{int_json, no_entries, number_text, str_json, Entries, JsonView};
#[allow(unused_imports)]
use crate::laws::queries::{has_place, is_feature_for, is_list_of, lemma_feature_out};
#[allow(unused_imports)]
use crate::models::geojson::node_geometry_out;
#[allow(unused_imports)]
use crate::models::NodeView;
#[allow(unused_imports)]
use crate::textmap::{ascending, keys, lemma_put, lemma_without, lookup, put, without};

verus! {

// ---------------------------------------------------------------------------
// Features of a layer
// ---------------------------------------------------------------------------

/// A text or a number under a key, as text; the empty text for anything else.
pub open spec fn shown_text(e: Entries, key: Seq<char>) -> Seq<char> {
    match lookup(e, key) {
        Some(JsonView::Str(s)) => s,
        Some(JsonView::Number(n)) => number_text(n),
        _ => Seq::empty(),
    }
}

/// The text is that of the first key that has one, or empty where none has.
pub open spec fn is_first_text(e: Entries, names: Seq<Seq<char>>, t: Seq<char>) -> bool {
    ||| exists|i: int|
        0 <= i < names.len() && t == shown_text(e, #[trigger] names[i]) && t.len() > 0
            && forall|j: int| 0 <= j < i ==> shown_text(e, #[trigger] names[j]).len() == 0
    ||| t.len() == 0 && forall|j: int|
        0 <= j < names.len() ==> shown_text(e, #[trigger] names[j]).len() == 0
}

proof fn lemma_first_text(e: Entries, names: Seq<Seq<char>>)
    ensures
        is_first_text(e, names, first_text(e, names)),
    decreases names.len(),
{
    reveal_strlit("");
    assert forall|k: Seq<char>| #[trigger] shown_text(e, k) == plain_text(lookup(e, k)) by {
        assert(""@ =~= Seq::<char>::empty());
    }
    if names.len() > 0 {
        let t = first_text(e, names);
        if shown_text(e, names[0]).len() > 0 {
            assert(t == shown_text(e, names[0]));
        } else {
            let d = names.drop_first();
            lemma_first_text(e, d);
            if t.len() > 0 {
                let i = choose|i: int|
                    0 <= i < d.len() && t == shown_text(e, #[trigger] d[i]) && t.len() > 0
                        && forall|j: int| 0 <= j < i ==> shown_text(e, #[trigger] d[j]).len() == 0;
                assert(names[i + 1] == d[i]);
                assert forall|j: int| 0 <= j < i + 1 implies shown_text(
                    e,
                    #[trigger] names[j],
                ).len() == 0 by {
                    if j > 0 {
                        assert(shown_text(e, d[j - 1]).len() == 0);
                    }
                }
            } else {
                assert forall|j: int| 0 <= j < names.len() implies shown_text(
                    e,
                    #[trigger] names[j],
                ).len() == 0 by {
                    if j > 0 {
                        assert(shown_text(e, d[j - 1]).len() == 0);
                    }
                }
            }
        }
    } else {
        assert(first_text(e, names) =~= Seq::empty());
    }
}

/// A feature that is shown with little has its class, a name from the first attribute that has
/// one, a number likewise, and its id, and no more. Shown in full it has all its attributes but
/// the geometry.
pub proof fn features_are_shown_briefly_or_in_full(n: NodeView, k: Seq<char>)
    requires
        ascending(keys(n.properties)),
    ensures
        ({
            let e = shown_properties(n, true);
            &&& lookup(e, "class"@) == Some(JsonView::Str(shown_text(n.properties, "FOLDERPATH"@)))
            &&& lookup(e, "id"@) == Some(JsonView::Str(n.id))
            &&& lookup(e, "name"@) matches Some(JsonView::Str(t)) && is_first_text(
                n.properties,
                seq![
                    "NAME"@,
                    "name"@,
                    "PARK_NAME"@,
                    "AREA_NAME"@,
                    "TREE_NAME"@,
                    "TREE_ID"@,
                    "NAME_NEW"@,
                    "Description"@,
                ],
                t,
            )
            &&& lookup(e, "objectid"@) matches Some(JsonView::Str(t)) && is_first_text(
                n.properties,
                seq!["OBJECTID"@, "objectid"@, "FID"@, "fid"@, "ID"@, "id"@],
                t,
            )
            &&& k != "class"@ && k != "id"@ && k != "name"@ && k != "objectid"@ ==> lookup(e, k)
                is None
        }),
        lookup(shown_properties(n, false), "geometry"@) is None,
        k != "geometry"@ ==> lookup(shown_properties(n, false), k) == lookup(n.properties, k),
{
    reveal_strlit("");
    reveal_strlit("class");
    reveal_strlit("name");
    reveal_strlit("objectid");
    reveal_strlit("id");
    assert("class"@.len() == 5 && "name"@.len() == 4 && "objectid"@.len() == 8 && "id"@.len()
        == 2);
    assert(""@ =~= Seq::<char>::empty());
    assert(keys(no_entries()) =~= Seq::empty());
    lemma_first_text(n.properties, name_keys());
    lemma_first_text(n.properties, number_keys());
    lemma_without(n.properties, "geometry"@);
    let class = str_json(plain_text(lookup(n.properties, "FOLDERPATH"@)));
    let name = str_json(first_text(n.properties, name_keys()));
    let number = str_json(first_text(n.properties, number_keys()));
    let e0 = no_entries();
    lemma_put(e0, "class"@, class);
    let e1 = put(e0, "class"@, class);
    lemma_put(e1, "name"@, name);
    let e2 = put(e1, "name"@, name);
    lemma_put(e2, "objectid"@, number);
    let e3 = put(e2, "objectid"@, number);
    lemma_put(e3, "id"@, str_json(n.id));
    assert(lookup(e0, k) is None);
}

/// A reply with the features of a layer holds all that it was given, in order, counts them, and
/// says whether the limit was reached.
pub proof fn a_layer_reply_holds_every_feature(fs: Seq<JsonView>, limit: u32)
    requires
        fs.len() <= u32::MAX,
    ensures
        layer_out(fs, limit).text_at("type"@) == Some("FeatureCollection"@),
        layer_out(fs, limit).get("features"@) == Some(JsonView::Array(fs)),
        layer_out(fs, limit).get("total"@) == Some(int_json(fs.len() as int)),
        layer_out(fs, limit).get("truncated"@) == Some(JsonView::Bool(fs.len() >= limit)),
{
    lemma_collection_keys();
    assert(keys(no_entries()) =~= Seq::empty());
    let kind = str_json("FeatureCollection"@);
    let cut = JsonView::Bool((fs.len() as usize as u32) >= limit);
    let e0 = no_entries();
    lemma_put(e0, "type"@, kind);
    let e1 = put(e0, "type"@, kind);
    lemma_put(e1, "features"@, JsonView::Array(fs));
    let e2 = put(e1, "features"@, JsonView::Array(fs));
    lemma_put(e2, "total"@, int_json(fs.len() as int));
    let e3 = put(e2, "total"@, int_json(fs.len() as int));
    lemma_put(e3, "truncated"@, cut);
}

proof fn lemma_collection_keys()
    ensures
        "type"@.len() == 4,
        "features"@.len() == 8,
        "total"@.len() == 5,
        "truncated"@.len() == 9,
{
    reveal_strlit("type");
    reveal_strlit("features");
    reveal_strlit("total");
    reveal_strlit("truncated");
}

// ---------------------------------------------------------------------------
// Features in a box
// ---------------------------------------------------------------------------

/// What a reply says of a node in a box: its attributes and its layer.
pub open spec fn shows_found(f: JsonView, n: NodeView) -> bool {
    exists|e: Entries| #[trigger]
        is_feature_for(f, n, e) && lookup(e, "layer"@) == Some(
            JsonView::Str(opt_text_or(n.subtype)),
        ) && forall|k: Seq<char>|
            k != "layer"@ ==> #[trigger] lookup(e, k) == lookup(n.properties, k)
}

proof fn lemma_found_out(n: NodeView)
    requires
        ascending(keys(n.properties)),
    ensures
        found_out(n) is Some <==> has_place(n),
        found_out(n) matches Some(f) ==> shows_found(f, n),
{
    if let Some(f) = found_out(n) {
        let layer = str_json(opt_text_or(n.subtype));
        lemma_put(n.properties, "layer"@, layer);
        let e = put(n.properties, "layer"@, layer);
        lemma_feature_out(n.id, e, node_geometry_out(n)->0);
        assert(is_feature_for(f, n, e));
    }
}

proof fn lemma_all_found(nodes: Seq<NodeView>)
    requires
        forall|i: int| 0 <= i < nodes.len() ==> ascending(keys((#[trigger] nodes[i]).properties)),
    ensures
        ({
            let with = nodes.filter(|n: NodeView| has_place(n));
            &&& all_found_out(nodes).len() == with.len()
            &&& forall|i: int|
                0 <= i < with.len() ==> shows_found(#[trigger] all_found_out(nodes)[i], with[i])
        }),
    decreases nodes.len(),
{
    reveal(Seq::filter);
    let p = |n: NodeView| has_place(n);
    if nodes.len() > 0 {
        let d = nodes.drop_last();
        assert forall|i: int| 0 <= i < d.len() implies ascending(
            keys((#[trigger] d[i]).properties),
        ) by {
            assert(ascending(keys(nodes[i].properties)));
        }
        lemma_all_found(d);
        assert(ascending(keys(nodes[nodes.len() - 1].properties)));
        lemma_found_out(nodes.last());
        let with = nodes.filter(p);
        assert forall|i: int| 0 <= i < with.len() implies shows_found(
            #[trigger] all_found_out(nodes)[i],
            with[i],
        ) by {
            if i < d.filter(p).len() {
                assert(shows_found(all_found_out(d)[i], d.filter(p)[i]));
            }
        }
    }
}

/// A reply to a box query shows each node that was found and can be shown, in order, and repeats
/// what the store says of their number.
pub proof fn a_box_reply_shows_every_node(nodes: Seq<NodeView>, total: int, truncated: bool)
    requires
        forall|i: int| 0 <= i < nodes.len() ==> ascending(keys((#[trigger] nodes[i]).properties)),
    ensures
        ({
            let with = nodes.filter(|n: NodeView| has_place(n));
            let r = spatial_out(nodes, total, truncated);
            &&& r.text_at("type"@) == Some("FeatureCollection"@)
            &&& r.get("total"@) == Some(int_json(total))
            &&& r.get("truncated"@) == Some(JsonView::Bool(truncated))
            &&& r.get("features"@) is Some && r.get("features"@)->0 is Array && r.get(
                "features"@,
            )->0->Array_0.len() == with.len() && forall|i: int|
                0 <= i < with.len() ==> shows_found(
                    #[trigger] r.get("features"@)->0->Array_0[i],
                    with[i],
                )
        }),
{
    lemma_collection_keys();
    lemma_all_found(nodes);
    assert(keys(no_entries()) =~= Seq::empty());
    let kind = str_json("FeatureCollection"@);
    let fs = JsonView::Array(all_found_out(nodes));
    let e0 = no_entries();
    lemma_put(e0, "type"@, kind);
    let e1 = put(e0, "type"@, kind);
    lemma_put(e1, "features"@, fs);
    let e2 = put(e1, "features"@, fs);
    lemma_put(e2, "total"@, int_json(total));
    let e3 = put(e2, "total"@, int_json(total));
    lemma_put(e3, "truncated"@, JsonView::Bool(truncated));
}

// ---------------------------------------------------------------------------
// A single feature
// ---------------------------------------------------------------------------

/// A feature that is looked at is shown with its id, layer and name and with all its attributes
/// but the plumbing; what is no feature is refused.
pub proof fn a_feature_is_shown_whole(n: NodeView, id: Seq<char>, k: Seq<char>)
    requires
        ascending(keys(n.properties)),
    ensures
        inspection(None, id) == Err::<JsonView, Seq<char>>("no feature with id '"@ + id + "'"@),
        n.node_type != "Feature"@ ==> inspection(Some(n), id) is Err,
        n.node_type == "Feature"@ ==> match inspection(Some(n), id) {
            Err(_) => false,
            Ok(j) => {
                &&& j.text_at("id"@) == Some(n.id)
                &&& j.text_at("name"@) == Some(n.name)
                &&& j.text_at("layer"@) == Some(opt_text_or(n.subtype))
                &&& j.get("attributes"@) is Some
                &&& j.get("attributes"@)->0.get(k) == (if k == "geometry"@ || k == "layer_id"@ || k
                    == "source_id"@ {
                    None
                } else {
                    lookup(n.properties, k)
                })
            },
        },
{
    reveal_strlit("id");
    reveal_strlit("name");
    reveal_strlit("layer");
    reveal_strlit("attributes");
    assert("id"@.len() == 2 && "name"@.len() == 4 && "layer"@.len() == 5 && "attributes"@.len()
        == 10);
    assert(keys(no_entries()) =~= Seq::empty());
    lemma_without(n.properties, "geometry"@);
    let a1 = without(n.properties, "geometry"@);
    lemma_without(a1, "layer_id"@);
    let a2 = without(a1, "layer_id"@);
    lemma_without(a2, "source_id"@);
    let a3 = without(a2, "source_id"@);
    let e0 = no_entries();
    lemma_put(e0, "id"@, str_json(n.id));
    let e1 = put(e0, "id"@, str_json(n.id));
    lemma_put(e1, "layer"@, str_json(opt_text_or(n.subtype)));
    let e2 = put(e1, "layer"@, str_json(opt_text_or(n.subtype)));
    lemma_put(e2, "name"@, str_json(n.name));
    let e3 = put(e2, "name"@, str_json(n.name));
    lemma_put(e3, "attributes"@, JsonView::Object(a3));
    assert(k == "geometry"@ || k == "layer_id"@ || k == "source_id"@ ==> lookup(a3, k) is None);
}

/// A tile goes out as text with its length, and a flag says that something was done.
pub proof fn tiles_and_flags_are_told(bytes: Seq<u8>, key: Seq<char>)
    ensures
        tile_out(bytes).text_at("tile"@) == Some(base64_text(bytes)),
        tile_out(bytes).get("bytes"@) == Some(int_json(bytes.len() as int)),
        flag_out(key).get(key) == Some(JsonView::Bool(true)),
{
    reveal_strlit("tile");
    reveal_strlit("bytes");
    assert("tile"@.len() == 4 && "bytes"@.len() == 5);
    assert(keys(no_entries()) =~= Seq::empty());
    lemma_put(no_entries(), "tile"@, str_json(base64_text(bytes)));
    lemma_put(
        put(no_entries(), "tile"@, str_json(base64_text(bytes))),
        "bytes"@,
        int_json(bytes.len() as int),
    );
    lemma_put(no_entries(), key, JsonView::Bool(true));
}

// ---------------------------------------------------------------------------
// Data sources
// ---------------------------------------------------------------------------

/// What a reply says of what was discovered.
pub open spec fn shows_discovery(j: JsonView, d: DiscoveryView) -> bool {
    &&& j.get("feature_count"@) == Some(int_json(d.feature_count as int))
    &&& is_list_of(j.get("geometry_types"@), d.geometry_types)
    &&& j.get("schema"@) == Some(d.schema)
}

/// What a reply says of a data source: everything that its definition holds.
pub open spec fn shows_source(j: JsonView, s: SourceView) -> bool {
    &&& j.text_at("id"@) == Some(s.id)
    &&& j.text_at("kind"@) == Some(s.kind)
    &&& j.text_at("label"@) == Some(s.label)
    &&& j.get("config"@) == Some(s.config)
    &&& j.get("enabled"@) == Some(JsonView::Bool(s.enabled))
    &&& j.text_at("created_at"@) == Some(s.created_at)
    &&& j.text_at("updated_at"@) == Some(s.updated_at)
    &&& j.get("refresh"@) is Some && j.get("refresh"@)->0.text_at("mode"@) == Some("manual"@)
    &&& match s.discovered {
        Some(d) => j.get("discovered"@) is Some && shows_discovery(j.get("discovered"@)->0, d),
        None => j.get("discovered"@) is None,
    }
}

proof fn lemma_source_keys()
    ensures
        "id"@.len() == 2,
        "kind"@.len() == 4,
        "label"@.len() == 5,
        "config"@.len() == 6,
        "refresh"@.len() == 7,
        "enabled"@.len() == 7,
        "discovered"@.len() == 10,
        "created_at"@.len() == 10,
        "updated_at"@.len() == 10,
        "refresh"@[0] == 'r',
        "enabled"@[0] == 'e',
        "discovered"@[0] == 'd',
        "created_at"@[0] == 'c',
        "updated_at"@[0] == 'u',
        "feature_count"@.len() == 13,
        "geometry_types"@.len() == 14,
        "schema"@.len() == 6,
        "name"@.len() == 4,
        "description"@.len() == 11,
{
    reveal_strlit("id");
    reveal_strlit("kind");
    reveal_strlit("label");
    reveal_strlit("config");
    reveal_strlit("refresh");
    reveal_strlit("enabled");
    reveal_strlit("discovered");
    reveal_strlit("created_at");
    reveal_strlit("updated_at");
    reveal_strlit("feature_count");
    reveal_strlit("geometry_types");
    reveal_strlit("schema");
    reveal_strlit("name");
    reveal_strlit("description");
}

proof fn lemma_discovery_out(d: DiscoveryView)
    ensures
        shows_discovery(discovery_out(d), d),
{
    lemma_source_keys();
    assert(keys(no_entries()) =~= Seq::empty());
    let e0 = no_entries();
    lemma_put(e0, "feature_count"@, int_json(d.feature_count as int));
    let e1 = put(e0, "feature_count"@, int_json(d.feature_count as int));
    lemma_put(e1, "geometry_types"@, texts_out(d.geometry_types));
    let e2 = put(e1, "geometry_types"@, texts_out(d.geometry_types));
    lemma_put(e2, "schema"@, d.schema);
}

/// A reply with a data source shows its whole definition.
pub proof fn a_reply_shows_the_definition(s: SourceView)
    ensures
        shows_source(source_out(s), s),
{
    lemma_source_keys();
    reveal_strlit("mode");
    assert(keys(no_entries()) =~= Seq::empty());
    lemma_put(no_entries(), "mode"@, str_json("manual"@));
    let refresh = JsonView::Object(put(no_entries(), "mode"@, str_json("manual"@)));
    let e0 = no_entries();
    lemma_put(e0, "id"@, str_json(s.id));
    let e1 = put(e0, "id"@, str_json(s.id));
    lemma_put(e1, "kind"@, str_json(s.kind));
    let e2 = put(e1, "kind"@, str_json(s.kind));
    lemma_put(e2, "label"@, str_json(s.label));
    let e3 = put(e2, "label"@, str_json(s.label));
    lemma_put(e3, "config"@, s.config);
    let e4 = put(e3, "config"@, s.config);
    lemma_put(e4, "refresh"@, refresh);
    let e5 = put(e4, "refresh"@, refresh);
    lemma_put(e5, "enabled"@, JsonView::Bool(s.enabled));
    let e6 = put(e5, "enabled"@, JsonView::Bool(s.enabled));
    let e7 = match s.discovered {
        Some(d) => put(e6, "discovered"@, discovery_out(d)),
        None => e6,
    };
    if let Some(d) = s.discovered {
        lemma_put(e6, "discovered"@, discovery_out(d));
        lemma_discovery_out(d);
    } else {
        assert(lookup(e0, "discovered"@) is None);
    }
    lemma_put(e7, "created_at"@, str_json(s.created_at));
    let e8 = put(e7, "created_at"@, str_json(s.created_at));
    lemma_put(e8, "updated_at"@, str_json(s.updated_at));
}

/// A reply with data sources shows every one of them, in order.
pub proof fn a_reply_shows_every_source(v: Seq<SourceView>)
    ensures
        sources_out(v) matches JsonView::Array(a) && a.len() == v.len() && forall|i: int|
            0 <= i < a.len() ==> shows_source(#[trigger] a[i], v[i]),
{
    assert forall|i: int| 0 <= i < v.len() implies shows_source(
        #[trigger] sources_out(v)->Array_0[i],
        v[i],
    ) by {
        a_reply_shows_the_definition(v[i]);
    }
}

/// A reply about a dataset shows all that was found out about it.
pub proof fn a_reply_shows_the_dataset(i: InfoView)
    ensures
        info_out(i).text_at("name"@) == Some(i.name),
        info_out(i).text_at("description"@) == Some(i.description),
        info_out(i).get("feature_count"@) == Some(int_json(i.feature_count as int)),
        info_out(i).get("schema"@) == Some(i.schema),
        is_list_of(info_out(i).get("geometry_types"@), i.geometry_types),
{
    lemma_source_keys();
    assert(keys(no_entries()) =~= Seq::empty());
    let e0 = no_entries();
    lemma_put(e0, "name"@, str_json(i.name));
    let e1 = put(e0, "name"@, str_json(i.name));
    lemma_put(e1, "description"@, str_json(i.description));
    let e2 = put(e1, "description"@, str_json(i.description));
    lemma_put(e2, "geometry_types"@, texts_out(i.geometry_types));
    let e3 = put(e2, "geometry_types"@, texts_out(i.geometry_types));
    lemma_put(e3, "feature_count"@, int_json(i.feature_count as int));
    let e4 = put(e3, "feature_count"@, int_json(i.feature_count as int));
    lemma_put(e4, "schema"@, i.schema);
}

/// An update changes what it names and nothing else, but for the time.
pub proof fn an_update_changes_what_it_names(
    s: SourceView,
    label: Option<Seq<char>>,
    config: Option<JsonView>,
    enabled: Option<bool>,
    at: Seq<char>,
)
    ensures
        ({
            let t = patched(s, label, config, enabled, at);
            &&& label is Some ==> t.label == label->0
            &&& label is None ==> t.label == s.label
            &&& config is Some ==> t.config == config->0
            &&& config is None ==> t.config == s.config
            &&& enabled is Some ==> t.enabled == enabled->0
            &&& enabled is None ==> t.enabled == s.enabled
            &&& t.updated_at == at
            &&& t.id == s.id && t.kind == s.kind && t.discovered == s.discovered
            &&& t.created_at == s.created_at && t.refresh == s.refresh
        }),
{
}

} // verus!
