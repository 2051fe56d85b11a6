//! The catalog of layers: listing, reordering and deleting.
//!
//! A layer is a `Layer` node; the features of a layer carry its id in their `layer_id` property.

use vstd::prelude::*;

use crate::geometry::Bounds;
use crate::json::{Json, JsonObject};
use crate::models::AttrNode;
use crate::order::{sorted_order, SortKey};
use crate::text::{concat3, same_text};
use crate::textmap::TextMap;
#[allow(unused_imports)]
use crate::geometry::{opt_bounds_view, BoundsView};
#[allow(unused_imports)]
use crate::json::{array_view, int_json, no_entries, real_json, str_json, JsonView};
#[allow(unused_imports)]
use crate::models::{nodes_view, NodeView};
#[allow(unused_imports)]
use crate::order::{
    comes_before, in_order, is_order, key_lt, lemma_place_is, order_is_stable, order_of,
    places_view, sort_keys_view, KeyView,
};
#[allow(unused_imports)]
use crate::text::{texts, text_lt_irreflexive};
#[allow(unused_imports)]
use crate::textmap::{ascending, keys, lemma_put, lookup, put};

verus! {

// ---------------------------------------------------------------------------
// Which features are whose
// ---------------------------------------------------------------------------

/// A node belongs to the layer with an id.
pub open spec fn belongs_to(f: NodeView, id: Seq<char>) -> bool {
    f.text_at("layer_id"@) == Some(id)
}

/// How many of the features belong to a layer.
pub open spec fn count_of(features: Seq<NodeView>, id: Seq<char>) -> nat
    decreases features.len(),
{
    if features.len() == 0 {
        0
    } else {
        count_of(features.drop_last(), id) + if belongs_to(features.last(), id) {
            1nat
        } else {
            0nat
        }
    }
}

/// The class of a feature.
pub open spec fn class_of(f: NodeView) -> Option<Seq<char>> {
    f.text_at("FOLDERPATH"@)
}

/// How many features of a layer have a class.
pub open spec fn class_count(features: Seq<NodeView>, id: Seq<char>, class: Seq<char>) -> nat
    decreases features.len(),
{
    if features.len() == 0 {
        0
    } else {
        let f = features.last();
        class_count(features.drop_last(), id, class) + if belongs_to(f, id) && class_of(f) == Some(
            class,
        ) {
            1nat
        } else {
            0nat
        }
    }
}

/// The counts with one more under a key.
pub open spec fn counted(m: Seq<(Seq<char>, u64)>, k: Seq<char>) -> Seq<(Seq<char>, u64)> {
    match lookup(m, k) {
        Some(n) => put(m, k, (n + 1) as u64),
        None => put(m, k, 1u64),
    }
}

/// The classes that occur in a layer, each with its count, in order of the classes.
pub open spec fn class_counts(features: Seq<NodeView>, id: Seq<char>) -> Seq<(Seq<char>, u64)>
    decreases features.len(),
{
    if features.len() == 0 {
        Seq::empty()
    } else {
        let before = class_counts(features.drop_last(), id);
        let f = features.last();
        if belongs_to(f, id) && class_of(f) is Some {
            counted(before, class_of(f)->0)
        } else {
            before
        }
    }
}

/// A class is listed with exactly the number of features of the layer that have it, and is not
/// listed where none has it.
pub proof fn classes_are_counted(features: Seq<NodeView>, id: Seq<char>, class: Seq<char>)
    requires
        features.len() <= u64::MAX,
    ensures
        ascending(keys(class_counts(features, id))),
        class_count(features, id, class) <= features.len(),
        lookup(class_counts(features, id), class) == (if class_count(features, id, class) > 0 {
            Some(class_count(features, id, class) as u64)
        } else {
            None
        }),
    decreases features.len(),
{
    if features.len() > 0 {
        let d = features.drop_last();
        classes_are_counted(d, id, class);
        let f = features.last();
        if belongs_to(f, id) && class_of(f) is Some {
            let k = class_of(f)->0;
            let before = class_counts(d, id);
            classes_are_counted(d, id, k);
            let n = match lookup(before, k) {
                Some(n) => (n + 1) as u64,
                None => 1u64,
            };
            lemma_put(before, k, n);
        }
    } else {
        assert(keys(class_counts(features, id)) =~= Seq::empty());
    }
}

// ---------------------------------------------------------------------------
// The catalog
// ---------------------------------------------------------------------------

/// One class within a layer, with its feature count.
#[derive(Debug, PartialEq)]
pub struct ClassCount {
    pub key: String,
    pub count: u64,
}

pub struct ClassView {
    pub key: Seq<char>,
    pub count: u64,
}

impl View for ClassCount {
    type V = ClassView;

    open spec fn view(&self) -> ClassView {
        ClassView { key: self.key@, count: self.count }
    }
}

pub open spec fn classes_view(cs: Seq<ClassCount>) -> Seq<ClassView> {
    cs.map_values(|c: ClassCount| c@)
}

/// The summary of one layer. The stacking order is higher for what is drawn on top.
#[derive(Debug, PartialEq)]
pub struct LayerInfo {
    pub id: String,
    pub name: String,
    pub display_name: String,
    pub description: String,
    pub geometry_type: String,
    pub source: String,
    pub feature_count: u64,
    pub bounds: Option<Bounds>,
    pub classes: Vec<ClassCount>,
    pub z_order: i64,
}

#[verifier::ext_equal]
pub struct InfoView {
    pub id: Seq<char>,
    pub name: Seq<char>,
    pub display_name: Seq<char>,
    pub description: Seq<char>,
    pub geometry_type: Seq<char>,
    pub source: Seq<char>,
    pub feature_count: u64,
    pub bounds: Option<BoundsView>,
    pub classes: Seq<ClassView>,
    pub z_order: i64,
}

impl View for LayerInfo {
    type V = InfoView;

    open spec fn view(&self) -> InfoView {
        InfoView {
            id: self.id@,
            name: self.name@,
            display_name: self.display_name@,
            description: self.description@,
            geometry_type: self.geometry_type@,
            source: self.source@,
            feature_count: self.feature_count,
            bounds: opt_bounds_view(self.bounds),
            classes: classes_view(self.classes@),
            z_order: self.z_order,
        }
    }
}

pub open spec fn infos_view(infos: Seq<LayerInfo>) -> Seq<InfoView> {
    infos.map_values(|i: LayerInfo| i@)
}

/// Larger counts first, equal counts by the class.
pub open spec fn class_keys(m: Seq<(Seq<char>, u64)>) -> Seq<KeyView> {
    m.map_values(|p: (Seq<char>, u64)| KeyView { rank: -(p.1 as int), text: p.0 })
}

/// The classes of a layer in the order in which they are shown.
pub open spec fn sorted_classes(m: Seq<(Seq<char>, u64)>) -> Seq<ClassView> {
    in_order(m, order_of(class_keys(m))).map_values(
        |p: (Seq<char>, u64)| ClassView { key: p.0, count: p.1 },
    )
}

pub open spec fn text_or(s: Option<Seq<char>>, other: Seq<char>) -> Seq<char> {
    match s {
        Some(t) => t,
        None => other,
    }
}

/// The stacking order of a layer node; 0 where it has none.
pub open spec fn z_of(n: NodeView) -> i64 {
    match n.get("z_order"@) {
        Some(v) => match v.as_i64() {
            Some(z) => z,
            None => 0,
        },
        None => 0,
    }
}

/// The summary of a layer.
pub open spec fn info_of(n: NodeView, features: Seq<NodeView>) -> InfoView {
    InfoView {
        id: n.id,
        name: n.name,
        display_name: text_or(n.text_at("display_name"@), ""@),
        description: match n.description {
            Some(d) => d,
            None => text_or(n.text_at("description"@), ""@),
        },
        geometry_type: text_or(n.text_at("geometry_type"@), "Mixed"@),
        source: text_or(n.text_at("source"@), ""@),
        feature_count: count_of(features, n.id) as u64,
        bounds: None,
        classes: sorted_classes(class_counts(features, n.id)),
        z_order: z_of(n),
    }
}

pub open spec fn infos_of(layers: Seq<NodeView>, features: Seq<NodeView>) -> Seq<InfoView> {
    layers.map_values(|n: NodeView| info_of(n, features))
}

/// From the bottom of the stack to its top, equal places by name.
pub open spec fn stack_keys(layers: Seq<NodeView>) -> Seq<KeyView> {
    layers.map_values(|n: NodeView| KeyView { rank: z_of(n) as int, text: n.name })
}

/// Layer nodes from the bottom of the stack to its top.
pub open spec fn stacked(layers: Seq<NodeView>) -> Seq<NodeView> {
    in_order(layers, order_of(stack_keys(layers)))
}

/// The catalog: a summary of each layer, from the bottom of the stack to its top.
pub open spec fn catalog(layers: Seq<NodeView>, features: Seq<NodeView>) -> Seq<InfoView> {
    infos_of(stacked(layers), features)
}

fn is_mine(f: &AttrNode, id: &str) -> (r: bool)
    ensures
        r == belongs_to(f@, id@),
{
    match f.text_at("layer_id") {
        Some(l) => same_text(l.as_str(), id),
        None => false,
    }
}

fn count_one(m: &mut TextMap<u64>, key: &String)
    requires
        lookup(old(m)@, key@) matches Some(n) ==> n < u64::MAX,
    ensures
        final(m)@ == counted(old(m)@, key@),
{
    let n: u64 = match m.get(key.as_str()) {
        Some(n) => *n + 1,
        None => 1,
    };
    m.insert(key.clone(), n);
}

/// Counts the features of a layer, in all and by class.
fn count_features(features: &Vec<AttrNode>, id: &str) -> (r: (u64, TextMap<u64>))
    ensures
        r.0 == count_of(nodes_view(features@), id@),
        r.1@ == class_counts(nodes_view(features@), id@),
{
    let n = features.len();
    let ghost fs = nodes_view(features@);
    let mut total: u64 = 0;
    let mut counts: TextMap<u64> = TextMap::new();
    let mut i: usize = 0;
    while i < n
        invariant
            i <= n,
            n == features@.len(),
            fs == nodes_view(features@),
            total <= i,
            total == count_of(fs.take(i as int), id@),
            counts@ == class_counts(fs.take(i as int), id@),
        decreases n - i,
    {
        proof {
            assert(fs.take(i + 1).drop_last() =~= fs.take(i as int));
            assert(fs.take(i + 1).last() == features@[i as int]@);
        }
        let f = &features[i];
        if is_mine(f, id) {
            total += 1;
            match f.text_at("FOLDERPATH") {
                Some(class) => {
                    proof {
                        classes_are_counted(fs.take(i as int), id@, class@);
                    }
                    count_one(&mut counts, class);
                },
                None => {},
            }
        }
        i += 1;
    }
    proof {
        assert(fs.take(n as int) =~= fs);
    }
    (total, counts)
}

fn sort_classes(m: &TextMap<u64>) -> (r: Vec<ClassCount>)
    ensures
        classes_view(r@) == sorted_classes(m@),
{
    let n = m.len();
    let mut ks: Vec<SortKey> = Vec::new();
    let mut i: usize = 0;
    while i < n
        invariant
            i <= n,
            n == m@.len(),
            ks@.len() == i,
            forall|k: int| 0 <= k < i ==> (#[trigger] ks@[k])@ == class_keys(m@)[k],
        decreases n - i,
    {
        ks.push(SortKey { rank: -(*m.value_at(i) as i128), text: m.key_at(i).clone() });
        i += 1;
    }
    proof {
        assert(sort_keys_view(ks@) =~= class_keys(m@));
    }
    let order = sorted_order(&ks);
    let mut out: Vec<ClassCount> = Vec::new();
    let mut j: usize = 0;
    while j < n
        invariant
            j <= n,
            n == m@.len(),
            order@.len() == n,
            forall|a: int| 0 <= a < order@.len() ==> #[trigger] order@[a] < n,
            out@.len() == j,
            forall|k: int|
                0 <= k < j ==> (#[trigger] out@[k])@ == (ClassView {
                    key: m@[order@[k] as int].0,
                    count: m@[order@[k] as int].1,
                }),
        decreases n - j,
    {
        let at = order[j];
        out.push(ClassCount { key: m.key_at(at).clone(), count: *m.value_at(at) });
        j += 1;
    }
    proof {
        assert forall|k: int| 0 <= k < n implies places_view(order@)[k] == order@[k] by {}
        assert(classes_view(out@) =~= sorted_classes(m@));
    }
    out
}

fn owned_or(s: Option<&String>, other: &str) -> (r: String)
    ensures
        r@ == text_or(
            match s {
                Some(t) => Some(t@),
                None => None,
            },
            other@,
        ),
{
    match s {
        Some(t) => t.clone(),
        None => other.to_owned(),
    }
}

fn z_order(n: &AttrNode) -> (r: i64)
    ensures
        r == z_of(n@),
{
    match n.get("z_order") {
        Some(v) => match v.as_i64() {
            Some(z) => z,
            None => 0,
        },
        None => 0,
    }
}

fn layer_info(n: &AttrNode, features: &Vec<AttrNode>) -> (r: LayerInfo)
    ensures
        r@ == info_of(n@, nodes_view(features@)),
{
    let (feature_count, counts) = count_features(features, n.id.as_str());
    LayerInfo {
        id: n.id.clone(),
        name: n.name.clone(),
        display_name: owned_or(n.text_at("display_name"), ""),
        description: match &n.description {
            Some(d) => d.clone(),
            None => owned_or(n.text_at("description"), ""),
        },
        geometry_type: owned_or(n.text_at("geometry_type"), "Mixed"),
        source: owned_or(n.text_at("source"), ""),
        feature_count,
        bounds: None,
        classes: sort_classes(&counts),
        z_order: z_order(n),
    }
}

/// The order of layer nodes from the bottom of the stack to its top.
fn stack_order(layers: &Vec<AttrNode>) -> (r: Vec<usize>)
    ensures
        places_view(r@) == order_of(stack_keys(nodes_view(layers@))),
        r@.len() == layers@.len(),
        forall|a: int| 0 <= a < r@.len() ==> #[trigger] r@[a] < layers@.len(),
{
    let n = layers.len();
    let ghost ls = nodes_view(layers@);
    let mut ks: Vec<SortKey> = Vec::new();
    let mut i: usize = 0;
    while i < n
        invariant
            i <= n,
            n == layers@.len(),
            ls == nodes_view(layers@),
            ks@.len() == i,
            forall|k: int| 0 <= k < i ==> (#[trigger] ks@[k])@ == stack_keys(ls)[k],
        decreases n - i,
    {
        ks.push(SortKey { rank: z_order(&layers[i]) as i128, text: layers[i].name.clone() });
        i += 1;
    }
    proof {
        assert(sort_keys_view(ks@) =~= stack_keys(ls));
    }
    sorted_order(&ks)
}

/// The catalog of layers, with feature counts, from the bottom of the stack to its top.
pub fn list_layers(layers: &Vec<AttrNode>, features: &Vec<AttrNode>) -> (r: Vec<LayerInfo>)
    ensures
        infos_view(r@) == catalog(nodes_view(layers@), nodes_view(features@)),
{
    let ghost ls = nodes_view(layers@);
    let ghost fs = nodes_view(features@);
    let order = stack_order(layers);
    let n = layers.len();
    let mut out: Vec<LayerInfo> = Vec::new();
    let mut j: usize = 0;
    while j < n
        invariant
            j <= n,
            n == layers@.len(),
            order@.len() == n,
            ls == nodes_view(layers@),
            fs == nodes_view(features@),
            forall|a: int| 0 <= a < order@.len() ==> #[trigger] order@[a] < n,
            out@.len() == j,
            forall|k: int| 0 <= k < j ==> (#[trigger] out@[k])@ == info_of(ls[order@[k] as int], fs),
        decreases n - j,
    {
        out.push(layer_info(&layers[order[j]], features));
        j += 1;
    }
    proof {
        assert forall|k: int| 0 <= k < n implies places_view(order@)[k] == order@[k] by {}
        assert(infos_view(out@) =~= catalog(ls, fs));
    }
    out
}

/// The catalog lists every layer exactly once, lower layers before higher ones, and layers of
/// equal height by name.
pub proof fn catalog_is_stacked(layers: Seq<NodeView>, features: Seq<NodeView>)
    ensures
        is_order(stack_keys(layers), order_of(stack_keys(layers))),
        catalog(layers, features).len() == layers.len(),
        forall|a: int, b: int|
            0 <= a < b < layers.len() ==> {
                let x = #[trigger] catalog(layers, features)[a];
                let y = #[trigger] catalog(layers, features)[b];
                x.z_order <= y.z_order && (x.z_order == y.z_order ==> !crate::text::text_lt(
                    y.name,
                    x.name,
                ))
            },
{
    let ks = stack_keys(layers);
    order_is_stable(ks);
    let order = order_of(ks);
    assert forall|a: int, b: int| 0 <= a < b < layers.len() implies ({
        let x = #[trigger] catalog(layers, features)[a];
        let y = #[trigger] catalog(layers, features)[b];
        x.z_order <= y.z_order && (x.z_order == y.z_order ==> !crate::text::text_lt(
            y.name,
            x.name,
        ))
    }) by {
        assert(comes_before(ks, order[a], order[b]));
        let x = layers[order[a]];
        let y = layers[order[b]];
        if key_lt(ks[order[a]], ks[order[b]]) {
            if z_of(x) == z_of(y) && crate::text::text_lt(y.name, x.name) {
                crate::text::text_lt_transitive(x.name, y.name, x.name);
                text_lt_irreflexive(x.name);
            }
        } else {
            text_lt_irreflexive(x.name);
        }
    }
}

// ---------------------------------------------------------------------------
// The catalog as JSON
// ---------------------------------------------------------------------------

pub open spec fn class_out(c: ClassView) -> JsonView {
    JsonView::Object(
        put(put(no_entries(), "key"@, str_json(c.key)), "count"@, int_json(c.count as int)),
    )
}

pub open spec fn classes_out(cs: Seq<ClassView>) -> Seq<JsonView> {
    cs.map_values(|c: ClassView| class_out(c))
}

/// A box as `[min_lng, min_lat, max_lng, max_lat]`, or null.
pub open spec fn bounds_out(b: Option<BoundsView>) -> JsonView {
    match b {
        Some(b) => JsonView::Array(
            seq![real_json(b.min.x), real_json(b.min.y), real_json(b.max.x), real_json(b.max.y)],
        ),
        None => JsonView::Null,
    }
}

pub open spec fn info_out(i: InfoView) -> JsonView {
    let e = put(no_entries(), "id"@, str_json(i.id));
    let e = put(e, "name"@, str_json(i.name));
    let e = put(e, "display_name"@, str_json(i.display_name));
    let e = put(e, "description"@, str_json(i.description));
    let e = put(e, "geometry_type"@, str_json(i.geometry_type));
    let e = put(e, "source"@, str_json(i.source));
    let e = put(e, "feature_count"@, int_json(i.feature_count as int));
    let e = put(e, "bounds"@, bounds_out(i.bounds));
    let e = put(e, "classes"@, JsonView::Array(classes_out(i.classes)));
    JsonView::Object(put(e, "z_order"@, int_json(i.z_order as int)))
}

pub open spec fn infos_out(infos: Seq<InfoView>) -> JsonView {
    JsonView::Array(infos.map_values(|i: InfoView| info_out(i)))
}

pub fn bounds_json(b: &Option<Bounds>) -> (r: Json)
    ensures
        r@ == bounds_out(opt_bounds_view(*b)),
{
    match b {
        Some(b) => {
            let mut a: Vec<Json> = Vec::new();
            a.push(b.min.x.to_json());
            a.push(b.min.y.to_json());
            a.push(b.max.x.to_json());
            a.push(b.max.y.to_json());
            proof {
                assert(array_view(a@) =~= bounds_out(Some(b@))->Array_0);
            }
            Json::array(a)
        },
        None => Json::null(),
    }
}

fn classes_json(cs: &Vec<ClassCount>) -> (r: Json)
    ensures
        r@ == JsonView::Array(classes_out(classes_view(cs@))),
{
    let n = cs.len();
    let mut out: Vec<Json> = Vec::new();
    let mut i: usize = 0;
    while i < n
        invariant
            i <= n,
            n == cs@.len(),
            out@.len() == i,
            forall|k: int| 0 <= k < i ==> (#[trigger] out@[k])@ == class_out(cs@[k]@),
        decreases n - i,
    {
        let mut o = JsonObject::new();
        o.set("key", Json::text(cs[i].key.as_str()));
        o.set("count", Json::from_u64(cs[i].count));
        out.push(Json::object(o));
        i += 1;
    }
    proof {
        assert(array_view(out@) =~= classes_out(classes_view(cs@)));
    }
    Json::array(out)
}

fn info_json(i: &LayerInfo) -> (r: Json)
    ensures
        r@ == info_out(i@),
{
    let mut o = JsonObject::new();
    o.set("id", Json::text(i.id.as_str()));
    o.set("name", Json::text(i.name.as_str()));
    o.set("display_name", Json::text(i.display_name.as_str()));
    o.set("description", Json::text(i.description.as_str()));
    o.set("geometry_type", Json::text(i.geometry_type.as_str()));
    o.set("source", Json::text(i.source.as_str()));
    o.set("feature_count", Json::from_u64(i.feature_count));
    o.set("bounds", bounds_json(&i.bounds));
    o.set("classes", classes_json(&i.classes));
    o.set("z_order", Json::from_i64(i.z_order));
    Json::object(o)
}

/// The catalog as JSON.
pub fn layers_json(infos: &Vec<LayerInfo>) -> (r: Json)
    ensures
        r@ == infos_out(infos_view(infos@)),
{
    let n = infos.len();
    let mut out: Vec<Json> = Vec::new();
    let mut i: usize = 0;
    while i < n
        invariant
            i <= n,
            n == infos@.len(),
            out@.len() == i,
            forall|k: int| 0 <= k < i ==> (#[trigger] out@[k])@ == info_out(infos@[k]@),
        decreases n - i,
    {
        out.push(info_json(&infos[i]));
        i += 1;
    }
    proof {
        assert(array_view(out@) =~= infos_out(infos_view(infos@))->Array_0);
    }
    Json::array(out)
}

// ---------------------------------------------------------------------------
// Reordering
// ---------------------------------------------------------------------------

/// The place of the first node with an id, or the number of nodes where there is none.
pub open spec fn position_of(nodes: Seq<NodeView>, id: Seq<char>) -> int
    decreases nodes.len(),
{
    if nodes.len() == 0 || nodes[0].id == id {
        0
    } else {
        1 + position_of(nodes.drop_first(), id)
    }
}

/// Items with one of them taken out and put back at a place.
pub open spec fn moved<T>(items: Seq<T>, from: int, to: int) -> Seq<T> {
    items.remove(from).insert(to, items[from])
}

/// The stack with a layer moved one step; it stays where there is no room to move.
pub open spec fn restacked(nodes: Seq<NodeView>, pos: int, up: bool) -> Seq<NodeView> {
    let target = if up {
        pos + 1
    } else if pos > 0 {
        pos - 1
    } else {
        pos
    };
    if target != pos && target < nodes.len() {
        moved(nodes, pos, target)
    } else {
        nodes
    }
}

/// The stacking orders to be written: every node whose order is not its place.
pub open spec fn z_updates(nodes: Seq<NodeView>) -> Seq<(Seq<char>, u64)>
    decreases nodes.len(),
{
    if nodes.len() == 0 {
        Seq::empty()
    } else {
        let before = z_updates(nodes.drop_last());
        let i = nodes.len() - 1;
        if z_of(nodes.last()) == i {
            before
        } else {
            before.push((nodes.last().id, i as u64))
        }
    }
}

/// What moving a layer one step writes, or why it is refused.
pub open spec fn reordering(
    layers: Seq<NodeView>,
    id: Seq<char>,
    direction: Seq<char>,
) -> Result<Seq<(Seq<char>, u64)>, Seq<char>> {
    let nodes = stacked(layers);
    let pos = position_of(nodes, id);
    if pos >= nodes.len() {
        Err("no layer with id '"@ + id + "'"@)
    } else if direction == "up"@ {
        Ok(z_updates(restacked(nodes, pos, true)))
    } else if direction == "down"@ {
        Ok(z_updates(restacked(nodes, pos, false)))
    } else {
        Err("direction must be 'up' or 'down', got '"@ + direction + "'"@)
    }
}

/// A new stacking order for a layer.
#[derive(Debug, PartialEq)]
pub struct ZUpdate {
    pub id: String,
    pub z_order: u64,
}

pub open spec fn updates_view(us: Seq<ZUpdate>) -> Seq<(Seq<char>, u64)> {
    us.map_values(|u: ZUpdate| (u.id@, u.z_order))
}

/// The nodes of a list, in an order.
pub open spec fn nodes_at(nodes: Seq<NodeView>, order: Seq<usize>) -> Seq<NodeView> {
    order.map_values(|a: usize| nodes[a as int])
}

/// The place at which the node with an id stands in an order.
fn find_position(layers: &Vec<AttrNode>, order: &Vec<usize>, id: &str) -> (r: usize)
    requires
        forall|a: int| 0 <= a < order@.len() ==> #[trigger] order@[a] < layers@.len(),
    ensures
        r == position_of(nodes_at(nodes_view(layers@), order@), id@),
        r <= order@.len(),
{
    let n = order.len();
    let ghost nodes = nodes_at(nodes_view(layers@), order@);
    proof {
        assert(nodes.skip(0) =~= nodes);
    }
    let mut pos: usize = 0;
    while pos < n
        invariant
            pos <= n,
            n == order@.len(),
            forall|a: int| 0 <= a < order@.len() ==> #[trigger] order@[a] < layers@.len(),
            nodes == nodes_at(nodes_view(layers@), order@),
            position_of(nodes, id@) == pos + position_of(nodes.skip(pos as int), id@),
        decreases n - pos,
    {
        let node = &layers[order[pos]];
        proof {
            assert(nodes.skip(pos as int)[0] == node@);
            assert(nodes.skip(pos as int).drop_first() =~= nodes.skip(pos + 1));
        }
        if same_text(node.id.as_str(), id) {
            return pos;
        }
        pos += 1;
    }
    pos
}

/// Moves the entry at a place of an order one step, if there is room.
fn shift(order: Vec<usize>, pos: usize, up: bool, Ghost(nodes): Ghost<Seq<NodeView>>) -> (r: Vec<
    usize,
>)
    requires
        pos < order@.len(),
        forall|a: int| 0 <= a < order@.len() ==> #[trigger] order@[a] < nodes.len(),
    ensures
        nodes_at(nodes, r@) == restacked(nodes_at(nodes, order@), pos as int, up),
        forall|a: int| 0 <= a < r@.len() ==> #[trigger] r@[a] < nodes.len(),
{
    let mut out = order;
    let n = out.len();
    let target: usize = if up {
        pos + 1
    } else if pos > 0 {
        pos - 1
    } else {
        pos
    };
    if target != pos && target < n {
        let at = out.remove(pos);
        out.insert(target, at);
        proof {
            assert(out@ =~= moved(order@, pos as int, target as int));
            assert forall|a: int| 0 <= a < out@.len() implies #[trigger] out@[a] < nodes.len() by {
                assert(order@.contains(out@[a]));
            }
            assert(nodes_at(nodes, out@) =~= moved(
                nodes_at(nodes, order@),
                pos as int,
                target as int,
            ));
        }
    }
    out
}

/// The stacking orders to be written so that every layer of an order has its place.
fn updates_for(layers: &Vec<AttrNode>, order: &Vec<usize>) -> (r: Vec<ZUpdate>)
    requires
        forall|a: int| 0 <= a < order@.len() ==> #[trigger] order@[a] < layers@.len(),
    ensures
        updates_view(r@) == z_updates(nodes_at(nodes_view(layers@), order@)),
{
    let n = order.len();
    let ghost nodes = nodes_at(nodes_view(layers@), order@);
    let mut out: Vec<ZUpdate> = Vec::new();
    let mut i: usize = 0;
    proof {
        assert(updates_view(out@) =~= z_updates(nodes.take(0)));
    }
    while i < n
        invariant
            i <= n,
            n == order@.len(),
            forall|a: int| 0 <= a < order@.len() ==> #[trigger] order@[a] < layers@.len(),
            nodes == nodes_at(nodes_view(layers@), order@),
            updates_view(out@) == z_updates(nodes.take(i as int)),
        decreases n - i,
    {
        let node = &layers[order[i]];
        proof {
            assert(nodes.take(i + 1).drop_last() =~= nodes.take(i as int));
            assert(nodes.take(i + 1).last() == node@);
        }
        let z = z_order(node);
        if !(z >= 0 && z as u64 == i as u64) {
            let ghost before = out@;
            out.push(ZUpdate { id: node.id.clone(), z_order: i as u64 });
            proof {
                assert(updates_view(out@) =~= updates_view(before).push((node@.id, i as u64)));
            }
        }
        i += 1;
    }
    proof {
        assert(nodes.take(n as int) =~= nodes);
    }
    out
}

pub open spec fn updates_result(
    r: Result<Vec<ZUpdate>, String>,
) -> Result<Seq<(Seq<char>, u64)>, Seq<char>> {
    match r {
        Ok(us) => Ok(updates_view(us@)),
        Err(e) => Err(e@),
    }
}

/// Moves a layer one step in the stack (`"up"` is towards the top). The whole sequence is
/// rewritten to `0, 1, ..`; the result lists the stacking orders that change.
pub fn reorder_layer(layers: &Vec<AttrNode>, id: &str, direction: &str) -> (r: Result<
    Vec<ZUpdate>,
    String,
>)
    ensures
        updates_result(r) == reordering(nodes_view(layers@), id@, direction@),
{
    let ghost ls = nodes_view(layers@);
    let order = stack_order(layers);
    proof {
        assert(ls.len() == layers@.len());
        assert(nodes_at(ls, order@) =~= stacked(ls));
    }
    let pos = find_position(layers, &order, id);
    if pos >= order.len() {
        return Err(concat3("no layer with id '", id, "'"));
    }
    if same_text(direction, "up") {
        let order = shift(order, pos, true, Ghost(ls));
        Ok(updates_for(layers, &order))
    } else if same_text(direction, "down") {
        let order = shift(order, pos, false, Ghost(ls));
        Ok(updates_for(layers, &order))
    } else {
        Err(concat3("direction must be 'up' or 'down', got '", direction, "'"))
    }
}

/// The ids of nodes are different.
pub open spec fn ids_differ(nodes: Seq<NodeView>) -> bool {
    forall|i: int, j: int|
        0 <= i < j < nodes.len() ==> (#[trigger] nodes[i]).id != (#[trigger] nodes[j]).id
}

/// A layer node with a stacking order written to it.
pub open spec fn with_z(n: NodeView, z: int) -> NodeView {
    NodeView { properties: put(n.properties, "z_order"@, int_json(z)), ..n }
}

/// The stack once every node carries its place.
pub open spec fn renumbered(nodes: Seq<NodeView>) -> Seq<NodeView> {
    Seq::new(
        nodes.len(),
        |i: int|
            if z_of(nodes[i]) == i {
                nodes[i]
            } else {
                with_z(nodes[i], i)
            },
    )
}

proof fn lemma_renumbered_z(nodes: Seq<NodeView>, i: int)
    requires
        0 <= i < nodes.len(),
        i <= i64::MAX,
        ascending(keys(nodes[i].properties)),
    ensures
        z_of(renumbered(nodes)[i]) == i,
{
    lemma_put(nodes[i].properties, "z_order"@, int_json(i));
}

proof fn lemma_identity_order(ks: Seq<KeyView>)
    requires
        forall|i: int| 0 <= i < ks.len() ==> (#[trigger] ks[i]).rank == i,
    ensures
        order_of(ks) == Seq::new(ks.len(), |i: int| i),
    decreases ks.len(),
{
    if ks.len() > 0 {
        let d = ks.drop_last();
        assert forall|i: int| 0 <= i < d.len() implies (#[trigger] d[i]).rank == i by {
            assert(ks[i].rank == i);
        }
        lemma_identity_order(d);
        let before = order_of(d);
        assert(ks[ks.len() - 1].rank == ks.len() - 1);
        assert forall|a: int| 0 <= a < before.len() implies !key_lt(
            ks.last(),
            ks[#[trigger] before[a]],
        ) by {
            assert(before[a] == a);
            assert(ks[a].rank == a);
        }
        lemma_place_is(ks, before, ks.last(), before.len() as int);
        assert(order_of(ks) =~= Seq::new(ks.len(), |i: int| i));
    } else {
        assert(order_of(ks) =~= Seq::new(ks.len(), |i: int| i));
    }
}

/// Once the stacking orders are rewritten they are `0, 1, ..` from the bottom up, and the catalog
/// shows the layers in exactly the order of the stack that was written.
pub proof fn renumbering_fixes_the_stack(nodes: Seq<NodeView>)
    requires
        nodes.len() <= i64::MAX,
        forall|i: int| 0 <= i < nodes.len() ==> ascending(keys((#[trigger] nodes[i]).properties)),
    ensures
        forall|i: int| 0 <= i < nodes.len() ==> z_of(#[trigger] renumbered(nodes)[i]) == i,
        stacked(renumbered(nodes)) == renumbered(nodes),
{
    let r = renumbered(nodes);
    assert forall|i: int| 0 <= i < nodes.len() implies z_of(#[trigger] r[i]) == i by {
        assert(ascending(keys(nodes[i].properties)));
        lemma_renumbered_z(nodes, i);
    }
    let ks = stack_keys(r);
    assert forall|i: int| 0 <= i < ks.len() implies (#[trigger] ks[i]).rank == i by {
        assert(z_of(r[i]) == i);
    }
    lemma_identity_order(ks);
    assert(stacked(r) =~= r);
}

/// A layer is written exactly where its stacking order is not its place, and its place is what is
/// written.
pub proof fn updates_are_what_differs(nodes: Seq<NodeView>, i: int)
    requires
        0 <= i < nodes.len(),
        nodes.len() <= u64::MAX,
    ensures
        z_of(nodes[i]) != i <==> z_updates(nodes).contains((nodes[i].id, i as u64)),
{
    lemma_updates(nodes);
    let us = z_updates(nodes);
    if z_of(nodes[i]) != i {
        lemma_update_present(nodes, i);
    } else if us.contains((nodes[i].id, i as u64)) {
        let k = choose|k: int| 0 <= k < us.len() && us[k] == (nodes[i].id, i as u64);
        assert(us[k].1 == i);
    }
}

proof fn lemma_updates(nodes: Seq<NodeView>)
    requires
        nodes.len() <= u64::MAX,
    ensures
        forall|k: int|
            0 <= k < z_updates(nodes).len() ==> {
                let u = #[trigger] z_updates(nodes)[k];
                u.1 < nodes.len() && u.0 == nodes[u.1 as int].id && z_of(nodes[u.1 as int]) != u.1
            },
    decreases nodes.len(),
{
    if nodes.len() > 0 {
        let d = nodes.drop_last();
        lemma_updates(d);
        let before = z_updates(d);
        assert forall|k: int| 0 <= k < z_updates(nodes).len() implies ({
            let u = #[trigger] z_updates(nodes)[k];
            u.1 < nodes.len() && u.0 == nodes[u.1 as int].id && z_of(nodes[u.1 as int]) != u.1
        }) by {
            if k < before.len() {
                assert(z_updates(nodes)[k] == before[k]);
                assert(d[before[k].1 as int] == nodes[before[k].1 as int]);
            }
        }
    }
}

proof fn lemma_update_present(nodes: Seq<NodeView>, i: int)
    requires
        0 <= i < nodes.len(),
        nodes.len() <= u64::MAX,
        z_of(nodes[i]) != i,
    ensures
        z_updates(nodes).contains((nodes[i].id, i as u64)),
    decreases nodes.len(),
{
    let d = nodes.drop_last();
    let before = z_updates(d);
    if i == nodes.len() - 1 {
        let us = z_updates(nodes);
        assert(us[us.len() - 1] == (nodes[i].id, i as u64));
    } else {
        lemma_update_present(d, i);
        let k = choose|k: int| 0 <= k < before.len() && before[k] == (nodes[i].id, i as u64);
        assert(z_updates(nodes)[k] == before[k]);
    }
}

/// Moving a layer keeps all layers and changes nothing but its own place and that of its
/// neighbour.
pub proof fn moving_swaps_neighbours(nodes: Seq<NodeView>, pos: int)
    requires
        0 <= pos,
        pos + 1 < nodes.len(),
    ensures
        restacked(nodes, pos, true) == nodes.update(pos, nodes[pos + 1]).update(
            pos + 1,
            nodes[pos],
        ),
        restacked(nodes, pos + 1, false) == restacked(nodes, pos, true),
{
    assert(restacked(nodes, pos, true) =~= nodes.update(pos, nodes[pos + 1]).update(
        pos + 1,
        nodes[pos],
    ));
    assert(restacked(nodes, pos + 1, false) =~= restacked(nodes, pos, true));
}

/// Moving a layer up and down again restores the stack.
pub proof fn up_then_down_restores(nodes: Seq<NodeView>, pos: int)
    requires
        0 <= pos,
        pos + 1 < nodes.len(),
    ensures
        restacked(restacked(nodes, pos, true), pos + 1, false) == nodes,
{
    assert(restacked(restacked(nodes, pos, true), pos + 1, false) =~= nodes);
}

/// The top layer does not move up, nor the bottom layer down.
pub proof fn ends_do_not_move(nodes: Seq<NodeView>)
    requires
        nodes.len() > 0,
    ensures
        restacked(nodes, nodes.len() - 1, true) == nodes,
        restacked(nodes, 0, false) == nodes,
{
}

/// The stacking order that updates give a layer, if any.
pub open spec fn new_z(us: Seq<(Seq<char>, u64)>, id: Seq<char>) -> Option<u64>
    decreases us.len(),
{
    if us.len() == 0 {
        None
    } else if us.last().0 == id {
        Some(us.last().1)
    } else {
        new_z(us.drop_last(), id)
    }
}

/// Layers once updates are written to them.
pub open spec fn applied(layers: Seq<NodeView>, us: Seq<(Seq<char>, u64)>) -> Seq<NodeView> {
    layers.map_values(
        |n: NodeView|
            match new_z(us, n.id) {
                Some(z) => with_z(n, z as int),
                None => n,
            },
    )
}

proof fn lemma_new_z(us: Seq<(Seq<char>, u64)>, id: Seq<char>)
    ensures
        match new_z(us, id) {
            Some(z) => us.contains((id, z)),
            None => forall|k: int| 0 <= k < us.len() ==> (#[trigger] us[k]).0 != id,
        },
    decreases us.len(),
{
    if us.len() > 0 {
        if us.last().0 == id {
            assert(us[us.len() - 1] == (id, us.last().1));
        } else {
            let d = us.drop_last();
            lemma_new_z(d, id);
            match new_z(d, id) {
                Some(z) => {
                    let k = choose|k: int| 0 <= k < d.len() && d[k] == (id, z);
                    assert(us[k] == (id, z));
                },
                None => {
                    assert forall|k: int| 0 <= k < us.len() implies (#[trigger] us[k]).0 != id by {
                        if k < d.len() {
                            assert(d[k] == us[k]);
                        }
                    }
                },
            }
        }
    }
}

/// Updates give a node of the stack its place.
proof fn lemma_updated(nodes: Seq<NodeView>, i: int)
    requires
        ids_differ(nodes),
        nodes.len() <= u64::MAX,
        0 <= i < nodes.len(),
    ensures
        renumbered(nodes)[i] == match new_z(z_updates(nodes), nodes[i].id) {
            Some(z) => with_z(nodes[i], z as int),
            None => nodes[i],
        },
{
    let us = z_updates(nodes);
    lemma_updates(nodes);
    lemma_new_z(us, nodes[i].id);
    match new_z(us, nodes[i].id) {
        Some(z) => {
            let k = choose|k: int| 0 <= k < us.len() && us[k] == (nodes[i].id, z);
            let j = us[k].1 as int;
            assert(nodes[j].id == nodes[i].id);
            if j < i {
                assert(nodes[j].id != nodes[i].id);
            } else if i < j {
                assert(nodes[i].id != nodes[j].id);
            }
        },
        None => {
            if z_of(nodes[i]) != i {
                lemma_update_present(nodes, i);
                let k = choose|k: int| 0 <= k < us.len() && us[k] == (nodes[i].id, i as u64);
                assert(us[k].0 == nodes[i].id);
            }
        },
    }
}

/// Growing numbers below a bound, as many as the bound, are the numbers from 0 on.
proof fn lemma_growing(zs: Seq<int>, a: int)
    requires
        forall|x: int| 0 <= x < zs.len() ==> 0 <= #[trigger] zs[x] < zs.len(),
        forall|x: int, y: int| 0 <= x < y < zs.len() ==> #[trigger] zs[x] < #[trigger] zs[y],
        0 <= a < zs.len(),
    ensures
        zs[a] == a,
{
    lemma_at_least(zs, a);
    lemma_at_most(zs, a);
}

proof fn lemma_at_least(zs: Seq<int>, a: int)
    requires
        forall|x: int| 0 <= x < zs.len() ==> 0 <= #[trigger] zs[x] < zs.len(),
        forall|x: int, y: int| 0 <= x < y < zs.len() ==> #[trigger] zs[x] < #[trigger] zs[y],
        0 <= a < zs.len(),
    ensures
        zs[a] >= a,
    decreases a,
{
    if a > 0 {
        lemma_at_least(zs, a - 1);
        assert(zs[a - 1] < zs[a]);
    }
}

proof fn lemma_at_most(zs: Seq<int>, a: int)
    requires
        forall|x: int| 0 <= x < zs.len() ==> 0 <= #[trigger] zs[x] < zs.len(),
        forall|x: int, y: int| 0 <= x < y < zs.len() ==> #[trigger] zs[x] < #[trigger] zs[y],
        0 <= a < zs.len(),
    ensures
        zs[a] <= a,
    decreases zs.len() - a,
{
    if a + 1 < zs.len() {
        lemma_at_most(zs, a + 1);
        assert(zs[a] < zs[a + 1]);
    }
}

/// Two lists hold the same nodes, each once.
spec fn same_nodes(a: Seq<NodeView>, b: Seq<NodeView>) -> bool {
    &&& a.len() == b.len()
    &&& ids_differ(a)
    &&& ids_differ(b)
    &&& forall|i: int| 0 <= i < a.len() ==> b.contains(#[trigger] a[i])
}

proof fn lemma_applied(layers: Seq<NodeView>, nodes: Seq<NodeView>)
    requires
        same_nodes(layers, nodes),
        nodes.len() <= i64::MAX,
        forall|i: int| 0 <= i < nodes.len() ==> ascending(keys((#[trigger] nodes[i]).properties)),
    ensures
        stacked(applied(layers, z_updates(nodes))) == renumbered(nodes),
{
    let us = z_updates(nodes);
    let now = applied(layers, us);
    let target = renumbered(nodes);
    let ks = stack_keys(now);
    let order = order_of(ks);
    let n = layers.len() as int;
    order_is_stable(ks);
    renumbering_fixes_the_stack(nodes);
    assert forall|j: int| 0 <= j < n implies 0 <= z_of(#[trigger] now[j]) < n && now[j]
        == target[z_of(now[j]) as int] && nodes[z_of(now[j]) as int] == layers[j] by {
        assert(nodes.contains(layers[j]));
        let i = choose|i: int| 0 <= i < nodes.len() && nodes[i] == layers[j];
        lemma_updated(nodes, i);
        assert(now[j] == target[i]);
        assert(z_of(target[i]) == i);
    }
    let zs = Seq::new(order.len(), |a: int| z_of(now[order[a]]) as int);
    assert forall|x: int| 0 <= x < zs.len() implies 0 <= #[trigger] zs[x] < zs.len() by {
        assert(0 <= order[x] < ks.len());
        assert(z_of(now[order[x]]) < n);
    }
    assert forall|x: int, y: int| 0 <= x < y < zs.len() implies #[trigger] zs[x]
        < #[trigger] zs[y] by {
        let (i, j) = (order[x], order[y]);
        assert(comes_before(ks, i, j));
        assert(ks[i].rank == z_of(now[i]));
        assert(ks[j].rank == z_of(now[j]));
        if z_of(now[i]) == z_of(now[j]) {
            assert(nodes[z_of(now[i]) as int] == layers[i]);
            assert(nodes[z_of(now[j]) as int] == layers[j]);
            assert(layers[i].id == layers[j].id);
            if i < j {
                assert(layers[i].id != layers[j].id);
            } else if j < i {
                assert(layers[j].id != layers[i].id);
            } else {
                crate::text::text_lt_irreflexive(ks[i].text);
            }
        }
    }
    assert forall|a: int| 0 <= a < n implies #[trigger] stacked(now)[a] == target[a] by {
        lemma_growing(zs, a);
        assert(zs[a] == z_of(now[order[a]]));
        assert(now[order[a]] == target[z_of(now[order[a]]) as int]);
    }
    assert(stacked(now) =~= target);
}

proof fn lemma_stacked_same(layers: Seq<NodeView>)
    requires
        ids_differ(layers),
    ensures
        same_nodes(layers, stacked(layers)),
        forall|a: int| 0 <= a < layers.len() ==> layers.contains(#[trigger] stacked(layers)[a]),
{
    let ks = stack_keys(layers);
    let order = order_of(ks);
    order_is_stable(ks);
    let s = stacked(layers);
    assert forall|i: int| 0 <= i < layers.len() implies s.contains(#[trigger] layers[i]) by {
        assert(order.contains(i));
        let a = choose|a: int| 0 <= a < order.len() && order[a] == i;
        assert(s[a] == layers[i]);
    }
    assert forall|a: int, b: int| 0 <= a < b < s.len() implies (#[trigger] s[a]).id != (
    #[trigger] s[b]).id by {
        assert(comes_before(ks, order[a], order[b]));
        assert(s[a] == layers[order[a]] && s[b] == layers[order[b]]);
        if order[a] == order[b] {
            crate::text::text_lt_irreflexive(ks[order[a]].text);
        } else if order[a] < order[b] {
            assert(layers[order[a]].id != layers[order[b]].id);
        } else {
            assert(layers[order[b]].id != layers[order[a]].id);
        }
    }
    assert forall|a: int| 0 <= a < layers.len() implies layers.contains(
        #[trigger] stacked(layers)[a],
    ) by {
        assert(s[a] == layers[order[a]]);
    }
}

proof fn lemma_restacked_same(layers: Seq<NodeView>, nodes: Seq<NodeView>, pos: int, up: bool)
    requires
        same_nodes(layers, nodes),
        0 <= pos < nodes.len(),
    ensures
        same_nodes(layers, restacked(nodes, pos, up)),
        forall|a: int|
            0 <= a < nodes.len() ==> nodes.contains(#[trigger] restacked(nodes, pos, up)[a]),
{
    let r = restacked(nodes, pos, up);
    // Only the two neighbours change places.
    let low = if up {
        pos
    } else {
        pos - 1
    };
    if 0 <= low && low + 1 < nodes.len() {
        moving_swaps_neighbours(nodes, low);
        assert(r == nodes.update(low, nodes[low + 1]).update(low + 1, nodes[low]));
    } else {
        assert(r == nodes);
    }
    let at = |i: int|
        if r == nodes {
            i
        } else if i == low {
            low + 1
        } else if i == low + 1 {
            low
        } else {
            i
        };
    assert forall|i: int| 0 <= i < nodes.len() implies r[#[trigger] at(i)] == nodes[i] && 0 <= at(i)
        < nodes.len() && r[i] == nodes[at(i)] by {}
    assert forall|i: int| 0 <= i < layers.len() implies r.contains(#[trigger] layers[i]) by {
        assert(nodes.contains(layers[i]));
        let k = choose|k: int| 0 <= k < nodes.len() && nodes[k] == layers[i];
        assert(r[at(k)] == layers[i]);
    }
    assert forall|a: int, b: int| 0 <= a < b < r.len() implies (#[trigger] r[a]).id != (
    #[trigger] r[b]).id by {
        let (x, y) = (at(a), at(b));
        assert(r[a] == nodes[x] && r[b] == nodes[y]);
        if x < y {
            assert(nodes[x].id != nodes[y].id);
        } else {
            assert(nodes[y].id != nodes[x].id);
        }
    }
    assert forall|a: int| 0 <= a < nodes.len() implies nodes.contains(
        #[trigger] restacked(nodes, pos, up)[a],
    ) by {
        assert(r[a] == nodes[at(a)]);
    }
}

/// The word for a direction.
pub open spec fn direction_word(up: bool) -> Seq<char> {
    if up {
        "up"@
    } else {
        "down"@
    }
}

/// Layers once the move of one of them is written.
pub open spec fn after_move(layers: Seq<NodeView>, id: Seq<char>, up: bool) -> Seq<NodeView> {
    applied(layers, reordering(layers, id, direction_word(up))->Ok_0)
}

/// Layers with different ids, each with its attributes in order.
pub open spec fn are_layers(layers: Seq<NodeView>) -> bool {
    &&& ids_differ(layers)
    &&& layers.len() <= i64::MAX
    &&& forall|i: int|
        0 <= i < layers.len() ==> ascending(keys((#[trigger] layers[i]).properties))
}

proof fn lemma_after_move(layers: Seq<NodeView>, id: Seq<char>, up: bool)
    requires
        are_layers(layers),
        position_of(stacked(layers), id) < layers.len(),
    ensures
        reordering(layers, id, direction_word(up)) is Ok,
        are_layers(after_move(layers, id, up)),
        after_move(layers, id, up).len() == layers.len(),
        ({
            let target = restacked(stacked(layers), position_of(stacked(layers), id), up);
            &&& target.len() == layers.len()
            &&& ids_differ(target)
            &&& stacked(after_move(layers, id, up)) == renumbered(target)
            &&& forall|i: int|
                0 <= i < layers.len() ==> z_of(#[trigger] renumbered(target)[i]) == i
        }),
{
    reveal_strlit("up");
    reveal_strlit("down");
    assert("up"@.len() != "down"@.len());
    let nodes = stacked(layers);
    let pos = position_of(nodes, id);
    lemma_position(nodes, id);
    lemma_stacked_same(layers);
    lemma_restacked_same(layers, nodes, pos, up);
    let target = restacked(nodes, pos, up);
    assert forall|i: int| 0 <= i < target.len() implies ascending(
        keys((#[trigger] target[i]).properties),
    ) by {
        assert(nodes.contains(target[i]));
        let a = choose|a: int| 0 <= a < nodes.len() && nodes[a] == target[i];
        assert(layers.contains(nodes[a]));
        let b = choose|b: int| 0 <= b < layers.len() && layers[b] == nodes[a];
        assert(ascending(keys(layers[b].properties)));
    }
    lemma_applied(layers, target);
    renumbering_fixes_the_stack(target);
    let now = after_move(layers, id, up);
    assert forall|i: int| 0 <= i < now.len() implies ascending(
        keys((#[trigger] now[i]).properties),
    ) by {
        assert(ascending(keys(layers[i].properties)));
        if let Some(z) = new_z(z_updates(target), layers[i].id) {
            lemma_put(layers[i].properties, "z_order"@, int_json(z as int));
        }
    }
    assert forall|i: int, j: int| 0 <= i < j < now.len() implies (#[trigger] now[i]).id != (
    #[trigger] now[j]).id by {
        assert(layers[i].id != layers[j].id);
    }
}

/// Once a reordering is written, the catalog shows the layers as they were but for the moved one,
/// which has changed places with its neighbour; where there is none on that side, all stay. The
/// stacking orders are `0, 1, ..` from the bottom up.
pub proof fn reordering_moves_one_step(
    layers: Seq<NodeView>,
    features: Seq<NodeView>,
    id: Seq<char>,
    up: bool,
)
    requires
        are_layers(layers),
        position_of(stacked(layers), id) < layers.len(),
    ensures
        reordering(layers, id, direction_word(up)) is Ok,
        ({
            let target = restacked(stacked(layers), position_of(stacked(layers), id), up);
            let after = catalog(after_move(layers, id, up), features);
            &&& after.len() == layers.len()
            &&& forall|i: int|
                0 <= i < layers.len() ==> (#[trigger] after[i]).id == target[i].id
                    && after[i].name == target[i].name && after[i].z_order == i
        }),
{
    lemma_after_move(layers, id, up);
    let target = restacked(stacked(layers), position_of(stacked(layers), id), up);
    let after = catalog(after_move(layers, id, up), features);
    assert forall|i: int| 0 <= i < layers.len() implies (#[trigger] after[i]).id == target[i].id
        && after[i].name == target[i].name && after[i].z_order == i by {
        assert(after[i] == info_of(renumbered(target)[i], features));
        assert(z_of(renumbered(target)[i]) == i);
    }
}

/// A layer that is moved one step and back again stands where it stood: the catalog shows every
/// layer in its former place.
pub proof fn moving_back_restores_the_catalog(
    layers: Seq<NodeView>,
    features: Seq<NodeView>,
    id: Seq<char>,
    up: bool,
    back: bool,
)
    requires
        are_layers(layers),
        position_of(stacked(layers), id) < layers.len(),
        up ==> position_of(stacked(layers), id) < layers.len() - 1,
        !up ==> position_of(stacked(layers), id) > 0,
        back == !up,
    ensures
        ({
            let before = catalog(layers, features);
            let after = catalog(after_move(after_move(layers, id, up), id, back), features);
            &&& before.len() == layers.len()
            &&& after.len() == layers.len()
            &&& forall|i: int|
                0 <= i < layers.len() ==> (#[trigger] after[i]).id == before[i].id
                    && after[i].name == before[i].name
        }),
{
    let nodes = stacked(layers);
    let pos = position_of(nodes, id);
    lemma_position(nodes, id);
    lemma_after_move(layers, id, up);
    let once = after_move(layers, id, up);
    let target = restacked(nodes, pos, up);
    let there = if up {
        pos + 1
    } else {
        pos - 1
    };
    assert(target[there] == nodes[pos]);
    assert(renumbered(target)[there].id == id);
    lemma_position_is(renumbered(target), id, there);
    reordering_moves_one_step(once, features, id, back);
    let last = restacked(renumbered(target), there, back);
    let low = if up {
        pos
    } else {
        there
    };
    moving_swaps_neighbours(nodes, low);
    moving_swaps_neighbours(renumbered(target), low);
    let after = catalog(after_move(once, id, back), features);
    let before = catalog(layers, features);
    assert forall|i: int| 0 <= i < layers.len() implies (#[trigger] after[i]).id == before[i].id
        && after[i].name == before[i].name by {
        assert(before[i] == info_of(nodes[i], features));
        assert(last[i].id == nodes[i].id && last[i].name == nodes[i].name);
    }
}

pub(crate) proof fn lemma_position(nodes: Seq<NodeView>, id: Seq<char>)
    ensures
        0 <= position_of(nodes, id) <= nodes.len(),
        position_of(nodes, id) < nodes.len() ==> nodes[position_of(nodes, id)].id == id,
    decreases nodes.len(),
{
    if nodes.len() > 0 && nodes[0].id != id {
        lemma_position(nodes.drop_first(), id);
    }
}

proof fn lemma_position_is(nodes: Seq<NodeView>, id: Seq<char>, i: int)
    requires
        ids_differ(nodes),
        0 <= i < nodes.len(),
        nodes[i].id == id,
    ensures
        position_of(nodes, id) == i,
{
    lemma_position(nodes, id);
    lemma_position_first(nodes, id, i);
    let p = position_of(nodes, id);
    if p < i {
        assert(nodes[p].id != nodes[i].id);
    }
}

pub(crate) proof fn lemma_position_first(nodes: Seq<NodeView>, id: Seq<char>, i: int)
    requires
        0 <= i < nodes.len(),
        nodes[i].id == id,
    ensures
        position_of(nodes, id) <= i,
    decreases nodes.len(),
{
    if nodes[0].id != id {
        assert(nodes.drop_first()[i - 1].id == id);
        lemma_position_first(nodes.drop_first(), id, i - 1);
    }
}

// ---------------------------------------------------------------------------
// Deleting
// ---------------------------------------------------------------------------

/// The ids of the features that belong to a layer.
pub open spec fn ids_of(features: Seq<NodeView>, id: Seq<char>) -> Seq<Seq<char>>
    decreases features.len(),
{
    if features.len() == 0 {
        Seq::empty()
    } else if belongs_to(features.last(), id) {
        ids_of(features.drop_last(), id).push(features.last().id)
    } else {
        ids_of(features.drop_last(), id)
    }
}

/// What is deleted with a layer: its features, then the layer itself.
pub open spec fn deletions(features: Seq<NodeView>, id: Seq<char>) -> Seq<Seq<char>> {
    ids_of(features, id).push(id)
}

/// The nodes to delete with a layer: its features, then the layer itself.
pub fn delete_layer(features: &Vec<AttrNode>, id: &str) -> (r: Vec<String>)
    ensures
        texts(r@) == deletions(nodes_view(features@), id@),
{
    let n = features.len();
    let ghost fs = nodes_view(features@);
    let mut out: Vec<String> = Vec::new();
    let mut i: usize = 0;
    proof {
        assert(texts(out@) =~= ids_of(fs.take(0), id@));
    }
    while i < n
        invariant
            i <= n,
            n == features@.len(),
            fs == nodes_view(features@),
            texts(out@) == ids_of(fs.take(i as int), id@),
        decreases n - i,
    {
        proof {
            assert(fs.take(i + 1).drop_last() =~= fs.take(i as int));
            assert(fs.take(i + 1).last() == features@[i as int]@);
        }
        if is_mine(&features[i], id) {
            let ghost before = out@;
            out.push(features[i].id.clone());
            proof {
                assert(texts(out@) =~= texts(before).push(features@[i as int]@.id));
            }
        }
        i += 1;
    }
    let ghost before = out@;
    out.push(id.to_owned());
    proof {
        assert(fs.take(n as int) =~= fs);
        assert(texts(out@) =~= texts(before).push(id@));
    }
    out
}

/// A graph of nodes by id, and a list of exactly its nodes of one type.
pub open spec fn lists_type(
    graph: Map<Seq<char>, NodeView>,
    nodes: Seq<NodeView>,
    node_type: Seq<char>,
) -> bool {
    &&& forall|id: Seq<char>| #[trigger]
        graph.dom().contains(id) ==> graph[id].id == id && (graph[id].node_type == node_type
            ==> nodes.contains(graph[id]))
    &&& forall|i: int|
        0 <= i < nodes.len() ==> graph.dom().contains((#[trigger] nodes[i]).id)
            && graph[nodes[i].id] == nodes[i] && nodes[i].node_type == node_type
}

/// The graph without some nodes.
pub open spec fn without_nodes(
    graph: Map<Seq<char>, NodeView>,
    ids: Seq<Seq<char>>,
) -> Map<Seq<char>, NodeView> {
    graph.remove_keys(ids.to_set())
}

proof fn lemma_ids_of(features: Seq<NodeView>, id: Seq<char>, x: Seq<char>)
    ensures
        ids_of(features, id).contains(x) <==> exists|i: int|
            0 <= i < features.len() && (#[trigger] features[i]).id == x && belongs_to(
                features[i],
                id,
            ),
    decreases features.len(),
{
    if features.len() > 0 {
        let d = features.drop_last();
        lemma_ids_of(d, id, x);
        let before = ids_of(d, id);
        let after = ids_of(features, id);
        if after.contains(x) {
            let k = choose|k: int| 0 <= k < after.len() && after[k] == x;
            if k < before.len() {
                assert(before[k] == x);
                assert(before.contains(x));
                let i = choose|i: int|
                    0 <= i < d.len() && (#[trigger] d[i]).id == x && belongs_to(d[i], id);
                assert(features[i] == d[i]);
            } else {
                assert(features[features.len() - 1].id == x);
            }
        }
        if exists|i: int|
            0 <= i < features.len() && (#[trigger] features[i]).id == x && belongs_to(
                features[i],
                id,
            ) {
            let i = choose|i: int|
                0 <= i < features.len() && (#[trigger] features[i]).id == x && belongs_to(
                    features[i],
                    id,
                );
            if i < d.len() {
                assert(d[i] == features[i]);
                assert(before.contains(x));
                let k = choose|k: int| 0 <= k < before.len() && before[k] == x;
                assert(after[k] == x);
            } else {
                assert(after[after.len() - 1] == x);
            }
        }
    }
}

/// Deleting a layer removes the layer and exactly the features that belong to it; every other
/// node stays as it is.
pub proof fn delete_removes_exactly_the_layer(
    graph: Map<Seq<char>, NodeView>,
    features: Seq<NodeView>,
    id: Seq<char>,
    x: Seq<char>,
)
    requires
        lists_type(graph, features, "Feature"@),
        graph.dom().contains(x),
    ensures
        without_nodes(graph, deletions(features, id)).dom().contains(x) <==> x != id && !(
        graph[x].node_type == "Feature"@ && belongs_to(graph[x], id)),
        without_nodes(graph, deletions(features, id)).dom().contains(x) ==> without_nodes(
            graph,
            deletions(features, id),
        )[x] == graph[x],
{
    lemma_ids_of(features, id, x);
    let ids = ids_of(features, id);
    let all = deletions(features, id);
    assert(all.contains(x) <==> ids.contains(x) || x == id) by {
        if ids.contains(x) {
            let k = choose|k: int| 0 <= k < ids.len() && ids[k] == x;
            assert(all[k] == x);
        }
        if x == id {
            assert(all[all.len() - 1] == x);
        }
        if all.contains(x) {
            let k = choose|k: int| 0 <= k < all.len() && all[k] == x;
            if k < ids.len() {
                assert(ids[k] == x);
            }
        }
    }
    if graph[x].node_type == "Feature"@ && belongs_to(graph[x], id) {
        assert(features.contains(graph[x]));
        let i = choose|i: int| 0 <= i < features.len() && features[i] == graph[x];
        assert(features[i].id == x);
    }
}

} // verus!
