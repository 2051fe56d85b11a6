//! The catalog of layers: which layers it lists, in which order, and what it says of each.

use vstd::prelude::*;

#[allow(unused_imports)]
use crate::actors::layer::{
    bounds_out, catalog, class_count, class_counts, class_keys, class_out, classes_are_counted,
    classes_out, count_of, deletions, ids_of, info_of, info_out, infos_out, position_of, reordering,
    stack_keys, stacked, ClassView, InfoView,
};
#[allow(unused_imports)]
use crate::json::{int_json, no_entries, real_json, str_json, JsonView, NumberView};
#[allow(unused_imports)]
use crate::laws::texts::{precedes, texts_stand_in_code_point_order};
#[allow(unused_imports)]
use crate::models::NodeView;
#[allow(unused_imports)]
use crate::order::{comes_before, in_order, order_is_stable, order_of};
#[allow(unused_imports)]
use crate::textmap::{keys, lemma_lookup, lemma_put, lookup, put};

verus! {

/// Whether a feature is stored under a layer.
pub open spec fn is_under(f: NodeView, layer: Seq<char>) -> bool {
    lookup(f.properties, "layer_id"@) == Some(JsonView::Str(layer))
}

/// Whether a feature has a class.
pub open spec fn is_of_class(f: NodeView, class: Seq<char>) -> bool {
    lookup(f.properties, "FOLDERPATH"@) == Some(JsonView::Str(class))
}

/// The stacking order of a layer: an integer, and nothing else counts as one.
pub open spec fn is_stacked_at(n: NodeView, z: int) -> bool {
    match lookup(n.properties, "z_order"@) {
        Some(JsonView::Number(NumberView::NegInt(i))) => z == i,
        Some(JsonView::Number(NumberView::PosInt(u))) => z == (if u <= i64::MAX {
            u as int
        } else {
            0
        }),
        _ => z == 0,
    }
}

/// The text of a property, or another text where it is none.
pub open spec fn text_else(n: NodeView, key: Seq<char>, other: Seq<char>) -> Seq<char> {
    match lookup(n.properties, key) {
        Some(JsonView::Str(s)) => s,
        _ => other,
    }
}

/// What the catalog says of a layer: what its node holds, and how many of the features are stored
/// under it.
pub open spec fn tells_of(i: InfoView, n: NodeView, features: Seq<NodeView>) -> bool {
    &&& i.id == n.id
    &&& i.name == n.name
    &&& i.display_name == text_else(n, "display_name"@, ""@)
    &&& i.geometry_type == text_else(n, "geometry_type"@, "Mixed"@)
    &&& i.source == text_else(n, "source"@, ""@)
    &&& match n.description {
        Some(d) => i.description == d,
        None => i.description == text_else(n, "description"@, ""@),
    }
    &&& is_stacked_at(n, i.z_order as int)
    &&& i.feature_count == features.filter(|f: NodeView| is_under(f, n.id)).len()
}

proof fn lemma_count(features: Seq<NodeView>, id: Seq<char>)
    ensures
        count_of(features, id) == features.filter(|f: NodeView| is_under(f, id)).len(),
        count_of(features, id) <= features.len(),
    decreases features.len(),
{
    reveal(Seq::filter);
    if features.len() > 0 {
        lemma_count(features.drop_last(), id);
    }
}

/// The catalog lists every layer exactly once, from the bottom of the stack up: by stacking
/// order, and layers of the same order by name. Of each it says what its node holds and how many
/// features are stored under it.
pub proof fn the_catalog_lists_every_layer(layers: Seq<NodeView>, features: Seq<NodeView>) -> (order:
    Seq<int>)
    requires
        features.len() <= u64::MAX,
    ensures
        catalog(layers, features).len() == layers.len(),
        order.len() == layers.len(),
        forall|a: int|
            0 <= a < order.len() ==> 0 <= #[trigger] order[a] < layers.len() && tells_of(
                catalog(layers, features)[a],
                layers[order[a]],
                features,
            ),
        forall|i: int| 0 <= i < layers.len() ==> #[trigger] order.contains(i),
        forall|a: int, b: int|
            0 <= a < b < order.len() ==> {
                let x = catalog(layers, features)[a];
                let y = catalog(layers, features)[b];
                ||| x.z_order < y.z_order
                ||| x.z_order == y.z_order && precedes(x.name, y.name)
                ||| x.z_order == y.z_order && x.name == y.name && #[trigger] order[a]
                    < #[trigger] order[b]
            },
{
    let ks = stack_keys(layers);
    order_is_stable(ks);
    let order = order_of(ks);
    assert forall|a: int| 0 <= a < order.len() implies 0 <= #[trigger] order[a] < layers.len()
        && tells_of(catalog(layers, features)[a], layers[order[a]], features) by {
        let n = layers[order[a]];
        assert(stacked(layers)[a] == n);
        assert(catalog(layers, features)[a] == info_of(n, features));
        lemma_count(features, n.id);
    }
    assert forall|a: int, b: int| 0 <= a < b < order.len() implies {
        let x = catalog(layers, features)[a];
        let y = catalog(layers, features)[b];
        ||| x.z_order < y.z_order
        ||| x.z_order == y.z_order && precedes(x.name, y.name)
        ||| x.z_order == y.z_order && x.name == y.name && #[trigger] order[a] < #[trigger] order[b]
    } by {
        assert(comes_before(ks, order[a], order[b]));
        let (m, n) = (layers[order[a]], layers[order[b]]);
        assert(stacked(layers)[a] == m && stacked(layers)[b] == n);
        texts_stand_in_code_point_order(m.name, n.name);
    }
    order
}

proof fn lemma_of_class(features: Seq<NodeView>, id: Seq<char>, class: Seq<char>)
    ensures
        class_count(features, id, class) == features.filter(
            |f: NodeView| is_under(f, id) && is_of_class(f, class),
        ).len(),
    decreases features.len(),
{
    reveal(Seq::filter);
    if features.len() > 0 {
        lemma_of_class(features.drop_last(), id, class);
    }
}

/// The catalog lists each class of a layer once, with the number of features of the layer that
/// have it; a class that no feature of the layer has is not listed. The most frequent class comes
/// first, and classes of the same number stand in order.
pub proof fn the_catalog_counts_classes(n: NodeView, features: Seq<NodeView>, class: Seq<char>)
    requires
        features.len() <= u64::MAX,
    ensures
        ({
            let cs = info_of(n, features).classes;
            let many = features.filter(
                |f: NodeView| is_under(f, n.id) && is_of_class(f, class),
            ).len();
            &&& many > 0 <==> exists|i: int| 0 <= i < cs.len() && (#[trigger] cs[i]).key == class
            &&& forall|i: int|
                0 <= i < cs.len() && (#[trigger] cs[i]).key == class ==> cs[i].count == many
            &&& forall|i: int, j: int|
                0 <= i < j < cs.len() ==> {
                    ||| (#[trigger] cs[i]).count > (#[trigger] cs[j]).count
                    ||| cs[i].count == cs[j].count && precedes(cs[i].key, cs[j].key)
                }
        }),
{
    let m = class_counts(features, n.id);
    let ks = class_keys(m);
    let order = order_of(ks);
    let cs = info_of(n, features).classes;
    let many = class_count(features, n.id, class);
    classes_are_counted(features, n.id, class);
    lemma_of_class(features, n.id, class);
    order_is_stable(ks);
    assert(cs.len() == m.len());
    assert forall|a: int| 0 <= a < cs.len() implies (#[trigger] cs[a]).key == m[order[a]].0
        && cs[a].count == m[order[a]].1 by {
        assert(in_order(m, order)[a] == m[order[a]]);
    }
    assert forall|i: int| 0 <= i < cs.len() && (#[trigger] cs[i]).key == class implies cs[i].count
        == many by {
        let p = m[order[i]];
        assert(m.contains(p));
        assert(p == (class, cs[i].count));
        lemma_lookup(m, class, cs[i].count);
    }
    if many > 0 {
        lemma_lookup(m, class, many as u64);
        let k = choose|k: int| 0 <= k < m.len() && m[k] == (class, many as u64);
        assert(order.contains(k));
        let a = choose|a: int| 0 <= a < order.len() && order[a] == k;
        assert(cs[a].key == class);
    }
    assert forall|i: int| 0 <= i < cs.len() && (#[trigger] cs[i]).key == class implies many > 0 by {
        let p = m[order[i]];
        assert(m.contains(p));
        lemma_lookup(m, class, cs[i].count);
    }
    assert forall|i: int, j: int| 0 <= i < j < cs.len() implies {
        ||| (#[trigger] cs[i]).count > (#[trigger] cs[j]).count
        ||| cs[i].count == cs[j].count && precedes(cs[i].key, cs[j].key)
    } by {
        assert(comes_before(ks, order[i], order[j]));
        let (x, y) = (order[i], order[j]);
        assert(ks[x].rank == -(m[x].1 as int) && ks[y].rank == -(m[y].1 as int));
        texts_stand_in_code_point_order(m[x].0, m[y].0);
        if ks[x] == ks[y] {
            assert(keys(m)[x] == keys(m)[y]);
            crate::text::text_lt_irreflexive(keys(m)[x]);
        }
    }
}

/// What is deleted with a layer: every feature that is stored under it, in order, and then the
/// layer; nothing else.
pub proof fn a_layer_goes_with_its_features(features: Seq<NodeView>, id: Seq<char>)
    ensures
        deletions(features, id) == features.filter(|f: NodeView| is_under(f, id)).map_values(
            |f: NodeView| f.id,
        ).push(id),
    decreases features.len(),
{
    lemma_ids(features, id);
}

proof fn lemma_ids(features: Seq<NodeView>, id: Seq<char>)
    ensures
        ids_of(features, id) == features.filter(|f: NodeView| is_under(f, id)).map_values(
            |f: NodeView| f.id,
        ),
    decreases features.len(),
{
    reveal(Seq::filter);
    let p = |f: NodeView| is_under(f, id);
    let g = |f: NodeView| f.id;
    if features.len() > 0 {
        let d = features.drop_last();
        lemma_ids(d, id);
        if p(features.last()) {
            assert(d.filter(p).push(features.last()).map_values(g) =~= d.filter(p).map_values(
                g,
            ).push(features.last().id));
        }
    }
    assert(ids_of(features, id) =~= features.filter(p).map_values(g));
}

/// A move is refused where no layer has the id, whatever the direction, and where the direction is
/// neither up nor down; else it is carried out.
pub proof fn moves_that_are_refused(layers: Seq<NodeView>, id: Seq<char>, direction: Seq<char>)
    ensures
        (forall|i: int| 0 <= i < layers.len() ==> (#[trigger] layers[i]).id != id) ==> reordering(
            layers,
            id,
            direction,
        ) == Err::<Seq<(Seq<char>, u64)>, Seq<char>>("no layer with id '"@ + id + "'"@),
        reordering(layers, id, direction) is Ok <==> (direction == "up"@ || direction == "down"@)
            && exists|i: int| 0 <= i < layers.len() && (#[trigger] layers[i]).id == id,
{
    let ks = stack_keys(layers);
    order_is_stable(ks);
    let order = order_of(ks);
    let nodes = stacked(layers);
    crate::actors::layer::lemma_position(nodes, id);
    let pos = position_of(nodes, id);
    if pos < nodes.len() {
        assert(nodes[pos] == layers[order[pos]]);
        assert(layers[order[pos]].id == id);
    }
    if exists|i: int| 0 <= i < layers.len() && (#[trigger] layers[i]).id == id {
        let i = choose|i: int| 0 <= i < layers.len() && (#[trigger] layers[i]).id == id;
        assert(order.contains(i));
        let a = choose|a: int| 0 <= a < order.len() && order[a] == i;
        assert(nodes[a].id == id);
        crate::actors::layer::lemma_position_first(nodes, id, a);
    }
}

// ---------------------------------------------------------------------------
// The catalog as JSON
// ---------------------------------------------------------------------------

/// What a reply says of a layer: everything that the catalog says.
pub open spec fn shows_info(j: JsonView, i: InfoView) -> bool {
    &&& j.text_at("id"@) == Some(i.id)
    &&& j.text_at("name"@) == Some(i.name)
    &&& j.text_at("display_name"@) == Some(i.display_name)
    &&& j.text_at("description"@) == Some(i.description)
    &&& j.text_at("geometry_type"@) == Some(i.geometry_type)
    &&& j.text_at("source"@) == Some(i.source)
    &&& j.get("feature_count"@) == Some(int_json(i.feature_count as int))
    &&& j.get("z_order"@) == Some(int_json(i.z_order as int))
    &&& j.get("classes"@) matches Some(JsonView::Array(cs)) && cs.len() == i.classes.len()
        && forall|k: int|
        0 <= k < cs.len() ==> (#[trigger] cs[k]).text_at("key"@) == Some(i.classes[k].key)
            && cs[k].get("count"@) == Some(int_json(i.classes[k].count as int))
    &&& match i.bounds {
        Some(b) => j.get("bounds"@) == Some(
            JsonView::Array(
                seq![
                    real_json(b.min.x),
                    real_json(b.min.y),
                    real_json(b.max.x),
                    real_json(b.max.y),
                ],
            ),
        ),
        None => j.get("bounds"@) == Some(JsonView::Null),
    }
}

proof fn lemma_info_keys()
    ensures
        "id"@.len() == 2,
        "name"@.len() == 4,
        "display_name"@.len() == 12,
        "description"@.len() == 11,
        "geometry_type"@.len() == 13,
        "source"@.len() == 6,
        "feature_count"@.len() == 13,
        "bounds"@.len() == 6,
        "classes"@.len() == 7,
        "z_order"@.len() == 7,
        "geometry_type"@[0] == 'g',
        "feature_count"@[0] == 'f',
        "source"@[0] == 's',
        "bounds"@[0] == 'b',
        "classes"@[0] == 'c',
        "z_order"@[0] == 'z',
{
    reveal_strlit("id");
    reveal_strlit("name");
    reveal_strlit("display_name");
    reveal_strlit("description");
    reveal_strlit("geometry_type");
    reveal_strlit("source");
    reveal_strlit("feature_count");
    reveal_strlit("bounds");
    reveal_strlit("classes");
    reveal_strlit("z_order");
}

proof fn lemma_class_out(c: ClassView)
    ensures
        class_out(c).text_at("key"@) == Some(c.key),
        class_out(c).get("count"@) == Some(int_json(c.count as int)),
{
    reveal_strlit("key");
    reveal_strlit("count");
    assert("key"@.len() == 3 && "count"@.len() == 5);
    assert(keys(no_entries()) =~= Seq::empty());
    lemma_put(no_entries(), "key"@, str_json(c.key));
    lemma_put(put(no_entries(), "key"@, str_json(c.key)), "count"@, int_json(c.count as int));
}

/// A reply with the catalog shows every layer, in order, and of each everything that the catalog
/// says.
pub proof fn a_reply_shows_the_catalog(infos: Seq<InfoView>)
    ensures
        infos_out(infos) matches JsonView::Array(a) && a.len() == infos.len() && forall|i: int|
            0 <= i < a.len() ==> shows_info(#[trigger] a[i], infos[i]),
{
    assert forall|i: int| 0 <= i < infos.len() implies shows_info(
        #[trigger] infos_out(infos)->Array_0[i],
        infos[i],
    ) by {
        lemma_info_out(infos[i]);
    }
}

proof fn lemma_info_out(i: InfoView)
    ensures
        shows_info(info_out(i), i),
{
    lemma_info_keys();
    assert(keys(no_entries()) =~= Seq::empty());
    let e0 = no_entries();
    lemma_put(e0, "id"@, str_json(i.id));
    let e1 = put(e0, "id"@, str_json(i.id));
    lemma_put(e1, "name"@, str_json(i.name));
    let e2 = put(e1, "name"@, str_json(i.name));
    lemma_put(e2, "display_name"@, str_json(i.display_name));
    let e3 = put(e2, "display_name"@, str_json(i.display_name));
    lemma_put(e3, "description"@, str_json(i.description));
    let e4 = put(e3, "description"@, str_json(i.description));
    lemma_put(e4, "geometry_type"@, str_json(i.geometry_type));
    let e5 = put(e4, "geometry_type"@, str_json(i.geometry_type));
    lemma_put(e5, "source"@, str_json(i.source));
    let e6 = put(e5, "source"@, str_json(i.source));
    lemma_put(e6, "feature_count"@, int_json(i.feature_count as int));
    let e7 = put(e6, "feature_count"@, int_json(i.feature_count as int));
    lemma_put(e7, "bounds"@, bounds_out(i.bounds));
    let e8 = put(e7, "bounds"@, bounds_out(i.bounds));
    lemma_put(e8, "classes"@, JsonView::Array(classes_out(i.classes)));
    let e9 = put(e8, "classes"@, JsonView::Array(classes_out(i.classes)));
    lemma_put(e9, "z_order"@, int_json(i.z_order as int));
    assert forall|k: int| 0 <= k < i.classes.len() implies (#[trigger] classes_out(
        i.classes,
    )[k]).text_at("key"@) == Some(i.classes[k].key) && classes_out(i.classes)[k].get("count"@)
        == Some(int_json(i.classes[k].count as int)) by {
        lemma_class_out(i.classes[k]);
    }
}

} // verus!
