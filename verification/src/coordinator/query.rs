//! Answering queries: filtering what the store found, and building the replies.

use vstd::prelude::*;

use crate::coordinator::features::{make_collection, make_feature, subtype_text};
use crate::coordinator::request::{Query, Region};
use crate::datasources::actor::texts_json;
use crate::json::{Json, JsonObject, Real};
use crate::models::geojson::node_geometry_geojson;
use crate::models::AttrNode;
use crate::order::{sorted_order, SortKey};
use crate::text::{has_part, has_prefix, same_text, text_before};
use crate::textmap::TextMap;
#[allow(unused_imports)]
use crate::actors::layer::{class_of, counted};
#[allow(unused_imports)]
use crate::coordinator::features::{collection_out, feature_out, opt_json, opt_text_or};
#[allow(unused_imports)]
use crate::floats::integers_keep_their_order;
#[allow(unused_imports)]
use crate::grouping::opt_texts;
#[allow(unused_imports)]
use crate::coordinator::request::QueryView;
#[allow(unused_imports)]
use crate::datasources::actor::texts_out;
#[allow(unused_imports)]
use crate::json::{
    array_view, int_json, lemma_json_view, no_entries, number_text, opt_view, rank, real_json,
    str_json, Entries, JsonView,
};
#[allow(unused_imports)]
use crate::models::geojson::node_geometry_out;
#[allow(unused_imports)]
use crate::models::{bool_text, NodeView};
#[allow(unused_imports)]
use crate::order::{in_order, order_is_stable, order_of, places_view, sort_keys_view, KeyView};
#[allow(unused_imports)]
use crate::text::{contains, starts_with, text_lt, texts};
#[allow(unused_imports)]
use crate::textmap::{ascending, keys, lemma_put, lookup, mapped, put, without};

verus! {

// ---------------------------------------------------------------------------
// Attribute constraints
// ---------------------------------------------------------------------------

/// A scalar as text for comparison; the empty text for anything else.
pub open spec fn value_text(v: JsonView) -> Seq<char> {
    match v {
        JsonView::Str(s) => s,
        JsonView::Number(n) => number_text(n),
        JsonView::Bool(b) => bool_text(b),
        _ => ""@,
    }
}

fn value_str(v: &Json) -> (r: String)
    ensures
        r@ == value_text(v@),
{
    broadcast use lemma_json_view;

    match v {
        Json::Str(s) => s.clone(),
        Json::Number(_) => match v.number_to_text() {
            Some(t) => t,
            None => "".to_owned(),
        },
        Json::Bool(b) => if *b {
            "true".to_owned()
        } else {
            "false".to_owned()
        },
        _ => "".to_owned(),
    }
}

/// An order comparison: numbers by value, else texts in code point order.
pub open spec fn in_relation(val: JsonView, op: Seq<char>, needle: JsonView) -> bool {
    let (less, same) = match (val.as_real(), needle.as_real()) {
        (Some(x), Some(y)) => (rank(x) < rank(y), rank(x) == rank(y)),
        _ => (
            text_lt(value_text(val), value_text(needle)),
            value_text(val) == value_text(needle),
        ),
    };
    if op == ">"@ {
        !less && !same
    } else if op == ">="@ {
        !less
    } else if op == "<"@ {
        less
    } else {
        less || same
    }
}

/// Whether a value passes an operator; an unknown operator lets nothing pass.
pub open spec fn passes(val: JsonView, op: Seq<char>, needle: JsonView) -> bool {
    let a = value_text(val);
    let b = value_text(needle);
    if op == "="@ {
        a == b
    } else if op == "!="@ {
        a != b
    } else if op == "contains"@ {
        contains(a, b)
    } else if op == "starts_with"@ {
        starts_with(a, b)
    } else if op == ">"@ || op == ">="@ || op == "<"@ || op == "<="@ {
        in_relation(val, op, needle)
    } else {
        false
    }
}

/// A constraint `{key, op, value}` on a node: one without a key says nothing; a node without the
/// key fails it.
pub open spec fn constraint_holds(n: NodeView, it: JsonView) -> bool {
    match it.text_at("key"@) {
        None => true,
        Some(key) => match n.get(key) {
            None => false,
            Some(val) => passes(
                val,
                match it.text_at("op"@) {
                    Some(o) => o,
                    None => "="@,
                },
                match it.get("value"@) {
                    Some(v) => v,
                    None => JsonView::Null,
                },
            ),
        },
    }
}

/// All constraints hold of a node.
pub open spec fn all_hold(n: NodeView, items: Seq<JsonView>) -> bool {
    forall|i: int| 0 <= i < items.len() ==> constraint_holds(n, #[trigger] items[i])
}

fn compare_values(val: &Json, op: &str, needle: &Json) -> (r: bool)
    ensures
        r == in_relation(val@, op@, needle@),
{
    let (less, same) = match (val.as_real(), needle.as_real()) {
        (Some(x), Some(y)) => {
            let p = x.place();
            let q = y.place();
            (p < q, p == q)
        },
        _ => {
            let a = value_str(val);
            let b = value_str(needle);
            (text_before(a.as_str(), b.as_str()), same_text(a.as_str(), b.as_str()))
        },
    };
    if same_text(op, ">") {
        !less && !same
    } else if same_text(op, ">=") {
        !less
    } else if same_text(op, "<") {
        less
    } else {
        less || same
    }
}

fn value_passes(val: &Json, op: &str, needle: &Json) -> (r: bool)
    ensures
        r == passes(val@, op@, needle@),
{
    let a = value_str(val);
    let b = value_str(needle);
    if same_text(op, "=") {
        same_text(a.as_str(), b.as_str())
    } else if same_text(op, "!=") {
        !same_text(a.as_str(), b.as_str())
    } else if same_text(op, "contains") {
        has_part(a.as_str(), b.as_str())
    } else if same_text(op, "starts_with") {
        has_prefix(a.as_str(), b.as_str())
    } else if same_text(op, ">") || same_text(op, ">=") || same_text(op, "<") || same_text(
        op,
        "<=",
    ) {
        compare_values(val, op, needle)
    } else {
        false
    }
}

fn constraint_matches(node: &AttrNode, it: &Json) -> (r: bool)
    ensures
        r == constraint_holds(node@, it@),
{
    let key = match it.text_at("key") {
        Some(k) => k,
        None => {
            return true;
        },
    };
    let val = match node.get(key.as_str()) {
        Some(v) => v,
        None => {
            return false;
        },
    };
    let op: &str = match it.text_at("op") {
        Some(o) => o.as_str(),
        None => "=",
    };
    match it.get("value") {
        Some(needle) => value_passes(val, op, needle),
        None => value_passes(val, op, &Json::null()),
    }
}

/// Whether a node meets all constraints.
pub fn attr_list_match(node: &AttrNode, items: &Vec<Json>) -> (r: bool)
    ensures
        r == all_hold(node@, array_view(items@)),
{
    let n = items.len();
    let ghost all = array_view(items@);
    let mut i: usize = 0;
    while i < n
        invariant
            i <= n,
            n == items@.len(),
            all == array_view(items@),
            forall|k: int| 0 <= k < i ==> constraint_holds(node@, #[trigger] all[k]),
        decreases n - i,
    {
        proof {
            assert(all[i as int] == items@[i as int]@);
        }
        if !constraint_matches(node, &items[i]) {
            return false;
        }
        i += 1;
    }
    true
}

/// Without constraints every node matches.
pub proof fn no_constraint_matches_all(n: NodeView)
    ensures
        all_hold(n, Seq::empty()),
{
}

/// Integers up to `2^53` are compared by value, not as texts.
pub proof fn integers_compare_by_value(a: int, b: int)
    requires
        -0x20_0000_0000_0000 <= a <= 0x20_0000_0000_0000,
        -0x20_0000_0000_0000 <= b <= 0x20_0000_0000_0000,
    ensures
        passes(int_json(a), ">"@, int_json(b)) <==> a > b,
        passes(int_json(a), ">="@, int_json(b)) <==> a >= b,
        passes(int_json(a), "<"@, int_json(b)) <==> a < b,
        passes(int_json(a), "<="@, int_json(b)) <==> a <= b,
{
    reveal_strlit("=");
    reveal_strlit("!=");
    reveal_strlit("contains");
    reveal_strlit("starts_with");
    reveal_strlit(">");
    reveal_strlit(">=");
    reveal_strlit("<");
    reveal_strlit("<=");
    assert("="@[0] == '=' && "!="@[0] == '!' && "contains"@[0] == 'c' && "starts_with"@[0] == 's');
    assert(">"@[0] == '>' && ">="@[0] == '>' && "<"@[0] == '<' && "<="@[0] == '<');
    assert(">"@.len() == 1 && ">="@.len() == 2 && "<"@.len() == 1 && "<="@.len() == 2);
    if a < b {
        integers_keep_their_order(a, b);
    } else if b < a {
        integers_keep_their_order(b, a);
    }
}

// ---------------------------------------------------------------------------
// Hits
// ---------------------------------------------------------------------------

/// A node that the store found, and its distance as it is reported.
#[derive(Debug, PartialEq)]
pub struct Hit {
    pub node: AttrNode,
    pub distance: Option<Json>,
}

#[verifier::ext_equal]
pub struct HitView {
    pub node: NodeView,
    pub distance: Option<JsonView>,
}

impl View for Hit {
    type V = HitView;

    open spec fn view(&self) -> HitView {
        HitView { node: self.node@, distance: opt_json(self.distance) }
    }
}

pub open spec fn hits_view(hits: Seq<Hit>) -> Seq<HitView> {
    hits.map_values(|h: Hit| h@)
}

/// There is a text and it is one of those asked for; where none is asked for, anything will do.
pub open spec fn is_among(s: Option<Seq<char>>, all: Seq<Seq<char>>) -> bool {
    all.len() == 0 || (s matches Some(t) && all.contains(t))
}

/// A hit that a query keeps. Layers are compared only where the query looks around other
/// features; elsewhere the store is asked layer by layer.
pub open spec fn keeps_hit(q: QueryView, h: HitView) -> bool {
    &&& q.region is Near ==> is_among(h.node.subtype, q.layers)
    &&& is_among(class_of(h.node), q.classes)
    &&& all_hold(h.node, q.attributes)
}

/// The hits that a query keeps.
pub open spec fn kept_hits(q: QueryView, hits: Seq<HitView>) -> Seq<HitView>
    decreases hits.len(),
{
    if hits.len() == 0 {
        Seq::empty()
    } else if keeps_hit(q, hits.last()) {
        kept_hits(q, hits.drop_last()).push(hits.last())
    } else {
        kept_hits(q, hits.drop_last())
    }
}

fn among(s: Option<&String>, all: &Vec<String>) -> (r: bool)
    ensures
        r == is_among(
            match s {
                Some(t) => Some(t@),
                None => None,
            },
            texts(all@),
        ),
{
    let n = all.len();
    proof {
        assert(texts(all@).len() == n);
    }
    if n == 0 {
        return true;
    }
    match s {
        None => false,
        Some(t) => {
            let mut i: usize = 0;
            while i < n
                invariant
                    i <= n,
                    n == all@.len(),
                    s == Some(t),
                    forall|k: int| 0 <= k < i ==> (#[trigger] texts(all@)[k]) != t@,
                decreases n - i,
            {
                if same_text(all[i].as_str(), t.as_str()) {
                    proof {
                        assert(texts(all@)[i as int] == t@);
                    }
                    return true;
                }
                proof {
                    assert(texts(all@)[i as int] == all@[i as int]@);
                }
                i += 1;
            }
            false
        },
    }
}

fn keep_hit(q: &Query, h: &Hit) -> (r: bool)
    ensures
        r == keeps_hit(q@, h@),
{
    let near = match q.region {
        Region::Near { .. } => true,
        _ => false,
    };
    if near {
        let subtype: Option<&String> = match &h.node.subtype {
            Some(s) => Some(s),
            None => None,
        };
        if !among(subtype, &q.layers) {
            return false;
        }
    }
    among(h.node.text_at("FOLDERPATH"), &q.classes) && attr_list_match(&h.node, &q.attributes)
}

/// Keeps the hits that pass the filters of a query.
pub fn filter_hits(q: &Query, hits: Vec<Hit>) -> (r: Vec<Hit>)
    ensures
        hits_view(r@) == kept_hits(q@, hits_view(hits@)),
{
    let ghost all = hits_view(hits@);
    let mut out: Vec<Hit> = Vec::new();
    proof {
        assert(hits_view(out@) =~= Seq::empty());
    }
    for h in it: hits
        invariant
            it.seq() == hits@,
            all == hits_view(hits@),
            hits_view(out@) == kept_hits(q@, all.take(it.index())),
    {
        proof {
            let i = it.index();
            assert(all.take(i + 1).drop_last() =~= all.take(i));
            assert(all.take(i + 1).last() == h@);
        }
        if keep_hit(q, &h) {
            let ghost before = out@;
            out.push(h);
            proof {
                assert(hits_view(out@) =~= hits_view(before).push(h@));
            }
        }
    }
    proof {
        assert(all.take(hits@.len() as int) =~= all);
    }
    out
}

/// Every kept hit passes the filters, and every hit that passes is kept.
pub proof fn filtering_is_exact(q: QueryView, hits: Seq<HitView>, h: HitView)
    ensures
        kept_hits(q, hits).contains(h) <==> hits.contains(h) && keeps_hit(q, h),
    decreases hits.len(),
{
    if hits.len() > 0 {
        let d = hits.drop_last();
        filtering_is_exact(q, d, h);
        let before = kept_hits(q, d);
        let after = kept_hits(q, hits);
        if after.contains(h) {
            let k = choose|k: int| 0 <= k < after.len() && after[k] == h;
            if k < before.len() {
                assert(before[k] == h);
                let i = choose|i: int| 0 <= i < d.len() && d[i] == h;
                assert(hits[i] == h);
            } else {
                assert(hits[hits.len() - 1] == h);
            }
        }
        if hits.contains(h) && keeps_hit(q, h) {
            let i = choose|i: int| 0 <= i < hits.len() && hits[i] == h;
            if i < d.len() {
                assert(d[i] == h);
                assert(before.contains(h));
                let k = choose|k: int| 0 <= k < before.len() && before[k] == h;
                assert(after[k] == h);
            } else {
                assert(after[after.len() - 1] == h);
            }
        }
    }
}

// ---------------------------------------------------------------------------
// The reply to a query
// ---------------------------------------------------------------------------

/// How many hits there are of each class.
pub open spec fn hit_classes(hits: Seq<HitView>) -> Seq<(Seq<char>, u64)>
    decreases hits.len(),
{
    if hits.len() == 0 {
        Seq::empty()
    } else {
        let before = hit_classes(hits.drop_last());
        match class_of(hits.last().node) {
            Some(c) => counted(before, c),
            None => before,
        }
    }
}

/// How many hits have a class.
pub open spec fn hits_of_class(hits: Seq<HitView>, class: Seq<char>) -> nat
    decreases hits.len(),
{
    if hits.len() == 0 {
        0
    } else {
        hits_of_class(hits.drop_last(), class) + if class_of(hits.last().node) == Some(class) {
            1nat
        } else {
            0nat
        }
    }
}

/// A class is reported with exactly the number of hits that have it.
pub proof fn hit_classes_are_counted(hits: Seq<HitView>, class: Seq<char>)
    requires
        hits.len() <= u64::MAX,
    ensures
        ascending(keys(hit_classes(hits))),
        hits_of_class(hits, class) <= hits.len(),
        lookup(hit_classes(hits), class) == (if hits_of_class(hits, class) > 0 {
            Some(hits_of_class(hits, class) as u64)
        } else {
            None
        }),
    decreases hits.len(),
{
    if hits.len() > 0 {
        let d = hits.drop_last();
        hit_classes_are_counted(d, class);
        if let Some(k) = class_of(hits.last().node) {
            let before = hit_classes(d);
            hit_classes_are_counted(d, k);
            let n = match lookup(before, k) {
                Some(n) => (n + 1) as u64,
                None => 1u64,
            };
            lemma_put(before, k, n);
        }
    } else {
        assert(keys(hit_classes(hits)) =~= Seq::empty());
    }
}

/// A hit as a GeoJSON feature, with its layer and its distance among the properties.
pub open spec fn hit_out(h: HitView) -> Option<JsonView> {
    match node_geometry_out(h.node) {
        None => None,
        Some(g) => {
            let e = put(
                without(h.node.properties, "geometry"@),
                "layer"@,
                str_json(opt_text_or(h.node.subtype)),
            );
            let e = match h.distance {
                Some(d) => put(e, "distance_m"@, d),
                None => e,
            };
            Some(feature_out(h.node.id, e, g))
        },
    }
}

/// The hits that have a geometry, as features.
pub open spec fn hits_out(hits: Seq<HitView>) -> Seq<JsonView>
    decreases hits.len(),
{
    if hits.len() == 0 {
        Seq::empty()
    } else {
        match hit_out(hits.last()) {
            Some(f) => hits_out(hits.drop_last()).push(f),
            None => hits_out(hits.drop_last()),
        }
    }
}

/// The first hits, as many as the limit allows.
pub open spec fn limited<T>(hits: Seq<T>, limit: int) -> Seq<T> {
    if hits.len() > limit {
        hits.take(limit)
    } else {
        hits
    }
}

/// The query as it was understood.
pub open spec fn query_out(q: QueryView) -> JsonView {
    let e = put(no_entries(), "predicate"@, str_json(q.predicate));
    let e = put(e, "layers"@, texts_out(q.layers));
    let e = put(e, "classes"@, texts_out(q.classes));
    let e = put(e, "limit"@, int_json(q.limit as int));
    JsonView::Object(put(e, "output"@, str_json(q.output)))
}

/// The counts as a JSON object.
pub open spec fn counts_out(m: Seq<(Seq<char>, u64)>) -> Entries {
    mapped(m, |n: u64| int_json(n as int))
}

/// The reply to a query over the hits that it keeps: counts over all of them, features for as
/// many as the limit allows, and none where only the count is asked for.
pub open spec fn reply_out(q: QueryView, hits: Seq<HitView>) -> JsonView {
    let shown = if q.output == "count"@ {
        Seq::empty()
    } else {
        hits_out(limited(hits, q.limit as int))
    };
    let e = put(no_entries(), "query"@, query_out(q));
    let e = put(e, "total"@, int_json(hits.len() as int));
    let e = put(e, "truncated"@, JsonView::Bool(hits.len() > q.limit));
    let e = put(e, "by_class"@, JsonView::Object(counts_out(hit_classes(hits))));
    JsonView::Object(put(e, "features"@, collection_out(shown)))
}

fn count_classes(hits: &Vec<Hit>) -> (r: TextMap<u64>)
    ensures
        r@ == hit_classes(hits_view(hits@)),
{
    let n = hits.len();
    let ghost hs = hits_view(hits@);
    let mut counts: TextMap<u64> = TextMap::new();
    let mut i: usize = 0;
    while i < n
        invariant
            i <= n,
            n == hits@.len(),
            hs == hits_view(hits@),
            counts@ == hit_classes(hs.take(i as int)),
        decreases n - i,
    {
        proof {
            assert(hs.take(i + 1).drop_last() =~= hs.take(i as int));
            assert(hs.take(i + 1).last() == hits@[i as int]@);
        }
        match hits[i].node.text_at("FOLDERPATH") {
            Some(class) => {
                proof {
                    hit_classes_are_counted(hs.take(i as int), class@);
                }
                let c: u64 = match counts.get(class.as_str()) {
                    Some(c) => *c + 1,
                    None => 1,
                };
                counts.insert(class.clone(), c);
            },
            None => {},
        }
        i += 1;
    }
    proof {
        assert(hs.take(n as int) =~= hs);
    }
    counts
}

fn counts_json(m: &TextMap<u64>) -> (r: JsonObject)
    ensures
        r@ == counts_out(m@),
{
    let n = m.len();
    let ghost e = counts_out(m@);
    let mut o = JsonObject::new();
    let mut i: usize = 0;
    proof {
        use_type_invariant(m);
        assert(keys(e) =~= keys(m@));
        assert(e.take(0) =~= no_entries());
    }
    while i < n
        invariant
            i <= n,
            n == m@.len(),
            e == counts_out(m@),
            ascending(keys(e)),
            o@ == e.take(i as int),
        decreases n - i,
    {
        o.insert(m.key_at(i).clone(), Json::from_u64(*m.value_at(i)));
        proof {
            let before = e.take(i as int);
            assert forall|k: int| 0 <= k < before.len() implies text_lt(
                #[trigger] before[k].0,
                e[i as int].0,
            ) by {
                assert(keys(e)[k] == e[k].0);
                assert(keys(e)[i as int] == e[i as int].0);
            }
            crate::textmap::lemma_put_last(before, e[i as int].0, e[i as int].1);
            assert(e.take(i + 1) =~= before.push(e[i as int]));
        }
        i += 1;
    }
    proof {
        assert(e.take(n as int) =~= e);
    }
    o
}

fn hit_json(h: &Hit) -> (r: Option<Json>)
    ensures
        opt_json(r) == hit_out(h@),
{
    match node_geometry_geojson(&h.node) {
        None => None,
        Some(g) => {
            let mut props = h.node.properties.copy();
            let _ = props.remove("geometry");
            props.set("layer", Json::text(subtype_text(&h.node).as_str()));
            match &h.distance {
                Some(d) => {
                    props.set("distance_m", d.copy());
                },
                None => {},
            }
            Some(make_feature(h.node.id.as_str(), props, g))
        },
    }
}

/// The first hits as features.
fn hits_json(hits: &Vec<Hit>, limit: usize) -> (r: Vec<Json>)
    ensures
        array_view(r@) == hits_out(limited(hits_view(hits@), limit as int)),
{
    let n = if hits.len() > limit {
        limit
    } else {
        hits.len()
    };
    let ghost hs = limited(hits_view(hits@), limit as int);
    let mut out: Vec<Json> = Vec::new();
    let mut i: usize = 0;
    proof {
        assert(array_view(out@) =~= hits_out(hs.take(0)));
    }
    while i < n
        invariant
            i <= n,
            n <= hits@.len(),
            n == hs.len(),
            hs == limited(hits_view(hits@), limit as int),
            array_view(out@) == hits_out(hs.take(i as int)),
        decreases n - i,
    {
        proof {
            assert(hs.take(i + 1).drop_last() =~= hs.take(i as int));
            assert(hs.take(i + 1).last() == hits@[i as int]@);
        }
        match hit_json(&hits[i]) {
            Some(f) => {
                let ghost before = out@;
                out.push(f);
                proof {
                    assert(array_view(out@) =~= array_view(before).push(f@));
                }
            },
            None => {},
        }
        i += 1;
    }
    proof {
        assert(hs.take(n as int) =~= hs);
    }
    out
}

fn query_json(q: &Query) -> (r: Json)
    ensures
        r@ == query_out(q@),
{
    let mut o = JsonObject::new();
    o.set("predicate", Json::text(q.predicate.as_str()));
    o.set("layers", texts_json(&q.layers));
    o.set("classes", texts_json(&q.classes));
    o.set("limit", Json::from_u64(q.limit as u64));
    o.set("output", Json::text(q.output.as_str()));
    Json::object(o)
}

/// The reply to a query, given everything that the store found for it.
pub fn query_reply(q: &Query, found: Vec<Hit>) -> (r: Json)
    ensures
        r@ == reply_out(q@, kept_hits(q@, hits_view(found@))),
{
    let hits = filter_hits(q, found);
    let total = hits.len();
    proof {
        assert(hits_view(hits@).len() == total);
    }
    let counts = count_classes(&hits);
    let shown = if same_text(q.output.as_str(), "count") {
        let none: Vec<Json> = Vec::new();
        proof {
            assert(array_view(none@) =~= Seq::empty());
        }
        none
    } else {
        hits_json(&hits, q.limit)
    };
    let mut o = JsonObject::new();
    o.set("query", query_json(q));
    o.set("total", Json::from_u64(total as u64));
    o.set("truncated", Json::from_bool(total > q.limit));
    o.set("by_class", Json::object(counts_json(&counts)));
    o.set("features", make_collection(shown));
    Json::object(o)
}

/// No reply holds more features than the limit allows.
pub proof fn features_are_limited(hits: Seq<HitView>, limit: int)
    requires
        limit >= 0,
    ensures
        hits_out(limited(hits, limit)).len() <= limit,
{
    lemma_hits_out_len(limited(hits, limit));
}

proof fn lemma_hits_out_len(hits: Seq<HitView>)
    ensures
        hits_out(hits).len() <= hits.len(),
    decreases hits.len(),
{
    if hits.len() > 0 {
        lemma_hits_out_len(hits.drop_last());
    }
}

/// The layers that the store is asked for one by one; nothing stands for all layers at once. What
/// is near other features is asked for at once.
pub open spec fn asked_layers(q: QueryView) -> Seq<Option<Seq<char>>> {
    if q.region is Near || q.layers.len() == 0 {
        seq![None]
    } else {
        q.layers.map_values(|l: Seq<char>| Some(l))
    }
}

/// The layers that the store is asked for one by one.
pub fn layers_to_ask(q: &Query) -> (r: Vec<Option<String>>)
    ensures
        opt_texts(r@) == asked_layers(q@),
{
    let n = q.layers.len();
    proof {
        assert(texts(q.layers@).len() == n);
    }
    let mut out: Vec<Option<String>> = Vec::new();
    let near = match q.region {
        Region::Near { .. } => true,
        _ => false,
    };
    if near || n == 0 {
        out.push(None);
        proof {
            assert(opt_texts(out@) =~= asked_layers(q@));
        }
        return out;
    }
    let mut i: usize = 0;
    while i < n
        invariant
            i <= n,
            n == q.layers@.len(),
            out@.len() == i,
            forall|k: int| 0 <= k < i ==> opt_view(#[trigger] out@[k]) == Some(q.layers@[k]@),
        decreases n - i,
    {
        out.push(Some(q.layers[i].clone()));
        i += 1;
    }
    proof {
        assert(opt_texts(out@) =~= asked_layers(q@));
    }
    out
}

// ---------------------------------------------------------------------------
// Semantic search
// ---------------------------------------------------------------------------

/// A node that a semantic search found, and how similar it is.
#[derive(Debug, PartialEq)]
pub struct Scored {
    pub node: AttrNode,
    pub similarity: Real,
}

#[verifier::ext_equal]
pub struct ScoredView {
    pub node: NodeView,
    pub similarity: u64,
}

impl View for Scored {
    type V = ScoredView;

    open spec fn view(&self) -> ScoredView {
        ScoredView { node: self.node@, similarity: self.similarity@ }
    }
}

pub open spec fn scored_view(hits: Seq<Scored>) -> Seq<ScoredView> {
    hits.map_values(|h: Scored| h@)
}

/// A search for layers keeps layers, any other keeps features; a layer that is asked for has to
/// be the one that the node belongs to.
pub open spec fn in_scope(n: NodeView, scope: Seq<char>, layer: Option<Seq<char>>) -> bool {
    &&& n.node_type == (if scope == "Layer"@ {
        "Layer"@
    } else {
        "Feature"@
    })
    &&& layer matches Some(l) ==> n.subtype == Some(l)
}

pub open spec fn scoped(
    hits: Seq<ScoredView>,
    scope: Seq<char>,
    layer: Option<Seq<char>>,
) -> Seq<ScoredView>
    decreases hits.len(),
{
    if hits.len() == 0 {
        Seq::empty()
    } else if in_scope(hits.last().node, scope, layer) {
        scoped(hits.drop_last(), scope, layer).push(hits.last())
    } else {
        scoped(hits.drop_last(), scope, layer)
    }
}

/// The more similar first; equally similar ones keep their order.
pub open spec fn similarity_keys(hits: Seq<ScoredView>) -> Seq<KeyView> {
    hits.map_values(|h: ScoredView| KeyView { rank: -rank(h.similarity), text: ""@ })
}

pub open spec fn by_similarity(hits: Seq<ScoredView>) -> Seq<ScoredView> {
    in_order(hits, order_of(similarity_keys(hits)))
}

/// The first node with an id.
pub open spec fn node_with(hits: Seq<ScoredView>, id: Seq<char>) -> NodeView
    decreases hits.len(),
{
    if hits.len() <= 1 || hits[0].node.id == id {
        hits[0].node
    } else {
        node_with(hits.drop_first(), id)
    }
}

pub open spec fn scored_layer_out(n: NodeView, similarity: u64) -> JsonView {
    let e = put(no_entries(), "id"@, str_json(n.id));
    let e = put(e, "name"@, str_json(n.name));
    let e = put(e, "display_name"@, str_json(opt_text_or(n.text_at("display_name"@))));
    JsonView::Object(put(e, "similarity"@, real_json(similarity)))
}

pub open spec fn scored_feature_out(n: NodeView, similarity: u64) -> Option<JsonView> {
    match node_geometry_out(n) {
        None => None,
        Some(g) => {
            let e = put(
                without(n.properties, "geometry"@),
                "similarity"@,
                real_json(similarity),
            );
            Some(feature_out(n.id, put(e, "layer"@, str_json(opt_text_or(n.subtype))), g))
        },
    }
}

/// The found nodes as they are shown: layers, or the features that have a geometry.
pub open spec fn scored_out(
    kept: Seq<ScoredView>,
    shown: Seq<ScoredView>,
    layers: bool,
) -> Seq<JsonView>
    decreases shown.len(),
{
    if shown.len() == 0 {
        Seq::empty()
    } else {
        let before = scored_out(kept, shown.drop_last(), layers);
        let h = shown.last();
        let n = node_with(kept, h.node.id);
        if layers {
            before.push(scored_layer_out(n, h.similarity))
        } else {
            match scored_feature_out(n, h.similarity) {
                Some(f) => before.push(f),
                None => before,
            }
        }
    }
}

/// The reply to a semantic search.
pub open spec fn semantic_out(
    text: Seq<char>,
    scope: Seq<char>,
    layer: Option<Seq<char>>,
    limit: int,
    found: Seq<ScoredView>,
) -> JsonView {
    let kept = scoped(found, scope, layer);
    let shown = limited(by_similarity(kept), limit);
    let e = put(no_entries(), "query"@, str_json(text));
    let e = put(e, "total"@, int_json(kept.len() as int));
    if scope == "Layer"@ {
        JsonView::Object(put(e, "layers"@, JsonView::Array(scored_out(kept, shown, true))))
    } else {
        JsonView::Object(put(e, "features"@, collection_out(scored_out(kept, shown, false))))
    }
}

fn filter_scored(found: Vec<Scored>, scope: &str, layer: &Option<String>) -> (r: Vec<Scored>)
    ensures
        scored_view(r@) == scoped(scored_view(found@), scope@, opt_view(*layer)),
{
    let ghost all = scored_view(found@);
    let wanted: &str = if same_text(scope, "Layer") {
        "Layer"
    } else {
        "Feature"
    };
    let mut out: Vec<Scored> = Vec::new();
    proof {
        assert(scored_view(out@) =~= Seq::empty());
    }
    for h in it: found
        invariant
            it.seq() == found@,
            all == scored_view(found@),
            wanted@ == (if scope@ == "Layer"@ {
                "Layer"@
            } else {
                "Feature"@
            }),
            scored_view(out@) == scoped(all.take(it.index()), scope@, opt_view(*layer)),
    {
        proof {
            let i = it.index();
            assert(all.take(i + 1).drop_last() =~= all.take(i));
            assert(all.take(i + 1).last() == h@);
        }
        let mine = match layer {
            Some(l) => match &h.node.subtype {
                Some(s) => same_text(s.as_str(), l.as_str()),
                None => false,
            },
            None => true,
        };
        if same_text(h.node.node_type.as_str(), wanted) && mine {
            let ghost before = out@;
            out.push(h);
            proof {
                assert(scored_view(out@) =~= scored_view(before).push(h@));
            }
        }
    }
    proof {
        assert(all.take(found@.len() as int) =~= all);
    }
    out
}

fn similarity_order(hits: &Vec<Scored>) -> (r: Vec<usize>)
    ensures
        places_view(r@) == order_of(similarity_keys(scored_view(hits@))),
        r@.len() == hits@.len(),
        forall|a: int| 0 <= a < r@.len() ==> #[trigger] r@[a] < hits@.len(),
{
    let n = hits.len();
    let ghost hs = scored_view(hits@);
    let mut ks: Vec<SortKey> = Vec::new();
    let mut i: usize = 0;
    while i < n
        invariant
            i <= n,
            n == hits@.len(),
            hs == scored_view(hits@),
            ks@.len() == i,
            forall|k: int| 0 <= k < i ==> (#[trigger] ks@[k])@ == similarity_keys(hs)[k],
        decreases n - i,
    {
        let p = hits[i].similarity.place();
        ks.push(SortKey { rank: -p, text: "".to_owned() });
        i += 1;
    }
    proof {
        assert(sort_keys_view(ks@) =~= similarity_keys(hs));
    }
    sorted_order(&ks)
}

/// The place of the first node with the id of one of them.
fn first_with<'a>(hits: &'a Vec<Scored>, id: &str) -> (r: &'a AttrNode)
    requires
        hits@.len() > 0,
    ensures
        r@ == node_with(scored_view(hits@), id@),
{
    let n = hits.len();
    let ghost hs = scored_view(hits@);
    let mut i: usize = 0;
    proof {
        assert(hs.skip(0) =~= hs);
    }
    while i + 1 < n && !same_text(hits[i].node.id.as_str(), id)
        invariant
            i < n,
            n == hits@.len(),
            hs == scored_view(hits@),
            node_with(hs, id@) == node_with(hs.skip(i as int), id@),
        decreases n - i,
    {
        proof {
            assert(hs.skip(i as int)[0] == hits@[i as int]@);
            assert(hs.skip(i as int).drop_first() =~= hs.skip(i + 1));
        }
        i += 1;
    }
    proof {
        assert(hs.skip(i as int)[0] == hits@[i as int]@);
    }
    &hits[i].node
}

fn scored_layer_json(n: &AttrNode, similarity: &Real) -> (r: Json)
    ensures
        r@ == scored_layer_out(n@, similarity@),
{
    let display = match n.text_at("display_name") {
        Some(s) => s.clone(),
        None => "".to_owned(),
    };
    let mut o = JsonObject::new();
    o.set("id", Json::text(n.id.as_str()));
    o.set("name", Json::text(n.name.as_str()));
    o.set("display_name", Json::text(display.as_str()));
    o.set("similarity", similarity.to_json());
    Json::object(o)
}

fn scored_feature_json(n: &AttrNode, similarity: &Real) -> (r: Option<Json>)
    ensures
        opt_json(r) == scored_feature_out(n@, similarity@),
{
    match node_geometry_geojson(n) {
        None => None,
        Some(g) => {
            let mut props = n.properties.copy();
            let _ = props.remove("geometry");
            props.set("similarity", similarity.to_json());
            props.set("layer", Json::text(subtype_text(n).as_str()));
            Some(make_feature(n.id.as_str(), props, g))
        },
    }
}

fn scored_json(kept: &Vec<Scored>, order: &Vec<usize>, limit: usize, layers: bool) -> (r: Vec<Json>)
    requires
        order@.len() == kept@.len(),
        places_view(order@) == order_of(similarity_keys(scored_view(kept@))),
        forall|a: int| 0 <= a < order@.len() ==> #[trigger] order@[a] < kept@.len(),
    ensures
        array_view(r@) == scored_out(
            scored_view(kept@),
            limited(by_similarity(scored_view(kept@)), limit as int),
            layers,
        ),
{
    let ghost ks = scored_view(kept@);
    let ghost sorted = by_similarity(ks);
    let ghost shown = limited(sorted, limit as int);
    let n = if kept.len() > limit {
        limit
    } else {
        kept.len()
    };
    let mut out: Vec<Json> = Vec::new();
    let mut i: usize = 0;
    proof {
        assert(sorted.len() == kept@.len());
        assert(array_view(out@) =~= scored_out(ks, shown.take(0), layers));
    }
    while i < n
        invariant
            i <= n,
            n <= kept@.len(),
            n == shown.len(),
            ks == scored_view(kept@),
            sorted == by_similarity(ks),
            shown == limited(sorted, limit as int),
            order@.len() == kept@.len(),
            places_view(order@) == order_of(similarity_keys(ks)),
            forall|a: int| 0 <= a < order@.len() ==> #[trigger] order@[a] < kept@.len(),
            array_view(out@) == scored_out(ks, shown.take(i as int), layers),
        decreases n - i,
    {
        let at = order[i];
        proof {
            assert(shown.take(i + 1).drop_last() =~= shown.take(i as int));
            assert(places_view(order@)[i as int] == at);
            assert(shown[i as int] == ks[at as int]);
            assert(shown.take(i + 1).last() == kept@[at as int]@);
        }
        let node = first_with(kept, kept[at].node.id.as_str());
        let f = if layers {
            Some(scored_layer_json(node, &kept[at].similarity))
        } else {
            scored_feature_json(node, &kept[at].similarity)
        };
        match f {
            Some(f) => {
                let ghost before = out@;
                out.push(f);
                proof {
                    assert(array_view(out@) =~= array_view(before).push(f@));
                }
            },
            None => {},
        }
        i += 1;
    }
    proof {
        assert(shown.take(n as int) =~= shown);
    }
    out
}

/// The reply to a semantic search, given everything that the store found for it.
pub fn semantic_reply(
    text: &str,
    scope: &str,
    layer: &Option<String>,
    limit: usize,
    found: Vec<Scored>,
) -> (r: Json)
    ensures
        r@ == semantic_out(
            text@,
            scope@,
            opt_view(*layer),
            limit as int,
            scored_view(found@),
        ),
{
    let kept = filter_scored(found, scope, layer);
    let total = kept.len();
    proof {
        assert(scored_view(kept@).len() == total);
    }
    let order = similarity_order(&kept);
    let mut o = JsonObject::new();
    o.set("query", Json::text(text));
    o.set("total", Json::from_u64(total as u64));
    if same_text(scope, "Layer") {
        o.set("layers", Json::array(scored_json(&kept, &order, limit, true)));
    } else {
        o.set("features", make_collection(scored_json(&kept, &order, limit, false)));
    }
    Json::object(o)
}

/// What a search shows is ranked: nothing comes before something more similar.
pub proof fn search_is_ranked(hits: Seq<ScoredView>, a: int, b: int)
    requires
        0 <= a < b < hits.len(),
    ensures
        by_similarity(hits).len() == hits.len(),
        rank(by_similarity(hits)[a].similarity) >= rank(by_similarity(hits)[b].similarity),
{
    let ks = similarity_keys(hits);
    order_is_stable(ks);
    let order = order_of(ks);
    assert(crate::order::comes_before(ks, order[a], order[b]));
    crate::text::text_lt_irreflexive(""@);
}

proof fn lemma_scored_out_len(kept: Seq<ScoredView>, shown: Seq<ScoredView>, layers: bool)
    ensures
        scored_out(kept, shown, layers).len() <= shown.len(),
    decreases shown.len(),
{
    if shown.len() > 0 {
        lemma_scored_out_len(kept, shown.drop_last(), layers);
    }
}

/// A search never shows more than its limit, whatever is found.
pub proof fn search_is_limited(kept: Seq<ScoredView>, limit: int, layers: bool)
    requires
        limit >= 0,
    ensures
        scored_out(kept, limited(by_similarity(kept), limit), layers).len() <= limit,
{
    lemma_scored_out_len(kept, limited(by_similarity(kept), limit), layers);
}

/// How many results the store is asked for by a semantic search: fifty at least.
pub fn search_width(limit: usize) -> (r: usize)
    ensures
        r == if limit >= 50 {
            limit as int
        } else {
            50
        },
{
    if limit >= 50 {
        limit
    } else {
        50
    }
}

} // verus!
