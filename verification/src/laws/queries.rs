//! Queries and searches: which of the found features an answer counts and shows, and what it says
//! of each.

use vstd::prelude::*;

#[allow(unused_imports)]
use crate::coordinator::features::{collection_out, feature_out, opt_text_or};
#[allow(unused_imports)]
use crate::coordinator::query::{
    all_hold, asked_layers, by_similarity, constraint_holds, counts_out, hit_classes,
    hit_classes_are_counted, hit_out, hits_of_class, hits_out, keeps_hit, kept_hits, limited,
    node_with, passes, query_out, reply_out, scoped, scored_feature_out, scored_layer_out,
    scored_out, semantic_out, similarity_keys, value_text, HitView, ScoredView,
};
#[allow(unused_imports)]
use crate::coordinator::request::{fetch_limit, QueryView};
#[allow(unused_imports)]
use crate::coordinator::route::{
    carried_out, gathered, query_gathers_every_layer, FinishView, QueryRunView,
};
#[allow(unused_imports)]
use crate::geometry::GeometryView;
#[allow(unused_imports)]
use crate::json::{
    int_json, no_entries, number_text, rank, real_json, real_of, str_json, Entries, JsonView,
};
#[allow(unused_imports)]
use crate::laws::texts::{precedes, texts_stand_in_code_point_order};
#[allow(unused_imports)]
use crate::models::geojson::{geometry_out, node_geometry_out};
#[allow(unused_imports)]
use crate::models::NodeView;
#[allow(unused_imports)]
use crate::order::{order_is_stable, order_of};
#[allow(unused_imports)]
use crate::text::stands_at;
#[allow(unused_imports)]
use crate::textmap::{ascending, keys, lemma_mapped, lemma_put, lemma_without, lookup, put, without};

verus! {

// ---------------------------------------------------------------------------
// Constraints
// ---------------------------------------------------------------------------

/// A scalar as text.
pub open spec fn reads_as(v: JsonView, t: Seq<char>) -> bool {
    match v {
        JsonView::Str(s) => t == s,
        JsonView::Number(n) => t == number_text(n),
        JsonView::Bool(b) => t == (if b {
            "true"@
        } else {
            "false"@
        }),
        _ => t.len() == 0,
    }
}

proof fn lemma_reads(v: JsonView)
    ensures
        reads_as(v, value_text(v)),
        forall|t: Seq<char>| #[trigger] reads_as(v, t) ==> t == value_text(v),
{
    reveal_strlit("");
    assert forall|t: Seq<char>| #[trigger] reads_as(v, t) implies t == value_text(v) by {
        assert(t.len() == 0 ==> t =~= ""@);
    }
}

/// What the operators of a constraint say of two values: `=` and `!=` compare them as texts,
/// `contains` and `starts_with` look for the second text in the first, the others compare numbers
/// by value and anything else as texts. Nothing passes an operator that is none of these.
pub proof fn operators_mean_what_they_say(
    v: JsonView,
    w: JsonView,
    a: Seq<char>,
    b: Seq<char>,
    op: Seq<char>,
)
    requires
        reads_as(v, a),
        reads_as(w, b),
    ensures
        passes(v, "="@, w) <==> a == b,
        passes(v, "!="@, w) <==> a != b,
        passes(v, "contains"@, w) <==> exists|i: int|
            0 <= i && i + b.len() <= a.len() && #[trigger] a.subrange(i, i + b.len()) == b,
        passes(v, "starts_with"@, w) <==> b.len() <= a.len() && a.take(b.len() as int) == b,
        !(v is Number && w is Number) ==> (passes(v, "<"@, w) <==> precedes(a, b)),
        !(v is Number && w is Number) ==> (passes(v, ">"@, w) <==> precedes(b, a)),
        !(v is Number && w is Number) ==> (passes(v, "<="@, w) <==> !precedes(b, a)),
        !(v is Number && w is Number) ==> (passes(v, ">="@, w) <==> !precedes(a, b)),
        passes(v, op, w) ==> op == "="@ || op == "!="@ || op == "contains"@ || op
            == "starts_with"@ || op == ">"@ || op == ">="@ || op == "<"@ || op == "<="@,
{
    lemma_operators();
    lemma_reads(v);
    lemma_reads(w);
    texts_stand_in_code_point_order(a, b);
    texts_stand_in_code_point_order(b, a);
    crate::text::text_lt_total(a, b);
    crate::text::text_lt_irreflexive(a);
    if passes(v, "contains"@, w) {
        let i = choose|i: int| stands_at(a, b, i);
        assert(a.subrange(i, i + b.len()) == b);
    }
    assert forall|i: int|
        0 <= i && i + b.len() <= a.len() && #[trigger] a.subrange(i, i + b.len())
            == b implies passes(v, "contains"@, w) by {
        assert(stands_at(a, b, i));
    }
}

/// Two numbers are compared by value, whatever way they are written.
pub proof fn numbers_compare_by_value(v: JsonView, w: JsonView, x: u64, y: u64)
    requires
        v.as_real() == Some(x),
        w.as_real() == Some(y),
    ensures
        passes(v, "<"@, w) <==> rank(x) < rank(y),
        passes(v, "<="@, w) <==> rank(x) <= rank(y),
        passes(v, ">"@, w) <==> rank(x) > rank(y),
        passes(v, ">="@, w) <==> rank(x) >= rank(y),
{
    lemma_operators();
}

proof fn lemma_operators()
    ensures
        "="@ != "!="@,
        "="@ != "contains"@,
        "="@ != "starts_with"@,
        "="@ != ">"@,
        "="@ != ">="@,
        "="@ != "<"@,
        "="@ != "<="@,
        "!="@ != "contains"@,
        "!="@ != "starts_with"@,
        "!="@ != ">"@,
        "!="@ != ">="@,
        "!="@ != "<"@,
        "!="@ != "<="@,
        "contains"@ != "starts_with"@,
        "contains"@ != ">"@,
        "contains"@ != ">="@,
        "contains"@ != "<"@,
        "contains"@ != "<="@,
        "starts_with"@ != ">"@,
        "starts_with"@ != ">="@,
        "starts_with"@ != "<"@,
        "starts_with"@ != "<="@,
        ">"@ != ">="@,
        ">"@ != "<"@,
        ">"@ != "<="@,
        ">="@ != "<"@,
        ">="@ != "<="@,
        "<"@ != "<="@,
{
    reveal_strlit("=");
    reveal_strlit("!=");
    reveal_strlit("contains");
    reveal_strlit("starts_with");
    reveal_strlit(">");
    reveal_strlit(">=");
    reveal_strlit("<");
    reveal_strlit("<=");
    assert("="@[0] == '=' && "!="@[0] == '!' && "contains"@[0] == 'c' && "starts_with"@[0] == 's');
    assert(">"@[0] == '>' && ">="@[0] == '>' && "<"@[0] == '<' && "<="@[0] == '<');
    assert(">"@.len() == 1 && ">="@.len() == 2 && "<"@.len() == 1 && "<="@.len() == 2);
}

/// Whether a node meets a constraint: it has the attribute that the constraint names, and that
/// passes the operator (equality where none is given) with the value (null where none is given).
/// A constraint that names no attribute says nothing.
pub open spec fn meets(n: NodeView, it: JsonView) -> bool {
    it.text_at("key"@) matches Some(key) ==> {
        &&& lookup(n.properties, key) is Some
        &&& passes(
            lookup(n.properties, key)->0,
            if it.text_at("op"@) is Some {
                it.text_at("op"@)->0
            } else {
                "="@
            },
            if it.get("value"@) is Some {
                it.get("value"@)->0
            } else {
                JsonView::Null
            },
        )
    }
}

// ---------------------------------------------------------------------------
// Filtering
// ---------------------------------------------------------------------------

/// Whether a query asks for a found feature: it is of one of the classes, where any are given, it
/// meets every constraint, and, around other features, it is of one of the layers, where any are
/// given.
pub open spec fn asked_for(q: QueryView, h: HitView) -> bool {
    &&& q.classes.len() > 0 ==> exists|i: int|
        0 <= i < q.classes.len() && lookup(h.node.properties, "FOLDERPATH"@) == Some(
            JsonView::Str(#[trigger] q.classes[i]),
        )
    &&& forall|i: int| 0 <= i < q.attributes.len() ==> meets(h.node, #[trigger] q.attributes[i])
    &&& q.region is Near && q.layers.len() > 0 ==> exists|i: int|
        0 <= i < q.layers.len() && h.node.subtype == Some(#[trigger] q.layers[i])
}

proof fn lemma_asked_for(q: QueryView, h: HitView)
    ensures
        keeps_hit(q, h) <==> asked_for(q, h),
{
    assert forall|it: JsonView| #[trigger] meets(h.node, it) <==> constraint_holds(h.node, it) by {}
    if keeps_hit(q, h) {
        assert forall|i: int| 0 <= i < q.attributes.len() implies meets(
            h.node,
            #[trigger] q.attributes[i],
        ) by {
            assert(constraint_holds(h.node, q.attributes[i]));
        }
        if q.classes.len() > 0 {
            let c = h.node.text_at("FOLDERPATH"@)->0;
            let i = choose|i: int| 0 <= i < q.classes.len() && q.classes[i] == c;
            assert(lookup(h.node.properties, "FOLDERPATH"@) == Some(
                JsonView::Str(q.classes[i]),
            ));
        }
        if q.region is Near && q.layers.len() > 0 {
            let l = h.node.subtype->0;
            let i = choose|i: int| 0 <= i < q.layers.len() && q.layers[i] == l;
            assert(h.node.subtype == Some(q.layers[i]));
        }
    }
    if asked_for(q, h) {
        assert forall|i: int| 0 <= i < q.attributes.len() implies constraint_holds(
            h.node,
            #[trigger] q.attributes[i],
        ) by {
            assert(meets(h.node, q.attributes[i]));
        }
        assert(all_hold(h.node, q.attributes));
    }
}

/// A query keeps exactly the found features that it asks for, each as often as it was found, in
/// the order in which they were found.
pub proof fn a_query_keeps_what_it_asks_for(q: QueryView, hits: Seq<HitView>)
    ensures
        kept_hits(q, hits) == hits.filter(|h: HitView| asked_for(q, h)),
    decreases hits.len(),
{
    reveal(Seq::filter);
    if hits.len() > 0 {
        a_query_keeps_what_it_asks_for(q, hits.drop_last());
        lemma_asked_for(q, hits.last());
    } else {
        assert(kept_hits(q, hits) =~= hits.filter(|h: HitView| asked_for(q, h)));
    }
}

/// A query without classes, constraints and layers keeps every feature that was found.
pub proof fn a_plain_query_keeps_everything(q: QueryView, hits: Seq<HitView>)
    requires
        q.classes.len() == 0,
        q.attributes.len() == 0,
        q.layers.len() == 0,
    ensures
        kept_hits(q, hits) == hits,
    decreases hits.len(),
{
    if hits.len() > 0 {
        a_plain_query_keeps_everything(q, hits.drop_last());
        lemma_asked_for(q, hits.last());
        assert(hits.drop_last().push(hits.last()) =~= hits);
    } else {
        assert(kept_hits(q, hits) =~= hits);
    }
}

// ---------------------------------------------------------------------------
// The reply to a query
// ---------------------------------------------------------------------------

/// Whether a node can be shown: it has a geometry, or at least a position.
pub open spec fn has_place(n: NodeView) -> bool {
    n.geometry is Some || n.point is Some
}

/// The GeoJSON geometry of a node: of its geometry, else of its position.
pub open spec fn is_shape_of(j: JsonView, n: NodeView) -> bool {
    match n.geometry {
        Some(g) => j == geometry_out(g),
        None => n.point is Some && j == geometry_out(GeometryView::Point(n.point->0)),
    }
}

/// A GeoJSON feature for a node.
pub open spec fn is_feature_for(f: JsonView, n: NodeView, properties: Entries) -> bool {
    &&& f.text_at("type"@) == Some("Feature"@)
    &&& f.text_at("id"@) == Some(n.id)
    &&& f.get("properties"@) == Some(JsonView::Object(properties))
    &&& f.get("geometry"@) is Some && is_shape_of(f.get("geometry"@)->0, n)
}

/// What a reply says of a feature that was found: its attributes, without the geometry, with its
/// layer and, where it was measured, its distance.
pub open spec fn tells_hit(properties: Entries, h: HitView) -> bool {
    &&& h.distance is None ==> lookup(properties, "layer"@) == Some(
        JsonView::Str(opt_text_or(h.node.subtype)),
    )
    &&& h.distance matches Some(d) ==> lookup(properties, "layer"@) == Some(
        JsonView::Str(opt_text_or(h.node.subtype)),
    ) && lookup(properties, "distance_m"@) == Some(d)
    &&& lookup(properties, "geometry"@) is None
    &&& forall|k: Seq<char>|
        k != "layer"@ && k != "geometry"@ && (k != "distance_m"@ || h.distance is None)
            ==> #[trigger] lookup(properties, k) == lookup(h.node.properties, k)
}

/// Everything that a reply says of a feature that was found.
pub open spec fn shows_hit(f: JsonView, h: HitView) -> bool {
    exists|e: Entries| #[trigger] is_feature_for(f, h.node, e) && tells_hit(e, h)
}

pub(crate) proof fn lemma_feature_out(id: Seq<char>, e: Entries, g: JsonView)
    ensures
        feature_out(id, e, g).text_at("type"@) == Some("Feature"@),
        feature_out(id, e, g).text_at("id"@) == Some(id),
        feature_out(id, e, g).get("properties"@) == Some(JsonView::Object(e)),
        feature_out(id, e, g).get("geometry"@) == Some(g),
{
    reveal_strlit("type");
    reveal_strlit("id");
    reveal_strlit("properties");
    reveal_strlit("geometry");
    assert("type"@.len() == 4 && "id"@.len() == 2 && "properties"@.len() == 10
        && "geometry"@.len() == 8);
    assert(keys(no_entries()) =~= Seq::empty());
    let e0 = no_entries();
    lemma_put(e0, "type"@, str_json("Feature"@));
    let e1 = put(e0, "type"@, str_json("Feature"@));
    lemma_put(e1, "id"@, str_json(id));
    let e2 = put(e1, "id"@, str_json(id));
    lemma_put(e2, "properties"@, JsonView::Object(e));
    let e3 = put(e2, "properties"@, JsonView::Object(e));
    lemma_put(e3, "geometry"@, g);
}

pub(crate) proof fn lemma_collection_out(fs: Seq<JsonView>)
    ensures
        collection_out(fs).text_at("type"@) == Some("FeatureCollection"@),
        collection_out(fs).get("features"@) == Some(JsonView::Array(fs)),
{
    reveal_strlit("type");
    reveal_strlit("features");
    assert("type"@.len() == 4 && "features"@.len() == 8);
    assert(keys(no_entries()) =~= Seq::empty());
    let e0 = no_entries();
    lemma_put(e0, "type"@, str_json("FeatureCollection"@));
    lemma_put(put(e0, "type"@, str_json("FeatureCollection"@)), "features"@, JsonView::Array(fs));
}

/// A found feature that can be shown is shown, with all that is known of it.
pub proof fn a_hit_is_shown_as_it_is(h: HitView)
    requires
        ascending(keys(h.node.properties)),
    ensures
        hit_out(h) is Some <==> has_place(h.node),
        hit_out(h) matches Some(f) ==> shows_hit(f, h),
{
    if let Some(f) = hit_out(h) {
        reveal_strlit("layer");
        reveal_strlit("geometry");
        reveal_strlit("distance_m");
        assert("layer"@.len() == 5 && "geometry"@.len() == 8 && "distance_m"@.len() == 10);
        let g = node_geometry_out(h.node)->0;
        let layer = str_json(opt_text_or(h.node.subtype));
        lemma_without(h.node.properties, "geometry"@);
        let e0 = without(h.node.properties, "geometry"@);
        lemma_put(e0, "layer"@, layer);
        let e1 = put(e0, "layer"@, layer);
        let e2 = match h.distance {
            Some(d) => put(e1, "distance_m"@, d),
            None => e1,
        };
        if let Some(d) = h.distance {
            lemma_put(e1, "distance_m"@, d);
        }
        lemma_feature_out(h.node.id, e2, g);
        assert(is_feature_for(f, h.node, e2));
        assert(tells_hit(e2, h));
    }
}

proof fn lemma_hits_out(hits: Seq<HitView>)
    requires
        forall|i: int| 0 <= i < hits.len() ==> ascending(keys((#[trigger] hits[i]).node.properties)),
    ensures
        ({
            let with = hits.filter(|h: HitView| has_place(h.node));
            &&& hits_out(hits).len() == with.len()
            &&& forall|i: int|
                0 <= i < with.len() ==> shows_hit(#[trigger] hits_out(hits)[i], with[i])
        }),
    decreases hits.len(),
{
    reveal(Seq::filter);
    let p = |h: HitView| has_place(h.node);
    if hits.len() > 0 {
        let d = hits.drop_last();
        assert forall|i: int| 0 <= i < d.len() implies ascending(
            keys((#[trigger] d[i]).node.properties),
        ) by {
            assert(ascending(keys(hits[i].node.properties)));
        }
        lemma_hits_out(d);
        assert(ascending(keys(hits[hits.len() - 1].node.properties)));
        a_hit_is_shown_as_it_is(hits.last());
        let with = hits.filter(p);
        assert forall|i: int| 0 <= i < with.len() implies shows_hit(
            #[trigger] hits_out(hits)[i],
            with[i],
        ) by {
            if i < d.filter(p).len() {
                assert(shows_hit(hits_out(d)[i], d.filter(p)[i]));
            }
        }
    }
}

/// The first items of a list.
pub open spec fn first_of<T>(items: Seq<T>, n: int) -> Seq<T> {
    items.take(if n < items.len() {
        n
    } else {
        items.len() as int
    })
}

/// A reply to a query shows, in order, each of the first kept features up to the limit that can be
/// shown, none of them left out; it shows none where only counts are asked for.
pub proof fn a_reply_shows_the_first_features(q: QueryView, hits: Seq<HitView>)
    requires
        forall|i: int| 0 <= i < hits.len() ==> ascending(keys((#[trigger] hits[i]).node.properties)),
    ensures
        ({
            let with = first_of(hits, q.limit as int).filter(|h: HitView| has_place(h.node));
            let fs = reply_features(reply_out(q, hits));
            &&& q.output == "count"@ ==> fs == Some(Seq::<JsonView>::empty())
            &&& q.output != "count"@ ==> fs is Some && fs->0.len() == with.len() && forall|i: int|
                0 <= i < with.len() ==> shows_hit(#[trigger] fs->0[i], with[i])
        }),
{
    lemma_reply_out(q, hits);
    let shown = limited(hits, q.limit as int);
    assert(shown =~= first_of(hits, q.limit as int));
    assert forall|i: int| 0 <= i < shown.len() implies ascending(
        keys((#[trigger] shown[i]).node.properties),
    ) by {
        assert(ascending(keys(hits[i].node.properties)));
    }
    lemma_hits_out(shown);
    lemma_collection_out(
        if q.output == "count"@ {
            Seq::empty()
        } else {
            hits_out(shown)
        },
    );
}

/// Where every kept feature can be shown, a reply shows as many as the limit lets it, the i-th for
/// the i-th.
pub proof fn no_hit_is_left_out(q: QueryView, hits: Seq<HitView>)
    requires
        q.output != "count"@,
        forall|i: int|
            0 <= i < hits.len() ==> ascending(keys((#[trigger] hits[i]).node.properties))
                && has_place(hits[i].node),
    ensures
        reply_features(reply_out(q, hits)) matches Some(fs) && fs.len() == (if hits.len()
            < q.limit {
            hits.len() as int
        } else {
            q.limit as int
        }) && forall|i: int| 0 <= i < fs.len() ==> shows_hit(#[trigger] fs[i], hits[i]),
{
    a_reply_shows_the_first_features(q, hits);
    let shown = first_of(hits, q.limit as int);
    assert forall|i: int| 0 <= i < shown.len() implies has_place((#[trigger] shown[i]).node) by {
        assert(has_place(hits[i].node));
    }
    lemma_all_have_place(shown);
}

proof fn lemma_all_have_place(hits: Seq<HitView>)
    requires
        forall|i: int| 0 <= i < hits.len() ==> has_place((#[trigger] hits[i]).node),
    ensures
        hits.filter(|h: HitView| has_place(h.node)) == hits,
    decreases hits.len(),
{
    reveal(Seq::filter);
    if hits.len() > 0 {
        let d = hits.drop_last();
        assert forall|i: int| 0 <= i < d.len() implies has_place((#[trigger] d[i]).node) by {
            assert(has_place(hits[i].node));
        }
        lemma_all_have_place(d);
        assert(has_place(hits[hits.len() - 1].node));
        assert(d.push(hits.last()) =~= hits);
    }
}

/// The features that a reply shows.
pub open spec fn reply_features(reply: JsonView) -> Option<Seq<JsonView>> {
    match reply.get("features"@) {
        Some(c) => match c.get("features"@) {
            Some(JsonView::Array(fs)) => Some(fs),
            _ => None,
        },
        None => None,
    }
}

proof fn lemma_reply_out(q: QueryView, hits: Seq<HitView>)
    ensures
        reply_out(q, hits).get("query"@) == Some(query_out(q)),
        reply_out(q, hits).get("total"@) == Some(int_json(hits.len() as int)),
        reply_out(q, hits).get("truncated"@) == Some(JsonView::Bool(hits.len() > q.limit)),
        reply_out(q, hits).get("by_class"@) == Some(
            JsonView::Object(counts_out(hit_classes(hits))),
        ),
        reply_out(q, hits).get("features"@) == Some(
            collection_out(
                if q.output == "count"@ {
                    Seq::empty()
                } else {
                    hits_out(limited(hits, q.limit as int))
                },
            ),
        ),
{
    reveal_strlit("query");
    reveal_strlit("total");
    reveal_strlit("truncated");
    reveal_strlit("by_class");
    reveal_strlit("features");
    assert("query"@.len() == 5 && "total"@.len() == 5 && "truncated"@.len() == 9
        && "by_class"@.len() == 8 && "features"@.len() == 8);
    assert("query"@[0] == 'q' && "total"@[0] == 't' && "by_class"@[0] == 'b' && "features"@[0]
        == 'f');
    assert(keys(no_entries()) =~= Seq::empty());
    let shown = if q.output == "count"@ {
        Seq::empty()
    } else {
        hits_out(limited(hits, q.limit as int))
    };
    let e0 = no_entries();
    lemma_put(e0, "query"@, query_out(q));
    let e1 = put(e0, "query"@, query_out(q));
    lemma_put(e1, "total"@, int_json(hits.len() as int));
    let e2 = put(e1, "total"@, int_json(hits.len() as int));
    lemma_put(e2, "truncated"@, JsonView::Bool(hits.len() > q.limit));
    let e3 = put(e2, "truncated"@, JsonView::Bool(hits.len() > q.limit));
    lemma_put(e3, "by_class"@, JsonView::Object(counts_out(hit_classes(hits))));
    let e4 = put(e3, "by_class"@, JsonView::Object(counts_out(hit_classes(hits))));
    lemma_put(e4, "features"@, collection_out(shown));
}

/// A reply counts every kept feature, those beyond the limit too, says whether there are such,
/// and counts them by class: a class stands there with the number of kept features that have it,
/// and with none it does not stand there.
pub proof fn a_reply_counts_every_feature(q: QueryView, hits: Seq<HitView>, class: Seq<char>)
    requires
        hits.len() <= u64::MAX,
    ensures
        reply_out(q, hits).get("total"@) == Some(int_json(hits.len() as int)),
        reply_out(q, hits).get("truncated"@) == Some(JsonView::Bool(hits.len() > q.limit)),
        ({
            let n = hits.filter(
                |h: HitView|
                    lookup(h.node.properties, "FOLDERPATH"@) == Some(JsonView::Str(class)),
            ).len();
            reply_out(q, hits).get("by_class"@) matches Some(m) && m.get(class) == (if n > 0 {
                Some(int_json(n as int))
            } else {
                None
            })
        }),
{
    lemma_reply_out(q, hits);
    hit_classes_are_counted(hits, class);
    lemma_of_class(hits, class);
    lemma_mapped(hit_classes(hits), |n: u64| int_json(n as int), class, 0u64);
}

proof fn lemma_of_class(hits: Seq<HitView>, class: Seq<char>)
    ensures
        hits_of_class(hits, class) == hits.filter(
            |h: HitView| lookup(h.node.properties, "FOLDERPATH"@) == Some(JsonView::Str(class)),
        ).len(),
    decreases hits.len(),
{
    reveal(Seq::filter);
    if hits.len() > 0 {
        lemma_of_class(hits.drop_last(), class);
    }
}

/// A reply repeats the query: the predicate, the layers, the classes, the limit and the output.
pub proof fn a_reply_repeats_the_query(q: QueryView, hits: Seq<HitView>)
    ensures
        reply_out(q, hits).get("query"@) matches Some(j) && j.text_at("predicate"@) == Some(
            q.predicate,
        ) && j.get("limit"@) == Some(int_json(q.limit as int)) && j.text_at("output"@) == Some(
            q.output,
        ) && is_list_of(j.get("layers"@), q.layers) && is_list_of(j.get("classes"@), q.classes),
{
    lemma_reply_out(q, hits);
    reveal_strlit("predicate");
    reveal_strlit("layers");
    reveal_strlit("classes");
    reveal_strlit("limit");
    reveal_strlit("output");
    assert("predicate"@.len() == 9 && "layers"@.len() == 6 && "classes"@.len() == 7
        && "limit"@.len() == 5 && "output"@.len() == 6);
    assert("layers"@[0] == 'l' && "output"@[0] == 'o');
    assert(keys(no_entries()) =~= Seq::empty());
    let ls = crate::datasources::actor::texts_out(q.layers);
    let cs = crate::datasources::actor::texts_out(q.classes);
    let e0 = no_entries();
    lemma_put(e0, "predicate"@, str_json(q.predicate));
    let e1 = put(e0, "predicate"@, str_json(q.predicate));
    lemma_put(e1, "layers"@, ls);
    let e2 = put(e1, "layers"@, ls);
    lemma_put(e2, "classes"@, cs);
    let e3 = put(e2, "classes"@, cs);
    lemma_put(e3, "limit"@, int_json(q.limit as int));
    let e4 = put(e3, "limit"@, int_json(q.limit as int));
    lemma_put(e4, "output"@, str_json(q.output));
}

/// A list of texts.
pub open spec fn is_list_of(j: Option<JsonView>, ts: Seq<Seq<char>>) -> bool {
    j matches Some(JsonView::Array(a)) && a.len() == ts.len() && forall|i: int|
        0 <= i < a.len() ==> #[trigger] a[i] == JsonView::Str(ts[i])
}

// ---------------------------------------------------------------------------
// Asking the store
// ---------------------------------------------------------------------------

/// A query around other features, and one that names no layers, asks the store once, about all
/// layers; any other asks about each of its layers, in order.
pub proof fn every_layer_is_asked_about(q: QueryView)
    ensures
        q.region is Near || q.layers.len() == 0 ==> asked_layers(q) == seq![None::<Seq<char>>],
        !(q.region is Near) && q.layers.len() > 0 ==> asked_layers(q).len() == q.layers.len()
            && forall|i: int|
            0 <= i < q.layers.len() ==> #[trigger] asked_layers(q)[i] == Some(q.layers[i]),
{
}

/// The store is asked for as many features as the reply may show, and for more where some of them
/// will be filtered out.
pub proof fn the_store_is_asked_for_enough(q: QueryView)
    ensures
        q.limit <= 20_000 ==> fetch_limit(q) >= q.limit,
        (q.classes.len() > 0 || q.attributes.len() > 0) ==> fetch_limit(q) >= 2_000,
        q.classes.len() == 0 && q.attributes.len() == 0 && q.limit <= 20_000 ==> fetch_limit(q)
            == q.limit,
        q.region is Near ==> fetch_limit(q) <= 20_000,
{
}

proof fn lemma_gathered(answers: Seq<Seq<HitView>>)
    ensures
        gathered(answers) == answers.flatten(),
    decreases answers.len(),
{
    if answers.len() > 0 {
        assert(answers.drop_first() =~= answers.skip(1));
        lemma_gathered(answers.skip(1));
    } else {
        assert(gathered(answers) =~= answers.flatten());
    }
}

/// What a query replies, once the store has answered each of its questions, is made from all the
/// answers, one after the other; where the query came from a language model the reply also says
/// so.
pub proof fn a_query_replies_from_all_answers(q: QueryView, answers: Seq<Seq<HitView>>)
    requires
        answers.len() == asked_layers(q).len(),
    ensures
        carried_out(QueryRunView::begin(q, FinishView::Plain), answers) == reply_out(
            q,
            answers.flatten().filter(|h: HitView| asked_for(q, h)),
        ),
{
    query_gathers_every_layer(q, FinishView::Plain, answers);
    lemma_gathered(answers);
    a_query_keeps_what_it_asks_for(q, answers.flatten());
}

// ---------------------------------------------------------------------------
// Searching by meaning
// ---------------------------------------------------------------------------

/// Whether a search is for a found node: a layer where layers are searched and a feature
/// otherwise, and of the layer, where one is given.
pub open spec fn searched_for(
    n: NodeView,
    scope: Seq<char>,
    layer: Option<Seq<char>>,
) -> bool {
    &&& scope == "Layer"@ ==> n.node_type == "Layer"@
    &&& scope != "Layer"@ ==> n.node_type == "Feature"@
    &&& layer is Some ==> n.subtype == layer
}

/// A search keeps exactly the found nodes that it is for; without a layer that is every node of
/// the kind that is searched.
pub proof fn a_search_keeps_what_it_is_for(
    found: Seq<ScoredView>,
    scope: Seq<char>,
    layer: Option<Seq<char>>,
)
    ensures
        scoped(found, scope, layer) == found.filter(
            |h: ScoredView| searched_for(h.node, scope, layer),
        ),
    decreases found.len(),
{
    reveal(Seq::filter);
    if found.len() > 0 {
        a_search_keeps_what_it_is_for(found.drop_last(), scope, layer);
    } else {
        assert(scoped(found, scope, layer) =~= found.filter(
            |h: ScoredView| searched_for(h.node, scope, layer),
        ));
    }
}

/// A search without a layer keeps a found node exactly where it is of the kind that is searched.
pub proof fn a_search_without_a_layer_keeps_every_node(
    found: Seq<ScoredView>,
    scope: Seq<char>,
    i: int,
)
    requires
        0 <= i < found.len(),
    ensures
        scope != "Layer"@ ==> (scoped(found, scope, None).contains(found[i])
            <==> found[i].node.node_type == "Feature"@),
        scope == "Layer"@ ==> (scoped(found, scope, None).contains(found[i])
            <==> found[i].node.node_type == "Layer"@),
{
    a_search_keeps_what_it_is_for(found, scope, None);
    let p = |h: ScoredView| searched_for(h.node, scope, None);
    if p(found[i]) {
        found.lemma_filter_contains(p, i);
    }
    if scoped(found, scope, None).contains(found[i]) {
        let kept = found.filter(p);
        let k = choose|k: int| 0 <= k < kept.len() && kept[k] == found[i];
        found.lemma_filter_pred(p, k);
    }
}

/// Whether nodes stand in order of similarity, the most similar first: each of them once, and
/// nodes that are equally similar as they were found.
pub open spec fn is_ranking(kept: Seq<ScoredView>, ranked: Seq<ScoredView>, order: Seq<int>) -> bool {
    &&& ranked.len() == kept.len()
    &&& order.len() == kept.len()
    &&& forall|a: int|
        0 <= a < order.len() ==> 0 <= #[trigger] order[a] < kept.len() && ranked[a]
            == kept[order[a]]
    &&& forall|i: int| 0 <= i < kept.len() ==> #[trigger] order.contains(i)
    &&& forall|a: int, b: int|
        0 <= a < b < order.len() ==> {
            ||| rank(kept[#[trigger] order[a]].similarity) > rank(
                kept[#[trigger] order[b]].similarity,
            )
            ||| rank(kept[order[a]].similarity) == rank(kept[order[b]].similarity) && order[a]
                < order[b]
        }
}

/// A search ranks what it keeps by similarity.
pub proof fn a_search_ranks_by_similarity(kept: Seq<ScoredView>) -> (order: Seq<int>)
    ensures
        is_ranking(kept, by_similarity(kept), order),
{
    let ks = similarity_keys(kept);
    order_is_stable(ks);
    let order = order_of(ks);
    crate::text::text_lt_irreflexive(""@);
    assert forall|a: int, b: int| 0 <= a < b < order.len() implies {
        ||| rank(kept[#[trigger] order[a]].similarity) > rank(kept[#[trigger] order[b]].similarity)
        ||| rank(kept[order[a]].similarity) == rank(kept[order[b]].similarity) && order[a]
            < order[b]
    } by {
        assert(crate::order::comes_before(ks, order[a], order[b]));
    }
    order
}

/// The nodes have different ids.
pub open spec fn ids_apart(kept: Seq<ScoredView>) -> bool {
    forall|i: int, j: int|
        0 <= i < j < kept.len() ==> (#[trigger] kept[i]).node.id != (#[trigger] kept[j]).node.id
}

proof fn lemma_node_with(kept: Seq<ScoredView>, i: int)
    requires
        ids_apart(kept),
        0 <= i < kept.len(),
    ensures
        node_with(kept, kept[i].node.id) == kept[i].node,
    decreases kept.len(),
{
    if i > 0 {
        assert(kept[0].node.id != kept[i].node.id);
        let d = kept.drop_first();
        assert forall|a: int, b: int| 0 <= a < b < d.len() implies (#[trigger] d[a]).node.id != (
        #[trigger] d[b]).node.id by {
            assert(kept[a + 1].node.id != kept[b + 1].node.id);
        }
        lemma_node_with(d, i - 1);
        assert(d[i - 1] == kept[i]);
    }
}

/// What a search says of a feature: its attributes, without the geometry, with its layer and its
/// similarity.
pub open spec fn tells_match(properties: Entries, h: ScoredView) -> bool {
    &&& lookup(properties, "layer"@) == Some(JsonView::Str(opt_text_or(h.node.subtype)))
    &&& lookup(properties, "similarity"@) == Some(real_json(h.similarity))
    &&& lookup(properties, "geometry"@) is None
    &&& forall|k: Seq<char>|
        k != "layer"@ && k != "geometry"@ && k != "similarity"@ ==> #[trigger] lookup(
            properties,
            k,
        ) == lookup(h.node.properties, k)
}

/// Everything that a search says of a feature.
pub open spec fn shows_match(f: JsonView, h: ScoredView) -> bool {
    exists|e: Entries| #[trigger] is_feature_for(f, h.node, e) && tells_match(e, h)
}

/// What a search says of a layer.
pub open spec fn shows_layer(j: JsonView, h: ScoredView) -> bool {
    &&& j.text_at("id"@) == Some(h.node.id)
    &&& j.text_at("name"@) == Some(h.node.name)
    &&& j.get("similarity"@) == Some(real_json(h.similarity))
    &&& j.text_at("display_name"@) == Some(opt_text_or(h.node.text_at("display_name"@)))
}

proof fn lemma_scored_feature(h: ScoredView)
    requires
        ascending(keys(h.node.properties)),
    ensures
        scored_feature_out(h.node, h.similarity) is Some <==> has_place(h.node),
        scored_feature_out(h.node, h.similarity) matches Some(f) ==> shows_match(f, h),
{
    if let Some(f) = scored_feature_out(h.node, h.similarity) {
        reveal_strlit("layer");
        reveal_strlit("geometry");
        reveal_strlit("similarity");
        assert("layer"@.len() == 5 && "geometry"@.len() == 8 && "similarity"@.len() == 10);
        let g = node_geometry_out(h.node)->0;
        let layer = str_json(opt_text_or(h.node.subtype));
        lemma_without(h.node.properties, "geometry"@);
        let e0 = without(h.node.properties, "geometry"@);
        lemma_put(e0, "similarity"@, real_json(h.similarity));
        let e1 = put(e0, "similarity"@, real_json(h.similarity));
        lemma_put(e1, "layer"@, layer);
        let e2 = put(e1, "layer"@, layer);
        lemma_feature_out(h.node.id, e2, g);
        assert(is_feature_for(f, h.node, e2));
        assert(tells_match(e2, h));
    }
}

proof fn lemma_scored_layer(h: ScoredView)
    ensures
        shows_layer(scored_layer_out(h.node, h.similarity), h),
{
    reveal_strlit("id");
    reveal_strlit("name");
    reveal_strlit("display_name");
    reveal_strlit("similarity");
    assert("id"@.len() == 2 && "name"@.len() == 4 && "display_name"@.len() == 12
        && "similarity"@.len() == 10);
    assert(keys(no_entries()) =~= Seq::empty());
    let shown = str_json(opt_text_or(h.node.text_at("display_name"@)));
    let e0 = no_entries();
    lemma_put(e0, "id"@, str_json(h.node.id));
    let e1 = put(e0, "id"@, str_json(h.node.id));
    lemma_put(e1, "name"@, str_json(h.node.name));
    let e2 = put(e1, "name"@, str_json(h.node.name));
    lemma_put(e2, "display_name"@, shown);
    let e3 = put(e2, "display_name"@, shown);
    lemma_put(e3, "similarity"@, real_json(h.similarity));
}

proof fn lemma_scored_out(kept: Seq<ScoredView>, shown: Seq<ScoredView>, layers: bool)
    requires
        ids_apart(kept),
        forall|i: int|
            0 <= i < shown.len() ==> kept.contains(#[trigger] shown[i]) && ascending(
                keys(shown[i].node.properties),
            ),
    ensures
        layers ==> scored_out(kept, shown, layers).len() == shown.len() && forall|i: int|
            0 <= i < shown.len() ==> shows_layer(
                #[trigger] scored_out(kept, shown, layers)[i],
                shown[i],
            ),
        !layers ==> ({
            let with = shown.filter(|h: ScoredView| has_place(h.node));
            &&& scored_out(kept, shown, layers).len() == with.len()
            &&& forall|i: int|
                0 <= i < with.len() ==> shows_match(
                    #[trigger] scored_out(kept, shown, layers)[i],
                    with[i],
                )
        }),
    decreases shown.len(),
{
    reveal(Seq::filter);
    let p = |h: ScoredView| has_place(h.node);
    if shown.len() > 0 {
        let d = shown.drop_last();
        assert forall|i: int| 0 <= i < d.len() implies kept.contains(#[trigger] d[i]) && ascending(
            keys(d[i].node.properties),
        ) by {
            assert(kept.contains(shown[i]) && ascending(keys(shown[i].node.properties)));
        }
        lemma_scored_out(kept, d, layers);
        let h = shown.last();
        assert(kept.contains(shown[shown.len() - 1]) && ascending(
            keys(shown[shown.len() - 1].node.properties),
        ));
        let k = choose|k: int| 0 <= k < kept.len() && kept[k] == h;
        lemma_node_with(kept, k);
        lemma_scored_feature(h);
        lemma_scored_layer(h);
        let out = scored_out(kept, shown, layers);
        let before = scored_out(kept, d, layers);
        if layers {
            assert forall|i: int| 0 <= i < shown.len() implies shows_layer(
                #[trigger] out[i],
                shown[i],
            ) by {
                if i < d.len() {
                    assert(shows_layer(before[i], d[i]));
                }
            }
        } else {
            let with = shown.filter(p);
            assert forall|i: int| 0 <= i < with.len() implies shows_match(
                #[trigger] out[i],
                with[i],
            ) by {
                if i < d.filter(p).len() {
                    assert(shows_match(before[i], d.filter(p)[i]));
                }
            }
        }
    }
}

/// A search counts every node that it keeps and shows the most similar ones up to the limit, the
/// most similar first: features where features are searched, of those each that can be shown, and
/// layers where layers are searched.
pub proof fn a_search_shows_the_most_similar(
    text: Seq<char>,
    scope: Seq<char>,
    layer: Option<Seq<char>>,
    limit: int,
    found: Seq<ScoredView>,
)
    requires
        limit >= 0,
        ids_apart(found.filter(|h: ScoredView| searched_for(h.node, scope, layer))),
        forall|i: int|
            0 <= i < found.len() ==> ascending(keys((#[trigger] found[i]).node.properties)),
    ensures
        ({
            let kept = found.filter(|h: ScoredView| searched_for(h.node, scope, layer));
            let shown = first_of(by_similarity(kept), limit);
            let with = shown.filter(|h: ScoredView| has_place(h.node));
            let r = semantic_out(text, scope, layer, limit, found);
            &&& r.text_at("query"@) == Some(text)
            &&& r.get("total"@) == Some(int_json(kept.len() as int))
            &&& scope == "Layer"@ ==> r.get("layers"@) is Some && r.get("layers"@)->0 is Array
                && r.get("layers"@)->0->Array_0.len() == shown.len() && forall|i: int|
                0 <= i < shown.len() ==> shows_layer(
                    #[trigger] r.get("layers"@)->0->Array_0[i],
                    shown[i],
                )
            &&& scope != "Layer"@ ==> reply_features(r) is Some && reply_features(r)->0.len()
                == with.len() && forall|i: int|
                0 <= i < with.len() ==> shows_match(#[trigger] reply_features(r)->0[i], with[i])
        }),
{
    reveal_strlit("query");
    reveal_strlit("total");
    reveal_strlit("layers");
    reveal_strlit("features");
    assert("query"@.len() == 5 && "total"@.len() == 5 && "layers"@.len() == 6
        && "features"@.len() == 8);
    assert("query"@[0] == 'q' && "total"@[0] == 't');
    assert(keys(no_entries()) =~= Seq::empty());
    a_search_keeps_what_it_is_for(found, scope, layer);
    let p = |h: ScoredView| searched_for(h.node, scope, layer);
    let kept = scoped(found, scope, layer);
    let ranked = by_similarity(kept);
    let order = a_search_ranks_by_similarity(kept);
    let shown = limited(ranked, limit);
    assert(shown =~= first_of(ranked, limit));
    assert forall|i: int| 0 <= i < shown.len() implies kept.contains(#[trigger] shown[i])
        && ascending(keys(shown[i].node.properties)) by {
        let h = kept[order[i]];
        assert(shown[i] == h);
        found.lemma_filter_contains_rev(p, h);
        let k = choose|k: int| 0 <= k < found.len() && found[k] == h;
        assert(ascending(keys(found[k].node.properties)));
    }
    let layers = scope == "Layer"@;
    lemma_scored_out(kept, shown, layers);
    let out = scored_out(kept, shown, layers);
    lemma_collection_out(out);
    let e0 = no_entries();
    lemma_put(e0, "query"@, str_json(text));
    let e1 = put(e0, "query"@, str_json(text));
    lemma_put(e1, "total"@, int_json(kept.len() as int));
    let e2 = put(e1, "total"@, int_json(kept.len() as int));
    lemma_put(e2, "layers"@, JsonView::Array(out));
    lemma_put(e2, "features"@, collection_out(out));
}

} // verus!
