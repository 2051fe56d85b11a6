//! Reading and writing data source definitions in the graph: which nodes are read, deleted and
//! stored.

use vstd::prelude::*;

use crate::datasources::codec::{
    datasource_from_nodes, datasource_to_node, prop_str, schema_to_nodes,
};
use crate::datasources::DataSource;
use crate::models::AttrNode;
use crate::text::same_text;
#[allow(unused_imports)]
use crate::actors::layer::{ids_differ, lists_type, without_nodes};
#[allow(unused_imports)]
use crate::datasources::codec::{
    are_schema_nodes, is_attr_node, normal_source, prop_text, read_after_write, schema_entries,
    source_in, source_node, time_kept,
};
#[allow(unused_imports)]
use crate::datasources::SourceView;
#[allow(unused_imports)]
use crate::json::{no_entries, str_json, JsonView};
#[allow(unused_imports)]
use crate::models::{nodes_view, NodeView};
#[allow(unused_imports)]
use crate::stamp::four_digit_year;
#[allow(unused_imports)]
use crate::text::texts;
#[allow(unused_imports)]
use crate::textmap::{keys, lemma_put, put};

verus! {

/// An attribute node belongs to the data source with an id.
pub open spec fn is_own(n: NodeView, id: Seq<char>) -> bool {
    prop_text(n.properties, "source_id"@) == id
}

/// The attribute nodes of a data source.
pub open spec fn own_nodes(nodes: Seq<NodeView>, id: Seq<char>) -> Seq<NodeView>
    decreases nodes.len(),
{
    if nodes.len() == 0 {
        Seq::empty()
    } else if is_own(nodes.last(), id) {
        own_nodes(nodes.drop_last(), id).push(nodes.last())
    } else {
        own_nodes(nodes.drop_last(), id)
    }
}

pub open spec fn ids(nodes: Seq<NodeView>) -> Seq<Seq<char>> {
    nodes.map_values(|n: NodeView| n.id)
}

fn collect_own(nodes: &Vec<AttrNode>, id: &str) -> (r: Vec<AttrNode>)
    ensures
        nodes_view(r@) == own_nodes(nodes_view(nodes@), id@),
{
    let n = nodes.len();
    let ghost ns = nodes_view(nodes@);
    let mut out: Vec<AttrNode> = Vec::new();
    let mut i: usize = 0;
    proof {
        assert(nodes_view(out@) =~= own_nodes(ns.take(0), id@));
    }
    while i < n
        invariant
            i <= n,
            n == nodes@.len(),
            ns == nodes_view(nodes@),
            nodes_view(out@) == own_nodes(ns.take(i as int), id@),
        decreases n - i,
    {
        proof {
            assert(ns.take(i + 1).drop_last() =~= ns.take(i as int));
            assert(ns.take(i + 1).last() == nodes@[i as int]@);
        }
        if same_text(prop_str(&nodes[i].properties, "source_id").as_str(), id) {
            let ghost before = out@;
            out.push(nodes[i].copy());
            proof {
                assert(nodes_view(out@) =~= nodes_view(before).push(nodes@[i as int]@));
            }
        }
        i += 1;
    }
    proof {
        assert(ns.take(n as int) =~= ns);
    }
    out
}

/// All definitions; the first that cannot be read ends the list with its complaint.
pub open spec fn listed(
    sources: Seq<NodeView>,
    attrs: Seq<NodeView>,
) -> Result<Seq<SourceView>, Seq<char>>
    decreases sources.len(),
{
    if sources.len() == 0 {
        Ok(Seq::empty())
    } else {
        match listed(sources.drop_last(), attrs) {
            Err(e) => Err(e),
            Ok(before) => match source_in(
                sources.last(),
                own_nodes(attrs, sources.last().id),
            ) {
                Ok(s) => Ok(before.push(s)),
                Err(e) => Err(e),
            },
        }
    }
}

pub open spec fn sources_view(v: Seq<DataSource>) -> Seq<SourceView> {
    v.map_values(|s: DataSource| s@)
}

proof fn lemma_listed_error(sources: Seq<NodeView>, attrs: Seq<NodeView>, i: int)
    requires
        0 <= i <= sources.len(),
        listed(sources.take(i), attrs) is Err,
    ensures
        listed(sources, attrs) == listed(sources.take(i), attrs),
    decreases sources.len() - i,
{
    if i == sources.len() {
        assert(sources.take(i) =~= sources);
    } else {
        assert(sources.take(i + 1).drop_last() =~= sources.take(i));
        lemma_listed_error(sources, attrs, i + 1);
    }
}

/// Reassembles all definitions from their nodes.
pub fn list(sources: &Vec<AttrNode>, attrs: &Vec<AttrNode>) -> (r: Result<Vec<DataSource>, String>)
    ensures
        match r {
            Ok(v) => listed(nodes_view(sources@), nodes_view(attrs@)) == Ok::<
                Seq<SourceView>,
                Seq<char>,
            >(sources_view(v@)),
            Err(e) => listed(nodes_view(sources@), nodes_view(attrs@)) == Err::<
                Seq<SourceView>,
                Seq<char>,
            >(e@),
        },
{
    let n = sources.len();
    let ghost ss = nodes_view(sources@);
    let ghost aa = nodes_view(attrs@);
    let mut out: Vec<DataSource> = Vec::new();
    let mut i: usize = 0;
    proof {
        assert(sources_view(out@) =~= Seq::empty());
    }
    while i < n
        invariant
            i <= n,
            n == sources@.len(),
            ss == nodes_view(sources@),
            aa == nodes_view(attrs@),
            listed(ss.take(i as int), aa) == Ok::<Seq<SourceView>, Seq<char>>(sources_view(out@)),
        decreases n - i,
    {
        proof {
            assert(ss.take(i + 1).drop_last() =~= ss.take(i as int));
            assert(ss.take(i + 1).last() == sources@[i as int]@);
        }
        let mine = collect_own(attrs, sources[i].id.as_str());
        match datasource_from_nodes(&sources[i], &mine) {
            Ok(s) => {
                let ghost before = out@;
                out.push(s);
                proof {
                    assert(sources_view(out@) =~= sources_view(before).push(s@));
                }
            },
            Err(e) => {
                proof {
                    lemma_listed_error(ss, aa, i + 1);
                }
                return Err(e);
            },
        }
        i += 1;
    }
    proof {
        assert(ss.take(n as int) =~= ss);
    }
    Ok(out)
}

/// The definition with an id, given the node that the store has under it.
pub open spec fn found(
    node: Option<NodeView>,
    attrs: Seq<NodeView>,
    id: Seq<char>,
) -> Result<Option<SourceView>, Seq<char>> {
    match node {
        None => Ok(None),
        Some(n) => match source_in(n, own_nodes(attrs, id)) {
            Ok(s) => Ok(Some(s)),
            Err(e) => Err(e),
        },
    }
}

pub open spec fn opt_node_view(n: Option<AttrNode>) -> Option<NodeView> {
    match n {
        Some(x) => Some(x@),
        None => None,
    }
}

/// The definition with an id, given the node that the store has under it.
pub fn get(node: &Option<AttrNode>, attrs: &Vec<AttrNode>, id: &str) -> (r: Result<
    Option<DataSource>,
    String,
>)
    ensures
        match r {
            Ok(Some(s)) => found(opt_node_view(*node), nodes_view(attrs@), id@) == Ok::<
                Option<SourceView>,
                Seq<char>,
            >(Some(s@)),
            Ok(None) => found(opt_node_view(*node), nodes_view(attrs@), id@) == Ok::<
                Option<SourceView>,
                Seq<char>,
            >(None),
            Err(e) => found(opt_node_view(*node), nodes_view(attrs@), id@) == Err::<
                Option<SourceView>,
                Seq<char>,
            >(e@),
        },
{
    match node {
        None => Ok(None),
        Some(n) => {
            let mine = collect_own(attrs, id);
            match datasource_from_nodes(n, &mine) {
                Ok(s) => Ok(Some(s)),
                Err(e) => Err(e),
            }
        },
    }
}

/// The nodes that are deleted with a definition: its attribute nodes, then the definition.
pub open spec fn removals(attrs: Seq<NodeView>, id: Seq<char>) -> Seq<Seq<char>> {
    ids(own_nodes(attrs, id)).push(id)
}

/// The nodes to delete with a definition.
pub fn delete(attrs: &Vec<AttrNode>, id: &str) -> (r: Vec<String>)
    ensures
        texts(r@) == removals(nodes_view(attrs@), id@),
{
    let mine = collect_own(attrs, id);
    let n = mine.len();
    let mut out: Vec<String> = Vec::new();
    let mut i: usize = 0;
    while i < n
        invariant
            i <= n,
            n == mine@.len(),
            out@.len() == i,
            forall|k: int| 0 <= k < i ==> (#[trigger] out@[k])@ == mine@[k]@.id,
        decreases n - i,
    {
        out.push(mine[i].id.clone());
        i += 1;
    }
    let ghost before = out@;
    out.push(id.to_owned());
    proof {
        assert(texts(before) =~= ids(nodes_view(mine@)));
        assert(texts(out@) =~= texts(before).push(id@));
    }
    out
}

/// What writing a definition does: the nodes that go, then the nodes that come.
#[derive(Debug, PartialEq)]
pub struct Upsert {
    pub delete: Vec<String>,
    pub store: Vec<AttrNode>,
}

/// The nodes that are stored for a definition: its node, then one for each schema attribute.
pub open spec fn are_source_nodes(nodes: Seq<NodeView>, s: SourceView) -> bool {
    &&& nodes.len() > 0
    &&& nodes[0] == source_node(s, nodes[0].created_at, nodes[0].updated_at)
    &&& time_kept(s.created_at, nodes[0].created_at)
    &&& time_kept(s.updated_at, nodes[0].updated_at)
    &&& are_schema_nodes(nodes.skip(1), s)
}

/// Writes a definition under its id: one that is there already is replaced with its attribute
/// nodes. `node` is what the store has under the id.
pub fn upsert(source: &DataSource, node: &Option<AttrNode>, attrs: &Vec<AttrNode>) -> (r: Result<
    Upsert,
    String,
>)
    ensures
        match r {
            Ok(u) => {
                &&& found(opt_node_view(*node), nodes_view(attrs@), source@.id) is Ok
                &&& texts(u.delete@) == (if node is Some {
                    removals(nodes_view(attrs@), source@.id)
                } else {
                    Seq::empty()
                })
                &&& are_source_nodes(nodes_view(u.store@), source@)
            },
            Err(e) => found(opt_node_view(*node), nodes_view(attrs@), source@.id) == Err::<
                Option<SourceView>,
                Seq<char>,
            >(e@),
        },
{
    let old = match get(node, attrs, source.id.as_str()) {
        Ok(o) => o,
        Err(e) => {
            return Err(e);
        },
    };
    let gone = match old {
        Some(_) => delete(attrs, source.id.as_str()),
        None => {
            let none: Vec<String> = Vec::new();
            proof {
                assert(texts(none@) =~= Seq::empty());
            }
            none
        },
    };
    let mut store: Vec<AttrNode> = Vec::new();
    store.push(datasource_to_node(source));
    let mut more = schema_to_nodes(source);
    let ghost m = nodes_view(more@);
    store.append(&mut more);
    proof {
        assert(nodes_view(store@).skip(1) =~= m);
    }
    Ok(Upsert { delete: gone, store })
}

// ---------------------------------------------------------------------------
// What the store keeps
// ---------------------------------------------------------------------------

/// The attribute nodes of other data sources.
pub open spec fn other_nodes(nodes: Seq<NodeView>, id: Seq<char>) -> Seq<NodeView>
    decreases nodes.len(),
{
    if nodes.len() == 0 {
        Seq::empty()
    } else if is_own(nodes.last(), id) {
        other_nodes(nodes.drop_last(), id)
    } else {
        other_nodes(nodes.drop_last(), id).push(nodes.last())
    }
}

proof fn lemma_own_of_others(nodes: Seq<NodeView>, id: Seq<char>)
    ensures
        own_nodes(other_nodes(nodes, id), id) == Seq::<NodeView>::empty(),
    decreases nodes.len(),
{
    if nodes.len() > 0 {
        let d = nodes.drop_last();
        lemma_own_of_others(d, id);
        let o = other_nodes(nodes, id);
        if !is_own(nodes.last(), id) {
            assert(o.drop_last() =~= other_nodes(d, id));
        }
    }
}

proof fn lemma_own_append(a: Seq<NodeView>, b: Seq<NodeView>, id: Seq<char>)
    ensures
        own_nodes(a + b, id) == own_nodes(a, id) + own_nodes(b, id),
    decreases b.len(),
{
    if b.len() == 0 {
        assert(a + b =~= a);
        assert(own_nodes(a, id) + own_nodes(b, id) =~= own_nodes(a, id));
    } else {
        lemma_own_append(a, b.drop_last(), id);
        assert((a + b).drop_last() =~= a + b.drop_last());
        assert((a + b).last() == b.last());
        assert(own_nodes(a + b, id) =~= own_nodes(a, id) + own_nodes(b, id));
    }
}

proof fn lemma_own_all(nodes: Seq<NodeView>, id: Seq<char>)
    requires
        forall|i: int| 0 <= i < nodes.len() ==> is_own(#[trigger] nodes[i], id),
    ensures
        own_nodes(nodes, id) == nodes,
    decreases nodes.len(),
{
    if nodes.len() > 0 {
        let d = nodes.drop_last();
        assert forall|i: int| 0 <= i < d.len() implies is_own(#[trigger] d[i], id) by {
            assert(is_own(nodes[i], id));
        }
        lemma_own_all(d, id);
        assert(is_own(nodes[nodes.len() - 1], id));
        assert(nodes =~= d.push(nodes.last()));
    } else {
        assert(nodes =~= Seq::empty());
    }
}

proof fn lemma_schema_nodes_own(nodes: Seq<NodeView>, s: SourceView)
    requires
        are_schema_nodes(nodes, s),
    ensures
        own_nodes(nodes, s.id) == nodes,
{
    assert forall|i: int| 0 <= i < nodes.len() implies is_own(#[trigger] nodes[i], s.id) by {
        let entry = schema_entries(s)[i];
        assert(is_attr_node(nodes[i], s, entry));
        reveal_strlit("source_id");
        reveal_strlit("data_type");
        assert("source_id"@[0] == 's' && "data_type"@[0] == 'd');
        assert(keys(no_entries()) =~= Seq::empty());
        lemma_put(no_entries(), "source_id"@, str_json(s.id));
        if let JsonView::Str(t) = entry.1 {
            lemma_put(
                put(no_entries(), "source_id"@, str_json(s.id)),
                "data_type"@,
                str_json(t),
            );
        }
    }
    lemma_own_all(nodes, s.id);
}

/// Reading a definition after it was written gives what was written, whatever was stored under
/// its id before; its attribute nodes are exactly the new ones.
pub proof fn get_after_upsert(s: SourceView, attrs: Seq<NodeView>, stored: Seq<NodeView>)
    requires
        normal_source(s),
        are_source_nodes(stored, s),
    ensures
        own_nodes(other_nodes(attrs, s.id) + stored.skip(1), s.id) == stored.skip(1),
        found(Some(stored[0]), other_nodes(attrs, s.id) + stored.skip(1), s.id) == Ok::<
            Option<SourceView>,
            Seq<char>,
        >(
            Some(
                SourceView {
                    created_at: stored[0].created_at,
                    updated_at: stored[0].updated_at,
                    ..s
                },
            ),
        ),
{
    let new = stored.skip(1);
    lemma_own_of_others(attrs, s.id);
    lemma_own_append(other_nodes(attrs, s.id), new, s.id);
    lemma_schema_nodes_own(new, s);
    assert(Seq::<NodeView>::empty() + new =~= new);
    read_after_write(s, stored[0].created_at, stored[0].updated_at, new);
}

/// The definition as it is read back once it is stored: with the times of its node.
pub open spec fn as_stored(s: SourceView, n: NodeView) -> SourceView {
    SourceView { created_at: n.created_at, updated_at: n.updated_at, ..s }
}

/// Writing a definition again as it is read changes nothing: its node is the same, and so is the
/// definition that is read (years of more than four digits aside).
pub proof fn writing_again_changes_nothing(
    s: SourceView,
    attrs: Seq<NodeView>,
    stored: Seq<NodeView>,
    again: Seq<NodeView>,
)
    requires
        normal_source(s),
        are_source_nodes(stored, s),
        are_source_nodes(again, as_stored(s, stored[0])),
        four_digit_year(stored[0].created_at),
        four_digit_year(stored[0].updated_at),
    ensures
        again[0] == stored[0],
        ({
            let before = other_nodes(attrs, s.id) + stored.skip(1);
            let after = other_nodes(before, s.id) + again.skip(1);
            found(Some(again[0]), after, s.id) == found(Some(stored[0]), before, s.id)
        }),
{
    let t = as_stored(s, stored[0]);
    get_after_upsert(s, attrs, stored);
    get_after_upsert(t, other_nodes(attrs, s.id) + stored.skip(1), again);
}

proof fn lemma_listed(sources: Seq<NodeView>, attrs: Seq<NodeView>, k: int)
    requires
        listed(sources, attrs) is Ok,
        0 <= k < sources.len(),
    ensures
        listed(sources, attrs)->Ok_0.len() == sources.len(),
        source_in(sources[k], own_nodes(attrs, sources[k].id)) == Ok::<SourceView, Seq<char>>(
            listed(sources, attrs)->Ok_0[k],
        ),
    decreases sources.len(),
{
    let d = sources.drop_last();
    if k < d.len() {
        lemma_listed(d, attrs, k);
    } else if d.len() > 0 {
        lemma_listed(d, attrs, 0);
    }
}

/// Once a definition is written, a list of all definitions has exactly one under its id, and that
/// is what was written.
pub proof fn one_definition_of_an_id(
    s: SourceView,
    attrs: Seq<NodeView>,
    stored: Seq<NodeView>,
    sources: Seq<NodeView>,
    at: int,
    k: int,
)
    requires
        normal_source(s),
        are_source_nodes(stored, s),
        ids_differ(sources),
        0 <= at < sources.len(),
        sources[at] == stored[0],
        listed(sources, other_nodes(attrs, s.id) + stored.skip(1)) is Ok,
        0 <= k < sources.len(),
    ensures
        ({
            let all = listed(sources, other_nodes(attrs, s.id) + stored.skip(1))->Ok_0;
            &&& all.len() == sources.len()
            &&& all[at] == as_stored(s, stored[0])
            &&& all[k].id == s.id <==> k == at
        }),
{
    let now = other_nodes(attrs, s.id) + stored.skip(1);
    lemma_listed(sources, now, at);
    lemma_listed(sources, now, k);
    get_after_upsert(s, attrs, stored);
    if k < at {
        assert(sources[k].id != sources[at].id);
    } else if at < k {
        assert(sources[at].id != sources[k].id);
    }
}

proof fn lemma_own_nodes(nodes: Seq<NodeView>, id: Seq<char>, x: Seq<char>)
    ensures
        ids(own_nodes(nodes, id)).contains(x) <==> exists|i: int|
            0 <= i < nodes.len() && (#[trigger] nodes[i]).id == x && is_own(nodes[i], id),
    decreases nodes.len(),
{
    if nodes.len() > 0 {
        let d = nodes.drop_last();
        lemma_own_nodes(d, id, x);
        let before = ids(own_nodes(d, id));
        let after = ids(own_nodes(nodes, id));
        if after.contains(x) {
            let k = choose|k: int| 0 <= k < after.len() && after[k] == x;
            if k < before.len() {
                assert(before[k] == x);
                let i = choose|i: int|
                    0 <= i < d.len() && (#[trigger] d[i]).id == x && is_own(d[i], id);
                assert(nodes[i] == d[i]);
            } else {
                assert(nodes[nodes.len() - 1].id == x);
            }
        }
        if exists|i: int|
            0 <= i < nodes.len() && (#[trigger] nodes[i]).id == x && is_own(nodes[i], id) {
            let i = choose|i: int|
                0 <= i < nodes.len() && (#[trigger] nodes[i]).id == x && is_own(nodes[i], id);
            if i < d.len() {
                assert(d[i] == nodes[i]);
                assert(before.contains(x));
                let k = choose|k: int| 0 <= k < before.len() && before[k] == x;
                assert(after[k] == x);
            } else {
                assert(after[after.len() - 1] == x);
            }
        }
    }
}

/// Deleting a definition deletes its attribute nodes with it and nothing else.
pub proof fn delete_cascades(
    graph: Map<Seq<char>, NodeView>,
    attrs: Seq<NodeView>,
    id: Seq<char>,
    x: Seq<char>,
)
    requires
        lists_type(graph, attrs, "DataSourceAttribute"@),
        graph.dom().contains(x),
    ensures
        without_nodes(graph, removals(attrs, id)).dom().contains(x) <==> x != id && !(
        graph[x].node_type == "DataSourceAttribute"@ && is_own(graph[x], id)),
        without_nodes(graph, removals(attrs, id)).dom().contains(x) ==> without_nodes(
            graph,
            removals(attrs, id),
        )[x] == graph[x],
{
    lemma_own_nodes(attrs, id, x);
    let own = ids(own_nodes(attrs, id));
    let all = removals(attrs, id);
    assert(all.contains(x) <==> own.contains(x) || x == id) by {
        if own.contains(x) {
            let k = choose|k: int| 0 <= k < own.len() && own[k] == x;
            assert(all[k] == x);
        }
        if x == id {
            assert(all[all.len() - 1] == x);
        }
        if all.contains(x) {
            let k = choose|k: int| 0 <= k < all.len() && all[k] == x;
            if k < own.len() {
                assert(own[k] == x);
            }
        }
    }
    if graph[x].node_type == "DataSourceAttribute"@ && is_own(graph[x], id) {
        assert(attrs.contains(graph[x]));
        let i = choose|i: int| 0 <= i < attrs.len() && attrs[i] == graph[x];
        assert(attrs[i].id == x);
    }
}

} // verus!
