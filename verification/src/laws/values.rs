//! Values and tables: what a JSON value reads as, how a text is hashed, what a service's failure is
//! called, and how the stack of layers is renumbered.

use vstd::prelude::*;
#[allow(unused_imports)]
use vstd::utf8::encode_utf8;

#[allow(unused_imports)]
use crate::actors::layer::{
    lemma_position, lemma_position_first, moving_swaps_neighbours, position_of, reordering, stacked,
    z_of, z_updates,
};
#[allow(unused_imports)]
use crate::datasources::data_gov_sg::{poll_outcome, polls_again, url_in};
#[allow(unused_imports)]
use crate::hash_embedder::{fnv, fnv_bytes};
#[allow(unused_imports)]
use crate::json::{int_json, JsonView, NumberView};
#[allow(unused_imports)]
use crate::models::NodeView;
#[allow(unused_imports)]
use crate::tasks::{complaint, FailureView, TaskView};

verus! {

// ---------------------------------------------------------------------------
// JSON values
// ---------------------------------------------------------------------------

/// A value reads as what it is and as nothing else.
pub proof fn values_read_as_what_they_are(
    s: Seq<char>,
    b: bool,
    a: Seq<JsonView>,
    e: Seq<(Seq<char>, JsonView)>,
    n: NumberView,
)
    ensures
        JsonView::Str(s).as_str() == Some(s),
        JsonView::Bool(b).as_bool() == Some(b),
        JsonView::Array(a).as_array() == Some(a),
        JsonView::Object(e).as_object() == Some(e),
        JsonView::Number(n).as_str() is None && JsonView::Number(n).as_bool() is None
            && JsonView::Number(n).as_array() is None && JsonView::Number(n).as_object() is None,
        JsonView::Str(s).as_u64() is None && JsonView::Str(s).as_real() is None
            && JsonView::Str(s).as_i64() is None && JsonView::Str(s).as_bool() is None,
        JsonView::Null.as_str() is None && JsonView::Null.as_bool() is None
            && JsonView::Null.as_u64() is None && JsonView::Null.as_real() is None
            && JsonView::Null.as_array() is None && JsonView::Null.as_object() is None,
        JsonView::Bool(b).as_str() is None && JsonView::Bool(b).as_u64() is None,
{
}

/// An integer is read back from the number that is written for it.
pub proof fn integers_are_read_back(n: int)
    requires
        i64::MIN <= n <= u64::MAX,
    ensures
        n >= 0 ==> int_json(n).as_u64() == Some(n as u64),
        n < 0 ==> int_json(n).as_u64() is None,
        n <= i64::MAX ==> int_json(n).as_i64() == Some(n as i64),
        n > i64::MAX ==> int_json(n).as_i64() is None,
{
}

// ---------------------------------------------------------------------------
// Hashes
// ---------------------------------------------------------------------------

/// Each byte of a text is joined to the hash of the bytes before it, and the product with the
/// prime 1099511628211 taken modulo `2^64`; the hash of nothing is 14695981039346656037.
pub proof fn a_text_is_hashed_byte_by_byte(s: Seq<char>, bytes: Seq<u8>, b: u8)
    ensures
        fnv_bytes(Seq::empty()) == 14695981039346656037u64,
        fnv_bytes(bytes.push(b)) == ((fnv_bytes(bytes) ^ b as u64) * 1099511628211)
            % 0x1_0000_0000_0000_0000,
        fnv(s) == fnv_bytes(encode_utf8(s)),
{
    assert(bytes.push(b).drop_last() =~= bytes);
}

// ---------------------------------------------------------------------------
// The stack of layers
// ---------------------------------------------------------------------------

/// The layers that are renumbered are those whose number is not their place in the stack, in the
/// order of the stack, and each gets its place.
pub proof fn layers_get_their_places(nodes: Seq<NodeView>)
    ensures
        z_updates(nodes) == Seq::new(nodes.len(), |i: int| i).filter(
            |i: int| z_of(nodes[i]) != i,
        ).map_values(|i: int| (nodes[i].id, i as u64)),
{
    lemma_places(nodes, nodes.len());
    assert(nodes.take(nodes.len() as int) =~= nodes);
}

proof fn lemma_places(nodes: Seq<NodeView>, n: nat)
    requires
        n <= nodes.len(),
    ensures
        z_updates(nodes.take(n as int)) == Seq::new(n, |i: int| i).filter(
            |i: int| z_of(nodes[i]) != i,
        ).map_values(|i: int| (nodes[i].id, i as u64)),
    decreases n,
{
    reveal(Seq::filter);
    let t = nodes.take(n as int);
    let all = Seq::new(n, |i: int| i);
    let p = |i: int| z_of(nodes[i]) != i;
    let f = |i: int| (nodes[i].id, i as u64);
    if n > 0 {
        let m = (n - 1) as nat;
        lemma_places(nodes, m);
        assert(t.drop_last() =~= nodes.take(m as int));
        assert(all.drop_last() =~= Seq::new(m, |i: int| i));
        assert(t.last() == nodes[m as int]);
        assert(all.last() == m);
        assert(all.filter(p).map_values(f) =~= z_updates(t));
    } else {
        assert(z_updates(t) =~= all.filter(p).map_values(f));
    }
}

/// A layer that is moved up trades places with the one above it, and one that is moved down with
/// the one below; at the end of the stack it stays. The layers are renumbered in the new order.
pub proof fn a_moved_layer_trades_places(layers: Seq<NodeView>, id: Seq<char>, pos: int)
    requires
        0 <= pos < stacked(layers).len(),
        stacked(layers)[pos].id == id,
        forall|i: int| 0 <= i < pos ==> (#[trigger] stacked(layers)[i]).id != id,
    ensures
        ({
            let nodes = stacked(layers);
            &&& reordering(layers, id, "up"@) == Ok::<Seq<(Seq<char>, u64)>, Seq<char>>(
                z_updates(
                    if pos + 1 < nodes.len() {
                        nodes.update(pos, nodes[pos + 1]).update(pos + 1, nodes[pos])
                    } else {
                        nodes
                    },
                ),
            )
            &&& reordering(layers, id, "down"@) == Ok::<Seq<(Seq<char>, u64)>, Seq<char>>(
                z_updates(
                    if pos > 0 {
                        nodes.update(pos, nodes[pos - 1]).update(pos - 1, nodes[pos])
                    } else {
                        nodes
                    },
                ),
            )
        }),
{
    let nodes = stacked(layers);
    reveal_strlit("up");
    reveal_strlit("down");
    assert("up"@.len() != "down"@.len());
    lemma_position(nodes, id);
    lemma_position_first(nodes, id, pos);
    assert(position_of(nodes, id) == pos);
    if pos + 1 < nodes.len() {
        moving_swaps_neighbours(nodes, pos);
    }
    if pos > 0 {
        moving_swaps_neighbours(nodes, pos - 1);
        assert(nodes.update(pos - 1, nodes[pos]).update(pos, nodes[pos - 1]) =~= nodes.update(
            pos,
            nodes[pos - 1],
        ).update(pos - 1, nodes[pos]));
    }
}

// ---------------------------------------------------------------------------
// Polling
// ---------------------------------------------------------------------------

/// An address is waited for through eight answers and no more, and the first that comes is taken.
pub proof fn eight_answers_are_waited_for(answers: Seq<JsonView>, i: int)
    requires
        0 <= i,
        forall|j: int| 0 <= j < i ==> url_in(#[trigger] answers[j]) is None,
    ensures
        i < 8 && url_in(answers[i]) is Some ==> poll_outcome(answers, 0) == url_in(answers[i]),
        i >= 8 ==> poll_outcome(answers, 0) is None,
        polls_again(i) <==> i < 8,
{
    reveal_with_fuel(poll_outcome, 9);
}

// ---------------------------------------------------------------------------
// Failures
// ---------------------------------------------------------------------------

/// A service that cannot be asked is named: the layers', the import's, the data sources', the
/// tiles' or the language model's, and for everything else the graph's.
pub proof fn a_service_that_is_gone_is_named(t: TaskView, e: Seq<char>)
    ensures
        complaint(t, FailureView::Gone(e)) == (match t {
            TaskView::ListLayers => "layer"@,
            TaskView::DeleteLayer => "layer"@,
            TaskView::ReorderLayer => "layer"@,
            TaskView::Catalog => "layer"@,
            TaskView::MergeLayer => "import"@,
            TaskView::Import => "import"@,
            TaskView::SourceKinds => "datasource"@,
            TaskView::SourceList => "datasource"@,
            TaskView::SourceGet => "datasource"@,
            TaskView::SourceAdd => "datasource"@,
            TaskView::SourceUpdate => "datasource"@,
            TaskView::SourceDelete => "datasource"@,
            TaskView::SourceDiscover => "datasource"@,
            TaskView::SourceFetch => "datasource"@,
            TaskView::Tile => "tile"@,
            TaskView::Completion => "llm"@,
            TaskView::Transaction => "txn"@,
            _ => "graph"@,
        }) + (if t is Transaction {
            " stream gone: "@
        } else {
            " actor gone: "@
        }) + e,
{
    reveal_strlit("layer");
    reveal_strlit("import");
    reveal_strlit("datasource");
    reveal_strlit("tile");
    reveal_strlit("llm");
    reveal_strlit("txn");
    reveal_strlit("graph");
    reveal_strlit(" actor gone: ");
    reveal_strlit(" stream gone: ");
    reveal_strlit("layer actor gone: ");
    reveal_strlit("import actor gone: ");
    reveal_strlit("datasource actor gone: ");
    reveal_strlit("tile actor gone: ");
    reveal_strlit("llm actor gone: ");
    reveal_strlit("txn stream gone: ");
    reveal_strlit("graph actor gone: ");
    assert("layer"@ + " actor gone: "@ =~= "layer actor gone: "@);
    assert("import"@ + " actor gone: "@ =~= "import actor gone: "@);
    assert("datasource"@ + " actor gone: "@ =~= "datasource actor gone: "@);
    assert("tile"@ + " actor gone: "@ =~= "tile actor gone: "@);
    assert("llm"@ + " actor gone: "@ =~= "llm actor gone: "@);
    assert("txn"@ + " stream gone: "@ =~= "txn stream gone: "@);
    assert("graph"@ + " actor gone: "@ =~= "graph actor gone: "@);
}

/// A refusal tells what was asked for: the thing that a request is about is named in it.
pub proof fn a_refusal_names_what_was_asked_for(x: Seq<char>, e: Seq<char>)
    ensures
        complaint(TaskView::LayerNodes(x), FailureView::Refused(e)) == "query layer '"@ + x
            + "': "@ + e,
        complaint(TaskView::Nodes(x), FailureView::Refused(e)) == "query "@ + x + ": "@ + e,
        complaint(TaskView::StoredNodes(x), FailureView::Refused(e)) == "query '"@ + x
            + "' failed: "@ + e,
        complaint(TaskView::SourceNodes(x), FailureView::Refused(e)) == "query '"@ + x + "': "@
            + e,
        complaint(TaskView::SourceNode(x), FailureView::Refused(e)) == "get '"@ + x + "': "@ + e,
        complaint(TaskView::DropNode(x), FailureView::Refused(e)) == "delete "@ + x
            + " failed: "@ + e,
        complaint(TaskView::Import, FailureView::Refused(e)) == "import failed: "@ + e,
        complaint(TaskView::ListLayers, FailureView::Refused(e)) == "list layers failed: "@ + e,
        complaint(TaskView::Completion, FailureView::Refused(e)) == "llm error: "@ + e,
        complaint(TaskView::Feature, FailureView::Refused(e)) == "get-feature failed: "@ + e,
        complaint(TaskView::Region, FailureView::Refused(e)) == "spatial query: "@ + e,
        complaint(TaskView::Search, FailureView::Refused(e)) == "semantic search: "@ + e,
        complaint(TaskView::StoreNode, FailureView::Refused(e)) == "store failed: "@ + e,
{
}

} // verus!
