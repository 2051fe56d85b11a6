//! Embedding: which texts are embedded, under which ids the vectors are written, and what is
//! counted as a token.

use vstd::prelude::*;

#[allow(unused_imports)]
use crate::actors::embedding::{
    flat, paired, run_keeps_every_vector, search_texts, RunView, StepView,
};
#[allow(unused_imports)]
use crate::actors::layer_embedding::{
    embedded_in, every_feature_is_embedded, written_in, FlowEventView, FlowView,
};
#[allow(unused_imports)]
use crate::hash_embedder::{bucket, bucket_count, cleaned, compacted, fnv, tokens_of};
#[allow(unused_imports)]
use crate::laws::merging::lemma_flatten_push;
#[allow(unused_imports)]
use crate::models::{search_text, NodeView};
#[allow(unused_imports)]
use crate::tasks::FailureView;
#[allow(unused_imports)]
use crate::text::{alphanumeric, lowercase, pieces};

verus! {

// ---------------------------------------------------------------------------
// Batches
// ---------------------------------------------------------------------------

/// A batch takes the next nodes, sixty-four of them or what is left, and embeds the search text of
/// each, in order.
pub proof fn a_batch_takes_the_next_nodes<T>(run: RunView<T>)
    requires
        run.wf(),
        run.writes.len() == 0,
        run.from < run.nodes.len(),
    ensures
        run.step() matches StepView::Embed(ts) && ts.len() == (if run.nodes.len() - run.from < 64 {
            run.nodes.len() - run.from
        } else {
            64
        }) && forall|k: int|
            0 <= k < ts.len() ==> #[trigger] ts[k] == search_text(run.nodes[run.from + k]),
{
    let b = run.batch();
    assert forall|k: int| 0 <= k < b.len() implies #[trigger] search_texts(b)[k] == search_text(
        run.nodes[run.from + k],
    ) by {
        assert(b[k] == run.nodes[run.from + k]);
    }
}

/// The vectors of a batch go, in order, with the ids of its nodes, and the next batch starts behind
/// it.
pub proof fn vectors_go_with_their_nodes<T>(run: RunView<T>, vectors: Seq<T>)
    requires
        run.wf(),
        run.from < run.nodes.len(),
        vectors.len() == run.batch().len(),
    ensures
        run.with_vectors(vectors).from == run.from + vectors.len(),
        run.with_vectors(vectors).embedded == run.embedded + vectors.len(),
        ({
            let old = run.unwritten();
            let new = run.with_vectors(vectors).unwritten();
            &&& new.len() == old.len() + vectors.len()
            &&& forall|k: int| 0 <= k < old.len() ==> #[trigger] new[k] == old[k]
            &&& forall|k: int|
                0 <= k < vectors.len() ==> new[old.len() + k] == (
                    run.nodes[run.from + k].id,
                    #[trigger] vectors[k],
                )
        }),
{
    run_keeps_every_vector(run, vectors);
    let b = run.batch();
    let items = paired(b, vectors);
    let old = run.unwritten();
    let new = run.with_vectors(vectors).unwritten();
    assert forall|k: int| 0 <= k < vectors.len() implies new[old.len() + k] == (
        run.nodes[run.from + k].id,
        #[trigger] vectors[k],
    ) by {
        assert(new[old.len() + k] == items[k]);
        assert(b[k] == run.nodes[run.from + k]);
    }
}

/// What waits to be written is what is due, one collection after the other, and then the rest.
pub proof fn what_waits_is_due_or_rest<T>(run: RunView<T>)
    ensures
        run.unwritten() == run.writes.flatten() + run.rest,
{
    lemma_flat(run.writes);
}

proof fn lemma_flat<X>(ws: Seq<Seq<X>>)
    ensures
        flat(ws) == ws.flatten(),
    decreases ws.len(),
{
    if ws.len() > 0 {
        lemma_flat(ws.drop_last());
        lemma_flatten_push(ws);
    } else {
        assert(flat(ws) =~= ws.flatten());
    }
}

/// A run first writes what is due, then embeds, then writes what is left, and says at the end how
/// many vectors came in.
pub proof fn a_run_writes_what_is_due<T>(run: RunView<T>)
    requires
        run.wf(),
    ensures
        run.writes.len() > 0 ==> run.step() == StepView::Write(run.writes[0])
            && run.after_step().writes == run.writes.skip(1) && run.after_step().rest == run.rest,
        run.writes.len() == 0 && run.from == run.nodes.len() && run.rest.len() > 0 ==> run.step()
            == StepView::Write(run.rest) && run.after_step().rest.len() == 0,
        run.writes.len() == 0 && run.from == run.nodes.len() && run.rest.len() == 0 ==> run.step()
            == StepView::<T>::Done(run.embedded),
{
}

/// Once a layer is embedded, every one of its features has had its search text embedded, and the
/// vector that came for it written under its id, in order.
pub proof fn each_feature_gets_its_vector<T>(nodes: Seq<NodeView>, all: Seq<T>)
    requires
        nodes.len() > 0,
        all.len() == nodes.len(),
    ensures
        ({
            let steps = FlowView::<T>::Index(nodes).served(all);
            &&& embedded_in(steps).len() == nodes.len()
            &&& forall|i: int|
                0 <= i < nodes.len() ==> #[trigger] embedded_in(steps)[i] == search_text(nodes[i])
            &&& written_in(steps).len() == nodes.len()
            &&& forall|i: int|
                0 <= i < nodes.len() ==> #[trigger] written_in(steps)[i] == (nodes[i].id, all[i])
        }),
{
    every_feature_is_embedded(nodes, all);
}

/// The embedding of a layer ends where the features cannot be had or there are none, where the
/// index or a write can no longer be asked for, and where vectors fail to come; a write or an
/// index that is refused does not end it, nor does what happens to the indexes afterwards.
pub proof fn failures_that_end_an_embedding<T>(
    layer: Seq<char>,
    nodes: Seq<NodeView>,
    run: RunView<T>,
    f: FailureView,
    e: Seq<char>,
)
    ensures
        FlowView::<T>::Nodes(layer).go_on(FlowEventView::Nodes(Err(f))).1 is Stop,
        FlowView::<T>::Nodes(layer).go_on(FlowEventView::Nodes(Ok(Seq::empty()))).1 is Stop,
        nodes.len() > 0 ==> FlowView::<T>::Nodes(layer).go_on(FlowEventView::Nodes(Ok(nodes))).1
            is EnsureIndex,
        FlowView::<T>::Index(nodes).go_on(FlowEventView::Done(Err(FailureView::Gone(e)))).1
            is Stop,
        FlowView::<T>::Index(nodes).go_on(FlowEventView::Done(Err(FailureView::Refused(e))))
            == FlowView::<T>::Index(nodes).go_on(FlowEventView::Done(Ok(()))),
        FlowView::<T>::Index(nodes).go_on(FlowEventView::Done(Err(FailureView::Lost(e))))
            == FlowView::<T>::Index(nodes).go_on(FlowEventView::Done(Ok(()))),
        FlowView::Vectors(run).go_on(FlowEventView::Vectors(Err(f))).1 is Stop,
        FlowView::Written(run).go_on(FlowEventView::Done(Err(FailureView::Gone(e)))).1 is Stop,
        FlowView::Written(run).go_on(FlowEventView::Done(Err(FailureView::Refused(e))))
            == FlowView::Written(run).go_on(FlowEventView::Done(Ok(()))),
        FlowView::Written(run).go_on(FlowEventView::Done(Err(FailureView::Lost(e))))
            == FlowView::Written(run).go_on(FlowEventView::Done(Ok(()))),
        FlowView::<T>::Rebuilt.go_on(FlowEventView::Done(Err(f))).1 is Sync,
        FlowView::<T>::Rebuilt.go_on(FlowEventView::Done(Ok(()))).1 is Sync,
        FlowView::<T>::Synced.go_on(FlowEventView::Done(Ok(()))).1 is Stop,
{
}

// ---------------------------------------------------------------------------
// Tokens
// ---------------------------------------------------------------------------

proof fn lemma_compacted(s: Seq<char>)
    ensures
        compacted(s) == s.filter(|c: char| c != ' '),
    decreases s.len(),
{
    reveal(Seq::filter);
    if s.len() > 0 {
        lemma_compacted(s.drop_last());
    } else {
        assert(compacted(s) =~= s.filter(|c: char| c != ' '));
    }
}

/// A text in lower case with a space for each character that is no letter and no digit.
pub open spec fn is_cleaned(text: Seq<char>, c: Seq<char>) -> bool {
    let low = lowercase(text);
    c.len() == low.len() && forall|i: int|
        0 <= i < c.len() ==> #[trigger] c[i] == (if alphanumeric(low[i]) {
            low[i]
        } else {
            ' '
        })
}

/// How many runs of `k` neighbours there are among `n` things.
pub open spec fn neighbours(n: nat, k: nat) -> nat {
    if n < k {
        0
    } else {
        (n - k + 1) as nat
    }
}

/// The tokens of a text are its words, every two neighbours among them, and every two and every
/// three neighbours among its letters, each as often as it occurs, in this order.
pub proof fn tokens_are_words_and_neighbours(text: Seq<char>, c: Seq<char>)
    requires
        is_cleaned(text, c),
    ensures
        ({
            let words = pieces(c, ' ');
            let letters = c.filter(|x: char| x != ' ');
            let pairs = neighbours(words.len(), 2);
            let twos = neighbours(letters.len(), 2);
            let threes = neighbours(letters.len(), 3);
            let second = words.len() + pairs;
            let third = second + twos;
            let ts = tokens_of(text);
            &&& ts.len() == third + threes
            &&& forall|i: int| 0 <= i < words.len() ==> #[trigger] ts[i] == words[i]
            &&& forall|i: int|
                words.len() <= i < second ==> #[trigger] ts[i] == words[i - words.len()] + " "@
                    + words[i - words.len() + 1]
            &&& forall|i: int|
                second <= i < third ==> #[trigger] ts[i] == letters.subrange(
                    i - second,
                    i - second + 2,
                )
            &&& forall|i: int|
                third <= i < ts.len() ==> #[trigger] ts[i] == letters.subrange(
                    i - third,
                    i - third + 3,
                )
        }),
{
    assert(c =~= cleaned(text));
    lemma_compacted(c);
}

/// A bucket holds the number of tokens that fall into it.
pub proof fn buckets_count_their_tokens(tokens: Seq<Seq<char>>, dim: nat, b: int)
    ensures
        bucket_count(tokens, dim, b) == tokens.filter(
            |t: Seq<char>| fnv(t) as int % dim as int == b,
        ).len(),
    decreases tokens.len(),
{
    reveal(Seq::filter);
    if tokens.len() > 0 {
        buckets_count_their_tokens(tokens.drop_last(), dim, b);
    }
}

} // verus!
