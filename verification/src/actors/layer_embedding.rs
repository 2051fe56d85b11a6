//! Embedding the features of a layer once it is imported: the vector index is registered, the
//! features are embedded and written in batches, the indexes are rebuilt and the store is made to
//! last. It is done as far as that can be: without an embedder it ends quietly.

use vstd::prelude::*;

use crate::actors::embedding::{EmbedRun, EmbedStep};
use crate::models::AttrNode;
use crate::tasks::Failure;
#[allow(unused_imports)]
use crate::actors::embedding::{
    batch_end_of, collected, collecting_loses_nothing, items_view, paired,
    run_keeps_every_vector, search_texts, RunView, StepView, TEXTS_PER_BATCH, VECTORS_PER_WRITE,
};
#[allow(unused_imports)]
use crate::models::{nodes_view, NodeView};
#[allow(unused_imports)]
use crate::tasks::FailureView;
#[allow(unused_imports)]
use crate::text::texts;

verus! {

// ---------------------------------------------------------------------------
// The model
// ---------------------------------------------------------------------------

/// What the embedding of a layer waits for.
pub enum FlowView<T> {
    /// The features of the layer.
    Nodes(Seq<char>),
    /// The vector index, for these features.
    Index(Seq<NodeView>),
    /// The vectors of a batch.
    Vectors(RunView<T>),
    /// A batch of vectors to be written.
    Written(RunView<T>),
    Rebuilt,
    Synced,
    /// Nothing; it is over.
    Over,
}

/// What is asked for next.
pub enum FlowStepView<T> {
    /// The features of a layer.
    Nodes(Seq<char>),
    EnsureIndex,
    Embed(Seq<Seq<char>>),
    Write(Seq<(Seq<char>, T)>),
    RebuildIndexes,
    Sync,
    Stop,
}

/// What comes back.
pub enum FlowEventView<T> {
    Nodes(Result<Seq<NodeView>, FailureView>),
    Vectors(Result<Seq<T>, FailureView>),
    Done(Result<(), FailureView>),
}

/// A run over features that has not begun.
pub open spec fn fresh_run<T>(nodes: Seq<NodeView>) -> RunView<T> {
    RunView::<T> {
        nodes,
        carry: true,
        from: 0,
        writes: Seq::empty(),
        rest: Seq::empty(),
        embedded: 0,
    }
}

/// How it goes on with a run: as the run asks, and once nothing is left, with the indexes.
pub open spec fn proceed<T>(run: RunView<T>) -> (FlowView<T>, FlowStepView<T>) {
    match run.step() {
        StepView::Embed(t) => (FlowView::Vectors(run.after_step()), FlowStepView::Embed(t)),
        StepView::Write(w) => (FlowView::Written(run.after_step()), FlowStepView::Write(w)),
        StepView::Done(_) => (FlowView::Rebuilt, FlowStepView::RebuildIndexes),
    }
}

pub open spec fn stop<T>() -> (FlowView<T>, FlowStepView<T>) {
    (FlowView::Over, FlowStepView::Stop)
}

/// The store can no longer be asked.
pub open spec fn is_gone(r: Result<(), FailureView>) -> bool {
    r matches Err(f) && f is Gone
}

impl<T> FlowView<T> {
    /// How it goes on with what came back. Where there are no vectors, or the store is gone,
    /// nothing more is asked for; an index that cannot be made or a batch that is refused does not
    /// end it.
    pub open spec fn go_on(self, e: FlowEventView<T>) -> (FlowView<T>, FlowStepView<T>) {
        match (self, e) {
            (FlowView::Nodes(_), FlowEventView::Nodes(Ok(nodes))) => if nodes.len() > 0 {
                (FlowView::Index(nodes), FlowStepView::EnsureIndex)
            } else {
                stop()
            },
            (FlowView::Index(nodes), FlowEventView::Done(r)) => if is_gone(r) {
                stop()
            } else {
                proceed(fresh_run(nodes))
            },
            (FlowView::Vectors(run), FlowEventView::Vectors(Ok(vectors))) => proceed(
                run.with_vectors(vectors),
            ),
            (FlowView::Written(run), FlowEventView::Done(r)) => if is_gone(r) {
                stop()
            } else {
                proceed(run)
            },
            (FlowView::Rebuilt, FlowEventView::Done(_)) => (FlowView::Synced, FlowStepView::Sync),
            _ => stop(),
        }
    }
}

// ---------------------------------------------------------------------------
// The flow
// ---------------------------------------------------------------------------

enum Waiting<T> {
    Nodes(String),
    Index(Vec<AttrNode>),
    Vectors(EmbedRun<T>),
    Written(EmbedRun<T>),
    Rebuilt,
    Synced,
    Over,
}

/// The embedding of a layer under way.
pub struct LayerEmbedding<T> {
    waiting: Waiting<T>,
}

impl<T> View for LayerEmbedding<T> {
    type V = FlowView<T>;

    closed spec fn view(&self) -> FlowView<T> {
        match self.waiting {
            Waiting::Nodes(layer) => FlowView::Nodes(layer@),
            Waiting::Index(nodes) => FlowView::Index(nodes_view(nodes@)),
            Waiting::Vectors(run) => FlowView::Vectors(run@),
            Waiting::Written(run) => FlowView::Written(run@),
            Waiting::Rebuilt => FlowView::Rebuilt,
            Waiting::Synced => FlowView::Synced,
            Waiting::Over => FlowView::Over,
        }
    }
}

/// What is asked for next.
pub enum FlowStep<T> {
    /// The features of a layer.
    Nodes(String),
    /// The vector index is registered.
    EnsureIndex,
    /// These texts are embedded.
    Embed(Vec<String>),
    /// These vectors are written.
    Write(Vec<(String, T)>),
    RebuildIndexes,
    /// All that was written is made to last.
    Sync,
    /// Nothing more.
    Stop,
}

impl<T> View for FlowStep<T> {
    type V = FlowStepView<T>;

    open spec fn view(&self) -> FlowStepView<T> {
        match self {
            FlowStep::Nodes(layer) => FlowStepView::Nodes(layer@),
            FlowStep::EnsureIndex => FlowStepView::EnsureIndex,
            FlowStep::Embed(t) => FlowStepView::Embed(texts(t@)),
            FlowStep::Write(w) => FlowStepView::Write(items_view(w@)),
            FlowStep::RebuildIndexes => FlowStepView::RebuildIndexes,
            FlowStep::Sync => FlowStepView::Sync,
            FlowStep::Stop => FlowStepView::Stop,
        }
    }
}

/// What comes back.
pub enum FlowEvent<T> {
    Nodes(Result<Vec<AttrNode>, Failure>),
    Vectors(Result<Vec<T>, Failure>),
    Done(Result<(), Failure>),
}

impl<T> View for FlowEvent<T> {
    type V = FlowEventView<T>;

    open spec fn view(&self) -> FlowEventView<T> {
        match self {
            FlowEvent::Nodes(Ok(nodes)) => FlowEventView::Nodes(Ok(nodes_view(nodes@))),
            FlowEvent::Nodes(Err(f)) => FlowEventView::Nodes(Err(f@)),
            FlowEvent::Vectors(Ok(vectors)) => FlowEventView::Vectors(Ok(vectors@)),
            FlowEvent::Vectors(Err(f)) => FlowEventView::Vectors(Err(f@)),
            FlowEvent::Done(Ok(_)) => FlowEventView::Done(Ok(())),
            FlowEvent::Done(Err(f)) => FlowEventView::Done(Err(f@)),
        }
    }
}

fn go_ahead<T>(run: EmbedRun<T>) -> (r: (LayerEmbedding<T>, FlowStep<T>))
    ensures
        (r.0@, r.1@) == proceed(run@),
{
    let (next, step) = run.next();
    match step {
        EmbedStep::Embed(t) => (
            LayerEmbedding { waiting: Waiting::Vectors(next) },
            FlowStep::Embed(t),
        ),
        EmbedStep::Write(w) => (
            LayerEmbedding { waiting: Waiting::Written(next) },
            FlowStep::Write(w),
        ),
        EmbedStep::Done(_) => (
            LayerEmbedding { waiting: Waiting::Rebuilt },
            FlowStep::RebuildIndexes,
        ),
    }
}

fn end<T>() -> (r: (LayerEmbedding<T>, FlowStep<T>))
    ensures
        (r.0@, r.1@) == stop::<T>(),
{
    (LayerEmbedding { waiting: Waiting::Over }, FlowStep::Stop)
}

impl<T> LayerEmbedding<T> {
    /// Begins with the features of a layer.
    pub fn start(layer: &str) -> (r: (LayerEmbedding<T>, FlowStep<T>))
        ensures
            r.0@ == FlowView::<T>::Nodes(layer@),
            r.1@ == FlowStepView::<T>::Nodes(layer@),
    {
        (
            LayerEmbedding { waiting: Waiting::Nodes(layer.to_owned()) },
            FlowStep::Nodes(layer.to_owned()),
        )
    }

    /// Goes on with what came back.
    pub fn supply(self, event: FlowEvent<T>) -> (r: (LayerEmbedding<T>, FlowStep<T>))
        ensures
            (r.0@, r.1@) == self@.go_on(event@),
    {
        match (self.waiting, event) {
            (Waiting::Nodes(_), FlowEvent::Nodes(Ok(nodes))) => {
                proof {
                    assert(nodes_view(nodes@).len() == nodes@.len());
                }
                if nodes.len() > 0 {
                    (
                        LayerEmbedding { waiting: Waiting::Index(nodes) },
                        FlowStep::EnsureIndex,
                    )
                } else {
                    end()
                }
            },
            (Waiting::Index(nodes), FlowEvent::Done(r)) => match r {
                Err(Failure::Gone(_)) => end(),
                _ => go_ahead(EmbedRun::new(nodes, true)),
            },
            (Waiting::Vectors(run), FlowEvent::Vectors(Ok(vectors))) => go_ahead(
                run.supply(vectors),
            ),
            (Waiting::Written(run), FlowEvent::Done(r)) => match r {
                Err(Failure::Gone(_)) => end(),
                _ => go_ahead(run),
            },
            (Waiting::Rebuilt, FlowEvent::Done(_)) => (
                LayerEmbedding { waiting: Waiting::Synced },
                FlowStep::Sync,
            ),
            _ => end(),
        }
    }
}

// ---------------------------------------------------------------------------
// What the flow keeps to
// ---------------------------------------------------------------------------

/// The first thing after the index is a batch of texts, and where they are not embedded it is
/// over: without an embedder nothing is ever written.
pub proof fn no_embedder_writes_nothing<T>(
    nodes: Seq<NodeView>,
    made: Result<(), FailureView>,
    f: FailureView,
)
    requires
        nodes.len() > 0,
        !is_gone(made),
    ensures
        FlowView::<T>::Index(nodes).go_on(FlowEventView::Done(made)).1 is Embed,
        FlowView::<T>::Index(nodes).go_on(FlowEventView::Done(made)).0.go_on(
            FlowEventView::Vectors(Err(f)),
        ) == stop::<T>(),
{
}

impl<T> FlowView<T> {
    pub open spec fn wf(self) -> bool {
        match self {
            FlowView::Index(nodes) => nodes.len() > 0,
            FlowView::Vectors(run) => run.wf() && run.from < run.nodes.len() && run.writes.len()
                == 0,
            FlowView::Written(run) => run.wf(),
            _ => true,
        }
    }

    /// How many phases are left.
    pub open spec fn phases(self) -> nat {
        match self {
            FlowView::Nodes(_) => 5,
            FlowView::Index(_) => 4,
            FlowView::Vectors(_) => 3,
            FlowView::Written(_) => 3,
            FlowView::Rebuilt => 2,
            FlowView::Synced => 1,
            FlowView::Over => 0,
        }
    }

    /// How many features are left to embed.
    pub open spec fn features_left(self) -> int {
        match self {
            FlowView::Vectors(run) => run.nodes.len() - run.from,
            FlowView::Written(run) => run.nodes.len() - run.from,
            _ => 0,
        }
    }

    /// How many batches are left to write before the next is embedded.
    pub open spec fn writes_left(self) -> nat {
        match self {
            FlowView::Written(run) => run.writes.len() + 1 + if run.rest.len() > 0 {
                1nat
            } else {
                0nat
            },
            _ => 0,
        }
    }

    /// What is asked for from here on where the features have these vectors and all else is done.
    pub open spec fn served(self, all: Seq<T>) -> Seq<FlowStepView<T>>
        decreases self.phases(), self.features_left(), self.writes_left(),
        when self.wf()
    {
        match self {
            FlowView::Nodes(_) => Seq::empty(),
            FlowView::Over => Seq::empty(),
            FlowView::Vectors(run) => {
                let to = batch_end_of(run.from, run.nodes.len() as int);
                let (next, step) = self.go_on(
                    FlowEventView::Vectors(Ok(all.subrange(run.from, to))),
                );
                seq![step] + next.served(all)
            },
            _ => {
                let (next, step) = self.go_on(FlowEventView::Done(Ok(())));
                seq![step] + next.served(all)
            },
        }
    }
}

/// All texts that are embedded, in order.
pub open spec fn embedded_in<T>(steps: Seq<FlowStepView<T>>) -> Seq<Seq<char>>
    decreases steps.len(),
{
    if steps.len() == 0 {
        Seq::empty()
    } else {
        let rest = embedded_in(steps.drop_first());
        match steps[0] {
            FlowStepView::Embed(t) => t + rest,
            _ => rest,
        }
    }
}

/// All vectors that are written, in order.
pub open spec fn written_in<T>(steps: Seq<FlowStepView<T>>) -> Seq<(Seq<char>, T)>
    decreases steps.len(),
{
    if steps.len() == 0 {
        Seq::empty()
    } else {
        let rest = written_in(steps.drop_first());
        match steps[0] {
            FlowStepView::Write(w) => w + rest,
            _ => rest,
        }
    }
}

/// A step embeds or writes a batch of the size that is allowed.
pub open spec fn is_batch<T>(step: FlowStepView<T>) -> bool {
    match step {
        FlowStepView::Embed(t) => 0 < t.len() <= TEXTS_PER_BATCH,
        FlowStepView::Write(w) => 0 < w.len() <= VECTORS_PER_WRITE,
        _ => false,
    }
}

/// Steps that embed and write in batches, then rebuild the indexes and make the store last.
pub open spec fn is_embedding<T>(steps: Seq<FlowStepView<T>>) -> bool {
    let n = steps.len() - 3;
    &&& n >= 0
    &&& forall|i: int| 0 <= i < n ==> is_batch(#[trigger] steps[i])
    &&& steps[n] is RebuildIndexes
    &&& steps[n + 1] is Sync
    &&& steps[n + 2] is Stop
}

/// What a run has collected fits into batches.
spec fn fits<T>(run: RunView<T>) -> bool {
    &&& run.wf()
    &&& run.carry
    &&& forall|k: int|
        0 <= k < run.writes.len() ==> 0 < (#[trigger] run.writes[k]).len() <= VECTORS_PER_WRITE
}

proof fn lemma_first<T>(step: FlowStepView<T>, rest: Seq<FlowStepView<T>>)
    ensures
        embedded_in(seq![step] + rest) == match step {
            FlowStepView::Embed(t) => t + embedded_in(rest),
            _ => embedded_in(rest),
        },
        written_in(seq![step] + rest) == match step {
            FlowStepView::Write(w) => w + written_in(rest),
            _ => written_in(rest),
        },
        is_batch(step) && is_embedding(rest) ==> is_embedding(seq![step] + rest),
{
    let all = seq![step] + rest;
    assert(all.drop_first() =~= rest);
    if is_batch(step) && is_embedding(rest) {
        let n = all.len() - 3;
        assert forall|i: int| 0 <= i < n implies is_batch(#[trigger] all[i]) by {
            if i > 0 {
                assert(all[i] == rest[i - 1]);
            }
        }
    }
}

/// The pairs of nodes and vectors, in two parts.
proof fn lemma_paired_split<T>(nodes: Seq<NodeView>, all: Seq<T>, from: int, to: int)
    requires
        0 <= from <= to <= nodes.len(),
        all.len() == nodes.len(),
    ensures
        paired(nodes.skip(from), all.skip(from)) == paired(
            nodes.subrange(from, to),
            all.subrange(from, to),
        ) + paired(nodes.skip(to), all.skip(to)),
        search_texts(nodes.skip(from)) == search_texts(nodes.subrange(from, to)) + search_texts(
            nodes.skip(to),
        ),
{
    assert(paired(nodes.skip(from), all.skip(from)) =~= paired(
        nodes.subrange(from, to),
        all.subrange(from, to),
    ) + paired(nodes.skip(to), all.skip(to)));
    assert(search_texts(nodes.skip(from)) =~= search_texts(nodes.subrange(from, to))
        + search_texts(nodes.skip(to)));
}

proof fn lemma_run_served<T>(run: RunView<T>, all: Seq<T>)
    requires
        fits(run),
        all.len() == run.nodes.len(),
    ensures
        ({
            let (next, step) = proceed(run);
            let steps = seq![step] + next.served(all);
            &&& embedded_in(steps) == search_texts(run.nodes.skip(run.from))
            &&& written_in(steps) == run.unwritten() + paired(
                run.nodes.skip(run.from),
                all.skip(run.from),
            )
            &&& is_embedding(steps)
        }),
    decreases
            run.nodes.len() - run.from,
            run.writes.len() + if run.rest.len() > 0 {
                1nat
            } else {
                0nat
            },
{
    let (next, step) = proceed(run);
    let rest = next.served(all);
    let from = run.from;
    let nodes = run.nodes;
    let n = nodes.len() as int;
    lemma_first(step, rest);
    match run.step() {
        StepView::Embed(t) => {
            let to = batch_end_of(from, n);
            let vectors = all.subrange(from, to);
            let after = run.with_vectors(vectors);
            run_keeps_every_vector(run, vectors);
            lemma_supplied_fits(run, vectors);
            lemma_run_served(after, all);
            lemma_paired_split(nodes, all, from, to);
            let (n2, s2) = proceed(after);
            assert(rest == seq![s2] + n2.served(all));
            assert(run.batch() == nodes.subrange(from, to));
            assert(search_texts(run.batch()).len() == to - from);
            assert(run.unwritten() + paired(nodes.skip(from), all.skip(from)) =~= (run.unwritten()
                + paired(run.batch(), vectors)) + paired(nodes.skip(to), all.skip(to)));
        },
        StepView::Write(w) => {
            let after = run.after_step();
            run_keeps_every_vector(run, Seq::empty());
            assert(fits(after)) by {
                assert forall|k: int| 0 <= k < after.writes.len() implies 0 < (
                #[trigger] after.writes[k]).len() <= VECTORS_PER_WRITE by {
                    assert(after.writes[k] == run.writes[k + 1]);
                }
            }
            assert(is_batch(step)) by {
                if run.writes.len() > 0 {
                    assert(w == run.writes[0]);
                }
            }
            lemma_run_served(after, all);
            let (n2, s2) = proceed(after);
            assert(rest == seq![s2] + n2.served(all));
            let more = paired(nodes.skip(from), all.skip(from));
            assert(run.unwritten() + more =~= w + (after.unwritten() + more));
        },
        StepView::Done(_) => {
            run_keeps_every_vector(run, Seq::empty());
            assert(next is Rebuilt);
            let over = FlowView::<T>::Over;
            let synced = FlowView::<T>::Synced;
            assert(over.served(all) =~= Seq::empty());
            assert(synced.served(all) =~= seq![FlowStepView::<T>::Stop]);
            assert(rest =~= seq![FlowStepView::<T>::Sync, FlowStepView::<T>::Stop]);
            let steps = seq![step] + rest;
            assert(steps =~= seq![
                FlowStepView::<T>::RebuildIndexes,
                FlowStepView::<T>::Sync,
                FlowStepView::<T>::Stop,
            ]);
            reveal_with_fuel(embedded_in, 4);
            reveal_with_fuel(written_in, 4);
            assert(nodes.skip(from).len() == 0);
            assert(embedded_in(steps) =~= search_texts(nodes.skip(from)));
            assert(written_in(steps) =~= run.unwritten() + paired(
                nodes.skip(from),
                all.skip(from),
            ));
        },
    }
}

proof fn lemma_supplied_fits<T>(run: RunView<T>, vectors: Seq<T>)
    requires
        fits(run),
    ensures
        fits(run.with_vectors(vectors)),
{
    run_keeps_every_vector(run, vectors);
    let items = paired(run.batch(), vectors);
    collecting_loses_nothing(run.rest, items);
    let after = run.with_vectors(vectors);
    let due = collected(run.rest, items).0;
    assert forall|k: int| 0 <= k < after.writes.len() implies 0 < (
    #[trigger] after.writes[k]).len() <= VECTORS_PER_WRITE by {
        if k < run.writes.len() {
            assert(after.writes[k] == run.writes[k]);
        } else {
            assert(after.writes[k] == due[k - run.writes.len()]);
        }
    }
}

/// Once the index is there, the search texts of all features are embedded in order and in batches,
/// each feature's vector is written once under its id, in order and in batches, and at the end the
/// indexes are rebuilt and the store is made to last.
pub proof fn every_feature_is_embedded<T>(nodes: Seq<NodeView>, all: Seq<T>)
    requires
        nodes.len() > 0,
        all.len() == nodes.len(),
    ensures
        is_embedding(FlowView::<T>::Index(nodes).served(all)),
        embedded_in(FlowView::<T>::Index(nodes).served(all)) == search_texts(nodes),
        written_in(FlowView::<T>::Index(nodes).served(all)) == paired(nodes, all),
{
    let run = fresh_run::<T>(nodes);
    lemma_run_served(run, all);
    assert(nodes.skip(0) =~= nodes);
    assert(all.skip(0) =~= all);
    assert(run.unwritten() + paired(nodes, all) =~= paired(nodes, all));
    let (next, step) = proceed(run);
    assert(FlowView::<T>::Index(nodes).served(all) == seq![step] + next.served(all));
}

} // verus!
