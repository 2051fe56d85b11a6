//! Embedding nodes in batches: which texts are embedded together, and which vectors are written
//! together.

use vstd::prelude::*;

use crate::models::{node_search_text, AttrNode};
#[allow(unused_imports)]
use crate::models::{nodes_view, search_text, NodeView};
#[allow(unused_imports)]
use crate::text::texts;

verus! {

/// How many texts are embedded at once.
pub const TEXTS_PER_BATCH: usize = 64;

/// How many vectors are collected before they are written.
pub const VECTORS_PER_WRITE: usize = 256;

/// The end of the batch that starts at a node.
pub open spec fn batch_end_of(from: int, n: int) -> int {
    if from + TEXTS_PER_BATCH <= n {
        from + TEXTS_PER_BATCH
    } else {
        n
    }
}

/// The end of the batch that starts at a node.
pub fn batch_end(from: usize, n: usize) -> (r: usize)
    requires
        from <= n,
    ensures
        r == batch_end_of(from as int, n as int),
        from < n ==> from < r <= n,
{
    if n - from >= TEXTS_PER_BATCH {
        from + TEXTS_PER_BATCH
    } else {
        n
    }
}

/// The search texts of nodes.
pub open spec fn search_texts(nodes: Seq<NodeView>) -> Seq<Seq<char>> {
    nodes.map_values(|n: NodeView| search_text(n))
}

/// The search texts of the nodes of a batch.
pub fn batch_texts(nodes: &Vec<AttrNode>, from: usize, to: usize) -> (r: Vec<String>)
    requires
        from <= to <= nodes@.len(),
    ensures
        texts(r@) == search_texts(nodes_view(nodes@).subrange(from as int, to as int)),
{
    let ghost ns = nodes_view(nodes@);
    let mut out: Vec<String> = Vec::new();
    let mut i: usize = from;
    while i < to
        invariant
            from <= i <= to <= nodes@.len(),
            ns == nodes_view(nodes@),
            out@.len() == i - from,
            forall|k: int| 0 <= k < i - from ==> (#[trigger] out@[k])@ == search_text(ns[k + from]),
        decreases to - i,
    {
        out.push(node_search_text(&nodes[i]));
        i += 1;
    }
    proof {
        assert(texts(out@) =~= search_texts(ns.subrange(from as int, to as int)));
    }
    out
}

pub open spec fn items_view<T>(items: Seq<(String, T)>) -> Seq<(Seq<char>, T)> {
    items.map_values(|p: (String, T)| (p.0@, p.1))
}

/// The ids of nodes with the vectors that were made for them, as far as both reach.
pub open spec fn paired<T>(nodes: Seq<NodeView>, vectors: Seq<T>) -> Seq<(Seq<char>, T)> {
    let n = if nodes.len() <= vectors.len() {
        nodes.len()
    } else {
        vectors.len()
    };
    Seq::new(n, |i: int| (nodes[i].id, vectors[i]))
}

/// Pairs the nodes of a batch with the vectors that were made for them.
pub fn pair_embeddings<T>(nodes: &Vec<AttrNode>, from: usize, to: usize, vectors: Vec<T>) -> (r:
    Vec<(String, T)>)
    requires
        from <= to <= nodes@.len(),
    ensures
        items_view(r@) == paired(
            nodes_view(nodes@).subrange(from as int, to as int),
            vectors@,
        ),
{
    let ghost ns = nodes_view(nodes@).subrange(from as int, to as int);
    let count = to - from;
    let mut out: Vec<(String, T)> = Vec::new();
    let mut i: usize = 0;
    for v in it: vectors
        invariant
            it.seq() == vectors@,
            from <= to <= nodes@.len(),
            count == to - from,
            ns == nodes_view(nodes@).subrange(from as int, to as int),
            ns.len() == count,
            i <= count,
            i == it.index() || (i == count && it.index() > count),
            out@.len() == i,
            forall|k: int|
                0 <= k < i ==> (#[trigger] out@[k]).0@ == ns[k].id && out@[k].1 == vectors@[k],
    {
        if i < count {
            out.push((nodes[from + i].id.clone(), v));
            i += 1;
        }
    }
    proof {
        assert(items_view(out@) =~= paired(ns, vectors@));
    }
    out
}

/// What is written and what is left once items are added one by one to those collected so far:
/// whenever enough are together they are written.
pub open spec fn collected<X>(batch: Seq<X>, items: Seq<X>) -> (Seq<Seq<X>>, Seq<X>)
    decreases items.len(),
{
    if items.len() == 0 {
        (Seq::empty(), batch)
    } else {
        let (writes, rest) = collected(batch, items.drop_last());
        let more = rest.push(items.last());
        if more.len() >= VECTORS_PER_WRITE {
            (writes.push(more), Seq::empty())
        } else {
            (writes, more)
        }
    }
}

pub open spec fn writes_view<T>(ws: Seq<Vec<(String, T)>>) -> Seq<Seq<(Seq<char>, T)>> {
    ws.map_values(|w: Vec<(String, T)>| items_view(w@))
}

/// Adds items to those collected so far: the full batches that are written, and what is left.
pub fn collect_items<T>(batch: Vec<(String, T)>, items: Vec<(String, T)>) -> (r: (
    Vec<Vec<(String, T)>>,
    Vec<(String, T)>,
))
    ensures
        (writes_view(r.0@), items_view(r.1@)) == collected(items_view(batch@), items_view(items@)),
{
    let ghost start = items_view(batch@);
    let ghost all = items_view(items@);
    let mut writes: Vec<Vec<(String, T)>> = Vec::new();
    let mut rest = batch;
    proof {
        assert(writes_view(writes@) =~= Seq::empty());
    }
    for item in it: items
        invariant
            it.seq() == items@,
            all == items_view(items@),
            (writes_view(writes@), items_view(rest@)) == collected(start, all.take(it.index())),
    {
        proof {
            let i = it.index();
            assert(all.take(i + 1).drop_last() =~= all.take(i));
            assert(all.take(i + 1).last() == (item.0@, item.1));
        }
        let ghost before = rest@;
        rest.push(item);
        proof {
            assert(items_view(rest@) =~= items_view(before).push((item.0@, item.1)));
            assert(items_view(rest@).len() == rest@.len());
        }
        if rest.len() >= VECTORS_PER_WRITE {
            let ghost old_writes = writes@;
            let mut full: Vec<(String, T)> = Vec::new();
            std::mem::swap(&mut full, &mut rest);
            let ghost f = items_view(full@);
            writes.push(full);
            proof {
                assert(writes_view(writes@) =~= writes_view(old_writes).push(f));
                assert(items_view(rest@) =~= Seq::empty());
            }
        }
    }
    proof {
        assert(all.take(items@.len() as int) =~= all);
    }
    (writes, rest)
}

pub open spec fn flat<X>(ws: Seq<Seq<X>>) -> Seq<X>
    decreases ws.len(),
{
    if ws.len() == 0 {
        Seq::empty()
    } else {
        flat(ws.drop_last()) + ws.last()
    }
}

/// Nothing is lost, doubled or moved: the batches that are written and what is left make up the
/// items in their order. Every batch but the last has the full size.
pub proof fn collecting_loses_nothing<X>(batch: Seq<X>, items: Seq<X>)
    requires
        batch.len() < VECTORS_PER_WRITE,
    ensures
        flat(collected(batch, items).0) + collected(batch, items).1 == batch + items,
        collected(batch, items).1.len() < VECTORS_PER_WRITE,
        forall|k: int|
            0 <= k < collected(batch, items).0.len() ==> (#[trigger] collected(
                batch,
                items,
            ).0[k]).len() == VECTORS_PER_WRITE,
    decreases items.len(),
{
    if items.len() == 0 {
        assert(flat(collected(batch, items).0) + batch =~= batch + items);
    } else {
        let d = items.drop_last();
        collecting_loses_nothing(batch, d);
        let (writes, rest) = collected(batch, d);
        let more = rest.push(items.last());
        let (w2, r2) = collected(batch, items);
        assert(items =~= d.push(items.last()));
        if more.len() >= VECTORS_PER_WRITE {
            assert(w2.drop_last() =~= writes);
            assert(flat(w2) =~= flat(writes) + more);
            assert(flat(w2) + r2 =~= (flat(writes) + rest).push(items.last()));
            assert forall|k: int| 0 <= k < w2.len() implies (#[trigger] w2[k]).len()
                == VECTORS_PER_WRITE by {
                if k < writes.len() {
                    assert(w2[k] == writes[k]);
                }
            }
        } else {
            assert(flat(w2) + r2 =~= (flat(writes) + rest).push(items.last()));
        }
        assert((batch + d).push(items.last()) =~= batch + items);
    }
}

// ---------------------------------------------------------------------------
// A run over nodes
// ---------------------------------------------------------------------------

/// Embedding a list of nodes, step by step: the texts of the next batch are embedded, the vectors
/// are collected, and full collections are written. Where `carry` holds, what is left of one
/// batch is written together with the next one; else every batch is written before the next.
pub struct EmbedRun<T> {
    nodes: Vec<AttrNode>,
    carry: bool,
    from: usize,
    writes: Vec<Vec<(String, T)>>,
    rest: Vec<(String, T)>,
    embedded: u64,
}

/// What a run looks like from outside.
#[verifier::ext_equal]
pub struct RunView<T> {
    pub nodes: Seq<NodeView>,
    pub carry: bool,
    /// The nodes before this place have been embedded.
    pub from: int,
    /// Collections that are due to be written, in order.
    pub writes: Seq<Seq<(Seq<char>, T)>>,
    /// Vectors that are not due yet.
    pub rest: Seq<(Seq<char>, T)>,
    /// How many vectors came in.
    pub embedded: int,
}

impl<T> View for EmbedRun<T> {
    type V = RunView<T>;

    closed spec fn view(&self) -> RunView<T> {
        RunView {
            nodes: nodes_view(self.nodes@),
            carry: self.carry,
            from: self.from as int,
            writes: writes_view(self.writes@),
            rest: items_view(self.rest@),
            embedded: self.embedded as int,
        }
    }
}

/// What a run asks for next.
pub enum EmbedStep<T> {
    /// Embed these texts and hand in the vectors.
    Embed(Vec<String>),
    /// Write these vectors.
    Write(Vec<(String, T)>),
    /// Nothing is left; so many vectors came in.
    Done(u64),
}

pub enum StepView<T> {
    Embed(Seq<Seq<char>>),
    Write(Seq<(Seq<char>, T)>),
    Done(int),
}

impl<T> View for EmbedStep<T> {
    type V = StepView<T>;

    open spec fn view(&self) -> StepView<T> {
        match self {
            EmbedStep::Embed(t) => StepView::Embed(texts(t@)),
            EmbedStep::Write(w) => StepView::Write(items_view(w@)),
            EmbedStep::Done(n) => StepView::Done(*n as int),
        }
    }
}

impl<T> RunView<T> {
    pub open spec fn wf(self) -> bool {
        &&& 0 <= self.from <= self.nodes.len()
        &&& 0 <= self.embedded <= self.from
        &&& self.rest.len() < VECTORS_PER_WRITE
    }

    /// The nodes of the batch that is due.
    pub open spec fn batch(self) -> Seq<NodeView> {
        self.nodes.subrange(
            self.from,
            batch_end_of(self.from, self.nodes.len() as int),
        )
    }

    /// What is asked for next: first what is due is written, then the next batch is embedded, and
    /// at the end the rest is written.
    pub open spec fn step(self) -> StepView<T> {
        if self.writes.len() > 0 {
            StepView::Write(self.writes[0])
        } else if self.from < self.nodes.len() {
            StepView::Embed(search_texts(self.batch()))
        } else if self.rest.len() > 0 {
            StepView::Write(self.rest)
        } else {
            StepView::Done(self.embedded)
        }
    }

    /// The run once what it asked to write is handed out.
    pub open spec fn after_step(self) -> RunView<T> {
        if self.writes.len() > 0 {
            RunView { writes: self.writes.drop_first(), ..self }
        } else if self.from >= self.nodes.len() {
            RunView { rest: Seq::empty(), ..self }
        } else {
            self
        }
    }

    /// The run once the vectors of the batch are in.
    pub open spec fn with_vectors(self, vectors: Seq<T>) -> RunView<T> {
        let items = paired(self.batch(), vectors);
        let (due, rest) = collected(self.rest, items);
        let flush = !self.carry && rest.len() > 0;
        RunView {
            from: batch_end_of(self.from, self.nodes.len() as int),
            writes: self.writes + (if flush {
                due.push(rest)
            } else {
                due
            }),
            rest: if flush {
                Seq::empty()
            } else {
                rest
            },
            embedded: self.embedded + items.len(),
            ..self
        }
    }

    /// All vectors that came in and are not written yet, in order.
    pub open spec fn unwritten(self) -> Seq<(Seq<char>, T)> {
        flat(self.writes) + self.rest
    }
}

impl<T> EmbedRun<T> {
    /// The bookkeeping of a run stays in range.
    #[verifier::type_invariant]
    pub open spec fn wf(self) -> bool {
        self@.wf()
    }

    /// A run over nodes.
    pub fn new(nodes: Vec<AttrNode>, carry: bool) -> (r: Self)
        ensures
            r@ == (RunView::<T> {
                nodes: nodes_view(nodes@),
                carry,
                from: 0,
                writes: Seq::empty(),
                rest: Seq::empty(),
                embedded: 0,
            }),
    {
        let writes: Vec<Vec<(String, T)>> = Vec::new();
        let rest: Vec<(String, T)> = Vec::new();
        proof {
            assert(writes_view(writes@) =~= Seq::empty());
            assert(items_view(rest@) =~= Seq::empty());
        }
        EmbedRun { nodes, carry, from: 0, writes, rest, embedded: 0 }
    }

    /// What the run asks for next; what it asks to write is handed out with the request.
    pub fn next(self) -> (r: (Self, EmbedStep<T>))
        ensures
            r.1@ == self@.step(),
            r.0@ == self@.after_step(),
    {
        proof {
            use_type_invariant(&self);
        }
        let EmbedRun { nodes, carry, from, writes, rest, embedded } = self;
        let mut writes = writes;
        let mut rest = rest;
        proof {
            assert(writes_view(writes@).len() == writes@.len());
            assert(nodes_view(nodes@).len() == nodes@.len());
            assert(items_view(rest@).len() == rest@.len());
        }
        if writes.len() > 0 {
            let ghost ws = writes_view(writes@);
            let first = writes.remove(0);
            proof {
                assert(writes_view(writes@) =~= ws.drop_first());
            }
            (EmbedRun { nodes, carry, from, writes, rest, embedded }, EmbedStep::Write(first))
        } else if from < nodes.len() {
            let to = batch_end(from, nodes.len());
            let t = batch_texts(&nodes, from, to);
            (EmbedRun { nodes, carry, from, writes, rest, embedded }, EmbedStep::Embed(t))
        } else if rest.len() > 0 {
            let mut last: Vec<(String, T)> = Vec::new();
            std::mem::swap(&mut last, &mut rest);
            proof {
                assert(items_view(rest@) =~= Seq::empty());
            }
            (EmbedRun { nodes, carry, from, writes, rest, embedded }, EmbedStep::Write(last))
        } else {
            proof {
                assert(items_view(rest@) =~= Seq::empty());
            }
            (EmbedRun { nodes, carry, from, writes, rest, embedded }, EmbedStep::Done(embedded))
        }
    }

    /// Takes in the vectors that were made for the batch.
    pub fn supply(self, vectors: Vec<T>) -> (r: Self)
        ensures
            r@ == self@.with_vectors(vectors@),
    {
        proof {
            use_type_invariant(&self);
        }
        let ghost before = self@;
        let EmbedRun { nodes, carry, from, writes, rest, embedded } = self;
        proof {
            assert(nodes_view(nodes@).len() == nodes@.len());
        }
        let to = batch_end(from, nodes.len());
        let items = pair_embeddings(&nodes, from, to, vectors);
        let count = items.len();
        proof {
            assert(items_view(items@).len() == count);
            collecting_loses_nothing(before.rest, items_view(items@));
        }
        let (due, left) = collect_items(rest, items);
        let mut due = due;
        let mut left = left;
        let ghost due_view = writes_view(due@);
        let ghost left_view = items_view(left@);
        proof {
            assert(left_view.len() == left@.len());
        }
        if !carry && left.len() > 0 {
            let mut last: Vec<(String, T)> = Vec::new();
            std::mem::swap(&mut last, &mut left);
            due.push(last);
            proof {
                assert(items_view(left@) =~= Seq::empty());
                assert(writes_view(due@) =~= due_view.push(left_view));
            }
        }
        let mut all = writes;
        let ghost ws = writes_view(all@);
        let ghost ds = writes_view(due@);
        all.append(&mut due);
        proof {
            assert(writes_view(all@) =~= ws + ds);
        }
        EmbedRun {
            nodes,
            carry,
            from: to,
            writes: all,
            rest: left,
            embedded: embedded + count as u64,
        }
    }
}

proof fn lemma_flat_append<X>(a: Seq<Seq<X>>, b: Seq<Seq<X>>)
    ensures
        flat(a + b) == flat(a) + flat(b),
    decreases b.len(),
{
    if b.len() == 0 {
        assert(a + b =~= a);
        assert(flat(a) + flat(b) =~= flat(a));
    } else {
        lemma_flat_append(a, b.drop_last());
        assert((a + b).drop_last() =~= a + b.drop_last());
        assert((a + b).last() == b.last());
        assert(flat(a + b) =~= flat(a) + flat(b));
    }
}

proof fn lemma_flat_first<X>(a: Seq<Seq<X>>)
    requires
        a.len() > 0,
    ensures
        flat(a) == a[0] + flat(a.drop_first()),
{
    assert(a =~= seq![a[0]] + a.drop_first());
    lemma_flat_append(seq![a[0]], a.drop_first());
    assert(seq![a[0]].drop_last() =~= Seq::empty());
    assert(flat(seq![a[0]]) =~= a[0]) by {
        reveal_with_fuel(flat, 2);
    }
}

/// A run neither loses nor reorders anything: what it hands out to be written is the front of
/// what was unwritten, and vectors that come in go behind it, each with the id of its node.
pub proof fn run_keeps_every_vector<T>(run: RunView<T>, vectors: Seq<T>)
    requires
        run.wf(),
    ensures
        run.step() matches StepView::Write(w) ==> run.unwritten() == w
            + run.after_step().unwritten(),
        !(run.step() is Write) ==> run.after_step().unwritten() == run.unwritten(),
        run.with_vectors(vectors).unwritten() == run.unwritten() + paired(run.batch(), vectors),
        run.step() is Done ==> run.unwritten().len() == 0,
        run.with_vectors(vectors).wf(),
        run.after_step().wf(),
{
    if run.writes.len() > 0 {
        lemma_flat_first(run.writes);
        assert(run.unwritten() =~= run.writes[0] + run.after_step().unwritten());
    } else if run.from >= run.nodes.len() {
        assert(run.writes =~= Seq::empty());
        assert(run.unwritten() =~= run.rest + run.after_step().unwritten());
    }
    let items = paired(run.batch(), vectors);
    let (due, rest) = collected(run.rest, items);
    collecting_loses_nothing(run.rest, items);
    let after = run.with_vectors(vectors);
    if !run.carry && rest.len() > 0 {
        lemma_flat_append(run.writes, due.push(rest));
        assert(due.push(rest).drop_last() =~= due);
        assert(flat(due.push(rest)) =~= flat(due) + rest);
        assert(after.unwritten() =~= flat(run.writes) + (flat(due) + rest));
    } else {
        lemma_flat_append(run.writes, due);
        assert(after.unwritten() =~= flat(run.writes) + (flat(due) + rest));
    }
    assert(after.unwritten() =~= run.unwritten() + items);
}

} // verus!
