//! Calls: how one is taken from a request, what is said when a service fails, and how an import is
//! carried out step by step.

use vstd::prelude::*;

#[allow(unused_imports)]
use crate::actors::import::{named_layer, replacements, PlanView};
#[allow(unused_imports)]
use crate::actors::import_run::{ImportEventView, ImportRunView, ImportStepView, JobView};
#[allow(unused_imports)]
use crate::config::data_dir_parts;
#[allow(unused_imports)]
use crate::coordinator::envelope::call_in;
#[allow(unused_imports)]
use crate::coordinator::query::{asked_layers, HitView};
#[allow(unused_imports)]
use crate::coordinator::request::{fetch_limit, QueryView};
#[allow(unused_imports)]
use crate::coordinator::route::{FinishView, QueryRunView, QueryStepView};
#[allow(unused_imports)]
use crate::geometry::{coords_view, Coord, CoordView, GeometryView};
#[allow(unused_imports)]
use crate::json::JsonView;
#[allow(unused_imports)]
use crate::models::geojson::{geometry_out, keeps, kept_step, picked, thinned};
#[allow(unused_imports)]
use crate::models::NodeView;
#[allow(unused_imports)]
use crate::tasks::{complaint, gone_words, lost_words, refused_words, FailureView, TaskView};
#[allow(unused_imports)]
use crate::text::trim;

verus! {

// ---------------------------------------------------------------------------
// Envelopes
// ---------------------------------------------------------------------------

/// A call needs the name of a method; without parameters it has none.
pub proof fn a_call_names_its_method(req: JsonView)
    ensures
        match req.get("method"@) {
            Some(JsonView::Str(m)) => if m.len() > 0 {
                call_in(req) matches Ok(c) && c.method == m && (req.get("params"@) is Some
                    ==> c.params == req.get("params"@)->0) && (req.get("params"@) is None
                    ==> c.params == JsonView::Object(Seq::empty()))
            } else {
                call_in(req) is Err
            },
            _ => call_in(req) is Err,
        },
{
}

/// The data directory is the one that is set, where it is not blank; else it lies under the home
/// directory, and where there is none under the present one.
pub proof fn data_lies_where_it_is_set(dir: Seq<char>, home: Option<Seq<char>>)
    ensures
        trim(dir).len() > 0 ==> data_dir_parts(Some(dir), home) == seq![trim(dir)],
        trim(dir).len() == 0 ==> data_dir_parts(Some(dir), home) == data_dir_parts(None, home),
        home matches Some(h) ==> data_dir_parts(None, home) == seq![h, ".spire"@, "gis-data"@],
        home is None ==> data_dir_parts(None, home) == seq!["."@, ".spire"@, "gis-data"@],
{
}

/// A complaint says first what was being done and then, at its end, what went wrong, unchanged; it
/// tells by its words whether the service could not be asked, fell silent or refused.
pub proof fn a_complaint_ends_with_what_went_wrong(t: TaskView, e: Seq<char>)
    ensures
        complaint(t, FailureView::Gone(e)) == gone_words(t) + e,
        complaint(t, FailureView::Lost(e)) == lost_words(t) + e,
        complaint(t, FailureView::Refused(e)) == refused_words(t) + e,
        complaint(t, FailureView::Refused(e)).skip(refused_words(t).len() as int) == e,
{
    assert(complaint(t, FailureView::Refused(e)).skip(refused_words(t).len() as int) =~= e);
}

// ---------------------------------------------------------------------------
// Asking the store
// ---------------------------------------------------------------------------

/// A query asks the store about its layers one by one, in order, each time for its own region and
/// for enough features, and replies when it has asked about all of them.
pub proof fn a_query_asks_in_order(q: QueryView, f: FinishView, hits: Seq<HitView>)
    ensures
        QueryRunView::begin(q, f).waiting.len() == asked_layers(q).len(),
        QueryRunView::begin(q, f).found.len() == 0,
        forall|i: int|
            0 <= i < asked_layers(q).len() ==> #[trigger] asked_layers(q)[i]
                == QueryRunView::begin(q, f).waiting[asked_layers(q).len() - 1 - i],
{
}

/// One step of a query: it asks about the layer that is next, or replies.
pub proof fn a_query_asks_about_the_next_layer(run: QueryRunView, hits: Seq<HitView>)
    ensures
        run.waiting.len() > 0 ==> (run.step() matches QueryStepView::Ask(next, ask) && ask.layer
            == run.waiting.last() && ask.region == run.query.region && ask.limit == fetch_limit(
            run.query,
        ) && ask.layers == run.query.layers && ask.classes == run.query.classes && next.waiting
            == run.waiting.drop_last() && next.found == run.found && next.query == run.query),
        run.waiting.len() == 0 ==> run.step() is Reply,
        run.with_hits(hits).found == run.found + hits,
        run.with_hits(hits).waiting == run.waiting,
{
}

// ---------------------------------------------------------------------------
// An import
// ---------------------------------------------------------------------------

/// An import looks for the layer that it replaces and, where there is one, for its features, which
/// it deletes; then for the top of the stack, which it does without where the store fails; and
/// then for the cells of its lines.
pub proof fn an_import_prepares(
    job: JobView,
    layers: Seq<NodeView>,
    features: Seq<NodeView>,
    f: FailureView,
    next: ImportRunView,
)
    ensures
        ImportRunView::Begun(job).step() is Layers,
        ImportRunView::Begun(job).leads_to(ImportEventView::Nodes(Ok(layers)), next) && (exists|
            i: int,
        |
            0 <= i < layers.len() && (#[trigger] layers[i]).name == job.machine_name) ==> next
            == ImportRunView::Replacing(job, layers),
        ImportRunView::Begun(job).leads_to(ImportEventView::Nodes(Ok(layers)), next) && (forall|
            i: int,
        |
            0 <= i < layers.len() ==> (#[trigger] layers[i]).name != job.machine_name) ==> next
            == ImportRunView::Stacking(job),
        ImportRunView::Replacing(job, layers).step() is Features,
        ImportRunView::Replacing(job, layers).leads_to(ImportEventView::Nodes(Ok(features)), next)
            ==> next == ImportRunView::Deleting(
            job,
            replacements(layers, features, job.machine_name),
        ),
        ImportRunView::Stacking(job).step() is Layers,
        ImportRunView::Stacking(job).leads_to(ImportEventView::Nodes(Ok(layers)), next) ==> next
            == ImportRunView::Placing(job, layers),
        ImportRunView::Stacking(job).leads_to(ImportEventView::Nodes(Err(f)), next) ==> next
            == ImportRunView::Placing(job, Seq::empty()),
        ImportRunView::Placing(job, layers).step() is Cells,
        ImportRunView::Begun(job).leads_to(ImportEventView::Nodes(Err(f)), next) ==> (next.step()
            matches ImportStepView::Reply(r) && r is Err),
        ImportRunView::Replacing(job, layers).leads_to(ImportEventView::Nodes(Err(f)), next) ==> (
        next.step() matches ImportStepView::Reply(r) && r is Err),
{
    lemma_named(layers, job.machine_name);
}

proof fn lemma_named(layers: Seq<NodeView>, name: Seq<char>)
    ensures
        named_layer(layers, name) is Some <==> exists|i: int|
            0 <= i < layers.len() && (#[trigger] layers[i]).name == name,
    decreases layers.len(),
{
    if layers.len() > 0 {
        let d = layers.drop_first();
        lemma_named(d, name);
        if layers[0].name != name {
            if named_layer(layers, name) is Some {
                let i = choose|i: int| 0 <= i < d.len() && (#[trigger] d[i]).name == name;
                assert(layers[i + 1].name == name);
            }
            if exists|i: int| 0 <= i < layers.len() && (#[trigger] layers[i]).name == name {
                let i = choose|i: int| 0 <= i < layers.len() && (#[trigger] layers[i]).name == name;
                assert(d[i - 1].name == name);
            }
        }
    }
}

/// An import that cannot delete a node, open its transaction or make its writes last ends with the
/// complaint.
pub proof fn an_import_ends_on_a_failure(
    job: JobView,
    ids: Seq<Seq<char>>,
    name: Seq<char>,
    p: PlanView,
    report: JsonView,
    f: FailureView,
)
    requires
        ids.len() > 0,
    ensures
        ImportRunView::Deleting(job, ids).after_done(Err(f)).step() == ImportStepView::Reply(
            Err(complaint(TaskView::DropNode(ids[0]), f)),
        ),
        ImportRunView::Opening(name, p).after_done(Err(f)).step() == ImportStepView::Reply(
            Err(complaint(TaskView::OpenTransaction, f)),
        ),
        ImportRunView::Syncing(name, report).after_done(Err(f)).step() == ImportStepView::Reply(
            Err(complaint(TaskView::Sync, f)),
        ),
{
}

// ---------------------------------------------------------------------------
// Geometries for display
// ---------------------------------------------------------------------------

/// A straight line is written as a line of two positions, longitude first.
pub proof fn a_straight_line_is_written_as_a_line(a: CoordView, b: CoordView)
    ensures
        geometry_out(GeometryView::Line(a, b)) == geometry_out(
            GeometryView::LineString(seq![a, b]),
        ),
{
}

/// The vertices that a simplified line keeps: the first and the last, and of the others each that
/// is far from the one kept before it; every vertex that is left out is near the one kept before
/// it.
pub open spec fn are_kept<F: Fn(&Coord, &Coord) -> bool>(
    pts: Seq<Coord>,
    kept: Seq<int>,
    far: F,
) -> bool {
    &&& kept.len() >= 2
    &&& kept[0] == 0 && kept.last() == pts.len() - 1
    &&& forall|j: int, k: int| 0 <= j < k < kept.len() ==> #[trigger] kept[j] < #[trigger] kept[k]
    &&& forall|j: int, k: int|
        #![trigger kept[j], kept[k]]
        0 <= j && j + 1 == k && k < kept.len() ==> are_far(pts, kept[j], kept[k], far)
}

/// A step of a simplified line: it ends at a vertex that is far from where it starts, or at the
/// last one, and passes over vertices that are near.
pub open spec fn are_far<F: Fn(&Coord, &Coord) -> bool>(
    pts: Seq<Coord>,
    a: int,
    b: int,
    far: F,
) -> bool {
    &&& b < pts.len() - 1 ==> call_ensures(far, (&pts[a], &pts[b]), true)
    &&& forall|i: int|
        #![trigger pts[i]]
        a < i < b ==> call_ensures(far, (&pts[a], &pts[i]), false)
}

/// A simplified line keeps the vertices that it has to, and no others.
pub proof fn a_simplified_line_keeps_far_vertices<F: Fn(&Coord, &Coord) -> bool>(
    pts: Seq<Coord>,
    out: Seq<CoordView>,
    far: F,
) -> (kept: Seq<int>)
    requires
        thinned(pts, out, far),
        pts.len() >= 2,
    ensures
        are_kept(pts, kept, far),
        out.len() == kept.len(),
        forall|j: int| 0 <= j < kept.len() ==> out[j] == pts[#[trigger] kept[j]]@,
{
    let ks = choose|ks: Seq<usize>| #[trigger]
        keeps(pts, ks, far) && out == (if ks.len() >= 2 {
            picked(coords_view(pts), ks)
        } else {
            coords_view(pts)
        });
    let kept = ks.map_values(|i: usize| i as int);
    assert(ks.len() > 0 && ks[0] == 0 && ks[ks.len() - 1] == pts.len() - 1);
    assert forall|j: int, k: int| 0 <= j < k < kept.len() implies #[trigger] kept[j]
        < #[trigger] kept[k] by {
        assert(ks[j] < ks[k]);
    }
    assert forall|j: int, k: int|
        #![trigger kept[j], kept[k]]
        0 <= j && j + 1 == k && k < kept.len() implies are_far(pts, kept[j], kept[k], far) by {
        assert(kept_step(pts, ks[j] as int, ks[k] as int, far));
        assert(ks[k] < pts.len());
    }
    assert forall|j: int| 0 <= j < kept.len() implies out[j] == pts[#[trigger] kept[j]]@ by {
        assert(ks[j] < pts.len());
    }
    kept
}

} // verus!
