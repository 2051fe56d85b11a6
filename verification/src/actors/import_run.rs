//! An import carried out step by step: what the store is asked, what is deleted and written, and
//! what is answered when something fails.
//!
//! The layer of the same name is deleted first, then the layer and its features are written in one
//! transaction. Once that is committed, the store is made to last, the cached display of the layer
//! is dropped and its features are embedded; neither of the last two fails an import.

use vstd::prelude::*;

use crate::actors::import::{
    checked_import, import_lines, import_ops, replace_layer, ImportOp, ImportPlan,
};
use crate::chains::Cell;
use crate::coordinator::reply::display_cache_name;
use crate::geometry::Coord;
use crate::json::Json;
use crate::models::geojson::{
    document_raws, parse_geojson_stream, DecodedFeature, RawDocument,
};
use crate::models::AttrNode;
use crate::tasks::{answer, Failure, Task};
use crate::text::same_text;
#[allow(unused_imports)]
use crate::actors::import::{
    ends_match, feature_groups, group_geometries, highest_z, is_plan, named_layer, ops_of,
    ops_view, replacements, ImportOpView, PlanView,
};
#[allow(unused_imports)]
use crate::chains::all_lines;
#[allow(unused_imports)]
use crate::geometry::{lines_view, CoordView};
#[allow(unused_imports)]
use crate::json::JsonView;
#[allow(unused_imports)]
use crate::models::geojson::{features_view, raws_in, stream_in, FeatureView};
#[allow(unused_imports)]
use crate::models::{nodes_view, NodeView};
#[allow(unused_imports)]
use crate::tasks::{complaint, FailureView, TaskView};
#[allow(unused_imports)]
use crate::text::texts;

verus! {

// ---------------------------------------------------------------------------
// The model
// ---------------------------------------------------------------------------

/// What is imported.
pub struct JobView {
    pub machine_name: Seq<char>,
    pub display_name: Seq<char>,
    pub source: Seq<char>,
    pub features: Seq<FeatureView>,
}

/// How far an import is.
pub enum ImportRunView {
    /// The layers are asked for, to find the one that is replaced.
    Begun(JobView),
    /// The features are asked for, to find those of the layer that is replaced.
    Replacing(JobView, Seq<NodeView>),
    /// Nodes of the replaced layer are left to delete.
    Deleting(JobView, Seq<Seq<char>>),
    /// The layers are asked for, to find the top of the stack.
    Stacking(JobView),
    /// The grid cells of the lines are asked for.
    Placing(JobView, Seq<NodeView>),
    /// A transaction is opened.
    Opening(Seq<char>, PlanView),
    /// Operations of the transaction are left.
    Writing(Seq<char>, Seq<ImportOpView>, JsonView),
    /// The transaction has failed, with this complaint.
    RollingBack(Seq<char>),
    Syncing(Seq<char>, JsonView),
    Clearing(Seq<char>, JsonView),
    Embedding(Seq<char>, JsonView),
    Finished(Result<JsonView, Seq<char>>),
}

/// What an import asks for next.
pub enum ImportStepView {
    Layers,
    Features,
    Delete(Seq<char>),
    Cells(Seq<Seq<Seq<CoordView>>>),
    Open,
    Perform(ImportOpView),
    Rollback,
    Sync,
    DropCache(Seq<char>),
    Embed(Seq<char>),
    Reply(Result<JsonView, Seq<char>>),
}

/// What comes back.
pub enum ImportEventView {
    Nodes(Result<Seq<NodeView>, FailureView>),
    Cells(Seq<Vec<(Cell, Cell)>>),
    Done(Result<(), FailureView>),
}

/// The lines of each group of features.
pub open spec fn lines_to_place(fs: Seq<FeatureView>) -> Seq<Seq<Seq<CoordView>>> {
    Seq::new(
        feature_groups(fs).len(),
        |a: int| all_lines(group_geometries(fs, feature_groups(fs)[a])),
    )
}

impl ImportRunView {
    pub open spec fn wf(self) -> bool {
        match self {
            ImportRunView::Begun(job) => job.features.len() > 0,
            ImportRunView::Replacing(job, layers) => job.features.len() > 0 && named_layer(
                layers,
                job.machine_name,
            ) is Some,
            ImportRunView::Deleting(job, ids) => job.features.len() > 0 && ids.len() > 0,
            ImportRunView::Stacking(job) => job.features.len() > 0,
            ImportRunView::Placing(job, _) => job.features.len() > 0,
            ImportRunView::Writing(_, ops, _) => ops.len() > 0,
            _ => true,
        }
    }

    pub open spec fn step(self) -> ImportStepView {
        match self {
            ImportRunView::Begun(_) => ImportStepView::Layers,
            ImportRunView::Replacing(_, _) => ImportStepView::Features,
            ImportRunView::Deleting(_, ids) => ImportStepView::Delete(ids[0]),
            ImportRunView::Stacking(_) => ImportStepView::Layers,
            ImportRunView::Placing(job, _) => ImportStepView::Cells(lines_to_place(job.features)),
            ImportRunView::Opening(_, _) => ImportStepView::Open,
            ImportRunView::Writing(_, ops, _) => ImportStepView::Perform(ops[0]),
            ImportRunView::RollingBack(_) => ImportStepView::Rollback,
            ImportRunView::Syncing(_, _) => ImportStepView::Sync,
            ImportRunView::Clearing(name, _) => ImportStepView::DropCache(
                "display-"@ + name + ".geojson"@,
            ),
            ImportRunView::Embedding(name, _) => ImportStepView::Embed(name),
            ImportRunView::Finished(r) => ImportStepView::Reply(r),
        }
    }

    /// The import has asked for something that is done or fails.
    pub open spec fn awaits_done(self) -> bool {
        match self {
            ImportRunView::Deleting(_, _) => true,
            ImportRunView::Opening(_, _) => true,
            ImportRunView::Writing(_, _, _) => true,
            ImportRunView::RollingBack(_) => true,
            ImportRunView::Syncing(_, _) => true,
            ImportRunView::Clearing(_, _) => true,
            ImportRunView::Embedding(_, _) => true,
            _ => false,
        }
    }

    /// The import once what it asked for is done or has failed.
    pub open spec fn after_done(self, r: Result<(), FailureView>) -> ImportRunView {
        match (self, r) {
            (ImportRunView::Deleting(job, ids), Ok(_)) => if ids.len() > 1 {
                ImportRunView::Deleting(job, ids.drop_first())
            } else {
                ImportRunView::Stacking(job)
            },
            (ImportRunView::Deleting(_, ids), Err(f)) => ImportRunView::Finished(
                Err(complaint(TaskView::DropNode(ids[0]), f)),
            ),
            (ImportRunView::Opening(name, p), Ok(_)) => ImportRunView::Writing(
                name,
                ops_of(p),
                p.report,
            ),
            (ImportRunView::Opening(_, _), Err(f)) => ImportRunView::Finished(
                Err(complaint(TaskView::OpenTransaction, f)),
            ),
            (ImportRunView::Writing(name, ops, report), Ok(_)) => if ops.len() > 1 {
                ImportRunView::Writing(name, ops.drop_first(), report)
            } else {
                ImportRunView::Syncing(name, report)
            },
            (ImportRunView::Writing(_, _, _), Err(f)) => ImportRunView::RollingBack(
                complaint(TaskView::Transaction, f),
            ),
            (ImportRunView::RollingBack(e), _) => ImportRunView::Finished(Err(e)),
            (ImportRunView::Syncing(name, report), Ok(_)) => ImportRunView::Clearing(name, report),
            (ImportRunView::Syncing(_, _), Err(f)) => ImportRunView::Finished(
                Err(complaint(TaskView::Sync, f)),
            ),
            (ImportRunView::Clearing(name, report), _) => ImportRunView::Embedding(name, report),
            (ImportRunView::Embedding(_, report), _) => ImportRunView::Finished(Ok(report)),
            _ => self,
        }
    }

    /// Whether an event answers what the import asked for: nodes for nodes, a cell for each end of
    /// each line, with room above the layers, and an outcome for what is done.
    pub open spec fn accepts(self, e: ImportEventView) -> bool {
        match (self, e) {
            (ImportRunView::Begun(_), ImportEventView::Nodes(_)) => true,
            (ImportRunView::Replacing(_, _), ImportEventView::Nodes(_)) => true,
            (ImportRunView::Stacking(_), ImportEventView::Nodes(_)) => true,
            (ImportRunView::Placing(job, layers), ImportEventView::Cells(ends)) => ends_match(
                job.features,
                ends,
            ) && highest_z(layers) != Some(i64::MAX),
            (_, ImportEventView::Done(_)) => self.awaits_done(),
            _ => false,
        }
    }

    /// How an import goes on from an event. Only the ids and the times of what is planned are
    /// left open.
    pub open spec fn leads_to(self, e: ImportEventView, next: ImportRunView) -> bool {
        match (self, e) {
            (ImportRunView::Begun(job), ImportEventView::Nodes(Ok(layers))) => next
                == if named_layer(layers, job.machine_name) is Some {
                ImportRunView::Replacing(job, layers)
            } else {
                ImportRunView::Stacking(job)
            },
            (ImportRunView::Begun(_), ImportEventView::Nodes(Err(f))) => next
                == ImportRunView::Finished(Err(complaint(TaskView::StoredNodes("Layer"@), f))),
            (ImportRunView::Replacing(job, layers), ImportEventView::Nodes(Ok(features))) => next
                == ImportRunView::Deleting(job, replacements(layers, features, job.machine_name)),
            (ImportRunView::Replacing(_, _), ImportEventView::Nodes(Err(f))) => next
                == ImportRunView::Finished(Err(complaint(TaskView::StoredNodes("Feature"@), f))),
            (ImportRunView::Stacking(job), ImportEventView::Nodes(r)) => next
                == ImportRunView::Placing(
                job,
                match r {
                    Ok(layers) => layers,
                    Err(_) => Seq::empty(),
                },
            ),
            (ImportRunView::Placing(job, layers), ImportEventView::Cells(ends)) => {
                &&& next matches ImportRunView::Opening(name, p)
                &&& name == job.machine_name
                &&& is_plan(
                    p,
                    job.machine_name,
                    job.display_name,
                    job.source,
                    job.features,
                    layers,
                    ends,
                )
            },
            (_, ImportEventView::Done(r)) => next == self.after_done(r),
            _ => true,
        }
    }
}

// ---------------------------------------------------------------------------
// The run
// ---------------------------------------------------------------------------

struct Job {
    machine_name: String,
    display_name: String,
    source: String,
    features: Vec<DecodedFeature>,
}

spec fn job_view(j: Job) -> JobView {
    JobView {
        machine_name: j.machine_name@,
        display_name: j.display_name@,
        source: j.source@,
        features: features_view(j.features@),
    }
}

enum State {
    Begun(Job),
    Replacing(Job, Vec<AttrNode>),
    /// The ids, and how many of them are deleted.
    Deleting(Job, Vec<String>, usize),
    Stacking(Job),
    Placing(Job, Vec<AttrNode>),
    Opening(String, ImportPlan),
    /// The operations, and how many of them are performed.
    Writing(String, Vec<ImportOp>, usize, Json),
    RollingBack(String),
    Syncing(String, Json),
    Clearing(String, Json),
    Embedding(String, Json),
    Finished(Result<Json, String>),
}

pub open spec fn reply_view(r: Result<Json, String>) -> Result<JsonView, Seq<char>> {
    match r {
        Ok(j) => Ok(j@),
        Err(e) => Err(e@),
    }
}

spec fn state_view(s: State) -> ImportRunView {
    match s {
        State::Begun(job) => ImportRunView::Begun(job_view(job)),
        State::Replacing(job, layers) => ImportRunView::Replacing(
            job_view(job),
            nodes_view(layers@),
        ),
        State::Deleting(job, ids, at) => ImportRunView::Deleting(
            job_view(job),
            texts(ids@).skip(at as int),
        ),
        State::Stacking(job) => ImportRunView::Stacking(job_view(job)),
        State::Placing(job, layers) => ImportRunView::Placing(job_view(job), nodes_view(layers@)),
        State::Opening(name, plan) => ImportRunView::Opening(name@, plan@),
        State::Writing(name, ops, at, report) => ImportRunView::Writing(
            name@,
            ops_view(ops@).skip(at as int),
            report@,
        ),
        State::RollingBack(e) => ImportRunView::RollingBack(e@),
        State::Syncing(name, report) => ImportRunView::Syncing(name@, report@),
        State::Clearing(name, report) => ImportRunView::Clearing(name@, report@),
        State::Embedding(name, report) => ImportRunView::Embedding(name@, report@),
        State::Finished(r) => ImportRunView::Finished(reply_view(r)),
    }
}

/// What a state holds beyond its view: places that lie in their lists.
spec fn state_wf(s: State) -> bool {
    &&& state_view(s).wf()
    &&& match s {
        State::Deleting(_, ids, at) => at < ids@.len(),
        State::Writing(_, ops, at, _) => at < ops@.len(),
        _ => true,
    }
}

/// An import under way.
pub struct ImportRun {
    state: State,
}

impl View for ImportRun {
    type V = ImportRunView;

    closed spec fn view(&self) -> ImportRunView {
        state_view(self.state)
    }
}

/// What an import asks for next.
#[derive(Debug, PartialEq)]
pub enum ImportStep {
    /// All layers.
    Layers,
    /// All features.
    Features,
    /// A node is deleted.
    Delete(String),
    /// The grid cells in which the lines of each group start and end.
    Cells(Vec<Vec<Vec<Coord>>>),
    /// A transaction is opened.
    Open,
    /// An operation of the transaction.
    Perform(ImportOp),
    /// The transaction is undone.
    Rollback,
    /// All that was written is made to last.
    Sync,
    /// A cached file is dropped.
    DropCache(String),
    /// The features of the layer are embedded.
    Embed(String),
    /// The import is over.
    Reply(Result<Json, String>),
}

impl View for ImportStep {
    type V = ImportStepView;

    open spec fn view(&self) -> ImportStepView {
        match self {
            ImportStep::Layers => ImportStepView::Layers,
            ImportStep::Features => ImportStepView::Features,
            ImportStep::Delete(id) => ImportStepView::Delete(id@),
            ImportStep::Cells(groups) => ImportStepView::Cells(
                groups@.map_values(|g: Vec<Vec<Coord>>| lines_view(g@)),
            ),
            ImportStep::Open => ImportStepView::Open,
            ImportStep::Perform(op) => ImportStepView::Perform(op@),
            ImportStep::Rollback => ImportStepView::Rollback,
            ImportStep::Sync => ImportStepView::Sync,
            ImportStep::DropCache(file) => ImportStepView::DropCache(file@),
            ImportStep::Embed(name) => ImportStepView::Embed(name@),
            ImportStep::Reply(r) => ImportStepView::Reply(reply_view(*r)),
        }
    }
}

/// What comes back.
#[derive(Debug, PartialEq)]
pub enum ImportEvent {
    Nodes(Result<Vec<AttrNode>, Failure>),
    Cells(Vec<Vec<(Cell, Cell)>>),
    Done(Result<(), Failure>),
}

pub open spec fn nodes_answer(r: Result<Vec<AttrNode>, Failure>) -> Result<
    Seq<NodeView>,
    FailureView,
> {
    match r {
        Ok(nodes) => Ok(nodes_view(nodes@)),
        Err(f) => Err(f@),
    }
}

pub open spec fn done_answer(r: Result<(), Failure>) -> Result<(), FailureView> {
    match r {
        Ok(x) => Ok(x),
        Err(f) => Err(f@),
    }
}

impl View for ImportEvent {
    type V = ImportEventView;

    open spec fn view(&self) -> ImportEventView {
        match self {
            ImportEvent::Nodes(r) => ImportEventView::Nodes(nodes_answer(*r)),
            ImportEvent::Cells(ends) => ImportEventView::Cells(ends@),
            ImportEvent::Done(r) => ImportEventView::Done(done_answer(*r)),
        }
    }
}

fn copy_reply(r: &Result<Json, String>) -> (out: Result<Json, String>)
    ensures
        reply_view(out) == reply_view(*r),
{
    match r {
        Ok(j) => Ok(j.copy()),
        Err(e) => Err(e.clone()),
    }
}

fn has_name(layers: &Vec<AttrNode>, name: &str) -> (r: bool)
    ensures
        r == (named_layer(nodes_view(layers@), name@) is Some),
{
    let n = layers.len();
    let ghost ls = nodes_view(layers@);
    let mut i: usize = 0;
    proof {
        assert(ls.skip(0) =~= ls);
    }
    while i < n
        invariant
            i <= n,
            n == layers@.len(),
            ls == nodes_view(layers@),
            named_layer(ls, name@) == named_layer(ls.skip(i as int), name@),
        decreases n - i,
    {
        proof {
            assert(ls.skip(i as int)[0] == layers@[i as int]@);
            assert(ls.skip(i as int).drop_first() =~= ls.skip(i + 1));
        }
        if same_text(layers[i].name.as_str(), name) {
            return true;
        }
        i += 1;
    }
    proof {
        assert(ls.skip(n as int).len() == 0);
    }
    false
}

/// How a state goes on from nodes.
fn take_nodes(s: State, r: Result<Vec<AttrNode>, Failure>) -> (out: Option<State>)
    requires
        state_wf(s),
    ensures
        out is Some <==> state_view(s).accepts(ImportEventView::Nodes(nodes_answer(r))),
        out matches Some(next) ==> state_wf(next) && state_view(s).leads_to(
            ImportEventView::Nodes(nodes_answer(r)),
            state_view(next),
        ),
{
    match s {
        State::Begun(job) => match answer(&Task::StoredNodes("Layer".to_owned()), r) {
            Ok(layers) => if has_name(&layers, job.machine_name.as_str()) {
                Some(State::Replacing(job, layers))
            } else {
                Some(State::Stacking(job))
            },
            Err(e) => Some(State::Finished(Err(e))),
        },
        State::Replacing(job, layers) => match answer(
            &Task::StoredNodes("Feature".to_owned()),
            r,
        ) {
            Ok(features) => {
                let ids = replace_layer(&layers, &features, job.machine_name.as_str());
                proof {
                    assert(texts(ids@).skip(0) =~= texts(ids@));
                    assert(texts(ids@).len() == ids@.len());
                }
                Some(State::Deleting(job, ids, 0))
            },
            Err(e) => Some(State::Finished(Err(e))),
        },
        State::Stacking(job) => match r {
            Ok(layers) => Some(State::Placing(job, layers)),
            Err(_) => {
                let none: Vec<AttrNode> = Vec::new();
                proof {
                    assert(nodes_view(none@) =~= Seq::empty());
                }
                Some(State::Placing(job, none))
            },
        },
        _ => None,
    }
}

/// How a state goes on from cells.
fn take_cells(s: State, ends: Vec<Vec<(Cell, Cell)>>) -> (out: Option<State>)
    requires
        state_wf(s),
    ensures
        out is Some <==> state_view(s).accepts(ImportEventView::Cells(ends@)),
        out matches Some(next) ==> state_wf(next) && state_view(s).leads_to(
            ImportEventView::Cells(ends@),
            state_view(next),
        ),
{
    match s {
        State::Placing(job, layers) => {
            proof {
                assert(features_view(job.features@).len() == job.features@.len());
            }
            match checked_import(
                job.machine_name.as_str(),
                job.display_name.as_str(),
                job.source.as_str(),
                &job.features,
                &layers,
                &ends,
            ) {
                Some(Ok(plan)) => Some(State::Opening(job.machine_name, plan)),
                _ => None,
            }
        },
        _ => None,
    }
}

/// How a state goes on from an outcome.
fn take_done(s: State, r: Result<(), Failure>) -> (out: Option<State>)
    requires
        state_wf(s),
    ensures
        out is Some <==> state_view(s).awaits_done(),
        out matches Some(next) ==> state_wf(next) && state_view(next) == state_view(s).after_done(
            done_answer(r),
        ),
{
    match s {
        State::Deleting(job, ids, at) => {
            proof {
                assert(texts(ids@).skip(at as int)[0] == ids@[at as int]@);
                assert(texts(ids@).skip(at as int).drop_first() =~= texts(ids@).skip(at + 1));
            }
            match answer(&Task::DropNode(ids[at].clone()), r) {
                Ok(_) => if at < ids.len() - 1 {
                    Some(State::Deleting(job, ids, at + 1))
                } else {
                    Some(State::Stacking(job))
                },
                Err(e) => Some(State::Finished(Err(e))),
            }
        },
        State::Opening(name, plan) => match answer(&Task::OpenTransaction, r) {
            Ok(_) => {
                let ops = import_ops(&plan);
                proof {
                    assert(ops_view(ops@).skip(0) =~= ops_view(ops@));
                    assert(ops_view(ops@).len() == ops@.len());
                }
                Some(State::Writing(name, ops, 0, plan.report))
            },
            Err(e) => Some(State::Finished(Err(e))),
        },
        State::Writing(name, ops, at, report) => {
            proof {
                assert(ops_view(ops@).skip(at as int).drop_first() =~= ops_view(ops@).skip(at + 1));
            }
            match answer(&Task::Transaction, r) {
                Ok(_) => if at < ops.len() - 1 {
                    Some(State::Writing(name, ops, at + 1, report))
                } else {
                    Some(State::Syncing(name, report))
                },
                Err(e) => Some(State::RollingBack(e)),
            }
        },
        State::RollingBack(e) => Some(State::Finished(Err(e))),
        State::Syncing(name, report) => match answer(&Task::Sync, r) {
            Ok(_) => Some(State::Clearing(name, report)),
            Err(e) => Some(State::Finished(Err(e))),
        },
        State::Clearing(name, report) => Some(State::Embedding(name, report)),
        State::Embedding(_, report) => Some(State::Finished(Ok(report))),
        _ => None,
    }
}

impl ImportRun {
    /// There is something to import, and what is left to do lies in its list.
    #[verifier::type_invariant]
    pub closed spec fn wf(self) -> bool {
        state_wf(self.state)
    }

    /// Begins an import; features are required.
    pub fn begin(
        machine_name: String,
        display_name: String,
        source: String,
        features: Vec<DecodedFeature>,
    ) -> (r: Result<ImportRun, String>)
        ensures
            r is Err <==> features@.len() == 0,
            match r {
                Ok(run) => run@ == ImportRunView::Begun(
                    JobView {
                        machine_name: machine_name@,
                        display_name: display_name@,
                        source: source@,
                        features: features_view(features@),
                    },
                ),
                Err(e) => e@ == "geojson contained no features"@,
            },
    {
        if features.len() == 0 {
            return Err("geojson contained no features".to_owned());
        }
        proof {
            assert(features_view(features@).len() == features@.len());
        }
        Ok(
            ImportRun {
                state: State::Begun(Job { machine_name, display_name, source, features }),
            },
        )
    }

    /// Begins the import of a document; it has to be readable and to hold features.
    pub fn begin_document(
        machine_name: String,
        display_name: String,
        source: String,
        doc: RawDocument,
    ) -> (r: Result<ImportRun, String>)
        ensures
            match stream_in(raws_in(doc@), None, Seq::empty()) {
                Ok(fs) => if fs.len() == 0 {
                    r is Err && r->Err_0@ == "geojson contained no features"@
                } else {
                    r is Ok && r->Ok_0@ == ImportRunView::Begun(
                        JobView {
                            machine_name: machine_name@,
                            display_name: display_name@,
                            source: source@,
                            features: fs,
                        },
                    )
                },
                Err(e) => r is Err && r->Err_0@ == e,
            },
    {
        let raws = document_raws(doc);
        match parse_geojson_stream(&raws, None) {
            Ok(features) => {
                proof {
                    assert(features_view(features@).len() == features@.len());
                }
                ImportRun::begin(machine_name, display_name, source, features)
            },
            Err(e) => Err(e),
        }
    }

    /// What the import asks for next.
    pub fn step(&self) -> (r: ImportStep)
        ensures
            self@.wf(),
            r@ == self@.step(),
    {
        proof {
            use_type_invariant(self);
        }
        match &self.state {
            State::Begun(_) => ImportStep::Layers,
            State::Replacing(_, _) => ImportStep::Features,
            State::Deleting(_, ids, at) => {
                proof {
                    assert(texts(ids@).skip(*at as int)[0] == ids@[*at as int]@);
                }
                ImportStep::Delete(ids[*at].clone())
            },
            State::Stacking(_) => ImportStep::Layers,
            State::Placing(job, _) => {
                let lines = import_lines(&job.features);
                proof {
                    let fs = features_view(job.features@);
                    let view = lines@.map_values(|g: Vec<Vec<Coord>>| lines_view(g@));
                    assert(view =~= lines_to_place(fs));
                }
                ImportStep::Cells(lines)
            },
            State::Opening(_, _) => ImportStep::Open,
            State::Writing(_, ops, at, _) => {
                proof {
                    assert(ops_view(ops@).skip(*at as int)[0] == ops@[*at as int]@);
                }
                ImportStep::Perform(ops[*at].copy())
            },
            State::RollingBack(_) => ImportStep::Rollback,
            State::Syncing(_, _) => ImportStep::Sync,
            State::Clearing(name, _) => ImportStep::DropCache(display_cache_name(name.as_str())),
            State::Embedding(name, _) => ImportStep::Embed(name.clone()),
            State::Finished(r) => ImportStep::Reply(copy_reply(r)),
        }
    }

    /// Goes on with what came back; there is no going on with what was not asked for.
    pub fn supply(self, event: ImportEvent) -> (r: Option<ImportRun>)
        ensures
            r is Some <==> self@.accepts(event@),
            r matches Some(next) ==> self@.leads_to(event@, next@),
    {
        proof {
            use_type_invariant(&self);
        }
        let next = match event {
            ImportEvent::Nodes(r) => take_nodes(self.state, r),
            ImportEvent::Cells(ends) => take_cells(self.state, ends),
            ImportEvent::Done(r) => take_done(self.state, r),
        };
        match next {
            Some(state) => Some(ImportRun { state }),
            None => None,
        }
    }
}

// ---------------------------------------------------------------------------
// What an import keeps to
// ---------------------------------------------------------------------------

/// An import keeps something to import, whatever comes back.
pub proof fn imports_stay_well_formed(
    run: ImportRunView,
    e: ImportEventView,
    next: ImportRunView,
)
    requires
        run.wf(),
        run.accepts(e),
        run.leads_to(e, next),
    ensures
        next.wf(),
{
    if let (ImportRunView::Replacing(job, layers), ImportEventView::Nodes(Ok(fs))) = (run, e) {
        assert(replacements(layers, fs, job.machine_name).len() > 0);
    }
}

/// An import without features deletes nothing: whatever is deleted is so by one that has some.
pub proof fn only_imports_with_features_delete(run: ImportRunView)
    requires
        run.wf(),
        run.step() is Delete,
    ensures
        run matches ImportRunView::Deleting(job, _) && job.features.len() > 0,
{
}

/// A transaction of which an operation or the commit fails is rolled back, and the import is
/// answered with the complaint, whatever becomes of the rollback.
pub proof fn failed_write_is_rolled_back(
    run: ImportRunView,
    f: FailureView,
    rolled: Result<(), FailureView>,
    next: ImportRunView,
    last: ImportRunView,
)
    requires
        run is Writing,
        run.leads_to(ImportEventView::Done(Err(f)), next),
        next.leads_to(ImportEventView::Done(rolled), last),
    ensures
        next.step() is Rollback,
        last.step() == ImportStepView::Reply(Err(complaint(TaskView::Transaction, f))),
{
}

/// Once an import is written and made to last, it is answered with its report: neither the cache nor
/// the embedding fails it.
pub proof fn extras_never_fail_an_import(
    name: Seq<char>,
    report: JsonView,
    cleared: Result<(), FailureView>,
    embedded: Result<(), FailureView>,
    next: ImportRunView,
    last: ImportRunView,
)
    requires
        ImportRunView::Clearing(name, report).leads_to(ImportEventView::Done(cleared), next),
        next.leads_to(ImportEventView::Done(embedded), last),
    ensures
        next.step() == ImportStepView::Embed(name),
        last.step() == ImportStepView::Reply(Ok(report)),
{
}

impl ImportRunView {
    /// A bound on the steps that are left.
    pub open spec fn to_do(self) -> nat {
        match self {
            ImportRunView::Deleting(_, ids) => ids.len() + 1,
            ImportRunView::Opening(_, p) => ops_of(p).len() + 6,
            ImportRunView::Writing(_, ops, _) => ops.len() + 5,
            ImportRunView::RollingBack(_) => 1,
            ImportRunView::Syncing(_, _) => 4,
            ImportRunView::Clearing(_, _) => 3,
            ImportRunView::Embedding(_, _) => 2,
            _ => 0,
        }
    }

    /// The steps from here on while all that is asked for is done, up to the first that asks for
    /// more than that.
    pub open spec fn smooth_steps(self) -> Seq<ImportStepView>
        decreases self.to_do(),
    {
        if self.awaits_done() {
            seq![self.step()] + self.after_done(Ok(())).smooth_steps()
        } else {
            seq![self.step()]
        }
    }
}

/// The nodes of a replaced layer are deleted one by one, each once, before the stack is looked at.
pub proof fn replaced_nodes_are_deleted(job: JobView, ids: Seq<Seq<char>>)
    requires
        ids.len() > 0,
    ensures
        ImportRunView::Deleting(job, ids).smooth_steps() == ids.map_values(
            |id: Seq<char>| ImportStepView::Delete(id),
        ).push(ImportStepView::Layers),
    decreases ids.len(),
{
    let run = ImportRunView::Deleting(job, ids);
    let steps = ids.map_values(|id: Seq<char>| ImportStepView::Delete(id)).push(
        ImportStepView::Layers,
    );
    if ids.len() > 1 {
        replaced_nodes_are_deleted(job, ids.drop_first());
        assert(run.smooth_steps() =~= steps);
    } else {
        let last = ImportRunView::Stacking(job);
        assert(last.smooth_steps() =~= seq![ImportStepView::Layers]);
        assert(run.smooth_steps() =~= steps);
    }
}

/// What follows a commit: the store is made to last, the cache is dropped, the features are
/// embedded, and the report is the answer.
pub open spec fn closing_steps(name: Seq<char>, report: JsonView) -> Seq<ImportStepView> {
    seq![
        ImportStepView::Sync,
        ImportStepView::DropCache("display-"@ + name + ".geojson"@),
        ImportStepView::Embed(name),
        ImportStepView::Reply(Ok(report)),
    ]
}

pub open spec fn op_steps(ops: Seq<ImportOpView>) -> Seq<ImportStepView> {
    ops.map_values(|o: ImportOpView| ImportStepView::Perform(o))
}

proof fn lemma_writing_steps(name: Seq<char>, ops: Seq<ImportOpView>, report: JsonView)
    requires
        ops.len() > 0,
    ensures
        ImportRunView::Writing(name, ops, report).smooth_steps() == op_steps(ops) + closing_steps(
            name,
            report,
        ),
    decreases ops.len(),
{
    let run = ImportRunView::Writing(name, ops, report);
    if ops.len() > 1 {
        lemma_writing_steps(name, ops.drop_first(), report);
        assert(run.smooth_steps() =~= op_steps(ops) + closing_steps(name, report));
    } else {
        let a = ImportRunView::Syncing(name, report);
        let b = ImportRunView::Clearing(name, report);
        let c = ImportRunView::Embedding(name, report);
        let d = ImportRunView::Finished(Ok(report));
        assert(d.smooth_steps() =~= seq![d.step()]);
        assert(c.smooth_steps() =~= seq![c.step(), d.step()]);
        assert(b.smooth_steps() =~= seq![b.step(), c.step(), d.step()]);
        assert(a.smooth_steps() =~= closing_steps(name, report));
        assert(run.smooth_steps() =~= op_steps(ops) + closing_steps(name, report));
    }
}

/// An import is written in one transaction: it is opened, the layer is stored, then each feature,
/// and one commit comes last; after that the store is made to last, the cached display is dropped,
/// the features are embedded and the report is the answer.
pub proof fn import_is_one_transaction(name: Seq<char>, plan: PlanView)
    ensures
        ImportRunView::Opening(name, plan).smooth_steps() == seq![ImportStepView::Open] + op_steps(
            ops_of(plan),
        ) + closing_steps(name, plan.report),
{
    lemma_writing_steps(name, ops_of(plan), plan.report);
    let run = ImportRunView::Opening(name, plan);
    assert(run.smooth_steps() =~= seq![ImportStepView::Open] + op_steps(ops_of(plan))
        + closing_steps(name, plan.report));
}

} // verus!
