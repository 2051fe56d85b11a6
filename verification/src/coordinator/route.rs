//! Carrying a request out: what the services are asked, in which order, and what becomes of their
//! answers.

use vstd::prelude::*;

use crate::actors::layer::{layers_json, LayerInfo};
use crate::coordinator::features::get_feature;
use crate::coordinator::language::{interpret_answer, nl_prompt, with_summary, NlPlan};
use crate::coordinator::query::{layers_to_ask, query_reply, semantic_reply, Hit, Scored};
use crate::coordinator::reply::{display_cache_name, flag_reply, spatial_reply, tile_reply};
use crate::coordinator::request::{parse_query, store_limit, Query, Region};
use crate::datasources::actor::{
    info_json, opt_source_json, source_json, sources_json, texts_json,
};
use crate::datasources::{copy_texts, DataSource, DatasetInfo};
use crate::json::{Json, Real};
use crate::models::AttrNode;
use crate::tasks::{answer, Failure, Task};
use crate::text::text_of_bytes;
#[allow(unused_imports)]
use crate::actors::layer::{infos_out, infos_view};
#[allow(unused_imports)]
use crate::coordinator::features::{inspection, json_result, opt_json};
#[allow(unused_imports)]
use crate::coordinator::language::{json_in, plan_in, prompt_for, summarized, NlPlanView};
#[allow(unused_imports)]
use crate::coordinator::query::{
    asked_layers, hits_view, kept_hits, reply_out, scored_view, semantic_out, HitView,
};
#[allow(unused_imports)]
use crate::coordinator::reply::{flag_out, spatial_out, tile_out};
#[allow(unused_imports)]
use crate::coordinator::request::{fetch_limit, query_in, text_result, QueryView, RegionView};
#[allow(unused_imports)]
use crate::datasources::actor::{info_out, source_out, sources_out, texts_out};
#[allow(unused_imports)]
use crate::datasources::store::{opt_node_view, sources_view};
#[allow(unused_imports)]
use crate::grouping::opt_texts;
#[allow(unused_imports)]
use crate::json::{opt_view, read_text, JsonView};
#[allow(unused_imports)]
use crate::models::nodes_view;
#[allow(unused_imports)]
use crate::tasks::{complaint, TaskView};
#[allow(unused_imports)]
use crate::text::texts;
#[allow(unused_imports)]
use vstd::utf8::{decode_utf8, valid_utf8};

verus! {

// ---------------------------------------------------------------------------
// Requests with one task
// ---------------------------------------------------------------------------

/// The reply to a catalog request.
pub fn list_reply(r: Result<Vec<LayerInfo>, Failure>) -> (out: Result<Json, String>)
    ensures
        json_result(out) == match r {
            Ok(infos) => Ok(infos_out(infos_view(infos@))),
            Err(f) => Err(complaint(TaskView::ListLayers, f@)),
        },
{
    match answer(&Task::ListLayers, r) {
        Ok(infos) => Ok(layers_json(&infos)),
        Err(e) => Err(e),
    }
}

/// The reply once a layer is deleted.
pub fn delete_reply(r: Result<(), Failure>) -> (out: Result<Json, String>)
    ensures
        json_result(out) == match r {
            Ok(_) => Ok(flag_out("deleted"@)),
            Err(f) => Err(complaint(TaskView::DeleteLayer, f@)),
        },
{
    match answer(&Task::DeleteLayer, r) {
        Ok(_) => Ok(flag_reply("deleted")),
        Err(e) => Err(e),
    }
}

/// The reply once a layer is moved: the new catalog.
pub fn reorder_reply(r: Result<Vec<LayerInfo>, Failure>) -> (out: Result<Json, String>)
    ensures
        json_result(out) == match r {
            Ok(infos) => Ok(infos_out(infos_view(infos@))),
            Err(f) => Err(complaint(TaskView::ReorderLayer, f@)),
        },
{
    match answer(&Task::ReorderLayer, r) {
        Ok(infos) => Ok(layers_json(&infos)),
        Err(e) => Err(e),
    }
}

/// The reply to a task whose answer is handed on as it is: merging, importing, fetching.
pub fn report_reply(t: &Task, r: Result<Json, Failure>) -> (out: Result<Json, String>)
    ensures
        json_result(out) == match r {
            Ok(report) => Ok(report@),
            Err(f) => Err(complaint(t@, f@)),
        },
{
    answer(t, r)
}

/// The reply with the kinds of data sources.
pub fn kinds_reply(r: Result<Vec<String>, Failure>) -> (out: Result<Json, String>)
    ensures
        json_result(out) == match r {
            Ok(kinds) => Ok(texts_out(texts(kinds@))),
            Err(f) => Err(complaint(TaskView::SourceKinds, f@)),
        },
{
    match answer(&Task::SourceKinds, r) {
        Ok(kinds) => Ok(texts_json(&kinds)),
        Err(e) => Err(e),
    }
}

/// The reply with all data sources.
pub fn sources_reply(r: Result<Vec<DataSource>, Failure>) -> (out: Result<Json, String>)
    ensures
        json_result(out) == match r {
            Ok(sources) => Ok(sources_out(sources_view(sources@))),
            Err(f) => Err(complaint(TaskView::SourceList, f@)),
        },
{
    match answer(&Task::SourceList, r) {
        Ok(sources) => Ok(sources_json(&sources)),
        Err(e) => Err(e),
    }
}

/// The reply with the data source of an id, null where there is none.
pub fn source_reply(r: Result<Option<DataSource>, Failure>) -> (out: Result<Json, String>)
    ensures
        json_result(out) == match r {
            Ok(Some(source)) => Ok(source_out(source@)),
            Ok(None) => Ok(JsonView::Null),
            Err(f) => Err(complaint(TaskView::SourceGet, f@)),
        },
{
    match answer(&Task::SourceGet, r) {
        Ok(source) => Ok(opt_source_json(&source)),
        Err(e) => Err(e),
    }
}

/// The reply once a data source is added or updated: its definition.
pub fn stored_reply(t: &Task, r: Result<DataSource, Failure>) -> (out: Result<Json, String>)
    ensures
        json_result(out) == match r {
            Ok(source) => Ok(source_out(source@)),
            Err(f) => Err(complaint(t@, f@)),
        },
{
    match answer(t, r) {
        Ok(source) => Ok(source_json(&source)),
        Err(e) => Err(e),
    }
}

/// The reply once a data source is deleted.
pub fn source_deleted_reply(r: Result<(), Failure>) -> (out: Result<Json, String>)
    ensures
        json_result(out) == match r {
            Ok(_) => Ok(flag_out("ok"@)),
            Err(f) => Err(complaint(TaskView::SourceDelete, f@)),
        },
{
    match answer(&Task::SourceDelete, r) {
        Ok(_) => Ok(flag_reply("ok")),
        Err(e) => Err(e),
    }
}

/// The reply with what was discovered in a data source.
pub fn discovered_reply(r: Result<DatasetInfo, Failure>) -> (out: Result<Json, String>)
    ensures
        json_result(out) == match r {
            Ok(info) => Ok(info_out(info@)),
            Err(f) => Err(complaint(TaskView::SourceDiscover, f@)),
        },
{
    match answer(&Task::SourceDiscover, r) {
        Ok(info) => Ok(info_json(&info)),
        Err(e) => Err(e),
    }
}

/// The reply with a vector tile.
pub fn tile_answer(r: Result<Vec<u8>, Failure>) -> (out: Result<Json, String>)
    ensures
        json_result(out) == match r {
            Ok(bytes) => Ok(tile_out(bytes@)),
            Err(f) => Err(complaint(TaskView::Tile, f@)),
        },
{
    match answer(&Task::Tile, r) {
        Ok(bytes) => Ok(tile_reply(&bytes)),
        Err(e) => Err(e),
    }
}

/// The reply to a search by meaning.
pub fn search_answer(
    text: &str,
    scope: &str,
    layer: &Option<String>,
    limit: usize,
    r: Result<Vec<Scored>, Failure>,
) -> (out: Result<Json, String>)
    ensures
        json_result(out) == match r {
            Ok(found) => Ok(
                semantic_out(text@, scope@, opt_view(*layer), limit as int, scored_view(found@)),
            ),
            Err(f) => Err(complaint(TaskView::Search, f@)),
        },
{
    match answer(&Task::Search, r) {
        Ok(found) => Ok(semantic_reply(text, scope, layer, limit, found)),
        Err(e) => Err(e),
    }
}

/// What the store finds in a box: the nodes, how many there are, and whether some were left out.
#[derive(Debug, PartialEq)]
pub struct Found {
    pub nodes: Vec<AttrNode>,
    pub total: u64,
    pub truncated: bool,
}

/// The reply to a query for a box.
pub fn box_answer(r: Result<Found, Failure>) -> (out: Result<Json, String>)
    ensures
        json_result(out) == match r {
            Ok(found) => Ok(
                spatial_out(nodes_view(found.nodes@), found.total as int, found.truncated),
            ),
            Err(f) => Err(complaint(TaskView::Box, f@)),
        },
{
    match answer(&Task::Box, r) {
        Ok(found) => Ok(spatial_reply(&found.nodes, found.total, found.truncated)),
        Err(e) => Err(e),
    }
}

/// The reply with all that is known of a feature.
pub fn feature_answer(id: &str, r: Result<Option<AttrNode>, Failure>) -> (out: Result<Json, String>)
    ensures
        json_result(out) == match r {
            Ok(node) => inspection(opt_node_view(node), id@),
            Err(f) => Err(complaint(TaskView::Feature, f@)),
        },
{
    match answer(&Task::Feature, r) {
        Ok(node) => get_feature(&node, id),
        Err(e) => Err(e),
    }
}

// ---------------------------------------------------------------------------
// The features of a layer
// ---------------------------------------------------------------------------

/// The file that caches the features of a layer: only thinned features without their properties
/// are cached.
pub fn cache_file(layer: &str, simplify: &Option<Real>, drop_props: bool) -> (r: Option<String>)
    ensures
        opt_view(r) == (if *simplify is Some && drop_props {
            Some("display-"@ + layer@ + ".geojson"@)
        } else {
            None::<Seq<char>>
        }),
{
    match simplify {
        Some(_) => if drop_props {
            Some(display_cache_name(layer))
        } else {
            None
        },
        None => None,
    }
}

/// What a cache file holds, if it can be read as JSON.
pub open spec fn cached_in(bytes: Seq<u8>) -> Option<JsonView> {
    if valid_utf8(bytes) {
        match read_text(decode_utf8(bytes)) {
            Ok(v) => Some(v),
            Err(_) => None,
        }
    } else {
        None
    }
}

/// The reply that a cache file holds; nothing where it cannot be read, so that the reply is made
/// anew.
pub fn cached_reply(bytes: &Vec<u8>) -> (r: Option<Json>)
    ensures
        opt_json(r) == cached_in(bytes@),
{
    match text_of_bytes(bytes) {
        Ok(text) => match Json::parse(text.as_str()) {
            Ok(reply) => Some(reply),
            Err(_) => None,
        },
        Err(_) => None,
    }
}

// ---------------------------------------------------------------------------
// Spatial queries
// ---------------------------------------------------------------------------

impl Region {
    /// A copy of the region.
    pub fn copy(&self) -> (r: Self)
        ensures
            r@ == self@,
    {
        match self {
            Region::Bbox(a, b) => Region::Bbox(a.copy(), b.copy()),
            Region::Radius { center, radius_m } => Region::Radius {
                center: center.copy(),
                radius_m: radius_m.copy(),
            },
            Region::Nearest { center, k } => Region::Nearest { center: center.copy(), k: *k },
            Region::Contains(g) => Region::Contains(g.copy()),
            Region::Intersects(g) => Region::Intersects(g.copy()),
            Region::Near { layers, classes, radius_m } => Region::Near {
                layers: copy_texts(layers),
                classes: copy_texts(classes),
                radius_m: radius_m.copy(),
            },
        }
    }
}

/// What is done with the reply of a query before it is sent.
#[derive(Debug, PartialEq)]
pub enum Finish {
    Plain,
    /// The query came from a language model, which may have summed it up.
    Summarized(Option<String>),
}

pub enum FinishView {
    Plain,
    Summarized(Option<Seq<char>>),
}

impl View for Finish {
    type V = FinishView;

    open spec fn view(&self) -> FinishView {
        match self {
            Finish::Plain => FinishView::Plain,
            Finish::Summarized(s) => FinishView::Summarized(opt_view(*s)),
        }
    }
}

/// A spatial query on its way: the store is asked layer by layer, and what it finds is gathered.
#[derive(Debug, PartialEq)]
pub struct QueryRun {
    pub query: Query,
    pub finish: Finish,
    /// The layers that are still to be asked about, the next one last.
    pub waiting: Vec<Option<String>>,
    pub found: Vec<Hit>,
}

#[verifier::ext_equal]
pub struct QueryRunView {
    pub query: QueryView,
    pub finish: FinishView,
    pub waiting: Seq<Option<Seq<char>>>,
    pub found: Seq<HitView>,
}

impl View for QueryRun {
    type V = QueryRunView;

    open spec fn view(&self) -> QueryRunView {
        QueryRunView {
            query: self.query@,
            finish: self.finish@,
            waiting: opt_texts(self.waiting@),
            found: hits_view(self.found@),
        }
    }
}

/// The question for the store: a region, a layer or all of them, and how many results at most.
#[derive(Debug, PartialEq)]
pub struct RegionAsk {
    pub region: Region,
    pub layer: Option<String>,
    pub limit: usize,
    /// The layers and classes of the query, by which a search around other features is narrowed.
    pub layers: Vec<String>,
    pub classes: Vec<String>,
}

#[verifier::ext_equal]
pub struct RegionAskView {
    pub region: RegionView,
    pub layer: Option<Seq<char>>,
    pub limit: int,
    pub layers: Seq<Seq<char>>,
    pub classes: Seq<Seq<char>>,
}

impl View for RegionAsk {
    type V = RegionAskView;

    open spec fn view(&self) -> RegionAskView {
        RegionAskView {
            region: self.region@,
            layer: opt_view(self.layer),
            limit: self.limit as int,
            layers: texts(self.layers@),
            classes: texts(self.classes@),
        }
    }
}

/// What a query does next.
#[derive(Debug, PartialEq)]
pub enum QueryStep {
    /// It asks the store, and goes on with the answer.
    Ask(QueryRun, RegionAsk),
    Reply(Json),
}

pub enum QueryStepView {
    Ask(QueryRunView, RegionAskView),
    Reply(JsonView),
}

impl View for QueryStep {
    type V = QueryStepView;

    open spec fn view(&self) -> QueryStepView {
        match self {
            QueryStep::Ask(run, ask) => QueryStepView::Ask(run@, ask@),
            QueryStep::Reply(j) => QueryStepView::Reply(j@),
        }
    }
}

/// The reply of a query with what has to be done with it.
pub open spec fn finished(q: QueryView, f: FinishView, found: Seq<HitView>) -> JsonView {
    let reply = reply_out(q, kept_hits(q, found));
    match f {
        FinishView::Plain => reply,
        FinishView::Summarized(s) => summarized(reply, s),
    }
}

impl QueryRunView {
    pub open spec fn begin(q: QueryView, f: FinishView) -> QueryRunView {
        QueryRunView {
            query: q,
            finish: f,
            waiting: asked_layers(q).reverse(),
            found: Seq::empty(),
        }
    }

    /// What the query does next.
    pub open spec fn step(self) -> QueryStepView {
        if self.waiting.len() > 0 {
            QueryStepView::Ask(
                QueryRunView { waiting: self.waiting.drop_last(), ..self },
                RegionAskView {
                    region: self.query.region,
                    layer: self.waiting.last(),
                    limit: fetch_limit(self.query),
                    layers: self.query.layers,
                    classes: self.query.classes,
                },
            )
        } else {
            QueryStepView::Reply(finished(self.query, self.finish, self.found))
        }
    }

    /// The query once the store has answered.
    pub open spec fn with_hits(self, hits: Seq<HitView>) -> QueryRunView {
        QueryRunView { found: self.found + hits, ..self }
    }
}

fn reversed(v: Vec<Option<String>>) -> (r: Vec<Option<String>>)
    ensures
        opt_texts(r@) == opt_texts(v@).reverse(),
{
    let mut v = v;
    let ghost all = v@;
    let mut out: Vec<Option<String>> = Vec::new();
    while v.len() > 0
        invariant
            v@.len() + out@.len() == all.len(),
            v@ == all.take(v@.len() as int),
            forall|k: int| 0 <= k < out@.len() ==> out@[k] == all[all.len() - 1 - k],
        decreases v@.len(),
    {
        match v.pop() {
            Some(x) => {
                out.push(x);
            },
            None => {},
        }
    }
    proof {
        assert(opt_texts(out@) =~= opt_texts(all).reverse());
    }
    out
}

impl QueryRun {
    /// A query that has not asked anything yet.
    pub fn new(query: Query, finish: Finish) -> (r: Self)
        ensures
            r@ == QueryRunView::begin(query@, finish@),
    {
        let waiting = reversed(layers_to_ask(&query));
        let found: Vec<Hit> = Vec::new();
        proof {
            assert(hits_view(found@) =~= Seq::empty());
        }
        QueryRun { query, finish, waiting, found }
    }

    /// What the query does next.
    pub fn step(self) -> (r: QueryStep)
        ensures
            r@ == self@.step(),
    {
        let QueryRun { query, finish, waiting, found } = self;
        let mut waiting = waiting;
        let ghost w = waiting@;
        proof {
            assert(opt_texts(w).len() == w.len());
        }
        match waiting.pop() {
            Some(layer) => {
                proof {
                    assert(opt_texts(waiting@) =~= opt_texts(w).drop_last());
                    assert(opt_texts(w).last() == opt_view(layer));
                }
                let ask = RegionAsk {
                    region: query.region.copy(),
                    layer,
                    limit: store_limit(&query),
                    layers: copy_texts(&query.layers),
                    classes: copy_texts(&query.classes),
                };
                QueryStep::Ask(QueryRun { query, finish, waiting, found }, ask)
            },
            None => {
                let reply = query_reply(&query, found);
                QueryStep::Reply(
                    match &finish {
                        Finish::Plain => reply,
                        Finish::Summarized(s) => with_summary(reply, s),
                    },
                )
            },
        }
    }

    /// Takes in what the store found, or ends with the complaint.
    pub fn supply(self, r: Result<Vec<Hit>, Failure>) -> (out: Result<Self, String>)
        ensures
            match r {
                Ok(hits) => out is Ok && out->Ok_0@ == self@.with_hits(hits_view(hits@)),
                Err(f) => out is Err && out->Err_0@ == complaint(TaskView::Region, f@),
            },
    {
        let mut hits = match answer(&Task::Region, r) {
            Ok(hits) => hits,
            Err(e) => {
                return Err(e);
            },
        };
        let QueryRun { query, finish, waiting, found } = self;
        let mut found = found;
        let ghost f = found@;
        let ghost h = hits@;
        found.append(&mut hits);
        proof {
            assert(hits_view(found@) =~= hits_view(f) + hits_view(h));
        }
        Ok(QueryRun { query, finish, waiting, found })
    }
}

/// All that a query gathers once the store has answered about every layer, in order.
pub open spec fn gathered(answers: Seq<Seq<HitView>>) -> Seq<HitView>
    decreases answers.len(),
{
    if answers.len() == 0 {
        Seq::empty()
    } else {
        answers[0] + gathered(answers.skip(1))
    }
}

/// A query carried through to its end: it asks, takes in the answer, and asks again.
pub open spec fn carried_out(run: QueryRunView, answers: Seq<Seq<HitView>>) -> JsonView
    decreases answers.len(),
{
    match run.step() {
        QueryStepView::Reply(j) => j,
        QueryStepView::Ask(next, _) => if answers.len() == 0 {
            JsonView::Null
        } else {
            carried_out(next.with_hits(answers[0]), answers.skip(1))
        },
    }
}

proof fn lemma_carried_out(run: QueryRunView, answers: Seq<Seq<HitView>>)
    requires
        answers.len() == run.waiting.len(),
    ensures
        carried_out(run, answers) == finished(
            run.query,
            run.finish,
            run.found + gathered(answers),
        ),
    decreases answers.len(),
{
    if answers.len() == 0 {
        assert(run.found + gathered(answers) =~= run.found);
    } else {
        let next = QueryRunView { waiting: run.waiting.drop_last(), ..run }.with_hits(answers[0]);
        lemma_carried_out(next, answers.skip(1));
        assert(next.found + gathered(answers.skip(1)) =~= run.found + gathered(answers));
    }
}

/// A query asks the store once about each of its layers and replies with what all the answers
/// hold together, in the order of the layers.
pub proof fn query_gathers_every_layer(
    q: QueryView,
    f: FinishView,
    answers: Seq<Seq<HitView>>,
)
    requires
        answers.len() == asked_layers(q).len(),
    ensures
        carried_out(QueryRunView::begin(q, f), answers) == finished(q, f, gathered(answers)),
{
    let run = QueryRunView::begin(q, f);
    lemma_carried_out(run, answers);
    assert(run.found + gathered(answers) =~= gathered(answers));
}

// ---------------------------------------------------------------------------
// Queries in natural language
// ---------------------------------------------------------------------------

/// The prompt once the catalog is there.
pub fn catalog_answer(
    text: &str,
    viewport: &Json,
    r: Result<Vec<LayerInfo>, Failure>,
) -> (out: Result<String, String>)
    ensures
        text_result(out) == match r {
            Ok(infos) => Ok(prompt_for(infos_view(infos@), viewport@, text@)),
            Err(f) => Err(complaint(TaskView::Catalog, f@)),
        },
{
    match answer(&Task::Catalog, r) {
        Ok(infos) => Ok(nl_prompt(&infos, viewport, text)),
        Err(e) => Err(e),
    }
}

/// What becomes of the answer of a language model.
#[derive(Debug, PartialEq)]
pub enum NlStep {
    Reply(Json),
    /// A spatial query is carried out.
    Run(QueryRun),
}

pub enum NlStepView {
    Reply(JsonView),
    Run(QueryRunView),
}

impl View for NlStep {
    type V = NlStepView;

    open spec fn view(&self) -> NlStepView {
        match self {
            NlStep::Reply(j) => NlStepView::Reply(j@),
            NlStep::Run(run) => NlStepView::Run(run@),
        }
    }
}

/// What becomes of the answer of a language model: it passes, or its query is carried out as if a
/// client had sent it, and its summary is added.
pub open spec fn nl_step(plan: Result<NlPlanView, Seq<char>>) -> Result<NlStepView, Seq<char>> {
    match plan {
        Err(e) => Err(e),
        Ok(NlPlanView::Fallback) => Ok(NlStepView::Reply(flag_out("fallback"@))),
        Ok(NlPlanView::Run { params, summary }) => match query_in(params) {
            Err(e) => Err(e),
            Ok(q) => Ok(NlStepView::Run(QueryRunView::begin(q, FinishView::Summarized(summary)))),
        },
    }
}

pub open spec fn nl_result(r: Result<NlStep, String>) -> Result<NlStepView, Seq<char>> {
    match r {
        Ok(s) => Ok(s@),
        Err(e) => Err(e@),
    }
}

/// Carries out what a language model asks for.
pub fn follow_plan(plan: Result<NlPlan, String>) -> (out: Result<NlStep, String>)
    ensures
        nl_result(out) == nl_step(crate::coordinator::language::plan_result(plan)),
{
    match plan {
        Err(e) => Err(e),
        Ok(NlPlan::Fallback) => Ok(NlStep::Reply(flag_reply("fallback"))),
        Ok(NlPlan::Run { params, summary }) => match parse_query(&params) {
            Err(e) => Err(e),
            Ok(q) => Ok(NlStep::Run(QueryRun::new(q, Finish::Summarized(summary)))),
        },
    }
}

/// What becomes of the answer of the language model.
pub fn completion_answer(r: Result<String, Failure>) -> (out: Result<NlStep, String>)
    ensures
        nl_result(out) == match r {
            Ok(text) => nl_step(plan_in(json_in(text@))),
            Err(f) => Err(complaint(TaskView::Completion, f@)),
        },
{
    match answer(&Task::Completion, r) {
        Ok(text) => follow_plan(interpret_answer(text.as_str())),
        Err(e) => Err(e),
    }
}

// ---------------------------------------------------------------------------
// Reindexing
// ---------------------------------------------------------------------------

/// A part of a reindexing.
#[derive(Debug, PartialEq)]
pub enum Phase {
    /// The vector index is registered, so that what is written next can be searched.
    EnsureIndex,
    /// All nodes of a type are embedded.
    Embed(String),
    RebuildIndexes,
    /// All that was written is made to last.
    Sync,
}

pub enum PhaseView {
    EnsureIndex,
    Embed(Seq<char>),
    RebuildIndexes,
    Sync,
}

impl View for Phase {
    type V = PhaseView;

    open spec fn view(&self) -> PhaseView {
        match self {
            Phase::EnsureIndex => PhaseView::EnsureIndex,
            Phase::Embed(kind) => PhaseView::Embed(kind@),
            Phase::RebuildIndexes => PhaseView::RebuildIndexes,
            Phase::Sync => PhaseView::Sync,
        }
    }
}

/// The parts of a reindexing, in order.
pub fn reindex_phases() -> (r: Vec<Phase>)
    ensures
        r@.map_values(|p: Phase| p@) == seq![
            PhaseView::EnsureIndex,
            PhaseView::Embed("Feature"@),
            PhaseView::Embed("Layer"@),
            PhaseView::RebuildIndexes,
            PhaseView::Sync,
        ],
{
    let mut out: Vec<Phase> = Vec::new();
    out.push(Phase::EnsureIndex);
    out.push(Phase::Embed("Feature".to_owned()));
    out.push(Phase::Embed("Layer".to_owned()));
    out.push(Phase::RebuildIndexes);
    out.push(Phase::Sync);
    proof {
        assert(out@.map_values(|p: Phase| p@) =~= seq![
            PhaseView::EnsureIndex,
            PhaseView::Embed("Feature"@),
            PhaseView::Embed("Layer"@),
            PhaseView::RebuildIndexes,
            PhaseView::Sync,
        ]);
    }
    out
}

} // verus!
