//! Refusals: what a request that cannot be carried out is answered, and what an import does once it
//! is written.

use vstd::prelude::*;

#[allow(unused_imports)]
use crate::actors::import::{ops_of, PlanView};
#[allow(unused_imports)]
use crate::actors::import_run::{ImportRunView, ImportStepView};
#[allow(unused_imports)]
use crate::coordinator::request::{region_in, request_in, RegionView, RequestView};
#[allow(unused_imports)]
use crate::datasources::actor::{no_source, unknown_kind};
#[allow(unused_imports)]
use crate::datasources::codec::is_attr_node;
#[allow(unused_imports)]
use crate::datasources::store::are_source_nodes;
#[allow(unused_imports)]
use crate::datasources::SourceView;
#[allow(unused_imports)]
use crate::json::JsonView;
#[allow(unused_imports)]
use crate::laws::requests::{lemma_methods, lemma_predicates};
#[allow(unused_imports)]
use crate::models::NodeView;
#[allow(unused_imports)]
use crate::tasks::FailureView;
#[allow(unused_imports)]
use crate::text::join;

verus! {

// ---------------------------------------------------------------------------
// Parameters
// ---------------------------------------------------------------------------

/// A refused request, with the words of the refusal.
pub open spec fn refuses(method: Seq<char>, params: JsonView, words: Seq<char>) -> bool {
    request_in(method, params) == Err::<RequestView, Seq<char>>(words)
}

/// A request without the parameter that it needs is refused, and the refusal names the request and
/// the parameter.
pub proof fn a_refusal_names_the_parameter(params: JsonView)
    ensures
        !(params.get("id"@) matches Some(JsonView::Str(_))) ==> {
            &&& refuses("gis/delete-layer"@, params, "delete-layer requires 'id'"@)
            &&& refuses("gis/get-feature"@, params, "get-feature requires 'id'"@)
            &&& refuses("gis/reorder-layer"@, params, "reorder-layer requires 'id'"@)
            &&& refuses("gis/datasource/get"@, params, "datasource/get requires 'id'"@)
            &&& refuses("gis/datasource/update"@, params, "datasource/update requires 'id'"@)
            &&& refuses("gis/datasource/delete"@, params, "datasource/delete requires 'id'"@)
            &&& refuses("gis/datasource/discover"@, params, "datasource/discover requires 'id'"@)
            &&& refuses("gis/datasource/fetch"@, params, "datasource/fetch requires 'id'"@)
        },
        !(params.get("name"@) matches Some(JsonView::Str(_))) ==> refuses(
            "gis/merge-layer"@,
            params,
            "merge-layer requires 'name'"@,
        ),
        !(params.get("path"@) matches Some(JsonView::Str(_))) ==> refuses(
            "gis/import-geojson-file"@,
            params,
            "import-geojson-file requires 'path'"@,
        ),
        !(params.get("dataset_id"@) matches Some(JsonView::Str(_))) ==> refuses(
            "gis/import-datagov"@,
            params,
            "import-datagov requires 'dataset_id'"@,
        ),
        !(params.get("kind"@) matches Some(JsonView::Str(_))) ==> refuses(
            "gis/datasource/add"@,
            params,
            "datasource/add requires 'kind'"@,
        ),
        (params.get("kind"@) matches Some(JsonView::Str(_))) && !(params.get("label"@) matches Some(
            JsonView::Str(_),
        )) ==> refuses("gis/datasource/add"@, params, "datasource/add requires 'label'"@),
        !(params.get("layer"@) matches Some(JsonView::Str(_))) ==> refuses(
            "gis/get-layer-geojson"@,
            params,
            "get-layer-geojson requires 'layer'"@,
        ),
        !(params.get("min_lng"@) matches Some(JsonView::Number(_))) ==> refuses(
            "gis/spatial-query"@,
            params,
            "spatial-query requires 'min_lng'"@,
        ),
        params.get("z"@) is None ==> refuses("gis/get-tile"@, params, "get-tile requires 'z'"@),
{
    lemma_methods();
    reveal_strlit("");
}

/// A text that is asked for may not be blank.
pub proof fn a_blank_text_is_refused(params: JsonView)
    requires
        !(params.get("text"@) matches Some(JsonView::Str(_))),
    ensures
        refuses("gis/nl-query"@, params, "nl-query requires 'text'"@),
        refuses("gis/semantic-search"@, params, "semantic-search requires 'text'"@),
{
    lemma_methods();
    reveal_strlit("");
    crate::laws::texts::trimming_takes_white_space_alone(""@);
}

/// A refused region, with the words of the refusal.
pub open spec fn refuses_region(
    predicate: Seq<char>,
    region: JsonView,
    limit: usize,
    words: Seq<char>,
) -> bool {
    region_in(predicate, region, limit) == Err::<RegionView, Seq<char>>(words)
}

/// A region that its predicate cannot take is refused, and the refusal says what is missing in it.
pub proof fn a_refusal_says_what_a_region_lacks(
    predicate: Seq<char>,
    region: JsonView,
    limit: usize,
    a: Seq<JsonView>,
)
    ensures
        region.get("bbox"@) is None ==> refuses_region(
            "bbox"@,
            region,
            limit,
            "gis/query bbox requires region.bbox [minLng,minLat,maxLng,maxLat]"@,
        ),
        region.get("bbox"@) == Some(JsonView::Array(a)) && a.len() < 4 ==> refuses_region(
            "bbox"@,
            region,
            limit,
            "region.bbox must be 4 numbers"@,
        ),
        region.get("center"@) is None ==> refuses_region(
            "radius"@,
            region,
            limit,
            "gis/query requires region."@ + "center"@ + " [lng, lat]"@,
        ) && refuses_region(
            "nearest"@,
            region,
            limit,
            "gis/query requires region."@ + "center"@ + " [lng, lat]"@,
        ),
        region.get("center"@) == Some(JsonView::Array(a)) && a.len() == 0 ==> refuses_region(
            "nearest"@,
            region,
            limit,
            "region."@ + "center"@ + "[0] must be a number"@,
        ),
        region.get("center"@) == Some(JsonView::Array(a)) && a.len() == 1 && a[0] is Number
            ==> refuses_region(
            "nearest"@,
            region,
            limit,
            "region."@ + "center"@ + "[1] must be a number"@,
        ),
        region.get("geometry"@) is None ==> refuses_region(
            "contains"@,
            region,
            limit,
            "gis/query contains/intersects requires region.geometry"@,
        ),
        region.get("reference"@) is None ==> refuses_region(
            "near"@,
            region,
            limit,
            "gis/query near requires region.reference.{layers|classes}"@,
        ),
        predicate != "bbox"@ && predicate != "radius"@ && predicate != "nearest"@ && predicate
            != "contains"@ && predicate != "intersects"@ && predicate != "near"@ && predicate
            != "near_class"@ && predicate != "near_layer"@ ==> refuses_region(
            predicate,
            region,
            limit,
            "gis/query: unknown predicate '"@ + predicate + "'"@,
        ),
{
    lemma_predicates();
}

// ---------------------------------------------------------------------------
// Data sources
// ---------------------------------------------------------------------------

/// A data source that is not there is refused by its id, and a kind that no driver has by its name,
/// with the kinds that there are.
pub proof fn an_unknown_source_is_named(id: Seq<char>, kinds: Seq<Seq<char>>)
    ensures
        no_source(id) == "no data source with id '"@ + id + "'"@,
        unknown_kind(id, kinds) == "unknown data source kind '"@ + id + "'; available: "@ + join(
            kinds,
            ", "@,
        ),
{
}

/// A definition is stored as its own node and one for each attribute that was discovered, in
/// order.
pub proof fn a_definition_is_stored_with_its_attributes(
    nodes: Seq<NodeView>,
    s: SourceView,
    schema: Seq<(Seq<char>, JsonView)>,
)
    requires
        are_source_nodes(nodes, s),
        s.discovered matches Some(d) && d.schema == JsonView::Object(schema),
    ensures
        nodes.len() == schema.len() + 1,
        nodes[0].id == s.id,
        forall|i: int|
            1 <= i < nodes.len() ==> (#[trigger] nodes[i]).node_type == "DataSourceAttribute"@
                && nodes[i].name == schema[i - 1].0 && nodes[i].subtype == Some(s.kind),
{
    assert forall|i: int| 1 <= i < nodes.len() implies (#[trigger] nodes[i]).node_type
        == "DataSourceAttribute"@ && nodes[i].name == schema[i - 1].0 && nodes[i].subtype == Some(
        s.kind,
    ) by {
        assert(is_attr_node(nodes.skip(1)[i - 1], s, schema[i - 1]));
    }
}

/// A definition without a discovery is stored as its own node alone.
pub proof fn a_bare_definition_is_one_node(nodes: Seq<NodeView>, s: SourceView)
    requires
        are_source_nodes(nodes, s),
        s.discovered is None,
    ensures
        nodes.len() == 1,
        nodes[0].id == s.id,
{
}

// ---------------------------------------------------------------------------
// The end of an import
// ---------------------------------------------------------------------------

/// Once its writes last, an import drops what is kept for display under the layer's name, embeds
/// the layer and replies with its report.
pub proof fn an_import_ends_with_its_report(
    name: Seq<char>,
    report: JsonView,
    cleared: Result<(), FailureView>,
    embedded: Result<(), FailureView>,
)
    ensures
        ({
            let synced = ImportRunView::Syncing(name, report);
            let clearing = synced.after_done(Ok(()));
            let embedding = clearing.after_done(cleared);
            &&& synced.step() is Sync
            &&& clearing.step() == ImportStepView::DropCache("display-"@ + name + ".geojson"@)
            &&& embedding.step() == ImportStepView::Embed(name)
            &&& embedding.after_done(embedded).step() == ImportStepView::Reply(Ok(report))
        }),
{
}

/// A plan is written operation by operation, and then made to last.
pub proof fn a_plan_is_written_in_order(name: Seq<char>, p: PlanView, k: int)
    requires
        0 <= k < ops_of(p).len(),
    ensures
        ImportRunView::Opening(name, p).step() is Open,
        ImportRunView::Opening(name, p).after_done(Ok(())) == ImportRunView::Writing(
            name,
            ops_of(p).skip(0),
            p.report,
        ),
        ImportRunView::Writing(name, ops_of(p).skip(k), p.report).step()
            == ImportStepView::Perform(ops_of(p)[k]),
        ImportRunView::Writing(name, ops_of(p).skip(k), p.report).after_done(Ok(())) == (if k + 1
            < ops_of(p).len() {
            ImportRunView::Writing(name, ops_of(p).skip(k + 1), p.report)
        } else {
            ImportRunView::Syncing(name, p.report)
        }),
{
    assert(ops_of(p).skip(0) =~= ops_of(p));
    assert(ops_of(p).skip(k).drop_first() =~= ops_of(p).skip(k + 1));
}

} // verus!
