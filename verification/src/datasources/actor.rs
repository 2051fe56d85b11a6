//! What the data source service does with a request once definitions are read and drivers have
//! answered.

use vstd::prelude::*;

use crate::datasources::{
    DataSource, DatasetInfo, DatasetPayload, Discovery, DriverRegistry, RefreshPolicy,
};
use crate::json::{Json, JsonObject};
use crate::tasks::{answer, Failure, Task};
use crate::text::{concat, concat3, joined};
#[allow(unused_imports)]
use crate::datasources::{DiscoveryView, InfoView, SourceView};
#[allow(unused_imports)]
use crate::json::{array_view, int_json, no_entries, opt_view, str_json, JsonView};
#[allow(unused_imports)]
use crate::stamp::{is_stamp, uuid_shape};
#[allow(unused_imports)]
use crate::tasks::{complaint, TaskView};
#[allow(unused_imports)]
use crate::text::{join, texts};
#[allow(unused_imports)]
use crate::textmap::{has_key, keys, lookup, put};

verus! {

/// The complaint about a kind that no driver has.
pub open spec fn unknown_kind(kind: Seq<char>, kinds: Seq<Seq<char>>) -> Seq<char> {
    "unknown data source kind '"@ + kind + "'; available: "@ + join(kinds, ", "@)
}

/// The driver of a kind.
pub fn driver<'a, D>(drivers: &'a DriverRegistry<D>, kind: &str) -> (r: Result<&'a D, String>)
    ensures
        match r {
            Ok(d) => lookup(drivers@, kind@) == Some(*d),
            Err(e) => lookup(drivers@, kind@) is None && e@ == unknown_kind(
                kind@,
                keys(drivers@),
            ),
        },
{
    match drivers.get(kind) {
        Some(d) => Ok(d),
        None => {
            let front = concat3("unknown data source kind '", kind, "'; available: ");
            Err(concat(front.as_str(), joined(&drivers.kinds(), ", ").as_str()))
        },
    }
}

/// The complaint about an id under which there is no definition.
pub open spec fn no_source(id: Seq<char>) -> Seq<char> {
    "no data source with id '"@ + id + "'"@
}

/// The definition that a request is about.
pub fn require_source(source: Option<DataSource>, id: &str) -> (r: Result<DataSource, String>)
    ensures
        match r {
            Ok(s) => source == Some(s),
            Err(e) => source is None && e@ == no_source(id@),
        },
{
    match source {
        Some(s) => Ok(s),
        None => Err(concat3("no data source with id '", id, "'")),
    }
}

/// A new definition; its kind has to have a driver.
pub fn add<D>(drivers: &DriverRegistry<D>, kind: &str, label: &str, config: Json) -> (r: Result<
    DataSource,
    String,
>)
    ensures
        match r {
            Ok(s) => {
                &&& has_key(drivers@, kind@)
                &&& uuid_shape(s@.id)
                &&& is_stamp(s@.created_at)
                &&& s@ == (SourceView {
                    id: s@.id,
                    kind: kind@,
                    label: label@,
                    config: config@,
                    refresh: RefreshPolicy::Manual,
                    enabled: true,
                    discovered: None,
                    created_at: s@.created_at,
                    updated_at: s@.created_at,
                })
            },
            Err(e) => !has_key(drivers@, kind@) && e@ == unknown_kind(kind@, keys(drivers@)),
        },
{
    match driver(drivers, kind) {
        Ok(_) => Ok(DataSource::new(kind, label, config)),
        Err(e) => Err(e),
    }
}

pub open spec fn opt_json_view(j: Option<Json>) -> Option<JsonView> {
    match j {
        Some(x) => Some(x@),
        None => None,
    }
}

/// A definition with what a patch gives, and all else as it was, but for the time of the update.
pub open spec fn patched(
    s: SourceView,
    label: Option<Seq<char>>,
    config: Option<JsonView>,
    enabled: Option<bool>,
    updated_at: Seq<char>,
) -> SourceView {
    SourceView {
        label: match label {
            Some(l) => l,
            None => s.label,
        },
        config: match config {
            Some(c) => c,
            None => s.config,
        },
        enabled: match enabled {
            Some(e) => e,
            None => s.enabled,
        },
        updated_at,
        ..s
    }
}

/// Patches a definition.
pub fn update(
    source: DataSource,
    label: Option<String>,
    config: Option<Json>,
    enabled: Option<bool>,
) -> (r: DataSource)
    ensures
        is_stamp(r@.updated_at),
        r@ == patched(source@, opt_view(label), opt_json_view(config), enabled, r@.updated_at),
{
    let mut s = source;
    match label {
        Some(l) => {
            s.label = l;
        },
        None => {},
    }
    match config {
        Some(c) => {
            s.config = c;
        },
        None => {},
    }
    match enabled {
        Some(e) => {
            s.enabled = e;
        },
        None => {},
    }
    s.touch();
    s
}

/// A definition with the summary of what was just discovered.
pub fn with_discovery(source: DataSource, info: &DatasetInfo) -> (r: DataSource)
    ensures
        is_stamp(r@.updated_at),
        r@ == (SourceView {
            discovered: Some(
                DiscoveryView {
                    feature_count: info@.feature_count,
                    geometry_types: info@.geometry_types,
                    schema: info@.schema,
                },
            ),
            updated_at: r@.updated_at,
            ..source@
        }),
{
    let mut s = source;
    s.discovered = Some(Discovery::from_info(info));
    s.touch();
    s
}

/// What is imported once a dataset is fetched: a layer named after the label of the source.
#[derive(Debug, PartialEq)]
pub struct FetchedImport {
    pub text: String,
    pub name: String,
    pub display_name: String,
    pub source: String,
}

/// The import of a fetched dataset.
pub fn fetched_import(source: &DataSource, payload: DatasetPayload) -> (r: FetchedImport)
    ensures
        r.text@ == payload->GeoJsonText_0@,
        r.name@ == source@.label,
        r.display_name@ == source@.label,
        r.source@ == source@.kind,
{
    match payload {
        DatasetPayload::GeoJsonText(text) => FetchedImport {
            text,
            name: source.label.clone(),
            display_name: source.label.clone(),
            source: source.kind.clone(),
        },
    }
}

/// The definition as it is stored once its dataset is imported, and the report of the import: the
/// time of the fetch is recorded, and nothing else changes. A failed import leaves the definition
/// alone.
pub fn after_import(source: DataSource, imported: Result<Json, Failure>) -> (r: Result<
    (DataSource, Json),
    String,
>)
    ensures
        match imported {
            Ok(report) => {
                &&& r is Ok
                &&& is_stamp(r->Ok_0.0@.updated_at)
                &&& r->Ok_0.0@ == (SourceView { updated_at: r->Ok_0.0@.updated_at, ..source@ })
                &&& r->Ok_0.1 == report
            },
            Err(f) => r is Err && r->Err_0@ == complaint(TaskView::Import, f@),
        },
{
    match answer(&Task::Import, imported) {
        Ok(report) => {
            let mut fetched = source;
            fetched.touch();
            Ok((fetched, report))
        },
        Err(e) => Err(e),
    }
}

// ---------------------------------------------------------------------------
// As JSON
// ---------------------------------------------------------------------------

pub open spec fn texts_out(v: Seq<Seq<char>>) -> JsonView {
    JsonView::Array(v.map_values(|s: Seq<char>| str_json(s)))
}

pub fn texts_json(v: &Vec<String>) -> (r: Json)
    ensures
        r@ == texts_out(texts(v@)),
{
    let n = v.len();
    let mut out: Vec<Json> = Vec::new();
    let mut i: usize = 0;
    while i < n
        invariant
            i <= n,
            n == v@.len(),
            out@.len() == i,
            forall|k: int| 0 <= k < i ==> (#[trigger] out@[k])@ == str_json(v@[k]@),
        decreases n - i,
    {
        out.push(Json::text(v[i].as_str()));
        i += 1;
    }
    proof {
        assert(array_view(out@) =~= texts_out(texts(v@))->Array_0);
    }
    Json::array(out)
}

pub open spec fn discovery_out(d: DiscoveryView) -> JsonView {
    let e = put(no_entries(), "feature_count"@, int_json(d.feature_count as int));
    let e = put(e, "geometry_types"@, texts_out(d.geometry_types));
    JsonView::Object(put(e, "schema"@, d.schema))
}

/// A definition as JSON; what was not discovered is left out.
pub open spec fn source_out(s: SourceView) -> JsonView {
    let e = put(no_entries(), "id"@, str_json(s.id));
    let e = put(e, "kind"@, str_json(s.kind));
    let e = put(e, "label"@, str_json(s.label));
    let e = put(e, "config"@, s.config);
    let e = put(
        e,
        "refresh"@,
        JsonView::Object(put(no_entries(), "mode"@, str_json("manual"@))),
    );
    let e = put(e, "enabled"@, JsonView::Bool(s.enabled));
    let e = match s.discovered {
        Some(d) => put(e, "discovered"@, discovery_out(d)),
        None => e,
    };
    let e = put(e, "created_at"@, str_json(s.created_at));
    JsonView::Object(put(e, "updated_at"@, str_json(s.updated_at)))
}

pub open spec fn info_out(i: InfoView) -> JsonView {
    let e = put(no_entries(), "name"@, str_json(i.name));
    let e = put(e, "description"@, str_json(i.description));
    let e = put(e, "geometry_types"@, texts_out(i.geometry_types));
    let e = put(e, "feature_count"@, int_json(i.feature_count as int));
    JsonView::Object(put(e, "schema"@, i.schema))
}

fn discovery_json(d: &Discovery) -> (r: Json)
    ensures
        r@ == discovery_out(d@),
{
    let mut o = JsonObject::new();
    o.set("feature_count", Json::from_u64(d.feature_count as u64));
    o.set("geometry_types", texts_json(&d.geometry_types));
    o.set("schema", d.schema.copy());
    Json::object(o)
}

/// A definition as JSON.
pub fn source_json(s: &DataSource) -> (r: Json)
    ensures
        r@ == source_out(s@),
{
    let mut refresh = JsonObject::new();
    refresh.set(
        "mode",
        Json::text(
            match s.refresh {
                RefreshPolicy::Manual => "manual",
            },
        ),
    );
    let mut o = JsonObject::new();
    o.set("id", Json::text(s.id.as_str()));
    o.set("kind", Json::text(s.kind.as_str()));
    o.set("label", Json::text(s.label.as_str()));
    o.set("config", s.config.copy());
    o.set("refresh", Json::object(refresh));
    o.set("enabled", Json::from_bool(s.enabled));
    match &s.discovered {
        Some(d) => {
            o.set("discovered", discovery_json(d));
        },
        None => {},
    }
    o.set("created_at", Json::text(s.created_at.as_str()));
    o.set("updated_at", Json::text(s.updated_at.as_str()));
    Json::object(o)
}

pub open spec fn sources_out(v: Seq<SourceView>) -> JsonView {
    JsonView::Array(v.map_values(|s: SourceView| source_out(s)))
}

/// Definitions as JSON.
pub fn sources_json(v: &Vec<DataSource>) -> (r: Json)
    ensures
        r@ == sources_out(crate::datasources::store::sources_view(v@)),
{
    let n = v.len();
    let mut out: Vec<Json> = Vec::new();
    let mut i: usize = 0;
    while i < n
        invariant
            i <= n,
            n == v@.len(),
            out@.len() == i,
            forall|k: int| 0 <= k < i ==> (#[trigger] out@[k])@ == source_out(v@[k]@),
        decreases n - i,
    {
        out.push(source_json(&v[i]));
        i += 1;
    }
    proof {
        assert(array_view(out@) =~= sources_out(
            crate::datasources::store::sources_view(v@),
        )->Array_0);
    }
    Json::array(out)
}

/// A definition as JSON, or null where there is none.
pub fn opt_source_json(s: &Option<DataSource>) -> (r: Json)
    ensures
        r@ == match s {
            Some(x) => source_out(x@),
            None => JsonView::Null,
        },
{
    match s {
        Some(x) => source_json(x),
        None => Json::null(),
    }
}

/// What was discovered as JSON.
pub fn info_json(i: &DatasetInfo) -> (r: Json)
    ensures
        r@ == info_out(i@),
{
    let mut o = JsonObject::new();
    o.set("name", Json::text(i.name.as_str()));
    o.set("description", Json::text(i.description.as_str()));
    o.set("geometry_types", texts_json(&i.geometry_types));
    o.set("feature_count", Json::from_u64(i.feature_count as u64));
    o.set("schema", i.schema.copy());
    Json::object(o)
}

} // verus!
