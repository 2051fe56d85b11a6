//! Data sources: configurable connectors that fetch external datasets into layers.
//!
//! A data source is a persisted definition (the kind of its driver and a provider-specific
//! configuration), apart from the layers that it produces. It is stored normalized: scalar
//! properties on one node, and one node for each attribute of the discovered schema.

pub mod actor;
pub mod codec;
pub mod data_gov_sg;
pub mod store;

pub use crate::datasources::codec::{
    datasource_from_nodes, datasource_to_node, schema_to_nodes, ATTR_NODE_TYPE, SOURCE_NODE_TYPE,
};

use vstd::prelude::*;

use crate::actors::import::{geometry_kinds, infer_schema};
use crate::datasources::data_gov_sg::{DataGovSgDriver, KIND};
use crate::json::Json;
use crate::models::geojson::{parse_geojson, DecodedFeature};
use crate::stamp::{fresh_id, now};
use crate::text::concat3;
use crate::textmap::TextMap;
#[allow(unused_imports)]
use crate::actors::import::{is_import_layer, kinds_of, layer_kind, schema_of};
#[allow(unused_imports)]
use crate::json::{int_json, no_entries, str_json, JsonView};
#[allow(unused_imports)]
use crate::models::geojson::{features_view, parsed, FeatureView};
#[allow(unused_imports)]
use crate::models::{style_for, NodeView};
#[allow(unused_imports)]
use crate::stamp::{is_stamp, uuid_shape};
#[allow(unused_imports)]
use crate::text::texts;
#[allow(unused_imports)]
use crate::textmap::{ascending, has_key, keys, lemma_put, lookup, put};

verus! {

// ---------------------------------------------------------------------------
// Definitions
// ---------------------------------------------------------------------------

/// How often a data source is fetched.
#[derive(Debug, Clone, Copy, PartialEq, Eq, Default)]
pub enum RefreshPolicy {
    #[default]
    Manual,
}

/// Whether a data source is enabled where nothing is said of it.
pub fn default_true() -> (r: bool)
    ensures
        r,
{
    true
}

/// A cached summary of what a driver discovered.
#[derive(Debug, PartialEq)]
pub struct Discovery {
    pub feature_count: usize,
    pub geometry_types: Vec<String>,
    pub schema: Json,
}

/// What a driver tells of a dataset without importing it. The schema is over the keys under which
/// the attributes would be stored.
#[derive(Debug, PartialEq)]
pub struct DatasetInfo {
    pub name: String,
    pub description: String,
    pub geometry_types: Vec<String>,
    pub feature_count: usize,
    pub schema: Json,
}

/// A persisted data source definition; times are RFC 3339 texts.
#[derive(Debug, PartialEq)]
pub struct DataSource {
    pub id: String,
    pub kind: String,
    pub label: String,
    pub config: Json,
    pub refresh: RefreshPolicy,
    pub enabled: bool,
    pub discovered: Option<Discovery>,
    pub created_at: String,
    pub updated_at: String,
}

/// What a driver fetches: a complete GeoJSON document as text.
#[derive(Debug, PartialEq)]
pub enum DatasetPayload {
    GeoJsonText(String),
}

#[verifier::ext_equal]
pub struct DiscoveryView {
    pub feature_count: usize,
    pub geometry_types: Seq<Seq<char>>,
    pub schema: JsonView,
}

#[verifier::ext_equal]
pub struct InfoView {
    pub name: Seq<char>,
    pub description: Seq<char>,
    pub geometry_types: Seq<Seq<char>>,
    pub feature_count: usize,
    pub schema: JsonView,
}

#[verifier::ext_equal]
pub struct SourceView {
    pub id: Seq<char>,
    pub kind: Seq<char>,
    pub label: Seq<char>,
    pub config: JsonView,
    pub refresh: RefreshPolicy,
    pub enabled: bool,
    pub discovered: Option<DiscoveryView>,
    pub created_at: Seq<char>,
    pub updated_at: Seq<char>,
}

impl View for Discovery {
    type V = DiscoveryView;

    open spec fn view(&self) -> DiscoveryView {
        DiscoveryView {
            feature_count: self.feature_count,
            geometry_types: texts(self.geometry_types@),
            schema: self.schema@,
        }
    }
}

impl View for DatasetInfo {
    type V = InfoView;

    open spec fn view(&self) -> InfoView {
        InfoView {
            name: self.name@,
            description: self.description@,
            geometry_types: texts(self.geometry_types@),
            feature_count: self.feature_count,
            schema: self.schema@,
        }
    }
}

pub open spec fn opt_discovery_view(d: Option<Discovery>) -> Option<DiscoveryView> {
    match d {
        Some(x) => Some(x@),
        None => None,
    }
}

impl View for DataSource {
    type V = SourceView;

    open spec fn view(&self) -> SourceView {
        SourceView {
            id: self.id@,
            kind: self.kind@,
            label: self.label@,
            config: self.config@,
            refresh: self.refresh,
            enabled: self.enabled,
            discovered: opt_discovery_view(self.discovered),
            created_at: self.created_at@,
            updated_at: self.updated_at@,
        }
    }
}

pub fn copy_texts(v: &Vec<String>) -> (r: Vec<String>)
    ensures
        texts(r@) == texts(v@),
{
    let n = v.len();
    let mut out: Vec<String> = Vec::new();
    let mut i: usize = 0;
    while i < n
        invariant
            i <= n,
            n == v@.len(),
            out@.len() == i,
            forall|k: int| 0 <= k < i ==> (#[trigger] out@[k])@ == v@[k]@,
        decreases n - i,
    {
        out.push(v[i].clone());
        i += 1;
    }
    proof {
        assert(texts(out@) =~= texts(v@));
    }
    out
}

impl Discovery {
    /// The summary of what was discovered.
    pub fn from_info(info: &DatasetInfo) -> (r: Self)
        ensures
            r@ == (DiscoveryView {
                feature_count: info@.feature_count,
                geometry_types: info@.geometry_types,
                schema: info@.schema,
            }),
    {
        Discovery {
            feature_count: info.feature_count,
            geometry_types: copy_texts(&info.geometry_types),
            schema: info.schema.copy(),
        }
    }

    pub fn copy(&self) -> (r: Self)
        ensures
            r@ == self@,
    {
        Discovery {
            feature_count: self.feature_count,
            geometry_types: copy_texts(&self.geometry_types),
            schema: self.schema.copy(),
        }
    }
}

impl DataSource {
    /// A fresh definition: a new id, manual refresh, enabled, nothing discovered, made just now.
    pub fn new(kind: &str, label: &str, config: Json) -> (r: Self)
        ensures
            uuid_shape(r@.id),
            is_stamp(r@.created_at),
            r@ == (SourceView {
                id: r@.id,
                kind: kind@,
                label: label@,
                config: config@,
                refresh: RefreshPolicy::Manual,
                enabled: true,
                discovered: None,
                created_at: r@.created_at,
                updated_at: r@.created_at,
            }),
    {
        let made = now();
        DataSource {
            id: fresh_id(),
            kind: kind.to_owned(),
            label: label.to_owned(),
            config,
            refresh: RefreshPolicy::Manual,
            enabled: true,
            discovered: None,
            created_at: made.clone(),
            updated_at: made,
        }
    }

    /// Marks the definition as updated just now.
    pub fn touch(&mut self)
        ensures
            is_stamp(final(self)@.updated_at),
            final(self)@ == (SourceView { updated_at: final(self)@.updated_at, ..old(self)@ }),
    {
        self.updated_at = now();
    }

    pub fn copy(&self) -> (r: Self)
        ensures
            r@ == self@,
    {
        DataSource {
            id: self.id.clone(),
            kind: self.kind.clone(),
            label: self.label.clone(),
            config: self.config.copy(),
            refresh: self.refresh,
            enabled: self.enabled,
            discovered: match &self.discovered {
                Some(d) => Some(d.copy()),
                None => None,
            },
            created_at: self.created_at.clone(),
            updated_at: self.updated_at.clone(),
        }
    }
}

// ---------------------------------------------------------------------------
// Drivers
// ---------------------------------------------------------------------------

/// Drivers by their kind.
pub struct DriverRegistry<D> {
    drivers: TextMap<D>,
}

impl<D> View for DriverRegistry<D> {
    type V = Seq<(Seq<char>, D)>;

    closed spec fn view(&self) -> Seq<(Seq<char>, D)> {
        self.drivers@
    }
}

impl<D> DriverRegistry<D> {
    pub fn new() -> (r: Self)
        ensures
            r@ == Seq::<(Seq<char>, D)>::empty(),
    {
        DriverRegistry { drivers: TextMap::new() }
    }

    /// Registers a driver under its kind; a kind that is taken is refused and keeps its driver.
    pub fn register(&mut self, kind: &str, driver: D) -> (r: Result<(), String>)
        ensures
            match r {
                Ok(_) => !has_key(old(self)@, kind@) && final(self)@ == put(
                    old(self)@,
                    kind@,
                    driver,
                ),
                Err(e) => has_key(old(self)@, kind@) && final(self)@ == old(self)@ && e@
                    == "data source driver '"@ + kind@ + "' already registered"@,
            },
    {
        if self.drivers.contains_key(kind) {
            return Err(concat3("data source driver '", kind, "' already registered"));
        }
        self.drivers.insert(kind.to_owned(), driver);
        Ok(())
    }

    pub fn get(&self, kind: &str) -> (r: Option<&D>)
        ensures
            match r {
                Some(d) => lookup(self@, kind@) == Some(*d),
                None => lookup(self@, kind@) is None,
            },
    {
        self.drivers.get(kind)
    }

    /// The registered kinds in order.
    pub fn kinds(&self) -> (r: Vec<String>)
        ensures
            texts(r@) == keys(self@),
            ascending(texts(r@)),
    {
        let n = self.drivers.len();
        let mut out: Vec<String> = Vec::new();
        let mut i: usize = 0;
        while i < n
            invariant
                i <= n,
                n == self.drivers@.len(),
                out@.len() == i,
                forall|k: int| 0 <= k < i ==> (#[trigger] out@[k])@ == self.drivers@[k].0,
            decreases n - i,
        {
            out.push(self.drivers.key_at(i).clone());
            i += 1;
        }
        proof {
            use_type_invariant(&self.drivers);
            assert(texts(out@) =~= keys(self@));
        }
        out
    }

    pub fn is_empty(&self) -> (r: bool)
        ensures
            r == (self@.len() == 0),
    {
        self.drivers.is_empty()
    }

    /// A registry that holds a driver for data.gov.sg.
    pub fn builtin_with(driver: D) -> (r: Self)
        ensures
            r@ == seq![("data-gov-sg"@, driver)],
    {
        let mut r: DriverRegistry<D> = DriverRegistry::new();
        let done = r.register(KIND, driver);
        proof {
            assert(keys(Seq::<(Seq<char>, D)>::empty()) =~= Seq::empty());
            assert(r@ =~= seq![("data-gov-sg"@, driver)]);
        }
        r
    }
}

impl DriverRegistry<DataGovSgDriver> {
    /// The built-in drivers.
    pub fn builtin() -> (r: Self)
        ensures
            r@ == seq![("data-gov-sg"@, DataGovSgDriver)],
    {
        DriverRegistry::builtin_with(DataGovSgDriver)
    }
}

/// A driver is found under the kind under which it was registered, and registering it disturbs
/// no other.
pub proof fn registered_is_found<D>(
    before: Seq<(Seq<char>, D)>,
    kind: Seq<char>,
    driver: D,
    other: Seq<char>,
)
    requires
        ascending(keys(before)),
        !has_key(before, kind),
    ensures
        lookup(put(before, kind, driver), kind) == Some(driver),
        other != kind ==> lookup(put(before, kind, driver), other) == lookup(before, other),
        has_key(put(before, kind, driver), kind),
{
    lemma_put(before, kind, driver);
}

// ---------------------------------------------------------------------------
// Analysis
// ---------------------------------------------------------------------------

/// What is told of a dataset with these features.
pub open spec fn info_of(
    fs: Seq<FeatureView>,
    name: Seq<char>,
    description: Seq<char>,
) -> InfoView {
    InfoView {
        name,
        description,
        geometry_types: kinds_of(fs),
        feature_count: fs.len() as usize,
        schema: JsonView::Object(schema_of(fs)),
    }
}

/// What is told of a dataset with these features. The schema is inferred as an import infers it,
/// so that discovery shows exactly what would be stored.
pub fn dataset_info(features: &Vec<DecodedFeature>, name: String, description: String) -> (r:
    DatasetInfo)
    ensures
        r@ == info_of(features_view(features@), name@, description@),
{
    DatasetInfo {
        name,
        description,
        geometry_types: geometry_kinds(features),
        feature_count: features.len(),
        schema: infer_schema(features),
    }
}

/// Parses a GeoJSON document and tells what it holds.
pub fn analyze_geojson(text: &str, name: String, description: String) -> (r: Result<
    DatasetInfo,
    String,
>)
    ensures
        match r {
            Ok(info) => parsed(text@) matches Ok(fs) && info@ == info_of(fs, name@, description@),
            Err(e) => parsed(text@) == Err::<Seq<FeatureView>, Seq<char>>(e@),
        },
{
    match parse_geojson(text) {
        Ok(features) => Ok(dataset_info(&features, name, description)),
        Err(e) => Err(e),
    }
}

/// Discovery shows what an import of the same features stores: the layer that is imported carries
/// the discovered schema, and the discovered geometry kinds decide its type.
pub proof fn discovery_previews_the_import(
    fs: Seq<FeatureView>,
    name: Seq<char>,
    description: Seq<char>,
    layer: NodeView,
    machine_name: Seq<char>,
    display_name: Seq<char>,
    source: Seq<char>,
    z: int,
)
    requires
        is_import_layer(layer, machine_name, display_name, source, fs, z),
    ensures
        layer.get("schema"@) == Some(info_of(fs, name, description).schema),
        layer.text_at("geometry_type"@) == Some(
            if info_of(fs, name, description).geometry_types.len() == 1 {
                info_of(fs, name, description).geometry_types[0]
            } else {
                "Mixed"@
            },
        ),
{
    reveal_strlit("display_name");
    reveal_strlit("geometry_type");
    reveal_strlit("source");
    reveal_strlit("style");
    reveal_strlit("schema");
    reveal_strlit("z_order");
    assert("source"@[1] == 'o' && "schema"@[1] == 'c');
    let style = style_for(layer_kind(fs));
    let schema = JsonView::Object(schema_of(fs));
    let e0 = no_entries();
    assert(keys(e0) =~= Seq::empty());
    let e1 = put(e0, "display_name"@, str_json(display_name));
    lemma_put(e0, "display_name"@, str_json(display_name));
    let e2 = put(e1, "geometry_type"@, str_json(layer_kind(fs)));
    lemma_put(e1, "geometry_type"@, str_json(layer_kind(fs)));
    let e3 = put(e2, "source"@, str_json(source));
    lemma_put(e2, "source"@, str_json(source));
    let e4 = put(e3, "style"@, style);
    lemma_put(e3, "style"@, style);
    let e5 = put(e4, "schema"@, schema);
    lemma_put(e4, "schema"@, schema);
    let e6 = put(e5, "z_order"@, int_json(0));
    lemma_put(e5, "z_order"@, int_json(0));
    lemma_put(e6, "z_order"@, int_json(z));
}

} // verus!
