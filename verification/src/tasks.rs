//! What services are asked for, and what is said when they do not answer.

use vstd::prelude::*;

use crate::text::{concat, concat3};

verus! {

/// Why there is no answer from a service, in the words of what failed.
#[derive(Debug, PartialEq)]
pub enum Failure {
    /// It could not be asked.
    Gone(String),
    /// It was asked and fell silent.
    Lost(String),
    /// It answered with an error.
    Refused(String),
}

pub enum FailureView {
    Gone(Seq<char>),
    Lost(Seq<char>),
    Refused(Seq<char>),
}

impl View for Failure {
    type V = FailureView;

    open spec fn view(&self) -> FailureView {
        match self {
            Failure::Gone(e) => FailureView::Gone(e@),
            Failure::Lost(e) => FailureView::Lost(e@),
            Failure::Refused(e) => FailureView::Refused(e@),
        }
    }
}

/// What a service is asked for.
#[derive(Debug, PartialEq)]
pub enum Task {
    ListLayers,
    DeleteLayer,
    ReorderLayer,
    MergeLayer,
    Import,
    SourceKinds,
    SourceList,
    SourceGet,
    SourceAdd,
    SourceUpdate,
    SourceDelete,
    SourceDiscover,
    SourceFetch,
    Tile,
    /// The catalog for a prompt.
    Catalog,
    Completion,
    Region,
    Search,
    Box,
    /// The features of a layer.
    LayerNodes(String),
    Feature,
    VectorIndex,
    /// All nodes of a type.
    Nodes(String),
    Embed,
    WriteVectors,
    RebuildIndexes,
    Sync,
    /// All nodes of a type, for the layer and import services.
    StoredNodes(String),
    /// A node is deleted.
    DropNode(String),
    DropFeature,
    DropLayer,
    /// A stacking order is written.
    WriteOrder,
    /// All nodes of a type, for the data source service.
    SourceNodes(String),
    /// The node of a data source.
    SourceNode(String),
    StoreNode,
    OpenTransaction,
    Transaction,
}

pub enum TaskView {
    ListLayers,
    DeleteLayer,
    ReorderLayer,
    MergeLayer,
    Import,
    SourceKinds,
    SourceList,
    SourceGet,
    SourceAdd,
    SourceUpdate,
    SourceDelete,
    SourceDiscover,
    SourceFetch,
    Tile,
    Catalog,
    Completion,
    Region,
    Search,
    Box,
    LayerNodes(Seq<char>),
    Feature,
    VectorIndex,
    Nodes(Seq<char>),
    Embed,
    WriteVectors,
    RebuildIndexes,
    Sync,
    StoredNodes(Seq<char>),
    DropNode(Seq<char>),
    DropFeature,
    DropLayer,
    WriteOrder,
    SourceNodes(Seq<char>),
    SourceNode(Seq<char>),
    StoreNode,
    OpenTransaction,
    Transaction,
}

impl View for Task {
    type V = TaskView;

    open spec fn view(&self) -> TaskView {
        match self {
            Task::ListLayers => TaskView::ListLayers,
            Task::DeleteLayer => TaskView::DeleteLayer,
            Task::ReorderLayer => TaskView::ReorderLayer,
            Task::MergeLayer => TaskView::MergeLayer,
            Task::Import => TaskView::Import,
            Task::SourceKinds => TaskView::SourceKinds,
            Task::SourceList => TaskView::SourceList,
            Task::SourceGet => TaskView::SourceGet,
            Task::SourceAdd => TaskView::SourceAdd,
            Task::SourceUpdate => TaskView::SourceUpdate,
            Task::SourceDelete => TaskView::SourceDelete,
            Task::SourceDiscover => TaskView::SourceDiscover,
            Task::SourceFetch => TaskView::SourceFetch,
            Task::Tile => TaskView::Tile,
            Task::Catalog => TaskView::Catalog,
            Task::Completion => TaskView::Completion,
            Task::Region => TaskView::Region,
            Task::Search => TaskView::Search,
            Task::Box => TaskView::Box,
            Task::LayerNodes(layer) => TaskView::LayerNodes(layer@),
            Task::Feature => TaskView::Feature,
            Task::VectorIndex => TaskView::VectorIndex,
            Task::Nodes(kind) => TaskView::Nodes(kind@),
            Task::Embed => TaskView::Embed,
            Task::WriteVectors => TaskView::WriteVectors,
            Task::RebuildIndexes => TaskView::RebuildIndexes,
            Task::Sync => TaskView::Sync,
            Task::StoredNodes(kind) => TaskView::StoredNodes(kind@),
            Task::DropNode(id) => TaskView::DropNode(id@),
            Task::DropFeature => TaskView::DropFeature,
            Task::DropLayer => TaskView::DropLayer,
            Task::WriteOrder => TaskView::WriteOrder,
            Task::SourceNodes(kind) => TaskView::SourceNodes(kind@),
            Task::SourceNode(id) => TaskView::SourceNode(id@),
            Task::StoreNode => TaskView::StoreNode,
            Task::OpenTransaction => TaskView::OpenTransaction,
            Task::Transaction => TaskView::Transaction,
        }
    }
}

/// What is said of a service that is gone.
pub open spec fn gone_words(t: TaskView) -> Seq<char> {
    match t {
        TaskView::ListLayers
        | TaskView::DeleteLayer
        | TaskView::ReorderLayer
        | TaskView::Catalog => "layer actor gone: "@,
        TaskView::MergeLayer | TaskView::Import => "import actor gone: "@,
        TaskView::SourceKinds
        | TaskView::SourceList
        | TaskView::SourceGet
        | TaskView::SourceAdd
        | TaskView::SourceUpdate
        | TaskView::SourceDelete
        | TaskView::SourceDiscover
        | TaskView::SourceFetch => "datasource actor gone: "@,
        TaskView::Tile => "tile actor gone: "@,
        TaskView::Completion => "llm actor gone: "@,
        TaskView::Transaction => "txn stream gone: "@,
        _ => "graph actor gone: "@,
    }
}

/// What is said of an answer that got lost.
pub open spec fn lost_words(t: TaskView) -> Seq<char> {
    match t {
        TaskView::ListLayers
        | TaskView::DeleteLayer
        | TaskView::ReorderLayer
        | TaskView::Catalog => "layer reply lost: "@,
        TaskView::MergeLayer => "merge reply lost: "@,
        TaskView::Import => "import reply lost: "@,
        TaskView::Tile => "tile reply lost: "@,
        TaskView::Completion => "llm reply lost: "@,
        TaskView::Region | TaskView::LayerNodes(_) | TaskView::Nodes(_) => "query reply lost: "@,
        TaskView::Search => "semantic reply lost: "@,
        TaskView::Box => "spatial reply lost: "@,
        TaskView::Feature => "get-feature reply lost: "@,
        TaskView::VectorIndex => "vector-index reply lost: "@,
        TaskView::Embed => "embed reply lost: "@,
        TaskView::WriteVectors => "set-embeddings reply lost: "@,
        TaskView::RebuildIndexes => "rebuild reply lost: "@,
        TaskView::Sync => "sync reply lost: "@,
        TaskView::StoredNodes(_) | TaskView::SourceNodes(_) => "graph reply lost: "@,
        TaskView::DropNode(_) | TaskView::DropFeature | TaskView::DropLayer => {
            "delete reply lost: "@
        },
        TaskView::WriteOrder => "reorder reply lost: "@,
        TaskView::SourceNode(_) => "get reply lost: "@,
        TaskView::StoreNode => "store reply lost: "@,
        TaskView::OpenTransaction => "txn open lost: "@,
        TaskView::Transaction => "txn reply lost: "@,
        _ => "datasource reply lost: "@,
    }
}

/// What is said of an answer that is an error.
pub open spec fn refused_words(t: TaskView) -> Seq<char> {
    match t {
        TaskView::ListLayers => "list layers failed: "@,
        TaskView::DeleteLayer => "delete layer: "@,
        TaskView::ReorderLayer => "reorder layer: "@,
        TaskView::MergeLayer => "merge layer: "@,
        TaskView::Import => "import failed: "@,
        TaskView::SourceKinds => "datasource kinds: "@,
        TaskView::SourceList => "datasource list: "@,
        TaskView::SourceGet => "datasource get: "@,
        TaskView::SourceAdd => "datasource add: "@,
        TaskView::SourceUpdate => "datasource update: "@,
        TaskView::SourceDelete => "datasource delete: "@,
        TaskView::SourceDiscover => "datasource discover: "@,
        TaskView::SourceFetch => "datasource fetch: "@,
        TaskView::Tile => "get-tile: "@,
        TaskView::Catalog => "list layers: "@,
        TaskView::Completion => "llm error: "@,
        TaskView::Region | TaskView::Box => "spatial query: "@,
        TaskView::Search => "semantic search: "@,
        TaskView::LayerNodes(layer) => "query layer '"@ + layer + "': "@,
        TaskView::Feature => "get-feature failed: "@,
        TaskView::VectorIndex => "vector-index failed: "@,
        TaskView::Nodes(kind) => "query "@ + kind + ": "@,
        TaskView::Embed => "embed failed: "@,
        TaskView::WriteVectors => "set-embeddings failed: "@,
        TaskView::RebuildIndexes => "rebuild failed: "@,
        TaskView::Sync => "sync failed: "@,
        TaskView::StoredNodes(kind) => "query '"@ + kind + "' failed: "@,
        TaskView::DropNode(id) => "delete "@ + id + " failed: "@,
        TaskView::DropFeature => "delete feature failed: "@,
        TaskView::DropLayer => "delete layer failed: "@,
        TaskView::WriteOrder => "reorder failed: "@,
        TaskView::SourceNodes(kind) => "query '"@ + kind + "': "@,
        TaskView::SourceNode(id) => "get '"@ + id + "': "@,
        TaskView::StoreNode => "store failed: "@,
        TaskView::OpenTransaction => "txn open lost: "@,
        TaskView::Transaction => "txn op failed: "@,
    }
}

/// The complaint about a task that failed: what was asked for, then the words of the failure.
pub open spec fn complaint(t: TaskView, f: FailureView) -> Seq<char> {
    match f {
        FailureView::Gone(e) => gone_words(t) + e,
        FailureView::Lost(e) => lost_words(t) + e,
        FailureView::Refused(e) => refused_words(t) + e,
    }
}

fn gone_text(t: &Task) -> (r: &'static str)
    ensures
        r@ == gone_words(t@),
{
    match t {
        Task::ListLayers | Task::DeleteLayer | Task::ReorderLayer | Task::Catalog => {
            "layer actor gone: "
        },
        Task::MergeLayer | Task::Import => "import actor gone: ",
        Task::SourceKinds
        | Task::SourceList
        | Task::SourceGet
        | Task::SourceAdd
        | Task::SourceUpdate
        | Task::SourceDelete
        | Task::SourceDiscover
        | Task::SourceFetch => "datasource actor gone: ",
        Task::Tile => "tile actor gone: ",
        Task::Completion => "llm actor gone: ",
        Task::Transaction => "txn stream gone: ",
        _ => "graph actor gone: ",
    }
}

fn lost_text(t: &Task) -> (r: &'static str)
    ensures
        r@ == lost_words(t@),
{
    match t {
        Task::ListLayers | Task::DeleteLayer | Task::ReorderLayer | Task::Catalog => {
            "layer reply lost: "
        },
        Task::MergeLayer => "merge reply lost: ",
        Task::Import => "import reply lost: ",
        Task::Tile => "tile reply lost: ",
        Task::Completion => "llm reply lost: ",
        Task::Region | Task::LayerNodes(_) | Task::Nodes(_) => "query reply lost: ",
        Task::Search => "semantic reply lost: ",
        Task::Box => "spatial reply lost: ",
        Task::Feature => "get-feature reply lost: ",
        Task::VectorIndex => "vector-index reply lost: ",
        Task::Embed => "embed reply lost: ",
        Task::WriteVectors => "set-embeddings reply lost: ",
        Task::RebuildIndexes => "rebuild reply lost: ",
        Task::Sync => "sync reply lost: ",
        Task::StoredNodes(_) | Task::SourceNodes(_) => "graph reply lost: ",
        Task::DropNode(_) | Task::DropFeature | Task::DropLayer => "delete reply lost: ",
        Task::WriteOrder => "reorder reply lost: ",
        Task::SourceNode(_) => "get reply lost: ",
        Task::StoreNode => "store reply lost: ",
        Task::OpenTransaction => "txn open lost: ",
        Task::Transaction => "txn reply lost: ",
        _ => "datasource reply lost: ",
    }
}

fn refused_text(t: &Task) -> (r: String)
    ensures
        r@ == refused_words(t@),
{
    let fixed: &str = match t {
        Task::LayerNodes(layer) => {
            return concat3("query layer '", layer.as_str(), "': ");
        },
        Task::Nodes(kind) => {
            return concat3("query ", kind.as_str(), ": ");
        },
        Task::StoredNodes(kind) => {
            return concat3("query '", kind.as_str(), "' failed: ");
        },
        Task::DropNode(id) => {
            return concat3("delete ", id.as_str(), " failed: ");
        },
        Task::SourceNodes(kind) => {
            return concat3("query '", kind.as_str(), "': ");
        },
        Task::SourceNode(id) => {
            return concat3("get '", id.as_str(), "': ");
        },
        Task::ListLayers => "list layers failed: ",
        Task::DeleteLayer => "delete layer: ",
        Task::ReorderLayer => "reorder layer: ",
        Task::MergeLayer => "merge layer: ",
        Task::Import => "import failed: ",
        Task::SourceKinds => "datasource kinds: ",
        Task::SourceList => "datasource list: ",
        Task::SourceGet => "datasource get: ",
        Task::SourceAdd => "datasource add: ",
        Task::SourceUpdate => "datasource update: ",
        Task::SourceDelete => "datasource delete: ",
        Task::SourceDiscover => "datasource discover: ",
        Task::SourceFetch => "datasource fetch: ",
        Task::Tile => "get-tile: ",
        Task::Catalog => "list layers: ",
        Task::Completion => "llm error: ",
        Task::Region => "spatial query: ",
        Task::Box => "spatial query: ",
        Task::Search => "semantic search: ",
        Task::Feature => "get-feature failed: ",
        Task::VectorIndex => "vector-index failed: ",
        Task::Embed => "embed failed: ",
        Task::WriteVectors => "set-embeddings failed: ",
        Task::RebuildIndexes => "rebuild failed: ",
        Task::Sync => "sync failed: ",
        Task::DropFeature => "delete feature failed: ",
        Task::DropLayer => "delete layer failed: ",
        Task::WriteOrder => "reorder failed: ",
        Task::StoreNode => "store failed: ",
        Task::OpenTransaction => "txn open lost: ",
        Task::Transaction => "txn op failed: ",
    };
    fixed.to_owned()
}

/// The outcome of a task: what the service answered, or the complaint.
pub open spec fn is_answer<T>(
    t: TaskView,
    r: Result<T, Failure>,
    out: Result<T, String>,
) -> bool {
    match r {
        Ok(x) => out == Ok::<T, String>(x),
        Err(f) => out is Err && out->Err_0@ == complaint(t, f@),
    }
}

/// What a service answered, or the complaint that there is no answer.
pub fn answer<T>(t: &Task, r: Result<T, Failure>) -> (out: Result<T, String>)
    ensures
        is_answer(t@, r, out),
{
    match r {
        Ok(x) => Ok(x),
        Err(Failure::Gone(e)) => Err(concat(gone_text(t), e.as_str())),
        Err(Failure::Lost(e)) => Err(concat(lost_text(t), e.as_str())),
        Err(Failure::Refused(e)) => {
            let words = refused_text(t);
            Err(concat(words.as_str(), e.as_str()))
        },
    }
}

} // verus!
