//! What the layer and the import services decide and compute.

pub mod embedding;
pub mod import;
pub mod import_run;
pub mod layer;
pub mod layer_embedding;
