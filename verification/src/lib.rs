//! A GIS core: GeoJSON ingestion, a layer catalog, data source definitions and
//! the rules behind the `gis/*` requests, with every rule stated as a contract.

pub mod actors;
pub mod chains;
pub mod config;
pub mod coordinator;
pub mod datasources;
pub mod floats;
pub mod geometry;
pub mod grouping;
pub mod hash_embedder;
pub mod json;
pub mod laws;
pub mod models;
pub mod order;
pub mod stamp;
pub mod tasks;
pub mod text;
pub mod textmap;
