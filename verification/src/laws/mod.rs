//! Promises of the library as a whole, stated over what goes in and what comes out.

pub mod attributes;
pub mod bounds;
pub mod calls;
pub mod catalog;
pub mod decoding;
pub mod definitions;
pub mod embeddings;
pub mod encoding;
pub mod imports;
pub mod joining;
pub mod language;
pub mod merging;
pub mod queries;
pub mod refusals;
pub mod replies;
pub mod requests;
pub mod texts;
pub mod values;
