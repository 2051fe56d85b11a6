//! The requests that clients send: reading them, and building the replies to them.

pub mod envelope;
pub mod features;
pub mod language;
pub mod query;
pub mod reply;
pub mod request;
pub mod route;
