//! Streaming export and import of a document cluster's collections:
//! cursor-paginated export into JSON-array backup files, chunked bulk
//! import with partial-failure tolerance, name and size filtering for
//! discovery, and the bounded-concurrency bookkeeping that runs many
//! collections side by side.

pub mod auth;
pub mod codec;
pub mod config;
pub mod discover;
pub mod doc;
pub mod export;
pub mod import;
pub mod orchestrate;
pub mod plan;
