//! A store of chunks of multi-timeline, multi-component data, with latest-at and range
//! queries over its per-entity indexes.
pub mod chunk;
pub mod entity_db;
pub mod events;
pub mod ingestion;
pub mod log_msg;
pub mod names;
pub mod query;
pub mod stats;
pub mod store;
pub mod types;
pub mod view_context;
