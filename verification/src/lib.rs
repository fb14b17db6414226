//! Continuously refreshing repository-closure auditor.
//!
//! The crate splits a packaged artifact name into its five NEVRA fields,
//! parses the textual output of the external dependency-resolution tool,
//! suppresses known-acceptable breakages through a layered override file,
//! expands the configured work matrix, joins broken items with source and
//! maintainer metadata, and tracks how long each breakage has persisted.

pub mod config;
pub mod data;
pub mod overrides;
pub mod parse;
pub mod repo;
pub mod state;
pub mod table;
pub mod templates;
pub mod text;
pub mod utils;
