//! Build-orchestration core of a module bundler.
//!
//! Entry modules are scanned into a deduplicated module graph, the graph is
//! linked into an immutable, deterministically ordered representation, and the
//! linked result is partitioned into output chunks. A plugin driver dispatches
//! lifecycle hooks around the pipeline, and a caching resolver maps import
//! specifiers to canonical module identifiers against a pluggable in-memory
//! storage backend. Paths, module identifiers and module contents are byte
//! strings throughout.
#![verifier::loop_isolation(false)]

pub mod bundle;
pub mod bundler;
pub mod bytes;
pub mod graph;
pub mod laws;
pub mod link;
pub mod scan;
pub mod plugin;
pub mod resolver;
pub mod source;
pub mod errors;
pub mod options;
pub mod store;
