//! Coordination core of a local-development web server: an invalidation-driven
//! in-memory file cache fed by a filesystem watcher and fanned out to an HTTP
//! static-file responder and a live-reload push channel.
//!
//! The crate verifies the pure coordination logic: request-path decoding and
//! normalization, the invalidation fan-out chain, round-robin dispatch over a
//! bounded worker pool, the cache state machine, and the mapping from fetch
//! outcomes to HTTP responses. Filesystem, process, and network edges live in
//! the surrounding application, which hands this library plain values.

pub mod bus;
pub mod cache;
pub mod event;
pub mod graph;
pub mod http;
pub mod reload;
pub mod path;
pub mod pool;
