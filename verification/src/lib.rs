//! A concurrent graph-crawling engine: it discovers a social network by
//! repeatedly fetching neighbour lists from a paginated, rate-limited remote
//! service, deduplicating node identifiers, and counting how often each node
//! is rediscovered.
//!
//! The crate holds the logic of the crawler: the shared frontier-and-visited
//! registry, the worker step that folds one fetch outcome into the registry,
//! the retry classification of the resilient call client, and the sequential
//! traversal engine. Network transport, threads and JSON decoding live in the
//! surrounding application, which hands this crate plain values.
pub mod client;
pub mod crawl;
pub mod registry;
pub mod state;
