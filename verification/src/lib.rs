//! Core of a social-bookmarking feed aggregator.
//!
//! Given a root user handle the system discovers that user's follow graph up
//! to a bounded hop distance, fetches each discovered user's saved content
//! through a cache-aside layer, and merges the results into a single feed
//! sorted by creation time.
//!
//! This crate holds the verified core: the cache gateway's decision logic
//! (chunked batch reads, self-healing of corrupted entries, cache-aside),
//! the bounded-depth graph resolver with its minimum-order deduplication,
//! and the feed aggregator (save-provenance, merge, sort, deduplicate,
//! truncate). The store and HTTP transports are asynchronous and live in the
//! surrounding application, which drives these functions with the replies it
//! receives from the outside world.

pub mod cache;
pub mod errors;
pub mod feed;
pub mod keys;
pub mod model;
pub mod resolver;
pub mod routes;
pub mod text;
pub mod upstream;
