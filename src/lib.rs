//! The engine of an image spider: URL normalization, link extraction, a
//! deduplicating depth-bounded frontier, the fetcher's decisions, file naming
//! for downloads, and the coordinator that ties them together. Network and
//! disk work are left to the caller, which runs the workers.
pub mod bytes;
pub mod crawl;
pub mod download;
pub mod extract;
pub mod fetch;
pub mod frontier;
pub mod url;
