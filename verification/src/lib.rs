//! A verified core for a recursive site-mirroring crawler.
//!
//! Given a root URL, a crawl visits an HTML page and the resources it
//! references (further pages, images, stylesheets, scripts), mapping each
//! fetched document to a file path under a local output root.  This crate
//! holds the verified logic of that pipeline: URL resolution, the local
//! path mapping, reference extraction from HTML bytes, the idempotent
//! store model, and the crawl orchestrator with its visited-set guarantees.
//! Network and filesystem effects stay outside; the orchestrator is a state
//! machine that tells its driver what to fetch and what to write.

pub mod crawl;
pub mod html;
pub mod pathmap;
pub mod store;
pub mod text;
pub mod url;
