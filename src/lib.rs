//! Incremental build cache and content index engine of a minimal static-site
//! generator: front-matter parsing, cache reconciliation against the live source
//! tree, and tag-based content indexes.
pub mod cache;
pub mod config;
pub mod header;
pub mod index;
pub mod laws;
pub mod template;
pub mod text;
