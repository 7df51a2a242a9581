//! Incremental hierarchical summarization engine: content-addressed caching,
//! Merkle-style fingerprinting of a source tree, a bottom-up tree
//! summarization orchestrator driven as an event machine, and staleness
//! detection for a maintained document.

pub mod cache;
pub mod config;
pub mod error;
pub mod hasher;
pub mod readme;
pub mod readme_validator;
pub mod retry;
pub mod scanner;
pub mod strutil;
pub mod summarizer;

pub use error::DocTreeError;
