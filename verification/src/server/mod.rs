//! The request-handling rules of the dashboard server: what it checks,
//! decides and renders, apart from the I/O around them.

pub mod csrf;
pub mod rate_limit;
pub mod pages;
pub mod file_tree;
pub mod settings;
pub mod ingest;
