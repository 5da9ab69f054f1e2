//! Coverage ingestion and analysis for the Omnivore dashboard, with the
//! parsing, validation and bookkeeping rules proved correct by Verus.

pub mod crypto;
pub mod ids;
pub mod github;
pub mod text;
pub mod tasks;
pub mod validation;
pub mod coverage;
pub mod server;
pub mod storage;
