//! The task-management domain exercised by the Rust test rig: tasks and their
//! priorities, input validation, an in-memory repository and the use cases
//! built on top of it.

pub mod model;
pub mod repository;
pub mod usecase;
pub mod validation;
pub mod formatter;
