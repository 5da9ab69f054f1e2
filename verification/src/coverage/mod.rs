//! Coverage reports: the normalized model every format is converted into, and
//! one parser per supported input format.

pub mod format;
pub mod go_coverprofile;
pub mod jacoco_xml;
pub mod lcov;
pub mod llvm_cov;
pub mod model;
pub mod omnivore_json;
pub mod python_coverage;
pub mod source;
pub mod totals;
