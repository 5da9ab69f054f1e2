//! Canonical provenance identifiers — which tool produced the coverage data.
//!
//! This is orthogonal to the coverage target: the target describes where and
//! how the code ran, the source records who measured it.

use vstd::prelude::*;

verus! {

pub const OMNIVORE_AGENT: &'static str = "omnivore-agent";

pub const KOVER: &'static str = "kover";

pub const JACOCO: &'static str = "jacoco";

pub const LLVM_COV: &'static str = "llvm-cov";

pub const LCOV: &'static str = "lcov";

pub const GO: &'static str = "go";

pub const PYTHON_COVERAGE: &'static str = "python-coverage";

} // verus!
