//! Omnivore's own JSON report format.
//!
//! The document is read into an [`OmnivoreReport`] by the caller; provenance
//! comes from the report's own `project.source`, falling back to the Omnivore
//! agent, so native reports keep their declared source.

use vstd::prelude::*;

use crate::coverage::model::{
    dropped_implausible, lemma_total_lines_grows, snapshot_of, total_lines, CoverageSnapshot, SnapshotStamp,
    OmnivoreReport,
};

verus! {

/// A decoded Omnivore report, sanitized, and the snapshot stored for it.
pub fn from_document(report: OmnivoreReport, stamp: &SnapshotStamp) -> (r: (OmnivoreReport, CoverageSnapshot))
    requires
        total_lines(report.files@) <= usize::MAX,
        report.files@.len() <= i64::MAX,
    ensures
        dropped_implausible(report.files@, r.0.files@),
        r.0.version == report.version,
        r.0.format == report.format,
        r.0.project == report.project,
        r.0.coverage == report.coverage,
        r.0.dependencies == report.dependencies,
        snapshot_of(r.1, r.0, None, *stamp),
{
    let mut report = report;
    let snap = CoverageSnapshot::from_report(&mut report, None, stamp);
    (report, snap)
}

/// Can `from_document` count `report`? Its line records must fit in memory
/// and its files in an `i64`.
pub fn report_fits(report: &OmnivoreReport) -> (b: bool)
    ensures
        b == (total_lines(report.files@) <= usize::MAX && report.files@.len() <= i64::MAX),
{
    let ghost fs = report.files@;
    let mut total: usize = 0;
    let mut i: usize = 0;
    while i < report.files.len()
        invariant
            fs == report.files@,
            i <= fs.len(),
            total == total_lines(fs.take(i as int)),
        decreases report.files.len() - i,
    {
        proof {
            assert(fs.take(i + 1).drop_last() == fs.take(i as int));
        }
        let n = report.files[i].lines.len();
        if n > usize::MAX - total {
            proof {
                lemma_total_lines_grows(fs, i + 1);
            }
            return false;
        }
        total = total + n;
        i += 1;
    }
    proof {
        assert(fs.take(i as int) == fs);
    }
    (report.files.len() as u64) <= 0x7fff_ffff_ffff_ffffu64
}

} // verus!
