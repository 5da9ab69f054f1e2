use omnivore::coverage::model::{CoverageSnapshot, Rate};
use omnivore::coverage::totals::{compute_composite, snapshot_totals, SnapshotTotals};

fn snap(files: i64, lines: (i64, i64), branches: (i64, i64)) -> CoverageSnapshot {
    CoverageSnapshot {
        id: "id".to_string(),
        project_id: "p".to_string(),
        commit_sha: None,
        branch: None,
        target: "jvm_unit".to_string(),
        source: "jacoco".to_string(),
        line_rate: Rate::Ratio { covered: lines.0, total: lines.1 },
        branch_rate: Rate::Ratio { covered: branches.0, total: branches.1 },
        lines_covered: lines.0,
        lines_total: lines.1,
        branches_covered: branches.0,
        branches_total: branches.1,
        file_count: files,
        created_at_ms: 0,
    }
}

#[test]
fn totals_sum_every_count_over_the_snapshots() {
    let t = snapshot_totals(&[snap(3, (40, 50), (5, 10)), snap(2, (10, 30), (0, 4))]).unwrap();
    assert_eq!(
        t,
        SnapshotTotals { files: 5, lines: 80, lines_covered: 50, branches: 14, branches_covered: 5 }
    );
    assert_eq!(
        snapshot_totals(&[]).unwrap(),
        SnapshotTotals { files: 0, lines: 0, lines_covered: 0, branches: 0, branches_covered: 0 }
    );
}

#[test]
fn totals_that_leave_the_i64_range_are_refused() {
    assert!(snapshot_totals(&[snap(1, (0, i64::MAX), (0, 0)), snap(1, (0, 1), (0, 0))]).is_none());
}

#[test]
fn a_composite_sums_two_or_more_targets() {
    assert!(compute_composite(&[snap(3, (40, 50), (5, 10))]).is_none());
    let c = compute_composite(&[snap(3, (40, 50), (5, 10)), snap(2, (10, 30), (0, 4))]).unwrap();
    assert_eq!((c.file_count, c.lines_covered, c.lines_total, c.branches_covered, c.branches_total), (5, 50, 80, 5, 14));
    assert_eq!(c.line_rate, Rate::Ratio { covered: 50, total: 80 });
    assert_eq!(c.branch_rate, Rate::Ratio { covered: 5, total: 14 });
}
