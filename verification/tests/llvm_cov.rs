use omnivore::coverage::format::ParseError;
use omnivore::coverage::llvm_cov::{
    from_document, segments_to_lines, LlvmCovData, LlvmCovExport, LlvmCovFile, LlvmCovMeta, LlvmCovMetric,
    LlvmCovTotals, Segment,
};
use omnivore::coverage::model::{LineCoverage, Rate};
use omnivore::coverage::model::SnapshotStamp;

fn stamp() -> SnapshotStamp {
    SnapshotStamp { id: "2f1c9c4e-8a3b-4d2e-9f10-5b6a7c8d9e0f".to_string(), created_at_ms: 1_700_000_000_000 }
}

fn seg(line: i64, count: i64, has_count: bool) -> Segment {
    Segment { fields: 5, line: Some(line), count: Some(count), flag_bool: Some(has_count), flag_int: None }
}

fn metric(count: i64, covered: i64, percent: f64) -> LlvmCovMetric {
    LlvmCovMetric { count, covered, fraction_bits: (percent / 100.0).to_bits() }
}

fn totals(lines: (i64, i64, f64), branches: (i64, i64, f64)) -> LlvmCovTotals {
    LlvmCovTotals {
        lines: Some(metric(lines.0, lines.1, lines.2)),
        branches: Some(metric(branches.0, branches.1, branches.2)),
    }
}

fn sample() -> LlvmCovExport {
    LlvmCovExport {
        data: vec![LlvmCovData {
            files: vec![
                LlvmCovFile {
                    filename: "src/main.rs".to_string(),
                    segments: vec![seg(1, 5, true), seg(3, 0, true), seg(5, 3, true), seg(7, 0, false)],
                    summary: Some(totals((3, 2, 66.67), (2, 1, 50.0))),
                },
                LlvmCovFile {
                    filename: "src/lib.rs".to_string(),
                    segments: vec![seg(1, 10, true), seg(2, 10, true), seg(3, 0, false)],
                    summary: Some(totals((2, 2, 100.0), (0, 0, 0.0))),
                },
            ],
            totals: Some(totals((5, 4, 80.0), (2, 1, 50.0))),
        }],
    }
}

#[test]
fn parse_llvm_cov_basic() {
    let meta = LlvmCovMeta {
        project_id: Some("rust-app".into()),
        project_name: Some("Rust App".into()),
        commit_sha: Some("def456".into()),
        branch: Some("main".into()),
    };
    let (report, snapshot) = from_document(&sample(), &meta, &stamp()).unwrap();

    assert_eq!(report.format, "llvm-cov");
    assert_eq!(report.project.id, "rust-app");
    assert_eq!(report.files.len(), 2);

    assert_eq!(report.files[0].path, "src/main.rs");
    assert_eq!(report.files[0].lines.len(), 3);

    assert_eq!(snapshot.lines_covered, 4);
    assert_eq!(snapshot.lines_total, 5);
    assert_eq!(snapshot.branches_covered, 1);
    assert_eq!(snapshot.branches_total, 2);
    assert_eq!(snapshot.file_count, 2);
}

#[test]
fn parse_llvm_cov_empty_data_fails() {
    let export = LlvmCovExport { data: vec![] };
    let meta = LlvmCovMeta::default();
    assert_eq!(
        from_document(&export, &meta, &stamp()).unwrap_err(),
        ParseError::LlvmCov("No data entries in export".to_string())
    );
}

#[test]
fn parse_llvm_cov_defaults_project_info() {
    let export = LlvmCovExport {
        data: vec![LlvmCovData {
            files: vec![LlvmCovFile {
                filename: "main.go".to_string(),
                segments: vec![seg(1, 1, true), seg(2, 0, false)],
                summary: None,
            }],
            totals: None,
        }],
    };
    let meta = LlvmCovMeta::default();
    let (report, snapshot) = from_document(&export, &meta, &stamp()).unwrap();
    assert_eq!(report.project.id, "llvm-cov-project");
    assert_eq!(report.project.name, "llvm-cov import");
    // No totals in the export: counted over the kept files.
    assert_eq!(snapshot.lines_total, 1);
    assert_eq!(snapshot.lines_covered, 1);
    assert_eq!(snapshot.branches_total, 0);
}

#[test]
fn segments_become_lines_in_order_taking_the_largest_count() {
    let lines = segments_to_lines(&[seg(5, 3, true), seg(1, 5, true), seg(5, 9, true), seg(2, 7, false)]);
    assert_eq!(
        lines,
        vec![LineCoverage { line_number: 1, hit_count: 5 }, LineCoverage { line_number: 5, hit_count: 9 }]
    );
    let short = Segment { fields: 3, line: Some(1), count: Some(1), flag_bool: Some(true), flag_int: None };
    let numeric = Segment { fields: 4, line: Some(4), count: Some(2), flag_bool: None, flag_int: Some(1) };
    assert_eq!(segments_to_lines(&[short, numeric]), vec![LineCoverage { line_number: 4, hit_count: 2 }]);
}

#[test]
fn files_without_counted_lines_are_dropped() {
    let export = LlvmCovExport {
        data: vec![LlvmCovData {
            files: vec![LlvmCovFile { filename: "x.rs".to_string(), segments: vec![seg(1, 0, false)], summary: None }],
            totals: None,
        }],
    };
    assert_eq!(
        from_document(&export, &LlvmCovMeta::default(), &stamp()).unwrap_err(),
        ParseError::LlvmCov("No files with coverage data".to_string())
    );
    let (report, _) = from_document(&sample(), &LlvmCovMeta::default(), &stamp()).unwrap();
    assert_eq!(report.files[1].line_rate, Rate::Ratio { covered: 2, total: 2 });
    assert_eq!(report.coverage.line_rate, Rate::Ratio { covered: 4, total: 5 });
    assert_eq!(report.files[0].branch_rate, Rate::Reported { bits: (50.0f64 / 100.0).to_bits() });
}
