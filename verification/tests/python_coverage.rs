use omnivore::coverage::format::ParseError;
use omnivore::coverage::model::Rate;
use omnivore::coverage::python_coverage::{
    from_document, CoverageJson, CoverageMeta, FileEntry, FileSummary, PythonCoverageMeta, TotalsSummary,
};
use omnivore::coverage::model::SnapshotStamp;

fn stamp() -> SnapshotStamp {
    SnapshotStamp { id: "2f1c9c4e-8a3b-4d2e-9f10-5b6a7c8d9e0f".to_string(), created_at_ms: 1_700_000_000_000 }
}

fn no_branches() -> FileSummary {
    FileSummary { num_branches: None, covered_branches: None, missing_branches: None }
}

fn entry(executed: Vec<i32>, missing: Vec<i32>, summary: FileSummary) -> FileEntry {
    FileEntry { executed_lines: executed, missing_lines: missing, summary }
}

/// The sample document: two files, no branch data, listed out of path order.
fn sample() -> CoverageJson {
    CoverageJson {
        meta: CoverageMeta { branch_coverage: false },
        files: vec![
            ("taskmanager/usecase.py".to_string(), entry(vec![1, 2, 3], vec![5], no_branches())),
            (
                "taskmanager/model.py".to_string(),
                entry(vec![1, 2, 3, 5, 6, 10, 11], vec![7, 8, 15], no_branches()),
            ),
        ],
        totals: TotalsSummary { covered_lines: 10, num_statements: 14, num_branches: None, covered_branches: None },
    }
}

#[test]
fn python_coverage_parse_basic() {
    let meta = PythonCoverageMeta {
        project_id: Some("my-python-project".into()),
        project_name: Some("My Python Project".into()),
        commit_sha: Some("abc123".into()),
        branch: Some("main".into()),
    };
    let (report, snapshot) = from_document(&sample(), &meta, &stamp()).unwrap();

    assert_eq!(report.format, "python-coverage");
    assert_eq!(report.project.id, "my-python-project");
    assert_eq!(report.files.len(), 2);

    assert_eq!(report.files[0].path, "taskmanager/model.py");
    assert_eq!(report.files[0].lines.len(), 10);
    assert_eq!(report.files[0].line_rate, Rate::Ratio { covered: 7, total: 10 });

    assert_eq!(snapshot.lines_covered, 10);
    assert_eq!(snapshot.lines_total, 14);
    assert_eq!(snapshot.file_count, 2);
}

#[test]
fn parse_with_branches() {
    let cov = CoverageJson {
        meta: CoverageMeta { branch_coverage: true },
        files: vec![(
            "foo.py".to_string(),
            entry(
                vec![1, 2, 3],
                vec![5],
                FileSummary { num_branches: Some(4), covered_branches: Some(3), missing_branches: Some(1) },
            ),
        )],
        totals: TotalsSummary { covered_lines: 3, num_statements: 4, num_branches: Some(4), covered_branches: Some(3) },
    };
    let meta = PythonCoverageMeta::default();
    let (report, snapshot) = from_document(&cov, &meta, &stamp()).unwrap();

    assert_eq!(snapshot.branches_total, 4);
    assert_eq!(snapshot.branches_covered, 3);
    assert_eq!(report.files[0].branch_rate, Rate::Ratio { covered: 3, total: 4 });
}

#[test]
fn parse_empty_files_fails() {
    let cov = CoverageJson {
        meta: CoverageMeta { branch_coverage: false },
        files: vec![],
        totals: TotalsSummary { covered_lines: 0, num_statements: 0, num_branches: None, covered_branches: None },
    };
    let meta = PythonCoverageMeta::default();
    assert_eq!(
        from_document(&cov, &meta, &stamp()).unwrap_err(),
        ParseError::PythonCoverage("No files in coverage report".to_string())
    );
}

#[test]
fn python_coverage_parse_defaults_project_info() {
    let cov = CoverageJson {
        meta: CoverageMeta { branch_coverage: false },
        files: vec![("foo.py".to_string(), entry(vec![1], vec![], no_branches()))],
        totals: TotalsSummary { covered_lines: 1, num_statements: 1, num_branches: None, covered_branches: None },
    };
    let meta = PythonCoverageMeta::default();
    let (report, _) = from_document(&cov, &meta, &stamp()).unwrap();
    assert_eq!(report.project.id, "python-project");
    assert_eq!(report.project.name, "python import");
}

#[test]
fn python_lines_come_out_sorted_with_hits_and_misses() {
    let (report, snapshot) = from_document(&sample(), &PythonCoverageMeta::default(), &stamp()).unwrap();
    let lines: Vec<(i32, i64)> = report.files[1].lines.iter().map(|l| (l.line_number, l.hit_count)).collect();
    assert_eq!(lines, vec![(1, 1), (2, 1), (3, 1), (5, 0)]);
    assert_eq!(report.files[1].branch_rate, Rate::Ratio { covered: 0, total: 0 });
    assert_eq!(report.coverage.line_rate, Rate::Ratio { covered: 10, total: 14 });
    assert_eq!(snapshot.source, "python-coverage");
    assert_eq!(snapshot.target, "PYTHON_COVERAGE");
}
