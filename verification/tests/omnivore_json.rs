use omnivore::coverage::model::{
    CoverageSummary, CoverageTarget, FileCoverage, LineCoverage, OmnivoreReport, ProjectInfo, Rate,
};
use omnivore::coverage::omnivore_json::from_document;
use omnivore::coverage::model::SnapshotStamp;

fn stamp() -> SnapshotStamp {
    SnapshotStamp { id: "2f1c9c4e-8a3b-4d2e-9f10-5b6a7c8d9e0f".to_string(), created_at_ms: 1_700_000_000_000 }
}

fn reported(v: f64) -> Rate {
    Rate::Reported { bits: v.to_bits() }
}

fn sample() -> OmnivoreReport {
    OmnivoreReport {
        version: "0.1.0".to_string(),
        format: "omnivore".to_string(),
        project: ProjectInfo {
            id: "test-project".to_string(),
            name: "Test Project".to_string(),
            commit_sha: Some("abc123".to_string()),
            branch: Some("main".to_string()),
            target: CoverageTarget::JvmUnit,
            source: None,
        },
        coverage: CoverageSummary {
            line_rate: reported(0.78),
            branch_rate: reported(0.71),
            lines_covered: 106,
            lines_total: 136,
            branches_covered: 34,
            branches_total: 48,
        },
        files: vec![FileCoverage {
            path: "com/example/Foo.kt".to_string(),
            line_rate: reported(0.86),
            branch_rate: reported(0.89),
            lines: vec![
                LineCoverage { line_number: 10, hit_count: 1 },
                LineCoverage { line_number: 12, hit_count: 0 },
            ],
            branches_covered: 0,
            branches_total: 0,
            source_content: None,
        }],
        dependencies: None,
    }
}

#[test]
fn parse_omnivore_json() {
    let (report, snapshot) = from_document(sample(), &stamp());
    assert_eq!(report.project.id, "test-project");
    assert_eq!(report.project.name, "Test Project");
    assert_eq!(report.coverage.lines_covered, 106);
    assert_eq!(report.files.len(), 1);

    assert_eq!(snapshot.project_id, "test-project");
    assert_eq!(snapshot.line_rate, reported(0.78));
    assert_eq!(snapshot.file_count, 1);
    assert!(snapshot.commit_sha.as_deref() == Some("abc123"));
}

#[test]
fn empty_source_falls_back_to_agent() {
    let mut doc = sample();
    doc.project.source = Some(String::new());
    doc.files = vec![];
    let (_, snapshot) = from_document(doc, &stamp());
    assert_eq!(snapshot.source, "omnivore-agent");
}

#[test]
fn a_declared_source_is_kept_and_implausible_lines_dropped() {
    let mut doc = sample();
    doc.project.source = Some("kover".to_string());
    doc.files[0].lines.push(LineCoverage { line_number: 0, hit_count: 3 });
    doc.files[0].lines.push(LineCoverage { line_number: -4, hit_count: 3 });
    let (report, snapshot) = from_document(doc, &stamp());
    assert_eq!(snapshot.source, "kover");
    assert_eq!(snapshot.target, "JVM_UNIT");
    assert_eq!(report.files[0].lines, sample().files[0].lines);
    assert_eq!(snapshot.lines_total, 136);
}

#[test]
fn sanitizing_a_sanitized_report_changes_nothing() {
    let mut doc = sample();
    doc.files[0].lines.push(LineCoverage { line_number: 2_000_001, hit_count: 1 });
    let (once, _) = from_document(doc, &stamp());
    let (twice, _) = from_document(once.clone(), &stamp());
    assert_eq!(twice.files, once.files);
    assert_eq!(once.files[0].lines.len(), 2);
}

#[test]
fn the_snapshot_carries_its_stamp() {
    let (_, snapshot) = from_document(sample(), &stamp());
    assert_eq!(snapshot.id, "2f1c9c4e-8a3b-4d2e-9f10-5b6a7c8d9e0f");
    assert_eq!(snapshot.created_at_ms, 1_700_000_000_000);
}
