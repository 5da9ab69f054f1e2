use omnivore::coverage::lcov::{counts_fit, parse, LcovMeta};
use omnivore::coverage::model::Rate;
use omnivore::coverage::model::SnapshotStamp;

fn stamp() -> SnapshotStamp {
    SnapshotStamp { id: "2f1c9c4e-8a3b-4d2e-9f10-5b6a7c8d9e0f".to_string(), created_at_ms: 1_700_000_000_000 }
}

const SAMPLE_LCOV: &str = "\
TN:test-suite
SF:src/main.rs
DA:1,1
DA:2,1
DA:3,0
DA:5,1
BRDA:2,0,0,1
BRDA:2,0,1,0
BRF:2
BRH:1
LF:4
LH:3
end_of_record
SF:src/lib.rs
DA:1,1
DA:2,0
LF:2
LH:1
end_of_record
";

#[test]
fn parse_lcov_basic() {
    let meta = LcovMeta {
        project_id: Some("my-project".into()),
        project_name: Some("My Project".into()),
        commit_sha: Some("abc123".into()),
        branch: Some("main".into()),
    };
    let (report, snapshot) = parse(SAMPLE_LCOV, &meta, &stamp()).unwrap();

    assert_eq!(report.format, "lcov");
    assert_eq!(report.project.id, "my-project");
    assert_eq!(report.files.len(), 2);

    assert_eq!(report.files[0].path, "src/main.rs");
    assert_eq!(report.files[0].lines.len(), 4);
    assert_eq!(report.files[0].line_rate, Rate::Ratio { covered: 3, total: 4 });
    assert_eq!(report.files[0].branch_rate, Rate::Ratio { covered: 1, total: 2 });

    assert_eq!(report.files[1].path, "src/lib.rs");
    assert_eq!(report.files[1].lines.len(), 2);
    assert_eq!(report.files[1].line_rate, Rate::Ratio { covered: 1, total: 2 });

    assert_eq!(snapshot.lines_covered, 4);
    assert_eq!(snapshot.lines_total, 6);
    assert_eq!(snapshot.branches_covered, 1);
    assert_eq!(snapshot.branches_total, 2);
    assert_eq!(snapshot.file_count, 2);
}

#[test]
fn parse_lcov_empty_fails() {
    let meta = LcovMeta::default();
    let result = parse("", &meta, &stamp());
    assert!(result.is_err());
}

#[test]
fn parse_lcov_defaults_project_info() {
    let lcov = "SF:foo.go\nDA:1,1\nend_of_record\n";
    let meta = LcovMeta::default();
    let (report, _) = parse(lcov, &meta, &stamp()).unwrap();
    assert_eq!(report.project.id, "lcov-project");
    assert_eq!(report.project.name, "lcov import");
}

#[test]
fn lcov_snapshot_records_provenance_and_metadata() {
    let meta = LcovMeta {
        project_id: None,
        project_name: None,
        commit_sha: Some("c0ffee".into()),
        branch: Some("dev".into()),
    };
    let (report, snapshot) = parse(SAMPLE_LCOV, &meta, &stamp()).unwrap();
    assert_eq!(snapshot.source, "lcov");
    assert_eq!(snapshot.commit_sha.as_deref(), Some("c0ffee"));
    assert_eq!(snapshot.branch.as_deref(), Some("dev"));
    assert_eq!(report.coverage.line_rate, Rate::Ratio { covered: 4, total: 6 });
    assert_eq!(report.coverage.branch_rate, Rate::Ratio { covered: 1, total: 2 });
}

#[test]
fn lcov_without_source_files_is_an_error_with_its_message() {
    let err = parse("TN:x\n", &LcovMeta::default(), &stamp()).unwrap_err();
    assert!(err.message().starts_with("Invalid lcov: "));
}

#[test]
fn counters_that_would_overflow_are_detected_before_parsing() {
    assert!(counts_fit(SAMPLE_LCOV));
    assert!(counts_fit(""));
    assert!(counts_fit("DA:x,1\nBRF:9223372036854775807\n"));
    let huge = "SF:a\nBRF:9223372036854775807\nend_of_record\nSF:b\nBRF:1\nend_of_record\n";
    assert!(!counts_fit(huge));
    assert!(!counts_fit("SF:a\nBRF:9223372036854775807\nBRDA:1,0,0,1\n"));
}
