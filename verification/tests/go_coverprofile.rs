use omnivore::coverage::format::{IngestMeta, ParseError};
use omnivore::coverage::go_coverprofile::{parse, GoCoverprofileMeta, MAX_TOTAL_LINES};
use omnivore::coverage::model::{Rate, MAX_LINE_NUMBER};
use omnivore::coverage::model::SnapshotStamp;

fn stamp() -> SnapshotStamp {
    SnapshotStamp { id: "2f1c9c4e-8a3b-4d2e-9f10-5b6a7c8d9e0f".to_string(), created_at_ms: 1_700_000_000_000 }
}

#[test]
fn rejects_a_block_range_no_real_file_could_have() {
    let meta = IngestMeta::default();
    let input = "mode: set\na.go:1.0,2000000000.0 1 1\n";
    let err = parse(input, &meta, &stamp()).unwrap_err();
    assert!(
        err.message().contains("plausible source line range"),
        "expected a range rejection, got: {}",
        err.message()
    );
}

#[test]
fn rejects_inverted_and_zero_ranges() {
    let meta = IngestMeta::default();
    for bad in ["a.go:9.0,2.0 1 1", "a.go:0.0,5.0 1 1", "a.go:-3.0,5.0 1 1"] {
        let input = format!("mode: set\n{bad}\n");
        assert!(parse(&input, &meta, &stamp()).is_err(), "should reject: {bad}");
    }
}

#[test]
fn rejects_a_profile_that_expands_past_the_total_ceiling() {
    let meta = IngestMeta::default();
    let mut input = String::from("mode: set\n");
    for i in 0..3 {
        input.push_str(&format!("f{i}.go:1.0,{MAX_LINE_NUMBER}.0 1 1\n"));
    }
    let err = parse(&input, &meta, &stamp()).unwrap_err();
    assert!(
        err.message().contains("expands to more than"),
        "expected a total-size rejection, got: {}",
        err.message()
    );
}

#[test]
fn still_accepts_an_ordinary_profile() {
    let meta = IngestMeta::default();
    let (report, _) = parse("mode: set\na.go:10.2,14.3 2 5\n", &meta, &stamp()).unwrap();
    assert_eq!(report.files[0].lines.len(), 5);
}

const SAMPLE_COVERPROFILE: &str = "\
mode: count
github.com/jkjamies/omnivore/go-test-rig/model/task.go:10.2,15.3 2 5
github.com/jkjamies/omnivore/go-test-rig/model/task.go:17.1,20.2 1 0
github.com/jkjamies/omnivore/go-test-rig/usecase/usecase.go:5.2,8.3 1 3
";

#[test]
fn go_coverprofile_parse_basic() {
    let meta = GoCoverprofileMeta {
        project_id: Some("my-go-project".into()),
        project_name: Some("My Go Project".into()),
        commit_sha: Some("def456".into()),
        branch: Some("main".into()),
    };
    let (report, snapshot) = parse(SAMPLE_COVERPROFILE, &meta, &stamp()).unwrap();

    assert_eq!(report.format, "go-coverprofile");
    assert_eq!(report.project.id, "my-go-project");
    assert_eq!(report.files.len(), 2);

    assert_eq!(report.files[0].path, "model/task.go");
    let task_lines = &report.files[0].lines;
    assert!(task_lines.iter().any(|l| l.line_number == 10 && l.hit_count == 5));
    assert!(task_lines.iter().any(|l| l.line_number == 17 && l.hit_count == 0));

    assert_eq!(report.files[1].path, "usecase/usecase.go");

    assert_eq!(snapshot.project_id, "my-go-project");
    assert!(snapshot.lines_covered > 0);
    assert!(snapshot.lines_total > 0);
    assert_eq!(snapshot.branches_total, 0);
}

#[test]
fn parse_missing_mode_fails() {
    let meta = GoCoverprofileMeta::default();
    let result = parse("some/file.go:1.1,2.1 1 1", &meta, &stamp());
    assert!(result.is_err());
}

#[test]
fn parse_empty_data_fails() {
    let meta = GoCoverprofileMeta::default();
    let result = parse("mode: count\n", &meta, &stamp());
    assert!(result.is_err());
}

#[test]
fn go_coverprofile_parse_defaults_project_info() {
    let input = "mode: count\nfoo.go:1.1,2.1 1 1\n";
    let meta = GoCoverprofileMeta::default();
    let (report, _) = parse(input, &meta, &stamp()).unwrap();
    assert_eq!(report.project.id, "go-project");
    assert_eq!(report.project.name, "go import");
}

#[test]
fn parse_overlapping_blocks_takes_max() {
    let input = "\
mode: count
foo.go:1.1,5.1 2 3
foo.go:3.1,7.1 2 10
";
    let meta = GoCoverprofileMeta::default();
    let (report, _) = parse(input, &meta, &stamp()).unwrap();
    let lines = &report.files[0].lines;
    let line3 = lines.iter().find(|l| l.line_number == 3).unwrap();
    assert_eq!(line3.hit_count, 10);
    let line1 = lines.iter().find(|l| l.line_number == 1).unwrap();
    assert_eq!(line1.hit_count, 3);
}

#[test]
fn go_counts_and_rates_are_exact() {
    let (report, snapshot) = parse(SAMPLE_COVERPROFILE, &IngestMeta::default(), &stamp()).unwrap();
    // task.go: lines 10..=15 hit, 17..=20 not; usecase.go: 5..=8 hit.
    assert_eq!(report.files[0].lines.len(), 10);
    assert_eq!(report.files[0].line_rate, Rate::Ratio { covered: 6, total: 10 });
    assert_eq!(report.files[1].line_rate, Rate::Ratio { covered: 4, total: 4 });
    assert_eq!(snapshot.lines_covered, 10);
    assert_eq!(snapshot.lines_total, 14);
    assert_eq!(snapshot.file_count, 2);
    assert_eq!(snapshot.source, "go");
    assert_eq!(snapshot.target, "GO_COVER");
}

#[test]
fn the_range_errors_name_the_bounds() {
    let err = parse("mode: set\na.go:1.0,2000000000.0 1 1\n", &IngestMeta::default(), &stamp()).unwrap_err();
    assert!(matches!(err, ParseError::GoCoverprofile(_)));
    assert!(MAX_TOTAL_LINES >= MAX_LINE_NUMBER as usize);
    let missing = parse("a.go:1.0,2.0 1 1\n", &IngestMeta::default(), &stamp()).unwrap_err();
    assert!(missing.message().starts_with("Invalid Go coverprofile: "));
}
