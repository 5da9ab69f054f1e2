use omnivore::coverage::format::ParseError;
use omnivore::coverage::jacoco_xml::{from_document, strip_prolog, Counter, Line, Package, Report, SourceFile};
use omnivore::coverage::model::{CoverageTarget, Rate};
use omnivore::coverage::source;
use omnivore::coverage::format::IngestMeta;
use omnivore::coverage::model::SnapshotStamp;

fn stamp() -> SnapshotStamp {
    SnapshotStamp { id: "2f1c9c4e-8a3b-4d2e-9f10-5b6a7c8d9e0f".to_string(), created_at_ms: 1_700_000_000_000 }
}

fn line(nr: i32, mi: i64, ci: i64, mb: i64, cb: i64) -> Line {
    Line { nr, mi, ci, mb, cb }
}

fn counter(t: &str, missed: i64, covered: i64) -> Counter {
    Counter { counter_type: t.to_string(), missed, covered }
}

fn report(packages: Vec<Package>, counters: Vec<Counter>) -> Report {
    Report { name: "r".to_string(), packages, counters }
}

fn package(name: &str, files: Vec<SourceFile>) -> Package {
    Package { name: name.to_string(), sourcefiles: files }
}

fn file(name: &str, lines: Vec<Line>) -> SourceFile {
    SourceFile { name: name.to_string(), lines }
}

/// The sample Kover report: one source file, report-level counters.
fn sample() -> Report {
    report(
        vec![package(
            "com/example/app",
            vec![file("Calculator.kt", vec![line(5, 0, 4, 0, 0), line(6, 0, 6, 1, 1), line(7, 3, 0, 0, 0)])],
        )],
        vec![
            counter("INSTRUCTION", 3, 10),
            counter("LINE", 1, 2),
            counter("BRANCH", 1, 1),
            counter("METHOD", 0, 1),
            counter("CLASS", 0, 1),
        ],
    )
}

#[test]
fn parse_jacoco_basic() {
    let meta = IngestMeta {
        project_id: Some("kmp-app".into()),
        project_name: Some("KMP App".into()),
        commit_sha: Some("abc123".into()),
        branch: Some("main".into()),
    };
    let (report, snapshot) = from_document(&sample(), &meta, CoverageTarget::JvmUnit, source::KOVER, &stamp()).unwrap();

    assert_eq!(report.format, "jacoco-xml");
    assert_eq!(report.project.id, "kmp-app");
    assert_eq!(report.project.target, CoverageTarget::JvmUnit);
    assert_eq!(report.files.len(), 1);

    assert_eq!(report.files[0].path, "com/example/app/Calculator.kt");
    assert_eq!(report.files[0].lines.len(), 3);
    assert!(report.files[0].lines.iter().any(|l| l.line_number == 7 && l.hit_count == 0));
    assert!(report.files[0].lines.iter().any(|l| l.line_number == 5 && l.hit_count == 4));

    assert_eq!(snapshot.lines_covered, 2);
    assert_eq!(snapshot.lines_total, 3);
    assert_eq!(snapshot.branches_covered, 1);
    assert_eq!(snapshot.branches_total, 2);
    assert_eq!(snapshot.file_count, 1);

    assert_eq!(snapshot.source, source::KOVER);
    assert_eq!(snapshot.target, "JVM_UNIT");
}

#[test]
fn parse_jacoco_default_package_and_source() {
    let doc = report(vec![package("", vec![file("Main.kt", vec![line(1, 0, 2, 0, 0)])])], vec![]);
    let meta = IngestMeta::default();
    let (report, snapshot) = from_document(&doc, &meta, CoverageTarget::JvmUnit, source::JACOCO, &stamp()).unwrap();
    assert_eq!(report.files[0].path, "Main.kt");
    assert_eq!(report.project.id, "jacoco-project");
    assert_eq!(snapshot.source, source::JACOCO);
}

#[test]
fn parse_jacoco_computes_totals_without_report_counters() {
    let doc = report(vec![package("p", vec![file("A.kt", vec![line(1, 0, 1, 0, 0), line(2, 1, 0, 0, 0)])])], vec![]);
    let meta = IngestMeta::default();
    let (_, snapshot) = from_document(&doc, &meta, CoverageTarget::JvmUnit, source::JACOCO, &stamp()).unwrap();
    assert_eq!(snapshot.lines_total, 2);
    assert_eq!(snapshot.lines_covered, 1);
}

#[test]
fn parse_jacoco_branch_fallback_without_report_counter() {
    let doc = report(vec![package("p", vec![file("A.kt", vec![line(1, 0, 2, 1, 1), line(2, 0, 2, 0, 2)])])], vec![]);
    let meta = IngestMeta::default();
    let (report, snapshot) = from_document(&doc, &meta, CoverageTarget::JvmUnit, source::JACOCO, &stamp()).unwrap();
    assert_eq!(snapshot.branches_covered, 3);
    assert_eq!(snapshot.branches_total, 4);
    assert_eq!(report.coverage.branch_rate, Rate::Ratio { covered: 3, total: 4 });
}

#[test]
fn parse_jacoco_empty_fails() {
    let doc = report(vec![], vec![]);
    let meta = IngestMeta::default();
    assert_eq!(
        from_document(&doc, &meta, CoverageTarget::JvmUnit, source::JACOCO, &stamp()).unwrap_err(),
        ParseError::Jacoco("No sourcefiles with line coverage found in report".to_string())
    );
}

#[test]
fn parse_jacoco_target_override() {
    let doc = report(vec![package("p", vec![file("A.kt", vec![line(1, 0, 1, 0, 0)])])], vec![]);
    let meta = IngestMeta::default();
    let (_, snapshot) = from_document(&doc, &meta, CoverageTarget::AndroidInstrumented, source::JACOCO, &stamp()).unwrap();
    assert_eq!(snapshot.target, "ANDROID_INSTRUMENTED");
}

#[test]
fn jacoco_lines_are_sorted_and_files_without_lines_dropped() {
    let doc = report(
        vec![package(
            "p",
            vec![file("Empty.kt", vec![]), file("B.kt", vec![line(9, 0, 1, 0, 0), line(3, 2, 0, 0, 0)])],
        )],
        vec![],
    );
    let (report, _) = from_document(&doc, &IngestMeta::default(), CoverageTarget::JvmUnit, source::JACOCO, &stamp()).unwrap();
    assert_eq!(report.files.len(), 1);
    assert_eq!(report.files[0].path, "p/B.kt");
    let nrs: Vec<i32> = report.files[0].lines.iter().map(|l| l.line_number).collect();
    assert_eq!(nrs, vec![3, 9]);
    assert_eq!(report.files[0].line_rate, Rate::Ratio { covered: 1, total: 2 });
}

#[test]
fn report_counters_are_found_by_type() {
    let doc = sample();
    assert_eq!(doc.counter("LINE").map(|c| (c.missed, c.covered)), Some((1, 2)));
    assert!(doc.counter("COMPLEXITY").is_none());
}

#[test]
fn the_prolog_is_stripped() {
    let xml = "  <?xml version=\"1.0\"?><!DOCTYPE report PUBLIC \"-//JACOCO//DTD Report 1.1//EN\" \"report.dtd\"><report name=\"r\"/>";
    assert_eq!(strip_prolog(xml), "<report name=\"r\"/>");
    assert_eq!(strip_prolog("<report/>"), "<report/>");
}
