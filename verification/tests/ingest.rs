use omnivore::coverage::format::{CoverageFormat, ParseError};
use omnivore::coverage::model::CoverageTarget;
use omnivore::server::ingest::{ingest_format, ingest_meta, jacoco_target, select_badge_series, BadgeQuery, IngestParams};

fn params() -> IngestParams {
    IngestParams {
        format: None,
        target: None,
        project_id: Some("p".into()),
        project_name: None,
        commit_sha: Some("abc".into()),
        branch: Some("main".into()),
        github_repo: None,
        pr_number: None,
        base_branch: None,
    }
}

#[test]
fn explicit_formats_are_read_case_insensitively() {
    assert_eq!(ingest_format(Some("LCOV"), ""), Ok(CoverageFormat::Lcov));
    assert_eq!(ingest_format(Some("coverage.py"), ""), Ok(CoverageFormat::PythonCoverage));
    assert_eq!(ingest_format(Some("Kover"), "mode: set"), Ok(CoverageFormat::Kover));
    let err = ingest_format(Some("cobertura"), "").unwrap_err();
    assert_eq!(err.0, 400);
    assert_eq!(err.1, "Unknown format: cobertura. Use omnivore, lcov, llvm-cov, go, python, kover, or jacoco");
}

#[test]
fn formats_are_detected_from_the_body() {
    assert_eq!(ingest_format(None, "  TN:x\nSF:a\n"), Ok(CoverageFormat::Lcov));
    assert_eq!(ingest_format(None, "mode: count\n"), Ok(CoverageFormat::GoCoverprofile));
    assert_eq!(ingest_format(None, r#"{"type":"llvm.coverage.json.export"}"#), Ok(CoverageFormat::LlvmCov));
    assert_eq!(
        ingest_format(None, r#"{"executed_lines":[1],"num_statements":1}"#),
        Ok(CoverageFormat::PythonCoverage)
    );
    assert_eq!(ingest_format(None, r#"{"format":"omnivore"}"#), Ok(CoverageFormat::Omnivore));
    assert_eq!(ingest_format(None, "<?xml version=\"1.0\"?><report name=\"r\"/>"), Ok(CoverageFormat::Jacoco));
    let err = ingest_format(None, "hello").unwrap_err();
    assert_eq!(err, (400, "Could not detect format. Specify ?format= query parameter".to_string()));
}

#[test]
fn format_names_and_sources() {
    assert_eq!(CoverageFormat::from_str_loose("Go"), Some(CoverageFormat::GoCoverprofile));
    assert_eq!(CoverageFormat::from_str_loose("nope"), None);
    assert_eq!(CoverageFormat::Kover.source(), "kover");
    assert_eq!(CoverageFormat::Omnivore.source(), "omnivore-agent");
    assert_eq!(CoverageFormat::detect(""), None);
    assert_eq!(ParseError::UnknownFormat.message(), "Unknown format");
    assert_eq!(ParseError::Json("eof".into()).message(), "Invalid JSON: eof");
}

#[test]
fn jacoco_targets_default_to_jvm_unit() {
    assert_eq!(jacoco_target(None), Ok(CoverageTarget::JvmUnit));
    assert_eq!(jacoco_target(Some("android-instrumented")), Ok(CoverageTarget::AndroidInstrumented));
    assert_eq!(jacoco_target(Some("moon")), Err((400, "Unknown target: moon".to_string())));
}

#[test]
fn targets_round_trip_through_their_names() {
    for t in [
        CoverageTarget::JvmUnit,
        CoverageTarget::AndroidInstrumented,
        CoverageTarget::IosUnit,
        CoverageTarget::KotlinNative,
        CoverageTarget::Composite,
        CoverageTarget::RustLlvmCov,
        CoverageTarget::GoCover,
        CoverageTarget::PythonCoverage,
        CoverageTarget::Lcov,
    ] {
        assert_eq!(CoverageTarget::from_str_loose(t.as_str()), Some(t));
    }
    assert_eq!(CoverageTarget::from_str_loose(" jvm-unit "), Some(CoverageTarget::JvmUnit));
    assert_eq!(CoverageTarget::from_str_loose("jvm unit"), None);
}

#[test]
fn ingest_meta_carries_the_query() {
    let m = ingest_meta(&params());
    assert_eq!(m.project_id.as_deref(), Some("p"));
    assert_eq!(m.project_name, None);
    assert_eq!(m.commit_sha.as_deref(), Some("abc"));
    assert_eq!(m.branch.as_deref(), Some("main"));
}

#[test]
fn a_badge_shows_a_series_only_when_exactly_one_matches() {
    let series = vec![
        ("JVM_UNIT".to_string(), "kover".to_string()),
        ("JVM_UNIT".to_string(), "jacoco".to_string()),
        ("LCOV".to_string(), "lcov".to_string()),
    ];
    let q = |t: Option<&str>, s: Option<&str>| BadgeQuery {
        metric: None,
        target: t.map(|x| x.to_string()),
        source: s.map(|x| x.to_string()),
    };
    assert_eq!(select_badge_series(&series, &q(None, None)), None);
    assert_eq!(select_badge_series(&series, &q(Some("jvm_unit"), None)), None);
    assert_eq!(select_badge_series(&series, &q(Some("JVM_UNIT"), Some("Jacoco"))), Some(1));
    assert_eq!(select_badge_series(&series, &q(Some("lcov"), Some(""))), Some(2));
    assert_eq!(select_badge_series(&series, &q(Some("GO_COVER"), None)), None);
    assert_eq!(select_badge_series(&vec![], &q(None, None)), None);
}
