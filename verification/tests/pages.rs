use omnivore::coverage::model::{FileCoverage, LineCoverage, Rate};
use omnivore::server::pages::{build_source_candidates, html_escape, line_rows, row_html, target_label, LineRow, LineStatus};

fn file(lines: Vec<(i32, i64)>, source: Option<&str>) -> FileCoverage {
    FileCoverage {
        path: "a.kt".to_string(),
        line_rate: Rate::zero(),
        branch_rate: Rate::zero(),
        lines: lines.into_iter().map(|(n, h)| LineCoverage { line_number: n, hit_count: h }).collect(),
        branches_covered: 0,
        branches_total: 0,
        source_content: source.map(|s| s.to_string()),
    }
}

#[test]
fn html_is_escaped() {
    assert_eq!(html_escape("<a href=\"x\">&</a>"), "&lt;a href=&quot;x&quot;&gt;&amp;&lt;/a&gt;");
    assert_eq!(html_escape("plain 'text'"), "plain 'text'");
    let once = html_escape("<script>");
    assert!(!once.contains('<') && !once.contains('>'));
}

#[test]
fn targets_have_friendly_labels() {
    assert_eq!(target_label("JVM_UNIT"), "Unit Tests");
    assert_eq!(target_label("GoCover"), "Go");
    assert_eq!(target_label("RUST_LLVM_COV"), "Rust (llvm-cov)");
    assert_eq!(target_label("SOMETHING_ELSE"), "SOMETHING_ELSE");
}

#[test]
fn rows_follow_the_source_lines() {
    let f = file(vec![(1, 3), (2, 0)], Some("fn a() {\n  b();\n}\n"));
    let rows = line_rows(&f);
    assert_eq!(rows.len(), 3);
    assert_eq!((rows[0].number, rows[0].hits, rows[0].status, rows[0].css_class), (1, 3, LineStatus::Covered, "line-covered"));
    assert_eq!(rows[0].code, "fn a() {");
    assert_eq!((rows[1].hits, rows[1].status, rows[1].css_class), (0, LineStatus::Uncovered, "line-uncovered"));
    assert_eq!((rows[2].status, rows[2].css_class, rows[2].code.as_str()), (LineStatus::NoData, "", "}"));
}

#[test]
fn rows_without_source_run_to_the_last_line() {
    let f = file(vec![(4, 1), (2, 2)], None);
    let rows = line_rows(&f);
    assert_eq!(rows.len(), 4);
    assert_eq!(rows[1].hits, 2);
    assert_eq!(rows[2].status, LineStatus::NoData);
    assert_eq!(rows[3].code, "");
    assert!(line_rows(&file(vec![], None)).is_empty());
    assert!(line_rows(&file(vec![(0, 1), (-2, 1)], None)).is_empty());
}

#[test]
fn source_candidates_without_a_root_are_the_path() {
    assert_eq!(build_source_candidates(None, "com/x/A.kt"), vec!["com/x/A.kt".to_string()]);
}

#[test]
fn source_candidates_try_each_module_segment_once() {
    let c = build_source_candidates(Some("repo//"), "app/x/app/A.kt");
    assert_eq!(
        c,
        vec![
            "repo/app/src/main/java/app/x/app/A.kt".to_string(),
            "repo/app/src/main/kotlin/app/x/app/A.kt".to_string(),
            "repo/x/src/main/java/app/x/app/A.kt".to_string(),
            "repo/x/src/main/kotlin/app/x/app/A.kt".to_string(),
            "repo/A.kt/src/main/java/app/x/app/A.kt".to_string(),
            "repo/A.kt/src/main/kotlin/app/x/app/A.kt".to_string(),
            "repo/app/x/app/A.kt".to_string(),
            "app/x/app/A.kt".to_string(),
        ]
    );
    let d = build_source_candidates(Some("mod/src/main/kotlin"), "A.kt");
    assert_eq!(d[0], "mod/src/main/kotlin/A.kt");
}

#[test]
fn escaping_can_be_undone_and_leaves_no_markup() {
    let s = "<a href=\"x\">&amp;</a>";
    let e = html_escape(s);
    assert_eq!(e, "&lt;a href=&quot;x&quot;&gt;&amp;amp;&lt;/a&gt;");
    assert!(!e.contains('<') && !e.contains('>') && !e.contains('"'));
    let back = e.replace("&quot;", "\"").replace("&gt;", ">").replace("&lt;", "<").replace("&amp;", "&");
    assert_eq!(back, s);
}

#[test]
fn a_row_renders_as_its_table_row() {
    let row = LineRow { number: 7, hits: 3, status: LineStatus::Covered, css_class: "line-covered", code: "a < b".to_string() };
    assert_eq!(
        row_html(&row),
        "<tr class=\"line-covered\"><td class=\"line-gutter\"><span class=\"gutter-mark gutter-covered\"></span></td><td class=\"line-num\">7</td><td class=\"line-hits\"><span class=\"hit-badge hit-covered\">3x</span></td><td class=\"line-code\"><pre>a &lt; b</pre></td></tr>"
    );
    let blank = LineRow { number: 8, hits: 0, status: LineStatus::NoData, css_class: "", code: String::new() };
    assert_eq!(
        row_html(&blank),
        "<tr class=\"\"><td class=\"line-gutter\"></td><td class=\"line-num\">8</td><td class=\"line-hits\"></td><td class=\"line-code\"><pre></pre></td></tr>"
    );
}
