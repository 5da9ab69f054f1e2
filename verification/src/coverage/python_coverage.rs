//! coverage.py JSON reports (`coverage json` output).
//!
//! The document is read into [`CoverageJson`] by the caller; this module turns
//! it into a report. Executed lines count once, missing lines not at all.

use vstd::prelude::*;

use crate::coverage::format::{meta_project, project_from_meta, IngestMeta, ParseError};
use crate::coverage::model::{
    plausible_lines, snapshot_of, total_lines, CoverageSnapshot, SnapshotStamp, CoverageSummary, CoverageTarget,
    FileCoverage, LineCoverage, OmnivoreReport, Rate,
};
use crate::coverage::source;
use crate::text::{chars_of, eq_str, lex_less, lex_lt, owned};

verus! {

/// Metadata not present in coverage.py JSON — supplied externally.
pub type PythonCoverageMeta = IngestMeta;

/// The parts of a coverage.py JSON document a report is built from.
pub struct CoverageJson {
    pub meta: CoverageMeta,
    /// Each measured file with its entry, as keyed in the document.
    pub files: Vec<(String, FileEntry)>,
    pub totals: TotalsSummary,
}

pub struct CoverageMeta {
    pub branch_coverage: bool,
}

pub struct FileEntry {
    pub executed_lines: Vec<i32>,
    pub missing_lines: Vec<i32>,
    pub summary: FileSummary,
}

pub struct FileSummary {
    pub num_branches: Option<i64>,
    pub covered_branches: Option<i64>,
    pub missing_branches: Option<i64>,
}

pub struct TotalsSummary {
    pub covered_lines: i64,
    pub num_statements: i64,
    pub num_branches: Option<i64>,
    pub covered_branches: Option<i64>,
}

/// The order line records are listed in: by line, and on one line an
/// executed record before a missing one.
pub open spec fn line_le(a: LineCoverage, b: LineCoverage) -> bool {
    a.line_number < b.line_number || (a.line_number == b.line_number && a.hit_count >= b.hit_count)
}

pub open spec fn sorted_lines(s: Seq<LineCoverage>) -> bool {
    forall|i: int, j: int| 0 <= i < j < s.len() ==> line_le(s[i], s[j])
}

/// The line records a file entry stands for: one per executed line with
/// count 1, one per missing line with count 0.
pub open spec fn py_records(e: FileEntry) -> Seq<LineCoverage> {
    e.executed_lines@.map_values(|l: i32| LineCoverage { line_number: l, hit_count: 1 })
        + e.missing_lines@.map_values(|l: i32| LineCoverage { line_number: l, hit_count: 0 })
}

pub open spec fn opt_or_zero(o: Option<i64>) -> i64 {
    match o {
        Some(v) => v,
        None => 0,
    }
}

/// The file an entry becomes, but for its line records.
pub open spec fn py_file_fields(f: FileCoverage, name: Seq<char>, e: FileEntry, branch_coverage: bool) -> bool {
    let executed = e.executed_lines@.len();
    let covered = if branch_coverage { opt_or_zero(e.summary.covered_branches) } else { 0 };
    let found = if branch_coverage { opt_or_zero(e.summary.num_branches) } else { 0 };
    &&& f.path@ == name
    &&& f.line_rate == Rate::Ratio { covered: executed as i64, total: (executed + e.missing_lines@.len()) as i64 }
    &&& f.branch_rate == Rate::Ratio { covered, total: found }
    &&& f.branches_covered == covered
    &&& f.branches_total == found
    &&& f.source_content is None
}

/// The file an entry becomes: its records in order, less the implausible
/// ones.
pub open spec fn py_file(f: FileCoverage, name: Seq<char>, e: FileEntry, branch_coverage: bool) -> bool {
    &&& py_file_fields(f, name, e, branch_coverage)
    &&& exists|s: Seq<LineCoverage>|
        sorted_lines(s) && s.to_multiset() == py_records(e).to_multiset() && f.lines@ == plausible_lines(s)
}

/// No two file entries share a name.
pub open spec fn distinct_names(files: Seq<(String, FileEntry)>) -> bool {
    forall|i: int, j: int| 0 <= i < j < files.len() ==> files[i].0@ != files[j].0@
}

/// Total number of line records over the entries.
pub open spec fn py_line_count(files: Seq<(String, FileEntry)>) -> nat
    decreases files.len(),
{
    if files.len() == 0 {
        0
    } else {
        py_line_count(files.drop_last()) + files.last().1.executed_lines@.len()
            + files.last().1.missing_lines@.len()
    }
}

/// The report built from a coverage.py document.
pub open spec fn py_report(r: OmnivoreReport, cov: CoverageJson, meta: IngestMeta) -> bool {
    let fs = cov.files@;
    &&& r.files@.len() == fs.len()
    &&& forall|i: int, j: int| 0 <= i < j < r.files@.len() ==> lex_lt(r.files@[i].path@, r.files@[j].path@)
    &&& forall|i: int|
        #![trigger r.files@[i]]
        0 <= i < r.files@.len() ==> exists|j: int|
            0 <= j < fs.len() && py_file(r.files@[i], #[trigger] fs[j].0@, fs[j].1, cov.meta.branch_coverage)
    &&& r.coverage.lines_total == cov.totals.num_statements
    &&& r.coverage.lines_covered == cov.totals.covered_lines
    &&& r.coverage.line_rate == Rate::Ratio { covered: cov.totals.covered_lines, total: cov.totals.num_statements }
    &&& r.coverage.branches_total == opt_or_zero(cov.totals.num_branches)
    &&& r.coverage.branches_covered == opt_or_zero(cov.totals.covered_branches)
    &&& r.coverage.branch_rate == Rate::Ratio {
        covered: opt_or_zero(cov.totals.covered_branches),
        total: opt_or_zero(cov.totals.num_branches),
    }
    &&& r.version@ == "0.1.0"@
    &&& r.format@ == "python-coverage"@
    &&& r.dependencies is None
    &&& project_from_meta(r.project, meta, "python-project"@, "python import"@)
    &&& r.project.target == CoverageTarget::PythonCoverage
    &&& r.project.source matches Some(src) && src@ == "python-coverage"@
}

/// Inserts `x` into sorted `out`, keeping it sorted.
fn insert_line(out: &mut Vec<LineCoverage>, x: LineCoverage)
    requires
        sorted_lines(old(out)@),
    ensures
        sorted_lines(final(out)@),
        final(out)@.to_multiset() == old(out)@.to_multiset().insert(x),
{
    let ghost before = out@;
    let mut p: usize = 0;
    while p < out.len() && (out[p].line_number < x.line_number || (out[p].line_number == x.line_number
        && out[p].hit_count >= x.hit_count))
        invariant
            p <= out@.len(),
            out@ == before,
            forall|a: int| 0 <= a < p ==> line_le(out@[a], x),
        decreases out@.len() - p,
    {
        p += 1;
    }
    out.insert(p, x);
    proof {
        before.insert_ensures(p as int, x);
        assert forall|i: int, j: int| 0 <= i < j < out@.len() implies line_le(out@[i], out@[j]) by {
            if j < p {
                assert(out@[i] == before[i] && out@[j] == before[j]);
            } else if j == p {
                assert(out@[i] == before[i]);
            } else if i < p {
                assert(out@[i] == before[i] && out@[j] == before[j - 1]);
            } else if i == p {
                assert(out@[j] == before[j - 1]);
                assert(!line_le(before[p as int], x));
                assert(line_le(before[p as int], before[j - 1]) || p == j - 1);
            } else {
                assert(out@[i] == before[i - 1] && out@[j] == before[j - 1]);
            }
        }
        let t = before.take(p as int);
        let d = before.skip(p as int);
        assert(before == t + d);
        assert(out@ == t + (seq![x] + d));
        vstd::seq_lib::lemma_multiset_commutative(t, seq![x] + d);
        vstd::seq_lib::lemma_multiset_commutative(seq![x], d);
        vstd::seq_lib::lemma_multiset_commutative(t, d);
        vstd::seq_lib::lemma_multiset_commutative(d, seq![x]);
        assert(d + seq![x] == d.push(x));
        d.to_multiset_ensures();
        assert((seq![x] + d).to_multiset() =~= (d + seq![x]).to_multiset()) by {
            vstd::seq_lib::lemma_seq_union_to_multiset_commutative(seq![x], d);
        }
        broadcast use vstd::multiset::group_multiset_axioms;
        assert(out@.to_multiset() =~= before.to_multiset().insert(x));
    }
}

/// The records of `e`, in order.
fn entry_lines(e: &FileEntry) -> (r: Vec<LineCoverage>)
    ensures
        sorted_lines(r@),
        r@.to_multiset() == py_records(*e).to_multiset(),
{
    let mut out: Vec<LineCoverage> = Vec::new();
    let ghost ex = e.executed_lines@.map_values(|l: i32| LineCoverage { line_number: l, hit_count: 1 });
    let ghost mi = e.missing_lines@.map_values(|l: i32| LineCoverage { line_number: l, hit_count: 0 });
    let mut i: usize = 0;
    proof {
        assert(ex.take(0) =~= out@);
    }
    while i < e.executed_lines.len()
        invariant
            i <= e.executed_lines@.len(),
            ex == e.executed_lines@.map_values(|l: i32| LineCoverage { line_number: l, hit_count: 1 }),
            sorted_lines(out@),
            out@.to_multiset() == ex.take(i as int).to_multiset(),
        decreases e.executed_lines.len() - i,
    {
        let x = LineCoverage { line_number: e.executed_lines[i], hit_count: 1 };
        insert_line(&mut out, x);
        proof {
            assert(ex.take(i + 1) == ex.take(i as int).push(x));
            ex.take(i as int).to_multiset_ensures();
        }
        i += 1;
    }
    proof {
        assert(ex.take(i as int) == ex);
    }
    let mut k: usize = 0;
    proof {
        assert(ex + mi.take(0) =~= ex);
    }
    while k < e.missing_lines.len()
        invariant
            k <= e.missing_lines@.len(),
            mi == e.missing_lines@.map_values(|l: i32| LineCoverage { line_number: l, hit_count: 0 }),
            sorted_lines(out@),
            out@.to_multiset() == (ex + mi.take(k as int)).to_multiset(),
        decreases e.missing_lines.len() - k,
    {
        let x = LineCoverage { line_number: e.missing_lines[k], hit_count: 0 };
        insert_line(&mut out, x);
        proof {
            assert(ex + mi.take(k + 1) == (ex + mi.take(k as int)).push(x));
            (ex + mi.take(k as int)).to_multiset_ensures();
        }
        k += 1;
    }
    proof {
        assert(mi.take(k as int) == mi);
    }
    out
}

proof fn lemma_line_count_take(fs: Seq<(String, FileEntry)>, i: int)
    requires
        0 <= i <= fs.len(),
    ensures
        py_line_count(fs.take(i)) <= py_line_count(fs),
    decreases fs.len() - i,
{
    if i < fs.len() {
        assert(fs.take(i + 1).drop_last() == fs.take(i));
        lemma_line_count_take(fs, i + 1);
    } else {
        assert(fs.take(i) == fs);
    }
}

proof fn lemma_total_lines_insert(fs: Seq<FileCoverage>, p: int, x: FileCoverage)
    requires
        0 <= p <= fs.len(),
    ensures
        total_lines(fs.insert(p, x)) == total_lines(fs) + x.lines@.len(),
    decreases fs.len(),
{
    fs.insert_ensures(p, x);
    if p < fs.len() {
        assert(fs.insert(p, x).drop_last() == fs.drop_last().insert(p, x));
        lemma_total_lines_insert(fs.drop_last(), p, x);
    } else {
        assert(fs.insert(p, x).drop_last() == fs);
    }
}

/// The file an entry becomes before implausible records are dropped.
#[verifier::opaque]
spec fn py_file_before(f: FileCoverage, name: Seq<char>, e: FileEntry, branch_coverage: bool) -> bool {
    &&& py_file_fields(f, name, e, branch_coverage)
    &&& sorted_lines(f.lines@)
    &&& f.lines@.to_multiset() == py_records(e).to_multiset()
}

fn entry_file(name: &String, e: &FileEntry, bc: bool) -> (f: FileCoverage)
    requires
        e.executed_lines@.len() + e.missing_lines@.len() <= usize::MAX,
    ensures
        py_file_before(f, name@, *e, bc),
        f.path@ == name@,
        f.lines@.len() == e.executed_lines@.len() + e.missing_lines@.len(),
{
    let lines = entry_lines(e);
    let executed = e.executed_lines.len();
    let count = executed + e.missing_lines.len();
    let covered: i64 = if bc {
        match e.summary.covered_branches {
            Some(v) => v,
            None => 0,
        }
    } else {
        0
    };
    let found: i64 = if bc {
        match e.summary.num_branches {
            Some(v) => v,
            None => 0,
        }
    } else {
        0
    };
    proof {
        lines@.to_multiset_ensures();
        py_records(*e).to_multiset_ensures();
        reveal(py_file_before);
    }
    FileCoverage {
        path: name.clone(),
        line_rate: Rate::Ratio { covered: executed as i64, total: count as i64 },
        branch_rate: Rate::Ratio { covered, total: found },
        lines,
        branches_covered: covered,
        branches_total: found,
        source_content: None,
    }
}

/// Inserts `f` into `out`, kept in strictly increasing order of path.
fn insert_file(out: &mut Vec<FileCoverage>, f: FileCoverage) -> (p: usize)
    requires
        forall|a: int, b: int| 0 <= a < b < old(out)@.len() ==> lex_lt(old(out)@[a].path@, old(out)@[b].path@),
        forall|a: int| 0 <= a < old(out)@.len() ==> old(out)@[a].path@ != f.path@,
    ensures
        p <= old(out)@.len(),
        final(out)@ == old(out)@.insert(p as int, f),
        forall|a: int, b: int| 0 <= a < b < final(out)@.len() ==> lex_lt(final(out)@[a].path@, final(out)@[b].path@),
{
    let nm = chars_of(f.path.as_str());
    let mut p: usize = 0;
    while p < out.len() && lex_less(chars_of(out[p].path.as_str()).as_slice(), nm.as_slice())
        invariant
            p <= out@.len(),
            forall|a: int| 0 <= a < p ==> lex_lt(out@[a].path@, nm@),
        decreases out@.len() - p,
    {
        p += 1;
    }
    let ghost before = out@;
    proof {
        if p < out@.len() {
            crate::text::lemma_lex_total(out@[p as int].path@, nm@);
            assert forall|q: int| p <= q < before.len() implies lex_lt(nm@, before[q].path@) by {
                if q > p {
                    crate::text::lemma_lex_transitive(nm@, before[p as int].path@, before[q].path@);
                }
            }
        }
    }
    out.insert(p, f);
    proof {
        before.insert_ensures(p as int, f);
        assert forall|a: int, b: int| 0 <= a < b < out@.len() implies lex_lt(out@[a].path@, out@[b].path@) by {
            if b < p {
                assert(out@[a] == before[a] && out@[b] == before[b]);
            } else if b == p {
                assert(out@[a] == before[a]);
            } else if a < p {
                assert(out@[a] == before[a] && out@[b] == before[b - 1]);
                crate::text::lemma_lex_transitive(before[a].path@, nm@, before[b - 1].path@);
            } else if a == p {
                assert(out@[b] == before[b - 1]);
            } else {
                assert(out@[a] == before[a - 1] && out@[b] == before[b - 1]);
            }
        }
    }
    p
}

/// The report over the files built from `cov`, and its snapshot.
fn finish(out: Vec<FileCoverage>, cov: &CoverageJson, meta: &PythonCoverageMeta, stamp: &SnapshotStamp) -> (r: (
    OmnivoreReport,
    CoverageSnapshot,
))
    requires
        out@.len() == cov.files@.len(),
        cov.files@.len() <= i64::MAX,
        total_lines(out@) <= usize::MAX,
        forall|a: int, b: int| 0 <= a < b < out@.len() ==> lex_lt(out@[a].path@, out@[b].path@),
        forall|a: int|
            #![trigger out@[a]]
            0 <= a < out@.len() ==> exists|j: int|
                0 <= j < cov.files@.len() && py_file_before(
                    out@[a],
                    #[trigger] cov.files@[j].0@,
                    cov.files@[j].1,
                    cov.meta.branch_coverage,
                ),
    ensures
        py_report(r.0, *cov, *meta),
        snapshot_of(r.1, r.0, Some("python-coverage"@), *stamp),
{
    let ghost fs = cov.files@;
    let ghost bc = cov.meta.branch_coverage;
    let branches_total: i64 = match cov.totals.num_branches {
        Some(v) => v,
        None => 0,
    };
    let branches_covered: i64 = match cov.totals.covered_branches {
        Some(v) => v,
        None => 0,
    };
    let mut report = OmnivoreReport {
        version: owned("0.1.0"),
        format: owned("python-coverage"),
        project: meta_project(
            meta,
            "python-project",
            "python import",
            CoverageTarget::PythonCoverage,
            source::PYTHON_COVERAGE,
        ),
        coverage: CoverageSummary {
            line_rate: Rate::Ratio { covered: cov.totals.covered_lines, total: cov.totals.num_statements },
            branch_rate: Rate::Ratio { covered: branches_covered, total: branches_total },
            lines_covered: cov.totals.covered_lines,
            lines_total: cov.totals.num_statements,
            branches_covered,
            branches_total,
        },
        files: out,
        dependencies: None,
    };
    let ghost before = report.files@;
    let snap = CoverageSnapshot::from_report(&mut report, Some(source::PYTHON_COVERAGE), stamp);
    proof {
        assert forall|a: int| #![trigger report.files@[a]] 0 <= a < report.files@.len() implies exists|j: int|
            0 <= j < fs.len() && py_file(report.files@[a], #[trigger] fs[j].0@, fs[j].1, bc) by {
            let j = choose|j: int| 0 <= j < fs.len() && py_file_before(before[a], #[trigger] fs[j].0@, fs[j].1, bc);
            reveal(py_file_before);
            assert(report.files@[a].lines@ == plausible_lines(before[a].lines@));
            assert(py_file(report.files@[a], fs[j].0@, fs[j].1, bc));
        }
        assert forall|a: int, b: int| 0 <= a < b < report.files@.len() implies lex_lt(report.files@[a].path@, report.files@[b].path@) by {
            assert(report.files@[a].path == before[a].path);
            assert(report.files@[b].path == before[b].path);
        }
    }
    (report, snap)
}

/// Build a report from a coverage.py document: one file per entry, in order
/// of path, and the document's own totals.
#[verifier::rlimit(50)]
pub fn from_document(cov: &CoverageJson, meta: &PythonCoverageMeta, stamp: &SnapshotStamp) -> (r: Result<
    (OmnivoreReport, CoverageSnapshot),
    ParseError,
>)
    requires
        distinct_names(cov.files@),
        py_line_count(cov.files@) <= usize::MAX,
        cov.files@.len() <= i64::MAX,
    ensures
        cov.files@.len() == 0 ==> (r matches Err(ParseError::PythonCoverage(m)) && m@
            == "No files in coverage report"@),
        cov.files@.len() > 0 ==> (r matches Ok((report, snap)) && py_report(report, *cov, *meta)
            && snapshot_of(snap, report, Some("python-coverage"@), *stamp)),
{
    if cov.files.len() == 0 {
        return Err(ParseError::PythonCoverage(owned("No files in coverage report")));
    }
    let ghost fs = cov.files@;
    let bc = cov.meta.branch_coverage;
    let mut out: Vec<FileCoverage> = Vec::new();
    let ghost mut idx: Seq<int> = Seq::empty();
    let mut i: usize = 0;
    proof {
        assert(fs.take(0) =~= Seq::<(String, FileEntry)>::empty());
    }
    while i < cov.files.len()
        invariant
            fs == cov.files@,
            bc == cov.meta.branch_coverage,
            distinct_names(fs),
            py_line_count(fs) <= usize::MAX,
            i <= fs.len(),
            out@.len() == i,
            idx.len() == i,
            forall|a: int, b: int| 0 <= a < b < out@.len() ==> lex_lt(out@[a].path@, out@[b].path@),
            forall|a: int|
                #![trigger out@[a]]
                0 <= a < out@.len() ==> 0 <= idx[a] < i && out@[a].path@ == fs[idx[a]].0@ && py_file_before(
                    out@[a],
                    fs[idx[a]].0@,
                    fs[idx[a]].1,
                    bc,
                ),
            total_lines(out@) == py_line_count(fs.take(i as int)),
        decreases fs.len() - i,
    {
        proof {
            assert(fs.take(i + 1).drop_last() == fs.take(i as int));
            lemma_line_count_take(fs, i + 1);
        }
        let f = entry_file(&cov.files[i].0, &cov.files[i].1, bc);
        let ghost ff = f;
        let ghost before = out@;
        proof {
            assert forall|a: int| 0 <= a < before.len() implies before[a].path@ != ff.path@ by {
                assert(before[a] == out@[a]);
                assert(fs[idx[a]].0@ != fs[i as int].0@);
            }
        }
        let p = insert_file(&mut out, f);
        proof {
            lemma_total_lines_insert(before, p as int, ff);
            before.insert_ensures(p as int, ff);
            idx.insert_ensures(p as int, i as int);
            let old_idx = idx;
            idx = idx.insert(p as int, i as int);
            assert forall|a: int| #![trigger out@[a]] 0 <= a < out@.len() implies 0 <= idx[a] < i + 1
                && out@[a].path@ == fs[idx[a]].0@ && py_file_before(out@[a], fs[idx[a]].0@, fs[idx[a]].1, bc) by {
                if a < p {
                    assert(out@[a] == before[a]);
                    assert(idx[a] == old_idx[a]);
                } else if a == p {
                    assert(out@[a] == ff);
                } else {
                    assert(out@[a] == before[a - 1]);
                    assert(idx[a] == old_idx[a - 1]);
                }
            }
        }
        i += 1;
    }
    proof {
        assert(fs.take(i as int) == fs);
        assert forall|a: int| #![trigger out@[a]] 0 <= a < out@.len() implies exists|j: int|
            0 <= j < fs.len() && py_file_before(out@[a], #[trigger] fs[j].0@, fs[j].1, bc) by {
            assert(py_file_before(out@[a], fs[idx[a]].0@, fs[idx[a]].1, bc));
        }
    }
    Ok(finish(out, cov, meta, stamp))
}

/// Can `from_document` read `cov`? Its files must be named once each, and
/// their line records fit in memory and their number in an `i64`.
pub fn document_fits(cov: &CoverageJson) -> (b: bool)
    ensures
        b == (distinct_names(cov.files@) && py_line_count(cov.files@) <= usize::MAX && cov.files@.len() <= i64::MAX),
{
    let ghost fs = cov.files@;
    let n = cov.files.len();
    let mut i: usize = 0;
    while i < n
        invariant
            fs == cov.files@,
            n == fs.len(),
            i <= n,
            forall|a: int, c: int| 0 <= a < i && a < c < n ==> fs[a].0@ != fs[c].0@,
        decreases n - i,
    {
        let name = chars_of(cov.files[i].0.as_str());
        let mut j: usize = i + 1;
        while j < n
            invariant
                fs == cov.files@,
                n == fs.len(),
                i < j <= n,
                name@ == fs[i as int].0@,
                forall|a: int, c: int| 0 <= a < i && a < c < n ==> fs[a].0@ != fs[c].0@,
                forall|c: int| i < c < j ==> fs[i as int].0@ != fs[c].0@,
            decreases n - j,
        {
            if eq_str(name.as_slice(), cov.files[j].0.as_str()) {
                return false;
            }
            j += 1;
        }
        i += 1;
    }
    let mut total: usize = 0;
    let mut k: usize = 0;
    while k < n
        invariant
            fs == cov.files@,
            n == fs.len(),
            k <= n,
            distinct_names(fs),
            total == py_line_count(fs.take(k as int)),
        decreases n - k,
    {
        proof {
            assert(fs.take(k + 1).drop_last() == fs.take(k as int));
            assert(fs.take(k + 1).last() == fs[k as int]);
        }
        let e = cov.files[k].1.executed_lines.len();
        let m = cov.files[k].1.missing_lines.len();
        if e > usize::MAX - total || m > usize::MAX - total - e {
            proof {
                lemma_line_count_take(fs, k + 1);
            }
            return false;
        }
        total = total + e + m;
        k += 1;
    }
    proof {
        assert(fs.take(k as int) == fs);
    }
    (n as u64) <= 0x7fff_ffff_ffff_ffffu64
}

} // verus!
