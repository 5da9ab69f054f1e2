//! llvm-cov export JSON (`llvm-cov export --format=json`).
//!
//! The document is read into [`LlvmCovExport`] by the caller; this module
//! turns its first data entry into a report. Coverage comes as *segments*
//! (`[line, column, count, has_count, is_region_entry, ...]`) rather than as
//! lines: every segment with a count marks its line, and a line marked by
//! several segments takes the largest count.

use vstd::prelude::*;

use crate::coverage::format::{meta_project, project_from_meta, IngestMeta, ParseError};
use crate::coverage::model::{
    count_hits, hit_lines, lemma_hit_le, lemma_listed, listed, merge_block, plausible_lines, range_update, represents,
    snapshot_of, total_hit, total_lines, CoverageSnapshot, SnapshotStamp, CoverageSummary, CoverageTarget,
    FileCoverage, LineCoverage, OmnivoreReport, Rate,
};
use crate::coverage::source;
use crate::text::owned;

verus! {

/// Metadata not present in an llvm-cov export — supplied externally.
pub type LlvmCovMeta = IngestMeta;

/// One segment, as far as it is read: how many fields it has, its line
/// (field 0) and count (field 2) where they are integers, and its
/// `has_count` flag (field 3) read as a boolean or as an integer.
pub struct Segment {
    pub fields: usize,
    pub line: Option<i64>,
    pub count: Option<i64>,
    pub flag_bool: Option<bool>,
    pub flag_int: Option<i64>,
}

pub struct LlvmCovMetric {
    pub count: i64,
    pub covered: i64,
    /// The reported percentage divided by 100, as the bits of an `f64`.
    pub fraction_bits: u64,
}

pub struct LlvmCovTotals {
    pub lines: Option<LlvmCovMetric>,
    pub branches: Option<LlvmCovMetric>,
}

pub struct LlvmCovFile {
    pub filename: String,
    pub segments: Vec<Segment>,
    pub summary: Option<LlvmCovTotals>,
}

pub struct LlvmCovData {
    pub files: Vec<LlvmCovFile>,
    pub totals: Option<LlvmCovTotals>,
}

pub struct LlvmCovExport {
    pub data: Vec<LlvmCovData>,
}

/// Whether a segment carries a count: its flag is `true`, or a non-zero
/// integer when it is not a boolean.
pub open spec fn has_count(s: Segment) -> bool {
    match s.flag_bool {
        Some(b) => b,
        None => match s.flag_int {
            Some(n) => n != 0,
            None => false,
        },
    }
}

/// The line and count a segment marks, if it marks one.
pub open spec fn segment_point(s: Segment) -> Option<(int, int)> {
    if s.fields < 4 {
        None
    } else {
        match (s.line, s.count) {
            (Some(l), Some(c)) => if has_count(s) {
                Some(((l as i32) as int, c as int))
            } else {
                None
            },
            _ => None,
        }
    }
}

/// The count of each line marked by `segs`.
pub open spec fn segment_counts(segs: Seq<Segment>) -> Map<int, int>
    decreases segs.len(),
{
    if segs.len() == 0 {
        Map::empty()
    } else {
        let m = segment_counts(segs.drop_last());
        match segment_point(segs.last()) {
            Some((l, c)) => range_update(m, l, l, c),
            None => m,
        }
    }
}

/// Converts segments to per-line coverage, in order of line.
pub fn segments_to_lines(segments: &[Segment]) -> (r: Vec<LineCoverage>)
    ensures
        represents(r@, segment_counts(segments@)),
        r@.len() <= segments@.len(),
{
    let mut out: Vec<LineCoverage> = Vec::new();
    let mut i: usize = 0;
    proof {
        assert(segments@.take(0) =~= Seq::<Segment>::empty());
    }
    while i < segments.len()
        invariant
            i <= segments@.len(),
            represents(out@, segment_counts(segments@.take(i as int))),
            out@.len() <= i,
        decreases segments.len() - i,
    {
        let s = &segments[i];
        proof {
            assert(segments@.take(i + 1).drop_last() == segments@.take(i as int));
        }
        if s.fields >= 4 {
            match (s.line, s.count) {
                (Some(l), Some(c)) => {
                    let has = match s.flag_bool {
                        Some(b) => b,
                        None => match s.flag_int {
                            Some(n) => n != 0,
                            None => false,
                        },
                    };
                    if has {
                        let ln = l as i32;
                        if ln < i32::MAX {
                            out = merge_block(&out, ln, ln, c, Ghost(segment_counts(segments@.take(i as int))));
                        } else {
                            out = merge_last(&out, c, Ghost(segment_counts(segments@.take(i as int))));
                        }
                    }
                },
                _ => {},
            }
        }
        i += 1;
    }
    proof {
        assert(segments@.take(i as int) == segments@);
    }
    out
}

/// `v` with a record of count `c` for the highest possible line merged in.
fn merge_last(v: &Vec<LineCoverage>, c: i64, Ghost(m): Ghost<Map<int, int>>) -> (r: Vec<LineCoverage>)
    requires
        represents(v@, m),
    ensures
        represents(r@, range_update(m, i32::MAX as int, i32::MAX as int, c as int)),
        r@.len() <= v@.len() + 1,
{
    let ghost t = range_update(m, i32::MAX as int, i32::MAX as int, c as int);
    let mut r: Vec<LineCoverage> = Vec::new();
    let mut k: usize = 0;
    while k < v.len() && v[k].line_number < i32::MAX
        invariant
            k <= v.len(),
            r@ == v@.take(k as int),
            forall|j: int| 0 <= j < k ==> v@[j].line_number < i32::MAX,
        decreases v.len() - k,
    {
        r.push(v[k]);
        k += 1;
    }
    let last = if k < v.len() {
        let old = v[k].hit_count;
        LineCoverage { line_number: i32::MAX, hit_count: if c > old { c } else { old } }
    } else {
        LineCoverage { line_number: i32::MAX, hit_count: if c > 0 { c } else { 0 } }
    };
    proof {
        if k < v.len() {
            assert(v@[k as int].line_number == i32::MAX);
            assert(m.contains_key(i32::MAX as int));
            if k + 1 < v.len() {
                assert(v@[k as int].line_number < v@[k + 1].line_number);
            }
            assert(k + 1 == v.len());
        } else {
            if m.contains_key(i32::MAX as int) {
                let j = choose|j: int| 0 <= j < v@.len() && #[trigger] v@[j].line_number == i32::MAX;
            }
        }
    }
    let ghost before = r@;
    r.push(last);
    proof {
        assert forall|x: int| t.contains_key(x) implies exists|i: int|
            0 <= i < r@.len() && #[trigger] r@[i].line_number == x by {
            if x == i32::MAX {
                assert(r@[r@.len() - 1].line_number == x);
            } else {
                let j = choose|j: int| 0 <= j < v@.len() && #[trigger] v@[j].line_number == x;
                if j >= k {
                    assert(v@[j].line_number >= v@[k as int].line_number || j == k);
                }
                assert(r@[j] == before[j]);
            }
        }
        assert forall|i: int| 0 <= i < r@.len() implies t.contains_key(#[trigger] r@[i].line_number as int)
            && t[r@[i].line_number as int] == r@[i].hit_count by {
            if i < before.len() {
                assert(r@[i] == v@[i]);
            }
        }
    }
    r
}

/// The line records of a file entry, in order of line.
pub open spec fn file_lines(e: LlvmCovFile) -> Seq<LineCoverage> {
    listed(segment_counts(e.segments@))
}

/// The indices of the file entries that mark at least one line.
pub open spec fn kept(files: Seq<LlvmCovFile>) -> Seq<int>
    decreases files.len(),
{
    if files.len() == 0 {
        Seq::empty()
    } else {
        let k = kept(files.drop_last());
        if file_lines(files.last()).len() > 0 {
            k.push(files.len() - 1)
        } else {
            k
        }
    }
}

/// Line records over all file entries.
pub open spec fn lines_total(files: Seq<LlvmCovFile>) -> nat
    decreases files.len(),
{
    if files.len() == 0 {
        0
    } else {
        lines_total(files.drop_last()) + file_lines(files.last()).len()
    }
}

/// Line records with a positive count over all file entries.
pub open spec fn lines_hit(files: Seq<LlvmCovFile>) -> nat
    decreases files.len(),
{
    if files.len() == 0 {
        0
    } else {
        lines_hit(files.drop_last()) + hit_lines(file_lines(files.last()))
    }
}

/// Segments over all file entries.
pub open spec fn segment_total(files: Seq<LlvmCovFile>) -> nat
    decreases files.len(),
{
    if files.len() == 0 {
        0
    } else {
        segment_total(files.drop_last()) + files.last().segments@.len()
    }
}

pub open spec fn metric_count(m: Option<LlvmCovMetric>) -> i64 {
    match m {
        Some(v) => v.count,
        None => 0,
    }
}

pub open spec fn metric_covered(m: Option<LlvmCovMetric>) -> i64 {
    match m {
        Some(v) => v.covered,
        None => 0,
    }
}

pub open spec fn summary_branches(t: Option<LlvmCovTotals>) -> Option<LlvmCovMetric> {
    match t {
        Some(v) => v.branches,
        None => None,
    }
}

/// The fields of the file an entry becomes, but for its line records.
pub open spec fn llvm_file_fields(f: FileCoverage, e: LlvmCovFile) -> bool {
    let lines = file_lines(e);
    let b = summary_branches(e.summary);
    &&& f.path@ == e.filename@
    &&& f.line_rate == Rate::Ratio { covered: hit_lines(lines) as i64, total: lines.len() as i64 }
    &&& f.branch_rate == match b {
        Some(m) => Rate::Reported { bits: m.fraction_bits },
        None => Rate::Ratio { covered: 0, total: 0 },
    }
    &&& f.branches_covered == metric_covered(b)
    &&& f.branches_total == metric_count(b)
    &&& f.source_content is None
}

/// The report built from the first data entry of an export.
pub open spec fn llvm_report(r: OmnivoreReport, d: LlvmCovData, meta: IngestMeta) -> bool {
    let fs = d.files@;
    let ks = kept(fs);
    let c = r.coverage;
    &&& r.files@.len() == ks.len()
    &&& forall|i: int|
        #![trigger r.files@[i]]
        0 <= i < ks.len() ==> llvm_file_fields(r.files@[i], fs[ks[i]]) && r.files@[i].lines@ == plausible_lines(
            file_lines(fs[ks[i]]),
        )
    &&& match d.totals {
        Some(t) => {
            &&& c.lines_covered == metric_covered(t.lines)
            &&& c.lines_total == metric_count(t.lines)
            &&& c.branches_covered == metric_covered(t.branches)
            &&& c.branches_total == metric_count(t.branches)
        },
        None => {
            &&& c.lines_covered == lines_hit(fs)
            &&& c.lines_total == lines_total(fs)
            &&& c.branches_covered == 0
            &&& c.branches_total == 0
        },
    }
    &&& c.line_rate == Rate::Ratio { covered: c.lines_covered, total: c.lines_total }
    &&& c.branch_rate == Rate::Ratio { covered: c.branches_covered, total: c.branches_total }
    &&& r.version@ == "0.1.0"@
    &&& r.format@ == "llvm-cov"@
    &&& r.dependencies is None
    &&& project_from_meta(r.project, meta, "llvm-cov-project"@, "llvm-cov import"@)
    &&& r.project.target == CoverageTarget::RustLlvmCov
    &&& r.project.source matches Some(src) && src@ == "llvm-cov"@
}

proof fn lemma_segment_total_take(fs: Seq<LlvmCovFile>, i: int)
    requires
        0 <= i <= fs.len(),
    ensures
        segment_total(fs.take(i)) <= segment_total(fs),
        lines_total(fs.take(i)) <= lines_total(fs),
    decreases fs.len() - i,
{
    if i < fs.len() {
        assert(fs.take(i + 1).drop_last() == fs.take(i));
        lemma_segment_total_take(fs, i + 1);
    } else {
        assert(fs.take(i) == fs);
    }
}

proof fn lemma_lines_le_segments(fs: Seq<LlvmCovFile>)
    requires
        forall|i: int| 0 <= i < fs.len() ==> file_lines(#[trigger] fs[i]).len() <= fs[i].segments@.len(),
    ensures
        lines_total(fs) <= segment_total(fs),
    decreases fs.len(),
{
    if fs.len() > 0 {
        assert(forall|i: int| 0 <= i < fs.len() - 1 ==> #[trigger] fs.drop_last()[i] == fs[i]);
        lemma_lines_le_segments(fs.drop_last());
    }
}

/// Build a report from an export's first data entry, keeping the files that
/// mark any line, with the entry's own totals where it has them and totals
/// counted over the kept files where it has not.
pub fn from_document(export: &LlvmCovExport, meta: &LlvmCovMeta, stamp: &SnapshotStamp) -> (r: Result<
    (OmnivoreReport, CoverageSnapshot),
    ParseError,
>)
    requires
        export.data@.len() > 0 ==> segment_total(export.data@[0].files@) <= i64::MAX,
        export.data@.len() > 0 ==> segment_total(export.data@[0].files@) <= usize::MAX,
        export.data@.len() > 0 ==> export.data@[0].files@.len() <= i64::MAX,
    ensures
        export.data@.len() == 0 ==> (r matches Err(ParseError::LlvmCov(m)) && m@ == "No data entries in export"@),
        export.data@.len() > 0 && kept(export.data@[0].files@).len() == 0 ==> (r matches Err(
            ParseError::LlvmCov(m),
        ) && m@ == "No files with coverage data"@),
        export.data@.len() > 0 && kept(export.data@[0].files@).len() > 0 ==> (r matches Ok((report, snap))
            && llvm_report(report, export.data@[0], *meta) && snapshot_of(snap, report, Some("llvm-cov"@), *stamp)),
{
    if export.data.len() == 0 {
        return Err(ParseError::LlvmCov(owned("No data entries in export")));
    }
    let d = &export.data[0];
    let ghost fs = d.files@;
    let mut files: Vec<FileCoverage> = Vec::new();
    let mut lt: i64 = 0;
    let mut lc: i64 = 0;
    let mut i: usize = 0;
    proof {
        assert(fs.take(0) =~= Seq::<LlvmCovFile>::empty());
    }
    while i < d.files.len()
        invariant
            fs == d.files@,
            segment_total(fs) <= i64::MAX,
            segment_total(fs) <= usize::MAX,
            i <= fs.len(),
            files@.len() == kept(fs.take(i as int)).len(),
            files@.len() <= i,
            fs.len() <= i64::MAX,
            forall|k: int| #![trigger kept(fs.take(i as int))[k]] 0 <= k < kept(fs.take(i as int)).len() ==> kept(fs.take(i as int))[k] < i,
            forall|a: int|
                #![trigger files@[a]]
                0 <= a < files@.len() ==> llvm_file_fields(files@[a], fs[kept(fs.take(i as int))[a]])
                    && files@[a].lines@ == file_lines(fs[kept(fs.take(i as int))[a]]),
            forall|k: int| 0 <= k < i ==> file_lines(#[trigger] fs[k]).len() <= fs[k].segments@.len(),
            lt == lines_total(fs.take(i as int)),
            lc == lines_hit(fs.take(i as int)),
            lc <= lt,
            total_lines(files@) == lt,
        decreases fs.len() - i,
    {
        let f = &d.files[i];
        let lines = segments_to_lines(f.segments.as_slice());
        proof {
            lemma_listed(lines@, segment_counts(f.segments@));
            assert(fs.take(i + 1).drop_last() == fs.take(i as int));
            assert(fs.take(i + 1).last() == fs[i as int]);
            lemma_segment_total_take(fs, i + 1);
            assert forall|k: int| 0 <= k < i + 1 implies file_lines(#[trigger] fs.take(i + 1)[k]).len()
                <= fs.take(i + 1)[k].segments@.len() by {
                assert(fs.take(i + 1)[k] == fs[k]);
            }
            lemma_lines_le_segments(fs.take(i + 1));
            lemma_hit_le(lines@);
        }
        let ghost ks = kept(fs.take(i as int));
        if lines.len() > 0 {
            let n = lines.len() as i64;
            let fh = count_hits(&lines);
            let b: Option<&LlvmCovMetric> = match &f.summary {
                Some(t) => match &t.branches {
                    Some(m) => Some(m),
                    None => None,
                },
                None => None,
            };
            let (branch_rate, bcov, btot) = match b {
                Some(m) => (Rate::Reported { bits: m.fraction_bits }, m.covered, m.count),
                None => (Rate::Ratio { covered: 0, total: 0 }, 0i64, 0i64),
            };
            let ghost before = files@;
            files.push(
                FileCoverage {
                    path: f.filename.clone(),
                    line_rate: Rate::Ratio { covered: fh, total: n },
                    branch_rate,
                    lines,
                    branches_covered: bcov,
                    branches_total: btot,
                    source_content: None,
                },
            );
            proof {
                assert(kept(fs.take(i + 1)) == ks.push(i as int));
                assert(files@.drop_last() == before);
                assert forall|a: int| #![trigger files@[a]] 0 <= a < files@.len() implies llvm_file_fields(
                    files@[a],
                    fs[kept(fs.take(i + 1))[a]],
                ) && files@[a].lines@ == file_lines(fs[kept(fs.take(i + 1))[a]]) by {
                    if a < before.len() {
                        assert(files@[a] == before[a]);
                    }
                }
            }
            lt = lt + n;
            lc = lc + fh;
        } else {
            proof {
                assert(kept(fs.take(i + 1)) == ks);
            }
        }
        i += 1;
    }
    proof {
        assert(fs.take(i as int) == fs);
        lemma_lines_le_segments(fs);
    }
    if files.len() == 0 {
        return Err(ParseError::LlvmCov(owned("No files with coverage data")));
    }
    let (lines_covered, lines_total, branches_covered, branches_total) = match &d.totals {
        Some(t) => {
            let (l_cov, l_cnt) = match &t.lines {
                Some(m) => (m.covered, m.count),
                None => (0i64, 0i64),
            };
            let (b_cov, b_cnt) = match &t.branches {
                Some(m) => (m.covered, m.count),
                None => (0i64, 0i64),
            };
            (l_cov, l_cnt, b_cov, b_cnt)
        },
        None => (lc, lt, 0i64, 0i64),
    };
    let mut report = OmnivoreReport {
        version: owned("0.1.0"),
        format: owned("llvm-cov"),
        project: meta_project(meta, "llvm-cov-project", "llvm-cov import", CoverageTarget::RustLlvmCov, source::LLVM_COV),
        coverage: CoverageSummary {
            line_rate: Rate::Ratio { covered: lines_covered, total: lines_total },
            branch_rate: Rate::Ratio { covered: branches_covered, total: branches_total },
            lines_covered,
            lines_total,
            branches_covered,
            branches_total,
        },
        files,
        dependencies: None,
    };
    let ghost before = report.files@;
    let snap = CoverageSnapshot::from_report(&mut report, Some(source::LLVM_COV), stamp);
    proof {
        assert forall|a: int| #![trigger report.files@[a]] 0 <= a < kept(fs).len() implies llvm_file_fields(
            report.files@[a],
            fs[kept(fs)[a]],
        ) && report.files@[a].lines@ == plausible_lines(file_lines(fs[kept(fs)[a]])) by {
            assert(llvm_file_fields(before[a], fs[kept(fs)[a]]));
        }
    }
    Ok((report, snap))
}

/// Can `from_document` count `export`? The segments and files of its first
/// entry must fit an `i64`, and the segments in memory.
pub fn export_fits(export: &LlvmCovExport) -> (b: bool)
    ensures
        b == (export.data@.len() > 0 ==> (segment_total(export.data@[0].files@) <= i64::MAX && segment_total(
            export.data@[0].files@,
        ) <= usize::MAX && export.data@[0].files@.len() <= i64::MAX)),
{
    if export.data.len() == 0 {
        return true;
    }
    let first = &export.data[0];
    let ghost fs = first.files@;
    let mut total: usize = 0;
    let mut i: usize = 0;
    while i < first.files.len()
        invariant
            fs == first.files@,
            export.data@.len() > 0,
            fs == export.data@[0].files@,
            i <= fs.len(),
            total == segment_total(fs.take(i as int)),
        decreases first.files.len() - i,
    {
        proof {
            assert(fs.take(i + 1).drop_last() == fs.take(i as int));
        }
        let n = first.files[i].segments.len();
        if n > usize::MAX - total {
            proof {
                assert(fs.take(i + 1).last() == fs[i as int]);
                assert(segment_total(fs.take(i + 1)) == total + n);
                lemma_segment_total_take(fs, i + 1);
            }
            return false;
        }
        total = total + n;
        i += 1;
    }
    proof {
        assert(fs.take(i as int) == fs);
    }
    (total as u64) <= 0x7fff_ffff_ffff_ffffu64 && (first.files.len() as u64) <= 0x7fff_ffff_ffff_ffffu64
}

} // verus!
