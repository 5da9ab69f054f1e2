//! JaCoCo-compatible XML coverage reports.
//!
//! JaCoCo's XML report format is also what Kover emits (`koverXmlReport`), so
//! one parser ingests both; the caller decides the recorded provenance and the
//! coverage target. The document is read into a [`Report`] by the caller,
//! after [`strip_prolog`] has removed its XML declaration and DOCTYPE so that
//! no DTD ever reaches the XML reader.
//!
//! JaCoCo records *covered instructions* per line (`ci`), not an execution
//! count, so a line's hit count carries `ci`: positive means covered. Branch
//! coverage comes from each line's covered and missed branches (`cb`, `mb`).

use vstd::prelude::*;

use crate::coverage::format::{project_from_meta, IngestMeta, ParseError};
use crate::coverage::model::{
    copy_opt_string, hit_lines, plausible_lines, snapshot_of, total_lines, CoverageSnapshot, SnapshotStamp, CoverageSummary,
    CoverageTarget, FileCoverage, LineCoverage, OmnivoreReport, ProjectInfo, Rate,
};
use crate::text::{
    chars_of, eq_str, find, find_char, has_prefix, has_substring, occurs_at, owned, push_all,
    push_str, slice, starts_with_str, string_from_chars, trim_start, trimmed_start,
};

verus! {

/// A JaCoCo `<report>`, as far as it is read.
pub struct Report {
    pub name: String,
    pub packages: Vec<Package>,
    pub counters: Vec<Counter>,
}

pub struct Package {
    pub name: String,
    pub sourcefiles: Vec<SourceFile>,
}

pub struct SourceFile {
    pub name: String,
    pub lines: Vec<Line>,
}

pub struct Line {
    /// Line number.
    pub nr: i32,
    /// Missed instructions.
    pub mi: i64,
    /// Covered instructions.
    pub ci: i64,
    /// Missed branches.
    pub mb: i64,
    /// Covered branches.
    pub cb: i64,
}

pub struct Counter {
    pub counter_type: String,
    pub missed: i64,
    pub covered: i64,
}

// ---------------------------------------------------------------------------
// The prolog
// ---------------------------------------------------------------------------

/// The first position at which `pat` occurs in `s`, if any.
#[verifier::opaque]
pub open spec fn first_occurrence(s: Seq<char>, pat: Seq<char>) -> Option<int> {
    if has_substring(s, pat) {
        Some(choose|i: int| occurs_at(s, pat, i) && forall|k: int| 0 <= k < i ==> !occurs_at(s, pat, k))
    } else {
        None
    }
}

/// `a` without a leading XML declaration and the whitespace after it.
pub open spec fn stripped_declaration(a: Seq<char>) -> Seq<char> {
    if has_prefix(a, "<?xml"@) {
        match first_occurrence(a, "?>"@) {
            Some(e) => trim_start(a.skip(e + 2)),
            None => a,
        }
    } else {
        a
    }
}

/// `b` without a leading DOCTYPE and the whitespace after it.
pub open spec fn stripped_doctype(b: Seq<char>) -> Seq<char> {
    if has_prefix(b, "<!DOCTYPE"@) {
        match first_occurrence(b, ">"@) {
            Some(e) => trim_start(b.skip(e + 1)),
            None => b,
        }
    } else {
        b
    }
}

/// `s` without a leading XML declaration and DOCTYPE, and without the
/// whitespace before and between them.
pub open spec fn stripped_prolog(s: Seq<char>) -> Seq<char> {
    stripped_doctype(stripped_declaration(trim_start(s)))
}

proof fn lemma_first_occurrence(s: Seq<char>, pat: Seq<char>, i: int)
    requires
        occurs_at(s, pat, i),
        forall|k: int| 0 <= k < i ==> !occurs_at(s, pat, k),
    ensures
        first_occurrence(s, pat) == Some(i),
{
    reveal(first_occurrence);
    let j = choose|j: int| occurs_at(s, pat, j) && forall|k: int| 0 <= k < j ==> !occurs_at(s, pat, k);
    assert(has_substring(s, pat));
    if j < i {
        assert(!occurs_at(s, pat, j));
    }
    if i < j {
        assert(!occurs_at(s, pat, i));
    }
}

/// The position after the first `pat` in `s`, if `pat` occurs.
fn after_first(s: &[char], lit: &str) -> (r: Option<usize>)
    ensures
        match first_occurrence(s@, lit@) {
            Some(e) => r matches Some(x) && x == e + lit@.len() && x <= s@.len(),
            None => r is None,
        },
{
    let pat = chars_of(lit);
    match find(s, pat.as_slice()) {
        Some(e) => {
            proof {
                lemma_first_occurrence(s@, pat@, e as int);
                assert(e + pat@.len() <= s@.len());
                assert(s@.len() == s.len());
            }
            Some(e + pat.len())
        },
        None => {
            proof {
                reveal(first_occurrence);
            }
            None
        },
    }
}

fn strip_declaration(a: &[char]) -> (r: Vec<char>)
    ensures
        r@ == stripped_declaration(a@),
{
    if starts_with_str(a, "<?xml") {
        match after_first(a, "?>") {
            Some(e) => {
                let rest = slice(a, e, a.len());
                proof {
                    reveal_strlit("?>");
                    assert(rest@ == a@.skip(e as int));
                }
                trimmed_start(rest.as_slice())
            },
            None => slice(a, 0, a.len()),
        }
    } else {
        slice(a, 0, a.len())
    }
}

fn strip_doctype(b: &[char]) -> (r: Vec<char>)
    ensures
        r@ == stripped_doctype(b@),
{
    if starts_with_str(b, "<!DOCTYPE") {
        match after_first(b, ">") {
            Some(e) => {
                let rest = slice(b, e, b.len());
                proof {
                    reveal_strlit(">");
                    assert(rest@ == b@.skip(e as int));
                }
                trimmed_start(rest.as_slice())
            },
            None => slice(b, 0, b.len()),
        }
    } else {
        slice(b, 0, b.len())
    }
}

/// Strip a leading `<?xml … ?>` declaration and `<!DOCTYPE … >` so the
/// document starts at the root `<report>` element. JaCoCo's DOCTYPE has no
/// internal subset, so its first `>` ends it.
pub fn strip_prolog(xml: &str) -> (r: String)
    ensures
        r@ == stripped_prolog(xml@),
{
    let chars = chars_of(xml);
    let a = trimmed_start(chars.as_slice());
    let b = strip_declaration(a.as_slice());
    let c = strip_doctype(b.as_slice());
    string_from_chars(c.as_slice())
}

// ---------------------------------------------------------------------------
// Counters
// ---------------------------------------------------------------------------

/// The first counter of type `ty`, if any.
pub open spec fn counter_of(counters: Seq<Counter>, ty: Seq<char>) -> Option<Counter>
    decreases counters.len(),
{
    if counters.len() == 0 {
        None
    } else {
        match counter_of(counters.drop_last(), ty) {
            Some(c) => Some(c),
            None => if counters.last().counter_type@ == ty {
                Some(counters.last())
            } else {
                None
            },
        }
    }
}

impl Report {
    /// The first report-level counter of type `ty`.
    pub fn counter(&self, ty: &str) -> (r: Option<&Counter>)
        ensures
            match counter_of(self.counters@, ty@) {
                Some(c) => r matches Some(x) && *x == c,
                None => r is None,
            },
    {
        let t = chars_of(ty);
        let mut i: usize = 0;
        proof {
            assert(self.counters@.take(0) =~= Seq::<Counter>::empty());
        }
        while i < self.counters.len()
            invariant
                i <= self.counters@.len(),
                t@ == ty@,
                counter_of(self.counters@.take(i as int), ty@) is None,
            decreases self.counters.len() - i,
        {
            proof {
                assert(self.counters@.take(i + 1).drop_last() == self.counters@.take(i as int));
            }
            let c = &self.counters[i];
            let ct = chars_of(c.counter_type.as_str());
            if crate::text::seq_eq(ct.as_slice(), t.as_slice()) {
                proof {
                    lemma_counter_of_prefix(self.counters@, ty@, i + 1);
                }
                return Some(c);
            }
            i += 1;
        }
        proof {
            assert(self.counters@.take(i as int) == self.counters@);
        }
        None
    }
}

proof fn lemma_counter_of_prefix(counters: Seq<Counter>, ty: Seq<char>, k: int)
    requires
        0 <= k <= counters.len(),
        counter_of(counters.take(k), ty) is Some,
    ensures
        counter_of(counters, ty) == counter_of(counters.take(k), ty),
    decreases counters.len() - k,
{
    if k < counters.len() {
        assert(counters.take(k + 1).drop_last() == counters.take(k));
        lemma_counter_of_prefix(counters, ty, k + 1);
    } else {
        assert(counters.take(k) == counters);
    }
}

// ---------------------------------------------------------------------------
// The report
// ---------------------------------------------------------------------------

/// The path of a source file: its package, `/`, and its name; just its name
/// in the default package.
pub open spec fn path_of(pkg: Seq<char>, name: Seq<char>) -> Seq<char> {
    if pkg.len() == 0 {
        name
    } else {
        pkg + "/"@ + name
    }
}

/// The source files of `pkgs` in document order, each with its path.
pub open spec fn flat_files(pkgs: Seq<Package>) -> Seq<(Seq<char>, SourceFile)>
    decreases pkgs.len(),
{
    if pkgs.len() == 0 {
        Seq::empty()
    } else {
        let p = pkgs.last();
        flat_files(pkgs.drop_last()) + p.sourcefiles@.map_values(
            |sf: SourceFile| (path_of(p.name@, sf.name@), sf),
        )
    }
}

/// The record each `<line>` becomes: its number, with `ci` as its count.
pub open spec fn line_records(ls: Seq<Line>) -> Seq<LineCoverage> {
    ls.map_values(|l: Line| LineCoverage { line_number: l.nr, hit_count: l.ci })
}

pub open spec fn on_line(n: int) -> spec_fn(LineCoverage) -> bool {
    |x: LineCoverage| x.line_number == n
}

/// `r` is `s` sorted by line, records on one line kept in their order.
pub open spec fn stably_sorted(r: Seq<LineCoverage>, s: Seq<LineCoverage>) -> bool {
    &&& forall|i: int, j: int| 0 <= i < j < r.len() ==> r[i].line_number <= r[j].line_number
    &&& forall|n: int| #[trigger] r.filter(on_line(n)) == s.filter(on_line(n))
}

/// Lines with covered instructions.
pub open spec fn ci_hits(ls: Seq<Line>) -> nat
    decreases ls.len(),
{
    if ls.len() == 0 {
        0
    } else {
        ci_hits(ls.drop_last()) + if ls.last().ci > 0 { 1nat } else { 0nat }
    }
}

/// Covered branches over `ls`.
pub open spec fn cb_sum(ls: Seq<Line>) -> int
    decreases ls.len(),
{
    if ls.len() == 0 {
        0
    } else {
        cb_sum(ls.drop_last()) + ls.last().cb
    }
}

/// Branches (covered and missed) over `ls`.
pub open spec fn br_sum(ls: Seq<Line>) -> int
    decreases ls.len(),
{
    if ls.len() == 0 {
        0
    } else {
        br_sum(ls.drop_last()) + (ls.last().cb + ls.last().mb)
    }
}

/// The indices of the flattened source files that have any line.
pub open spec fn kept(fs: Seq<(Seq<char>, SourceFile)>) -> Seq<int>
    decreases fs.len(),
{
    if fs.len() == 0 {
        Seq::empty()
    } else {
        let k = kept(fs.drop_last());
        if fs.last().1.lines@.len() > 0 {
            k.push(fs.len() - 1)
        } else {
            k
        }
    }
}

/// A sum over the flattened source files of a per-file quantity.
pub open spec fn sum_files(fs: Seq<(Seq<char>, SourceFile)>, what: int) -> int
    decreases fs.len(),
{
    if fs.len() == 0 {
        0
    } else {
        let ls = fs.last().1.lines@;
        sum_files(fs.drop_last(), what) + if what == 0 {
            ls.len() as int
        } else if what == 1 {
            ci_hits(ls) as int
        } else if what == 2 {
            cb_sum(ls)
        } else {
            br_sum(ls)
        }
    }
}

/// Every running sum the report is counted with fits an `i64`, and its line
/// records fit in memory.
pub open spec fn jacoco_fits(r: Report) -> bool {
    let fs = flat_files(r.packages@);
    &&& forall|i: int, k: int|
        #![trigger fs[i].1.lines@.take(k)]
        0 <= i < fs.len() && 0 <= k <= fs[i].1.lines@.len() ==> {
            &&& i64::MIN <= cb_sum(fs[i].1.lines@.take(k)) <= i64::MAX
            &&& i64::MIN <= br_sum(fs[i].1.lines@.take(k)) <= i64::MAX
        }
    &&& forall|i: int, j: int|
        0 <= i < fs.len() && 0 <= j < fs[i].1.lines@.len() ==> i64::MIN <= #[trigger] fs[i].1.lines@[j].cb
            + fs[i].1.lines@[j].mb <= i64::MAX
    &&& forall|k: int|
        0 <= k <= fs.len() ==> i64::MIN <= #[trigger] sum_files(fs.take(k), 2) <= i64::MAX && i64::MIN
            <= sum_files(fs.take(k), 3) <= i64::MAX
    &&& sum_files(fs, 0) <= i64::MAX
    &&& sum_files(fs, 0) <= usize::MAX
    &&& fs.len() <= i64::MAX
    &&& counter_of(r.counters@, "LINE"@) matches Some(c) ==> i64::MIN <= c.covered + c.missed <= i64::MAX
    &&& counter_of(r.counters@, "BRANCH"@) matches Some(c) ==> i64::MIN <= c.covered + c.missed <= i64::MAX
}

/// The fields of the file a source file becomes, but for its line records.
pub open spec fn jacoco_file_fields(f: FileCoverage, path: Seq<char>, sf: SourceFile) -> bool {
    let ls = sf.lines@;
    &&& f.path@ == path
    &&& f.line_rate == Rate::Ratio { covered: ci_hits(ls) as i64, total: ls.len() as i64 }
    &&& f.branch_rate == Rate::Ratio { covered: cb_sum(ls) as i64, total: br_sum(ls) as i64 }
    &&& f.branches_covered == cb_sum(ls)
    &&& f.branches_total == br_sum(ls)
    &&& f.source_content is None
}

/// The report built from a JaCoCo document.
pub open spec fn jacoco_report(
    out: OmnivoreReport,
    r: Report,
    meta: IngestMeta,
    target: CoverageTarget,
    source: Seq<char>,
) -> bool {
    let fs = flat_files(r.packages@);
    let ks = kept(fs);
    let c = out.coverage;
    &&& out.files@.len() == ks.len()
    &&& forall|i: int|
        #![trigger out.files@[i]]
        0 <= i < ks.len() ==> jacoco_file_fields(out.files@[i], fs[ks[i]].0, fs[ks[i]].1) && exists|s: Seq<LineCoverage>|
            stably_sorted(s, line_records(fs[ks[i]].1.lines@)) && out.files@[i].lines@ == plausible_lines(s)
    &&& match counter_of(r.counters@, "LINE"@) {
        Some(k) => c.lines_covered == k.covered && c.lines_total == k.covered + k.missed,
        None => c.lines_covered == sum_files(fs, 1) && c.lines_total == sum_files(fs, 0),
    }
    &&& match counter_of(r.counters@, "BRANCH"@) {
        Some(k) => c.branches_covered == k.covered && c.branches_total == k.covered + k.missed,
        None => c.branches_covered == sum_files(fs, 2) && c.branches_total == sum_files(fs, 3),
    }
    &&& c.line_rate == Rate::Ratio { covered: c.lines_covered, total: c.lines_total }
    &&& c.branch_rate == Rate::Ratio { covered: c.branches_covered, total: c.branches_total }
    &&& out.version@ == "0.1.0"@
    &&& out.format@ == "jacoco-xml"@
    &&& out.dependencies is None
    &&& out.project.id@ == (match meta.project_id {
        Some(s) => s@,
        None => "jacoco-project"@,
    })
    &&& out.project.name@ == (match meta.project_name {
        Some(s) => s@,
        None => if r.name@.len() == 0 {
            "JaCoCo import"@
        } else {
            r.name@
        },
    })
    &&& out.project.commit_sha == meta.commit_sha
    &&& out.project.branch == meta.branch
    &&& out.project.target == target
    &&& out.project.source matches Some(src) && src@ == source
}

proof fn lemma_filter_none(d: Seq<LineCoverage>, n: int)
    requires
        forall|i: int| 0 <= i < d.len() ==> d[i].line_number > n,
    ensures
        d.filter(on_line(n)) == Seq::<LineCoverage>::empty(),
    decreases d.len(),
{
    reveal_with_fuel(Seq::<_>::filter, 1);
    if d.len() > 0 {
        lemma_filter_none(d.drop_last(), n);
    }
}

/// Inserts `x` after every record of `out` on a line up to its own.
fn insert_stable(out: &mut Vec<LineCoverage>, x: LineCoverage)
    requires
        forall|i: int, j: int| 0 <= i < j < old(out)@.len() ==> old(out)@[i].line_number <= old(out)@[j].line_number,
    ensures
        final(out)@.len() == old(out)@.len() + 1,
        forall|i: int, j: int| 0 <= i < j < final(out)@.len() ==> final(out)@[i].line_number <= final(out)@[j].line_number,
        forall|n: int| #[trigger] final(out)@.filter(on_line(n)) == old(out)@.push(x).filter(on_line(n)),
{
    let ghost before = out@;
    let mut p: usize = 0;
    while p < out.len() && out[p].line_number <= x.line_number
        invariant
            p <= out@.len(),
            out@ == before,
            forall|a: int| 0 <= a < p ==> out@[a].line_number <= x.line_number,
        decreases out@.len() - p,
    {
        p += 1;
    }
    out.insert(p, x);
    proof {
        before.insert_ensures(p as int, x);
        let t = before.take(p as int);
        let d = before.skip(p as int);
        assert(before == t + d);
        assert(out@ == t + seq![x] + d);
        assert forall|q: int| 0 <= q < d.len() implies d[q].line_number > x.line_number by {
            if q > 0 {
                assert(before[p as int].line_number <= before[p + q].line_number);
            }
        }
        assert forall|i: int, j: int| 0 <= i < j < out@.len() implies out@[i].line_number <= out@[j].line_number by {
            if j < p {
                assert(out@[i] == before[i] && out@[j] == before[j]);
            } else if j == p {
                assert(out@[i] == before[i]);
            } else if i < p {
                assert(out@[i] == before[i] && out@[j] == before[j - 1]);
            } else if i == p {
                assert(out@[j] == d[j - p - 1]);
            } else {
                assert(out@[i] == before[i - 1] && out@[j] == before[j - 1]);
            }
        }
        assert forall|n: int| #[trigger] out@.filter(on_line(n)) == before.push(x).filter(on_line(n)) by {
            let pr = on_line(n);
            reveal_with_fuel(Seq::<_>::filter, 2);
            Seq::filter_distributes_over_add(t + seq![x], d, pr);
            Seq::filter_distributes_over_add(t, seq![x], pr);
            Seq::filter_distributes_over_add(t, d, pr);
            assert(seq![x].drop_last() == Seq::<LineCoverage>::empty());
            if x.line_number == n {
                lemma_filter_none(d, n);
                assert(t + d == before);
                assert(d.filter(pr) == Seq::<LineCoverage>::empty());
                assert(before.filter(pr) == t.filter(pr) + d.filter(pr));
                assert(before.filter(pr) =~= t.filter(pr));
                assert(before.push(x).drop_last() == before);
                assert(out@.filter(pr) =~= t.filter(pr) + seq![x]);
            } else {
                assert(before.push(x).drop_last() == before);
                assert(seq![x].filter(pr) =~= Seq::<LineCoverage>::empty());
                assert(out@.filter(pr) =~= t.filter(pr) + d.filter(pr));
            }
        }
    }
}

/// The path, package index and file index of each source file, in document
/// order.
fn flatten(pkgs: &Vec<Package>) -> (r: Vec<(String, usize, usize)>)
    ensures
        r@.len() == flat_files(pkgs@).len(),
        forall|k: int|
            #![trigger r@[k]]
            0 <= k < r@.len() ==> r@[k].1 < pkgs@.len() && r@[k].2 < pkgs@[r@[k].1 as int].sourcefiles@.len()
                && flat_files(pkgs@)[k] == (r@[k].0@, pkgs@[r@[k].1 as int].sourcefiles@[r@[k].2 as int]),
{
    let mut r: Vec<(String, usize, usize)> = Vec::new();
    let mut p: usize = 0;
    proof {
        assert(pkgs@.take(0) =~= Seq::<Package>::empty());
    }
    while p < pkgs.len()
        invariant
            p <= pkgs@.len(),
            r@.len() == flat_files(pkgs@.take(p as int)).len(),
            forall|k: int|
                #![trigger r@[k]]
                0 <= k < r@.len() ==> r@[k].1 < pkgs@.len() && r@[k].2 < pkgs@[r@[k].1 as int].sourcefiles@.len()
                    && flat_files(pkgs@.take(p as int))[k] == (r@[k].0@, pkgs@[r@[k].1 as int].sourcefiles@[r@[k].2 as int]),
        decreases pkgs.len() - p,
    {
        let pkg = &pkgs[p];
        let pname = chars_of(pkg.name.as_str());
        let ghost base = flat_files(pkgs@.take(p as int));
        let ghost mapped = pkg.sourcefiles@.map_values(|sf: SourceFile| (path_of(pkg.name@, sf.name@), sf));
        proof {
            assert(pkgs@.take(p + 1).drop_last() == pkgs@.take(p as int));
            assert(pkgs@.take(p + 1).last() == *pkg);
            assert(flat_files(pkgs@.take(p + 1)) == base + mapped);
        }
        let mut j: usize = 0;
        while j < pkg.sourcefiles.len()
            invariant
                p < pkgs@.len(),
                *pkg == pkgs@[p as int],
                pname@ == pkg.name@,
                j <= pkg.sourcefiles@.len(),
                mapped == pkg.sourcefiles@.map_values(|sf: SourceFile| (path_of(pkg.name@, sf.name@), sf)),
                r@.len() == base.len() + j,
                forall|k: int|
                    #![trigger r@[k]]
                    0 <= k < r@.len() ==> r@[k].1 < pkgs@.len() && r@[k].2 < pkgs@[r@[k].1 as int].sourcefiles@.len()
                        && (base + mapped)[k] == (r@[k].0@, pkgs@[r@[k].1 as int].sourcefiles@[r@[k].2 as int]),
            decreases pkg.sourcefiles.len() - j,
        {
            let sf = &pkg.sourcefiles[j];
            let path = if pname.len() == 0 {
                sf.name.clone()
            } else {
                let mut v = chars_of(pkg.name.as_str());
                push_str(&mut v, "/");
                let n = chars_of(sf.name.as_str());
                push_all(&mut v, n.as_slice());
                string_from_chars(v.as_slice())
            };
            let ghost before = r@;
            r.push((path, p, j));
            proof {
                assert((base + mapped)[base.len() + j] == mapped[j as int]);
                assert forall|k: int| #![trigger r@[k]] 0 <= k < r@.len() implies r@[k].1 < pkgs@.len() && r@[k].2
                    < pkgs@[r@[k].1 as int].sourcefiles@.len() && (base + mapped)[k] == (
                    r@[k].0@,
                    pkgs@[r@[k].1 as int].sourcefiles@[r@[k].2 as int],
                ) by {
                    if k < before.len() {
                        assert(r@[k] == before[k]);
                    }
                }
            }
            j += 1;
        }
        p += 1;
    }
    proof {
        assert(pkgs@.take(p as int) == pkgs@);
    }
    r
}

/// The file a source file with lines becomes, before implausible records are
/// dropped.
fn build_file(path: String, sf: &SourceFile) -> (f: FileCoverage)
    requires
        sf.lines@.len() <= i64::MAX,
        forall|k: int|
            0 <= k <= sf.lines@.len() ==> i64::MIN <= #[trigger] cb_sum(sf.lines@.take(k)) <= i64::MAX
                && i64::MIN <= br_sum(sf.lines@.take(k)) <= i64::MAX,
        forall|j: int| 0 <= j < sf.lines@.len() ==> i64::MIN <= #[trigger] sf.lines@[j].cb + sf.lines@[j].mb <= i64::MAX,
    ensures
        jacoco_file_fields(f, path@, *sf),
        stably_sorted(f.lines@, line_records(sf.lines@)),
        f.lines@.len() == sf.lines@.len(),
{
    let ghost ls = sf.lines@;
    let mut out: Vec<LineCoverage> = Vec::new();
    let mut hits: i64 = 0;
    let mut cb: i64 = 0;
    let mut br: i64 = 0;
    let mut i: usize = 0;
    proof {
        assert(ls.take(0) =~= Seq::<Line>::empty());
        assert(line_records(ls.take(0)) =~= out@);
    }
    while i < sf.lines.len()
        invariant
            ls == sf.lines@,
            ls.len() <= i64::MAX,
            i <= ls.len(),
            out@.len() == i,
            forall|k: int|
                0 <= k <= ls.len() ==> i64::MIN <= #[trigger] cb_sum(ls.take(k)) <= i64::MAX && i64::MIN <= br_sum(
                    ls.take(k),
                ) <= i64::MAX,
            forall|j: int| 0 <= j < ls.len() ==> i64::MIN <= #[trigger] ls[j].cb + ls[j].mb <= i64::MAX,
            forall|a: int, b: int| 0 <= a < b < out@.len() ==> out@[a].line_number <= out@[b].line_number,
            forall|n: int| #[trigger] out@.filter(on_line(n)) == line_records(ls.take(i as int)).filter(on_line(n)),
            hits == ci_hits(ls.take(i as int)),
            hits <= i,
            cb == cb_sum(ls.take(i as int)),
            br == br_sum(ls.take(i as int)),
        decreases ls.len() - i,
    {
        let l = &sf.lines[i];
        let x = LineCoverage { line_number: l.nr, hit_count: l.ci };
        let ghost before = out@;
        insert_stable(&mut out, x);
        proof {
            assert(ls.take(i + 1).drop_last() == ls.take(i as int));
            assert(line_records(ls.take(i + 1)) == line_records(ls.take(i as int)).push(x));
            let lr = line_records(ls.take(i as int));
            assert forall|n: int| #[trigger] out@.filter(on_line(n)) == line_records(ls.take(i + 1)).filter(on_line(n)) by {
                let pr = on_line(n);
                reveal_with_fuel(Seq::<_>::filter, 1);
                assert(before.push(x).drop_last() == before);
                assert(lr.push(x).drop_last() == lr);
                assert(before.filter(pr) == lr.filter(pr));
                assert(before.push(x).filter(pr) == lr.push(x).filter(pr));
                assert(out@.filter(pr) == before.push(x).filter(pr));
            }
            let _ = cb_sum(ls.take(i + 1));
            assert(i64::MIN <= ls[i as int].cb + ls[i as int].mb <= i64::MAX);
        }
        if l.ci > 0 {
            hits = hits + 1;
        }
        cb = cb + l.cb;
        br = br + (l.cb + l.mb);
        i += 1;
    }
    proof {
        assert(ls.take(i as int) == ls);
    }
    let n = out.len() as i64;
    FileCoverage {
        path,
        line_rate: Rate::Ratio { covered: hits, total: n },
        branch_rate: Rate::Ratio { covered: cb, total: br },
        lines: out,
        branches_covered: cb,
        branches_total: br,
        source_content: None,
    }
}

proof fn lemma_sum_files_take(fs: Seq<(Seq<char>, SourceFile)>, i: int)
    requires
        0 <= i <= fs.len(),
    ensures
        sum_files(fs.take(i), 0) <= sum_files(fs, 0),
        sum_files(fs.take(i), 1) <= sum_files(fs.take(i), 0),
    decreases fs.len() - i,
{
    if i < fs.len() {
        assert(fs.take(i + 1).drop_last() == fs.take(i));
        lemma_sum_files_take(fs, i + 1);
    } else {
        assert(fs.take(i) == fs);
    }
    lemma_hits_le_lines(fs.take(i));
}

proof fn lemma_hits_le_lines(fs: Seq<(Seq<char>, SourceFile)>)
    ensures
        sum_files(fs, 1) <= sum_files(fs, 0),
        sum_files(fs, 0) >= 0,
    decreases fs.len(),
{
    if fs.len() > 0 {
        lemma_hits_le_lines(fs.drop_last());
        lemma_ci_hits_le(fs.last().1.lines@);
    }
}

proof fn lemma_ci_hits_le(ls: Seq<Line>)
    ensures
        ci_hits(ls) <= ls.len(),
    decreases ls.len(),
{
    if ls.len() > 0 {
        lemma_ci_hits_le(ls.drop_last());
    }
}

/// The file a kept source file becomes, before implausible records are
/// dropped.
spec fn built_from(f: FileCoverage, e: (Seq<char>, SourceFile)) -> bool {
    &&& jacoco_file_fields(f, e.0, e.1)
    &&& stably_sorted(f.lines@, line_records(e.1.lines@))
    &&& f.lines@.len() == e.1.lines@.len()
}

/// Build a report from a JaCoCo document: one file per source file with any
/// line, the report-level `LINE` and `BRANCH` counters where present and sums
/// over the files where not.
pub fn from_document(
    report: &Report,
    meta: &IngestMeta,
    target: CoverageTarget,
    source: &str,
    stamp: &SnapshotStamp,
) -> (r: Result<
    (OmnivoreReport, CoverageSnapshot),
    ParseError,
>)
    requires
        jacoco_fits(*report),
    ensures
        kept(flat_files(report.packages@)).len() == 0 ==> (r matches Err(ParseError::Jacoco(m)) && m@
            == "No sourcefiles with line coverage found in report"@),
        kept(flat_files(report.packages@)).len() > 0 ==> (r matches Ok((out, snap)) && jacoco_report(
            out,
            *report,
            *meta,
            target,
            source@,
        ) && snapshot_of(snap, out, Some(source@), *stamp)),
{
    let flat = flatten(&report.packages);
    let ghost fs = flat_files(report.packages@);
    let mut files: Vec<FileCoverage> = Vec::new();
    let mut lt: i64 = 0;
    let mut hit: i64 = 0;
    let mut cb: i64 = 0;
    let mut br: i64 = 0;
    let mut k: usize = 0;
    proof {
        assert(fs.take(0) =~= Seq::<(Seq<char>, SourceFile)>::empty());
        lemma_hits_le_lines(fs);
    }
    while k < flat.len()
        invariant
            fs == flat_files(report.packages@),
            jacoco_fits(*report),
            flat@.len() == fs.len(),
            forall|q: int|
                #![trigger flat@[q]]
                0 <= q < flat@.len() ==> flat@[q].1 < report.packages@.len() && flat@[q].2
                    < report.packages@[flat@[q].1 as int].sourcefiles@.len() && fs[q] == (
                    flat@[q].0@,
                    report.packages@[flat@[q].1 as int].sourcefiles@[flat@[q].2 as int],
                ),
            k <= fs.len(),
            files@.len() == kept(fs.take(k as int)).len(),
            files@.len() <= k,
            forall|a: int| #![trigger kept(fs.take(k as int))[a]] 0 <= a < kept(fs.take(k as int)).len() ==> kept(fs.take(k as int))[a] < k,
            forall|a: int|
                #![trigger files@[a]]
                0 <= a < files@.len() ==> built_from(files@[a], fs[kept(fs.take(k as int))[a]]),
            lt == sum_files(fs.take(k as int), 0),
            hit == sum_files(fs.take(k as int), 1),
            cb == sum_files(fs.take(k as int), 2),
            br == sum_files(fs.take(k as int), 3),
            total_lines(files@) == lt,
        decreases fs.len() - k,
    {
        let pi = flat[k].1;
        let fj = flat[k].2;
        let sf = &report.packages[pi].sourcefiles[fj];
        let ghost ks = kept(fs.take(k as int));
        proof {
            assert(fs[k as int] == (flat@[k as int].0@, *sf));
            assert(fs.take(k + 1).drop_last() == fs.take(k as int));
            assert(fs.take(k + 1).last() == fs[k as int]);
            lemma_sum_files_take(fs, k + 1);
            lemma_sum_files_take(fs, k as int);
            let _ = sum_files(fs.take(k + 1), 2);
        }
        if sf.lines.len() > 0 {
            proof {
                assert forall|q: int| 0 <= q <= sf.lines@.len() implies i64::MIN <= #[trigger] cb_sum(sf.lines@.take(q))
                    <= i64::MAX && i64::MIN <= br_sum(sf.lines@.take(q)) <= i64::MAX by {
                    let _ = fs[k as int].1.lines@.take(q);
                }
                assert forall|j: int| 0 <= j < sf.lines@.len() implies i64::MIN <= #[trigger] sf.lines@[j].cb
                    + sf.lines@[j].mb <= i64::MAX by {
                    let _ = fs[k as int].1.lines@[j].cb + fs[k as int].1.lines@[j].mb;
                }
            }
            let f = build_file(flat[k].0.clone(), sf);
            let fh: i64 = match f.line_rate {
                Rate::Ratio { covered, total: _ } => covered,
                Rate::Reported { bits: _ } => 0,
            };
            let n = f.lines.len() as i64;
            let fcb = f.branches_covered;
            let fbr = f.branches_total;
            proof {
                lemma_ci_hits_le(sf.lines@);
            }
            let ghost before = files@;
            files.push(f);
            proof {
                assert(kept(fs.take(k + 1)) == ks.push(k as int));
                assert(files@.drop_last() == before);
                assert forall|a: int| #![trigger files@[a]] 0 <= a < files@.len() implies built_from(
                    files@[a],
                    fs[kept(fs.take(k + 1))[a]],
                ) by {
                    if a < before.len() {
                        assert(files@[a] == before[a]);
                    }
                }
            }
            lt = lt + n;
            hit = hit + fh;
            cb = cb + fcb;
            br = br + fbr;
        } else {
            proof {
                assert(kept(fs.take(k + 1)) == ks);
                assert(cb_sum(sf.lines@) == 0);
                assert(br_sum(sf.lines@) == 0);
            }
        }
        k += 1;
    }
    proof {
        assert(fs.take(k as int) == fs);
    }
    if files.len() == 0 {
        return Err(ParseError::Jacoco(owned("No sourcefiles with line coverage found in report")));
    }
    let (lines_covered, lines_total) = match report.counter("LINE") {
        Some(c) => (c.covered, c.covered + c.missed),
        None => (hit, lt),
    };
    let (branches_covered, branches_total) = match report.counter("BRANCH") {
        Some(c) => (c.covered, c.covered + c.missed),
        None => (cb, br),
    };
    let id = match &meta.project_id {
        Some(s) => s.clone(),
        None => owned("jacoco-project"),
    };
    let name = match &meta.project_name {
        Some(s) => s.clone(),
        None => if report.name.as_str().is_empty() {
            owned("JaCoCo import")
        } else {
            report.name.clone()
        },
    };
    let mut out = OmnivoreReport {
        version: owned("0.1.0"),
        format: owned("jacoco-xml"),
        project: ProjectInfo {
            id,
            name,
            commit_sha: copy_opt_string(&meta.commit_sha),
            branch: copy_opt_string(&meta.branch),
            target,
            source: Some(owned(source)),
        },
        coverage: CoverageSummary {
            line_rate: Rate::Ratio { covered: lines_covered, total: lines_total },
            branch_rate: Rate::Ratio { covered: branches_covered, total: branches_total },
            lines_covered,
            lines_total,
            branches_covered,
            branches_total,
        },
        files,
        dependencies: None,
    };
    let ghost before = out.files@;
    let snap = CoverageSnapshot::from_report(&mut out, Some(source), stamp);
    proof {
        let ks = kept(fs);
        assert forall|i: int| #![trigger out.files@[i]] 0 <= i < ks.len() implies jacoco_file_fields(
            out.files@[i],
            fs[ks[i]].0,
            fs[ks[i]].1,
        ) && exists|s: Seq<LineCoverage>|
            stably_sorted(s, line_records(fs[ks[i]].1.lines@)) && out.files@[i].lines@ == plausible_lines(s) by {
            assert(built_from(before[i], fs[ks[i]]));
            assert(out.files@[i].lines@ == plausible_lines(before[i].lines@));
        }
    }
    Ok((out, snap))
}

/// Every running sum of a source file's branch counts, and each line's
/// branch count, fits an `i64`.
pub open spec fn lines_fit(ls: Seq<Line>) -> bool {
    &&& forall|k: int|
        0 <= k <= ls.len() ==> i64::MIN <= cb_sum(#[trigger] ls.take(k)) <= i64::MAX && i64::MIN <= br_sum(ls.take(k))
            <= i64::MAX
    &&& forall|j: int| 0 <= j < ls.len() ==> i64::MIN <= #[trigger] ls[j].cb + ls[j].mb <= i64::MAX
}

/// The covered and total branches of `ls`, when every running sum fits.
fn line_sums(ls: &Vec<Line>) -> (r: Option<(i64, i64)>)
    ensures
        r is Some <==> lines_fit(ls@),
        r matches Some(v) ==> v.0 == cb_sum(ls@) && v.1 == br_sum(ls@),
{
    let mut cb: i64 = 0;
    let mut br: i64 = 0;
    let mut j: usize = 0;
    proof {
        assert(ls@.take(0) =~= Seq::<Line>::empty());
    }
    while j < ls.len()
        invariant
            j <= ls@.len(),
            cb == cb_sum(ls@.take(j as int)),
            br == br_sum(ls@.take(j as int)),
            forall|k: int|
                0 <= k <= j ==> i64::MIN <= cb_sum(#[trigger] ls@.take(k)) <= i64::MAX && i64::MIN <= br_sum(
                    ls@.take(k),
                ) <= i64::MAX,
            forall|q: int| 0 <= q < j ==> i64::MIN <= #[trigger] ls@[q].cb + ls@[q].mb <= i64::MAX,
        decreases ls.len() - j,
    {
        let l = &ls[j];
        proof {
            assert(ls@.take(j + 1).drop_last() == ls@.take(j as int));
            assert(ls@.take(j + 1).last() == ls@[j as int]);
        }
        let both: i128 = l.cb as i128 + l.mb as i128;
        let ncb: i128 = cb as i128 + l.cb as i128;
        let nbr: i128 = br as i128 + both;
        if both < -0x8000_0000_0000_0000i128 || both > 0x7fff_ffff_ffff_ffffi128 || ncb < -0x8000_0000_0000_0000i128
            || ncb > 0x7fff_ffff_ffff_ffffi128 || nbr < -0x8000_0000_0000_0000i128 || nbr > 0x7fff_ffff_ffff_ffffi128 {
            proof {
                if lines_fit(ls@) {
                    let _ = ls@[j as int].cb + ls@[j as int].mb;
                    let _ = cb_sum(ls@.take(j + 1));
                    assert(false);
                }
            }
            return None;
        }
        cb = ncb as i64;
        br = nbr as i64;
        j += 1;
    }
    proof {
        assert(ls@.take(j as int) == ls@);
    }
    Some((cb, br))
}

/// Can `from_document` count `report`? Every running sum it keeps must fit
/// an `i64`, and its line records in memory.
pub fn report_fits(report: &Report) -> (b: bool)
    ensures
        b == jacoco_fits(*report),
{
    let flat = flatten(&report.packages);
    let ghost fs = flat_files(report.packages@);
    let mut cb: i64 = 0;
    let mut br: i64 = 0;
    let mut records: usize = 0;
    let mut k: usize = 0;
    proof {
        assert(fs.take(0) =~= Seq::<(Seq<char>, SourceFile)>::empty());
    }
    while k < flat.len()
        invariant
            fs == flat_files(report.packages@),
            flat@.len() == fs.len(),
            forall|q: int|
                #![trigger flat@[q]]
                0 <= q < flat@.len() ==> flat@[q].1 < report.packages@.len() && flat@[q].2
                    < report.packages@[flat@[q].1 as int].sourcefiles@.len() && fs[q] == (
                    flat@[q].0@,
                    report.packages@[flat@[q].1 as int].sourcefiles@[flat@[q].2 as int],
                ),
            k <= fs.len(),
            forall|i: int| 0 <= i < k ==> lines_fit(#[trigger] fs[i].1.lines@),
            forall|q: int|
                0 <= q <= k ==> i64::MIN <= #[trigger] sum_files(fs.take(q), 2) <= i64::MAX && i64::MIN <= sum_files(
                    fs.take(q),
                    3,
                ) <= i64::MAX,
            cb == sum_files(fs.take(k as int), 2),
            br == sum_files(fs.take(k as int), 3),
            records == sum_files(fs.take(k as int), 0),
        decreases fs.len() - k,
    {
        let pi = flat[k].1;
        let fj = flat[k].2;
        let sf = &report.packages[pi].sourcefiles[fj];
        proof {
            assert(fs[k as int] == (flat@[k as int].0@, *sf));
            assert(fs.take(k + 1).drop_last() == fs.take(k as int));
            assert(fs.take(k + 1).last() == fs[k as int]);
            let _ = sum_files(fs.take(k + 1), 2);
        }
        let (c, t) = match line_sums(&sf.lines) {
            Some(v) => v,
            None => {
                proof {
                    if jacoco_fits(*report) {
                        let ls = fs[k as int].1.lines@;
                        assert forall|q: int| 0 <= q <= ls.len() implies i64::MIN <= cb_sum(#[trigger] ls.take(q))
                            <= i64::MAX && i64::MIN <= br_sum(ls.take(q)) <= i64::MAX by {
                            let _ = fs[k as int].1.lines@.take(q);
                        }
                        assert(lines_fit(ls));
                    }
                }
                return false;
            },
        };
        let ncb: i128 = cb as i128 + c as i128;
        let nbr: i128 = br as i128 + t as i128;
        if ncb < -0x8000_0000_0000_0000i128 || ncb > 0x7fff_ffff_ffff_ffffi128 || nbr < -0x8000_0000_0000_0000i128
            || nbr > 0x7fff_ffff_ffff_ffffi128 {
            proof {
                if jacoco_fits(*report) {
                    let _ = sum_files(fs.take(k + 1), 2);
                    assert(false);
                }
            }
            return false;
        }
        let n = sf.lines.len();
        if n > usize::MAX - records {
            proof {
                lemma_sum_files_take(fs, k + 1);
            }
            return false;
        }
        cb = ncb as i64;
        br = nbr as i64;
        records = records + n;
        k += 1;
    }
    proof {
        assert(fs.take(k as int) == fs);
    }
    if (records as u64) > 0x7fff_ffff_ffff_ffffu64 || (flat.len() as u64) > 0x7fff_ffff_ffff_ffffu64 {
        return false;
    }
    let line_ok = match report.counter("LINE") {
        Some(ctr) => {
            let x: i128 = ctr.covered as i128 + ctr.missed as i128;
            -0x8000_0000_0000_0000i128 <= x && x <= 0x7fff_ffff_ffff_ffffi128
        },
        None => true,
    };
    let branch_ok = match report.counter("BRANCH") {
        Some(ctr) => {
            let x: i128 = ctr.covered as i128 + ctr.missed as i128;
            -0x8000_0000_0000_0000i128 <= x && x <= 0x7fff_ffff_ffff_ffffi128
        },
        None => true,
    };
    proof {
        assert forall|i: int, q: int|
            #![trigger fs[i].1.lines@.take(q)]
            0 <= i < fs.len() && 0 <= q <= fs[i].1.lines@.len() implies {
            &&& i64::MIN <= cb_sum(fs[i].1.lines@.take(q)) <= i64::MAX
            &&& i64::MIN <= br_sum(fs[i].1.lines@.take(q)) <= i64::MAX
        } by {
            assert(lines_fit(fs[i].1.lines@));
        }
        assert forall|i: int, j: int|
            0 <= i < fs.len() && 0 <= j < fs[i].1.lines@.len() implies i64::MIN <= #[trigger] fs[i].1.lines@[j].cb
            + fs[i].1.lines@[j].mb <= i64::MAX by {
            assert(lines_fit(fs[i].1.lines@));
        }
    }
    line_ok && branch_ok
}

/// A line is covered when any of its instructions ran, whatever else was
/// missed: the covered lines a source file reports are exactly its `<line>`
/// elements with `ci > 0`, which are exactly its line records with a
/// positive hit count.
pub proof fn lemma_covered_lines_have_covered_instructions(ls: Seq<Line>)
    ensures
        ci_hits(ls) == ls.filter(|l: Line| l.ci > 0).len(),
        ci_hits(ls) == hit_lines(line_records(ls)),
    decreases ls.len(),
{
    let p = |l: Line| l.ci > 0;
    if ls.len() == 0 {
        assert(ls.filter(p) =~= Seq::<Line>::empty()) by {
            reveal(Seq::filter);
        }
        assert(line_records(ls) =~= Seq::<LineCoverage>::empty());
    } else {
        lemma_covered_lines_have_covered_instructions(ls.drop_last());
        assert(ls.filter(p).len() == ls.drop_last().filter(p).len() + if p(ls.last()) { 1int } else { 0int }) by {
            reveal(Seq::filter);
        }
        assert(line_records(ls).drop_last() =~= line_records(ls.drop_last()));
        assert(line_records(ls).last() == LineCoverage { line_number: ls.last().nr, hit_count: ls.last().ci });
    }
}

/// Missed branches over `ls`.
pub open spec fn mb_sum(ls: Seq<Line>) -> int
    decreases ls.len(),
{
    if ls.len() == 0 {
        0
    } else {
        mb_sum(ls.drop_last()) + ls.last().mb
    }
}

/// A source file's branches are its covered and its missed branches: the
/// branch total counts every `cb` and `mb`, the covered count every `cb`.
pub proof fn lemma_branches_are_covered_plus_missed(ls: Seq<Line>)
    ensures
        br_sum(ls) == cb_sum(ls) + mb_sum(ls),
    decreases ls.len(),
{
    if ls.len() > 0 {
        lemma_branches_are_covered_plus_missed(ls.drop_last());
    }
}

} // verus!
