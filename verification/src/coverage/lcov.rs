//! lcov tracefile parsing.
//!
//! Records read:
//! - `TN:<test name>` — test name (ignored)
//! - `SF:<path>` — start of a source file
//! - `DA:<line>,<count>` — line execution count
//! - `BRDA:<line>,<block>,<branch>,<taken>` — one branch edge
//! - `BRF:<count>` / `BRH:<count>` — branches found / hit, overriding the
//!   edges counted so far for the file
//! - `end_of_record` — end of a source file block
//!
//! Every other record (`FN`, `FNDA`, `LF`, `LH`, ...) is derived from the
//! records above and skipped.

use vstd::prelude::*;

use crate::coverage::format::{meta_project, project_from_meta, IngestMeta, ParseError};
use crate::coverage::model::{
    count_hits, dropped_implausible, hit_lines, lemma_hit_le, plausible_lines, snapshot_of, total_hit, total_lines,
    CoverageSnapshot, SnapshotStamp, CoverageSummary, CoverageTarget, FileCoverage, LineCoverage, OmnivoreReport,
    Rate,
};
use crate::coverage::source;
use crate::text::{
    chars_of, decimal, decimal_digits, has_prefix, lines_of, parse_i32, parse_i64, push_all, push_str,
    slice, split, split_char, starts_with_str, string_from_chars, text_lines, to_i32, to_i64, trim,
    trimmed,
};

verus! {

/// Metadata not present in lcov data — supplied externally.
pub type LcovMeta = IngestMeta;

/// A source file whose block has been closed.
pub struct LcovFile {
    pub path: Seq<char>,
    pub lines: Seq<LineCoverage>,
    /// Branches found and hit, as last recorded for the file.
    pub brf: int,
    pub brh: int,
}

/// What the records read so far have established.
pub struct LcovModel {
    pub files: Seq<LcovFile>,
    /// The file whose block is open, if any.
    pub path: Option<Seq<char>>,
    /// Line records read since the last file was closed or opened.
    pub lines: Seq<LineCoverage>,
    pub brf: int,
    pub brh: int,
    /// Branch totals over the closed files.
    pub found: int,
    pub hit: int,
}

pub open spec fn lcov_empty() -> LcovModel {
    LcovModel { files: Seq::empty(), path: None, lines: Seq::empty(), brf: 0, brh: 0, found: 0, hit: 0 }
}

/// Closes the open file, if any, moving its records out.
pub open spec fn lcov_flush(st: LcovModel) -> LcovModel {
    match st.path {
        None => st,
        Some(p) => LcovModel {
            files: st.files.push(LcovFile { path: p, lines: st.lines, brf: st.brf, brh: st.brh }),
            path: None,
            lines: Seq::empty(),
            brf: st.brf,
            brh: st.brh,
            found: st.found + st.brf,
            hit: st.hit + st.brh,
        },
    }
}

pub open spec fn da_message(what: Seq<char>, n: int) -> Seq<char> {
    what + " at line "@ + decimal(n as nat)
}

/// Reads line number `n` (counting from 1).
pub open spec fn lcov_apply(st: LcovModel, line: Seq<char>, n: int) -> Result<LcovModel, Seq<char>> {
    let t = trim(line);
    if t.len() == 0 || has_prefix(t, "TN:"@) {
        Ok(st)
    } else if has_prefix(t, "SF:"@) {
        Ok(LcovModel { path: Some(t.skip(3)), lines: Seq::empty(), brf: 0, brh: 0, ..lcov_flush(st) })
    } else if has_prefix(t, "DA:"@) {
        let ps = split_char(t.skip(3), ',');
        if ps.len() < 2 {
            Err(da_message("Invalid DA record"@, n))
        } else {
            match parse_i32(ps[0]) {
                None => Err(da_message("Bad line number in DA"@, n)),
                Some(ln) => match parse_i64(ps[1]) {
                    None => Err(da_message("Bad hit count in DA"@, n)),
                    Some(c) => Ok(
                        LcovModel {
                            lines: st.lines.push(LineCoverage { line_number: ln as i32, hit_count: c as i64 }),
                            ..st
                        },
                    ),
                },
            }
        }
    } else if has_prefix(t, "BRDA:"@) {
        let ps = split_char(t.skip(5), ',');
        if ps.len() >= 4 {
            let taken = ps.len() == 4 && (parse_i64(ps[3]) matches Some(v) && v > 0);
            Ok(LcovModel { brf: st.brf + 1, brh: if taken { st.brh + 1 } else { st.brh }, ..st })
        } else {
            Ok(st)
        }
    } else if has_prefix(t, "BRF:"@) {
        match parse_i64(t.skip(4)) {
            Some(v) => Ok(LcovModel { brf: v, ..st }),
            None => Ok(st),
        }
    } else if has_prefix(t, "BRH:"@) {
        match parse_i64(t.skip(4)) {
            Some(v) => Ok(LcovModel { brh: v, ..st }),
            None => Ok(st),
        }
    } else if t == "end_of_record"@ {
        Ok(LcovModel { brf: 0, brh: 0, ..lcov_flush(st) })
    } else {
        Ok(st)
    }
}

/// Reads `lines` in order, stopping at the first malformed `DA` record.
pub open spec fn lcov_fold(lines: Seq<Seq<char>>) -> Result<LcovModel, Seq<char>>
    decreases lines.len(),
{
    if lines.len() == 0 {
        Ok(lcov_empty())
    } else {
        match lcov_fold(lines.drop_last()) {
            Err(e) => Err(e),
            Ok(st) => lcov_apply(st, lines.last(), lines.len() as int),
        }
    }
}

/// The closed files of a whole tracefile, or the message it is rejected with.
pub open spec fn lcov_outcome(input: Seq<char>) -> Result<LcovModel, Seq<char>> {
    match lcov_fold(text_lines(input)) {
        Err(e) => Err(e),
        Ok(st) => {
            let last = lcov_flush(st);
            if last.files.len() == 0 {
                Err("No source files found in lcov data"@)
            } else {
                Ok(last)
            }
        },
    }
}

/// Number of line records held by `files`.
pub open spec fn lcov_records(files: Seq<LcovFile>) -> nat
    decreases files.len(),
{
    if files.len() == 0 {
        0
    } else {
        lcov_records(files.drop_last()) + files.last().lines.len()
    }
}

/// Every counter of `st`, and every total a flush of it would produce, fits
/// the integers the tracefile is counted in.
pub open spec fn lcov_state_fits(st: LcovModel) -> bool {
    &&& i64::MIN <= st.brf <= i64::MAX
    &&& i64::MIN <= st.brh <= i64::MAX
    &&& i64::MIN <= st.found + st.brf <= i64::MAX
    &&& i64::MIN <= st.hit + st.brh <= i64::MAX
    &&& i64::MIN <= st.found <= i64::MAX
    &&& i64::MIN <= st.hit <= i64::MAX
    &&& lcov_records(st.files) + st.lines.len() <= i64::MAX
    &&& lcov_records(st.files) + st.lines.len() <= usize::MAX
    &&& st.files.len() < i64::MAX
}

/// Reading `input` never takes a counter out of range.
pub open spec fn lcov_fits(input: Seq<char>) -> bool {
    forall|k: int|
        0 <= k <= text_lines(input).len() ==> match #[trigger] lcov_fold(text_lines(input).take(k)) {
            Ok(st) => lcov_state_fits(st),
            Err(_) => true,
        }
}

/// Number of line records with a positive count over `files`.
pub open spec fn lcov_hits(files: Seq<LcovFile>) -> nat
    decreases files.len(),
{
    if files.len() == 0 {
        0
    } else {
        lcov_hits(files.drop_last()) + hit_lines(files.last().lines)
    }
}

/// The fields of the file a closed lcov block becomes, but for its line
/// records.
pub open spec fn lcov_file_fields(f: FileCoverage, m: LcovFile) -> bool {
    &&& f.path@ == m.path
    &&& f.line_rate == Rate::Ratio { covered: hit_lines(m.lines) as i64, total: m.lines.len() as i64 }
    &&& f.branch_rate == Rate::Ratio { covered: m.brh as i64, total: m.brf as i64 }
    &&& f.branches_covered == m.brh
    &&& f.branches_total == m.brf
    &&& f.source_content is None
}

/// The report `parse` builds from the closed files. Its line records are
/// those of the tracefile with the implausible ones dropped; the rates and
/// totals count every record read.
pub open spec fn lcov_report(r: OmnivoreReport, st: LcovModel, meta: IngestMeta) -> bool {
    &&& r.files@.len() == st.files.len()
    &&& forall|i: int|
        #![trigger r.files@[i]]
        0 <= i < st.files.len() ==> lcov_file_fields(r.files@[i], st.files[i])
            && r.files@[i].lines@ == plausible_lines(st.files[i].lines)
    &&& r.coverage.lines_total == lcov_records(st.files)
    &&& r.coverage.lines_covered == lcov_hits(st.files)
    &&& r.coverage.line_rate == Rate::Ratio { covered: r.coverage.lines_covered, total: r.coverage.lines_total }
    &&& r.coverage.branches_covered == st.hit
    &&& r.coverage.branches_total == st.found
    &&& r.coverage.branch_rate == Rate::Ratio { covered: r.coverage.branches_covered, total: r.coverage.branches_total }
    &&& r.version@ == "0.1.0"@
    &&& r.format@ == "lcov"@
    &&& r.dependencies is None
    &&& project_from_meta(r.project, meta, "lcov-project"@, "lcov import"@)
    &&& r.project.target == CoverageTarget::Lcov
    &&& r.project.source matches Some(src) && src@ == "lcov"@
}

struct LcovState {
    files: Vec<FileCoverage>,
    path: Option<Vec<char>>,
    lines: Vec<LineCoverage>,
    brf: i64,
    brh: i64,
    found: i64,
    hit: i64,
}

spec fn state_matches(s: LcovState, m: LcovModel) -> bool {
    &&& s.files@.len() == m.files.len()
    &&& forall|i: int|
        #![trigger s.files@[i]]
        0 <= i < m.files.len() ==> lcov_file_fields(s.files@[i], m.files[i]) && s.files@[i].lines@
            == m.files[i].lines
    &&& match s.path {
        None => m.path is None,
        Some(p) => m.path == Some(p@),
    }
    &&& s.lines@ == m.lines
    &&& s.brf == m.brf
    &&& s.brh == m.brh
    &&& s.found == m.found
    &&& s.hit == m.hit
}

fn flush(s: LcovState, Ghost(m): Ghost<LcovModel>) -> (r: LcovState)
    requires
        state_matches(s, m),
        lcov_state_fits(m),
    ensures
        state_matches(r, lcov_flush(m)),
{
    let LcovState { mut files, path, lines, brf, brh, found, hit } = s;
    match path {
        None => LcovState { files, path: None, lines, brf, brh, found, hit },
        Some(p) => {
            let fh = count_hits(&lines);
            let n = lines.len() as i64;
            let ghost before = files@;
            files.push(
                FileCoverage {
                    path: string_from_chars(p.as_slice()),
                    line_rate: Rate::Ratio { covered: fh, total: n },
                    branch_rate: Rate::Ratio { covered: brh, total: brf },
                    lines,
                    branches_covered: brh,
                    branches_total: brf,
                    source_content: None,
                },
            );
            proof {
                let m2 = lcov_flush(m);
                assert forall|i: int| #![trigger files@[i]] 0 <= i < m2.files.len() implies lcov_file_fields(
                    files@[i],
                    m2.files[i],
                ) && files@[i].lines@ == m2.files[i].lines by {
                    if i < before.len() {
                        assert(files@[i] == before[i]);
                    }
                }
            }
            LcovState { files, path: None, lines: Vec::new(), brf, brh, found: found + brf, hit: hit + brh }
        },
    }
}

fn da_error(what: &str, n: usize) -> (r: ParseError)
    ensures
        r matches ParseError::Lcov(x) && x@ == da_message(what@, n as int),
{
    let mut out = chars_of(what);
    push_str(&mut out, " at line ");
    let d = decimal_digits(n as u64);
    push_all(&mut out, d.as_slice());
    ParseError::Lcov(string_from_chars(out.as_slice()))
}

/// Reads line number `n` (counting from 1) of a tracefile.
fn lcov_step(s: LcovState, line: &[char], n: usize, Ghost(m): Ghost<LcovModel>) -> (r: Result<LcovState, ParseError>)
    requires
        state_matches(s, m),
        lcov_state_fits(m),
        match lcov_apply(m, line@, n as int) {
            Ok(m2) => lcov_state_fits(m2),
            Err(_) => true,
        },
    ensures
        match lcov_apply(m, line@, n as int) {
            Ok(m2) => r matches Ok(s2) && state_matches(s2, m2),
            Err(msg) => r matches Err(ParseError::Lcov(x)) && x@ == msg,
        },
{
    let t = trimmed(line);
    let t = t.as_slice();
    if t.len() == 0 || starts_with_str(t, "TN:") {
        return Ok(s);
    }
    if starts_with_str(t, "SF:") {
        proof {
            reveal_strlit("SF:");
        }
        let f = flush(s, Ghost(m));
        let LcovState { files, path: _, lines: _, brf: _, brh: _, found, hit } = f;
        let p = slice(t, 3, t.len());
        proof {
            assert(p@ == t@.skip(3));
        }
        return Ok(LcovState { files, path: Some(p), lines: Vec::new(), brf: 0, brh: 0, found, hit });
    }
    if starts_with_str(t, "DA:") {
        proof {
            reveal_strlit("DA:");
        }
        let rest = slice(t, 3, t.len());
        proof {
            assert(rest@ == t@.skip(3));
        }
        let ps = split(rest.as_slice(), ',');
        if ps.len() < 2 {
            return Err(da_error("Invalid DA record", n));
        }
        let ln = match to_i32(ps[0].as_slice()) {
            Some(v) => v,
            None => return Err(da_error("Bad line number in DA", n)),
        };
        let c = match to_i64(ps[1].as_slice()) {
            Some(v) => v,
            None => return Err(da_error("Bad hit count in DA", n)),
        };
        let mut s = s;
        s.lines.push(LineCoverage { line_number: ln, hit_count: c });
        return Ok(s);
    }
    if starts_with_str(t, "BRDA:") {
        proof {
            reveal_strlit("BRDA:");
        }
        let rest = slice(t, 5, t.len());
        proof {
            assert(rest@ == t@.skip(5));
        }
        let ps = split(rest.as_slice(), ',');
        if ps.len() >= 4 {
            let taken = ps.len() == 4 && match to_i64(ps[3].as_slice()) {
                Some(v) => v > 0,
                None => false,
            };
            let mut s = s;
            s.brf = s.brf + 1;
            if taken {
                s.brh = s.brh + 1;
            }
            return Ok(s);
        }
        return Ok(s);
    }
    if starts_with_str(t, "BRF:") {
        proof {
            reveal_strlit("BRF:");
        }
        let rest = slice(t, 4, t.len());
        proof {
            assert(rest@ == t@.skip(4));
        }
        let mut s = s;
        if let Some(v) = to_i64(rest.as_slice()) {
            s.brf = v;
        }
        return Ok(s);
    }
    if starts_with_str(t, "BRH:") {
        proof {
            reveal_strlit("BRH:");
        }
        let rest = slice(t, 4, t.len());
        proof {
            assert(rest@ == t@.skip(4));
        }
        let mut s = s;
        if let Some(v) = to_i64(rest.as_slice()) {
            s.brh = v;
        }
        return Ok(s);
    }
    if crate::text::eq_str(t, "end_of_record") {
        let mut f = flush(s, Ghost(m));
        f.brf = 0;
        f.brh = 0;
        return Ok(f);
    }
    Ok(s)
}

proof fn lemma_fold_err(lines: Seq<Seq<char>>, k: int)
    requires
        0 <= k <= lines.len(),
        lcov_fold(lines.take(k)) is Err,
    ensures
        lcov_fold(lines) == lcov_fold(lines.take(k)),
    decreases lines.len() - k,
{
    if k < lines.len() {
        assert(lines.take(k + 1).drop_last() == lines.take(k));
        lemma_fold_err(lines, k + 1);
    } else {
        assert(lines.take(k) == lines);
    }
}

proof fn lemma_lcov_totals(fs: Seq<FileCoverage>, ms: Seq<LcovFile>)
    requires
        fs.len() == ms.len(),
        forall|i: int| #![trigger fs[i]] 0 <= i < fs.len() ==> fs[i].lines@ == ms[i].lines,
    ensures
        total_lines(fs) == lcov_records(ms),
        total_hit(fs) == lcov_hits(ms),
    decreases fs.len(),
{
    if fs.len() > 0 {
        assert forall|i: int| #![trigger fs.drop_last()[i]] 0 <= i < fs.drop_last().len() implies fs.drop_last()[i].lines@
            == ms.drop_last()[i].lines by {
            assert(fs.drop_last()[i] == fs[i]);
        }
        lemma_lcov_totals(fs.drop_last(), ms.drop_last());
    }
}

/// The counters of a partly read tracefile, without its records.
struct Counters {
    open: bool,
    nfiles: i64,
    /// Line records of the closed files.
    closed: i64,
    /// Line records read since the last file was closed or opened.
    pending: i64,
    brf: i64,
    brh: i64,
    found: i64,
    hit: i64,
}

spec fn counters_match(c: Counters, m: LcovModel) -> bool {
    &&& c.open == (m.path is Some)
    &&& c.nfiles == m.files.len()
    &&& c.closed == lcov_records(m.files)
    &&& c.pending == m.lines.len()
    &&& c.brf == m.brf
    &&& c.brh == m.brh
    &&& c.found == m.found
    &&& c.hit == m.hit
}

proof fn lemma_flush_counts(m: LcovModel)
    ensures
        m.path is Some ==> lcov_records(lcov_flush(m).files) == lcov_records(m.files) + m.lines.len(),
        m.path is Some ==> lcov_flush(m).files.len() == m.files.len() + 1,
{
    if let Some(p) = m.path {
        let f = LcovFile { path: p, lines: m.lines, brf: m.brf, brh: m.brh };
        assert(m.files.push(f).drop_last() == m.files);
    }
}

/// The counters after closing the open file, when the number of files
/// stays in range.
fn count_flush(c: Counters, Ghost(m): Ghost<LcovModel>) -> (r: Option<Counters>)
    requires
        counters_match(c, m),
        lcov_state_fits(m),
    ensures
        match r {
            Some(c2) => {
                &&& counters_match(c2, lcov_flush(m))
                &&& lcov_flush(m).files.len() < i64::MAX
                &&& lcov_records(lcov_flush(m).files) + lcov_flush(m).lines.len() == lcov_records(m.files)
                    + m.lines.len()
                &&& i64::MIN <= lcov_flush(m).found <= i64::MAX
                &&& i64::MIN <= lcov_flush(m).hit <= i64::MAX
            },
            None => m.path is Some && m.files.len() + 1 >= i64::MAX,
        },
{
    proof {
        lemma_flush_counts(m);
    }
    if !c.open {
        return Some(c);
    }
    if c.nfiles >= i64::MAX - 1 {
        return None;
    }
    Some(
        Counters {
            open: false,
            nfiles: c.nfiles + 1,
            closed: c.closed + c.pending,
            pending: 0,
            brf: c.brf,
            brh: c.brh,
            found: c.found + c.brf,
            hit: c.hit + c.brh,
        },
    )
}

/// Reads line number `n` of a tracefile for its counters: `Some(Err(()))`
/// where the tracefile is rejected there, `None` where a counter would
/// leave its range.
fn count_step(c: Counters, line: &[char], n: usize, Ghost(m): Ghost<LcovModel>) -> (r: Option<Result<Counters, ()>>)
    requires
        counters_match(c, m),
        lcov_state_fits(m),
    ensures
        match lcov_apply(m, line@, n as int) {
            Err(_) => r == Some(Err::<Counters, ()>(())),
            Ok(m2) => if lcov_state_fits(m2) {
                r matches Some(Ok(c2)) && counters_match(c2, m2)
            } else {
                r is None
            },
        },
{
    let t = trimmed(line);
    let t = t.as_slice();
    if t.len() == 0 || starts_with_str(t, "TN:") {
        return Some(Ok(c));
    }
    if starts_with_str(t, "SF:") {
        return match count_flush(c, Ghost(m)) {
            Some(f) => Some(Ok(Counters { open: true, pending: 0, brf: 0, brh: 0, ..f })),
            None => {
                proof {
                    lemma_flush_counts(m);
                }
                None
            },
        };
    }
    if starts_with_str(t, "DA:") {
        proof {
            reveal_strlit("DA:");
        }
        let rest = slice(t, 3, t.len());
        proof {
            assert(rest@ == t@.skip(3));
        }
        let ps = split(rest.as_slice(), ',');
        if ps.len() < 2 {
            return Some(Err(()));
        }
        if to_i32(ps[0].as_slice()).is_none() || to_i64(ps[1].as_slice()).is_none() {
            return Some(Err(()));
        }
        let used = c.closed as i128 + c.pending as i128;
        if used >= i64::MAX as i128 || used >= usize::MAX as i128 {
            return None;
        }
        return Some(Ok(Counters { pending: c.pending + 1, ..c }));
    }
    if starts_with_str(t, "BRDA:") {
        proof {
            reveal_strlit("BRDA:");
        }
        let rest = slice(t, 5, t.len());
        proof {
            assert(rest@ == t@.skip(5));
        }
        let ps = split(rest.as_slice(), ',');
        if ps.len() >= 4 {
            let taken = ps.len() == 4 && match to_i64(ps[3].as_slice()) {
                Some(v) => v > 0,
                None => false,
            };
            if c.brf >= i64::MAX || c.found as i128 + c.brf as i128 + 1 > i64::MAX as i128 || c.found as i128
                + c.brf as i128 + 1 < i64::MIN as i128 {
                return None;
            }
            let brh = if taken {
                if c.brh >= i64::MAX || c.hit as i128 + c.brh as i128 + 1 > i64::MAX as i128 {
                    return None;
                }
                c.brh + 1
            } else {
                c.brh
            };
            return Some(Ok(Counters { brf: c.brf + 1, brh, ..c }));
        }
        return Some(Ok(c));
    }
    if starts_with_str(t, "BRF:") {
        proof {
            reveal_strlit("BRF:");
        }
        let rest = slice(t, 4, t.len());
        proof {
            assert(rest@ == t@.skip(4));
        }
        if let Some(v) = to_i64(rest.as_slice()) {
            let sum = c.found as i128 + v as i128;
            if sum > i64::MAX as i128 || sum < i64::MIN as i128 {
                return None;
            }
            return Some(Ok(Counters { brf: v, ..c }));
        }
        return Some(Ok(c));
    }
    if starts_with_str(t, "BRH:") {
        proof {
            reveal_strlit("BRH:");
        }
        let rest = slice(t, 4, t.len());
        proof {
            assert(rest@ == t@.skip(4));
        }
        if let Some(v) = to_i64(rest.as_slice()) {
            let sum = c.hit as i128 + v as i128;
            if sum > i64::MAX as i128 || sum < i64::MIN as i128 {
                return None;
            }
            return Some(Ok(Counters { brh: v, ..c }));
        }
        return Some(Ok(c));
    }
    if crate::text::eq_str(t, "end_of_record") {
        return match count_flush(c, Ghost(m)) {
            Some(f) => Some(Ok(Counters { brf: 0, brh: 0, ..f })),
            None => {
                proof {
                    lemma_flush_counts(m);
                }
                None
            },
        };
    }
    Some(Ok(c))
}

/// Does reading `input` keep every counter in range? Where it does not,
/// `parse` may not be called.
pub fn counts_fit(input: &str) -> (b: bool)
    ensures
        b == lcov_fits(input@),
{
    let chars = chars_of(input);
    let lines = lines_of(chars.as_slice());
    let ghost all = text_lines(input@);
    let mut c = Counters { open: false, nfiles: 0, closed: 0, pending: 0, brf: 0, brh: 0, found: 0, hit: 0 };
    let ghost mut m = lcov_empty();
    let mut k: usize = 0;
    proof {
        assert(all.take(0).len() == 0);
        assert(lcov_records(Seq::<LcovFile>::empty()) == 0);
    }
    while k < lines.len()
        invariant
            k <= lines@.len(),
            lines@.len() == all.len(),
            all == text_lines(input@),
            forall|q: int| 0 <= q < lines@.len() ==> #[trigger] lines@[q]@ == all[q],
            lcov_fold(all.take(k as int)) == Ok::<LcovModel, Seq<char>>(m),
            counters_match(c, m),
            lcov_state_fits(m),
            forall|j: int| 0 <= j <= k ==> match #[trigger] lcov_fold(all.take(j)) {
                Ok(st) => lcov_state_fits(st),
                Err(_) => true,
            },
        decreases lines.len() - k,
    {
        proof {
            assert(all.take(k + 1).drop_last() == all.take(k as int));
            assert(all.take(k + 1).last() == lines@[k as int]@);
            let _ = lcov_fold(all.take(k + 1));
        }
        match count_step(c, lines[k].as_slice(), k + 1, Ghost(m)) {
            Some(Err(_)) => {
                proof {
                    assert forall|j: int| 0 <= j <= all.len() implies match #[trigger] lcov_fold(all.take(j)) {
                        Ok(st) => lcov_state_fits(st),
                        Err(_) => true,
                    } by {
                        if j > k {
                            lemma_fold_err(all.take(j), k + 1);
                            assert(all.take(j).take(k + 1) == all.take(k + 1));
                        }
                    }
                }
                return true;
            },
            None => {
                proof {
                    let _ = lcov_fold(all.take(k + 1));
                }
                return false;
            },
            Some(Ok(c2)) => {
                c = c2;
                proof {
                    m = lcov_apply(m, all[k as int], k + 1)->Ok_0;
                }
            },
        }
        k += 1;
    }
    proof {
        assert(all.take(k as int) == all);
    }
    true
}

/// Parse an lcov tracefile into a report and the snapshot stored for it.
///
/// A malformed `DA` record rejects the whole tracefile, as does one without
/// any source file; a block missing its `end_of_record` is closed by the
/// next `SF` record or by the end of the input.
pub fn parse(input: &str, meta: &LcovMeta, stamp: &SnapshotStamp) -> (r: Result<(OmnivoreReport, CoverageSnapshot), ParseError>)
    requires
        lcov_fits(input@),
    ensures
        match lcov_outcome(input@) {
            Err(msg) => r matches Err(ParseError::Lcov(x)) && x@ == msg,
            Ok(st) => r matches Ok((report, snap)) && lcov_report(report, st, *meta) && snapshot_of(
                snap,
                report,
                Some("lcov"@),
                *stamp,
            ),
        },
{
    let chars = chars_of(input);
    let lines = lines_of(chars.as_slice());
    let ghost all = text_lines(input@);
    let mut s = LcovState {
        files: Vec::new(),
        path: None,
        lines: Vec::new(),
        brf: 0,
        brh: 0,
        found: 0,
        hit: 0,
    };
    let ghost mut m = lcov_empty();
    let mut k: usize = 0;
    proof {
        assert(all.take(0).len() == 0);
    }
    while k < lines.len()
        invariant
            k <= lines@.len(),
            lines@.len() == all.len(),
            all == text_lines(input@),
            forall|q: int| 0 <= q < lines@.len() ==> #[trigger] lines@[q]@ == all[q],
            lcov_fits(input@),
            lcov_fold(all.take(k as int)) == Ok::<LcovModel, Seq<char>>(m),
            state_matches(s, m),
        decreases lines.len() - k,
    {
        proof {
            assert(all.take(k + 1).drop_last() == all.take(k as int));
            assert(all.take(k + 1).last() == lines@[k as int]@);
            let _ = lcov_fold(text_lines(input@).take(k as int));
            let _ = lcov_fold(text_lines(input@).take(k + 1));
        }
        let res = lcov_step(s, lines[k].as_slice(), k + 1, Ghost(m));
        match res {
            Err(e) => {
                proof {
                    lemma_fold_err(all, k + 1);
                }
                return Err(e);
            },
            Ok(s2) => {
                s = s2;
                proof {
                    m = lcov_apply(m, all[k as int], k + 1)->Ok_0;
                }
            },
        }
        k += 1;
    }
    proof {
        assert(all.take(k as int) == all);
        let _ = lcov_fold(text_lines(input@).take(k as int));
    }
    let f = flush(s, Ghost(m));
    let ghost last = lcov_flush(m);
    let LcovState { files, path: _, lines: _, brf: _, brh: _, found, hit: branch_hit } = f;
    if files.len() == 0 {
        return Err(ParseError::Lcov(crate::text::owned("No source files found in lcov data")));
    }
    proof {
        lemma_lcov_totals(files@, last.files);
        if m.path is Some {
            assert(last.files.drop_last() == m.files);
        }
    }
    let mut total: i64 = 0;
    let mut hit: i64 = 0;
    let mut i: usize = 0;
    while i < files.len()
        invariant
            i <= files@.len(),
            total_lines(files@) <= i64::MAX,
            total == total_lines(files@.take(i as int)),
            hit == total_hit(files@.take(i as int)),
            hit <= total,
        decreases files.len() - i,
    {
        proof {
            assert(files@.take(i + 1).drop_last() == files@.take(i as int));
            crate::coverage::model::lemma_total_lines_grows(files@, i + 1);
            lemma_hit_le(files@[i as int].lines@);
        }
        let n = files[i].lines.len() as i64;
        let fh = count_hits(&files[i].lines);
        total = total + n;
        hit = hit + fh;
        i += 1;
    }
    proof {
        assert(files@.take(i as int) == files@);
    }
    let mut report = OmnivoreReport {
        version: crate::text::owned("0.1.0"),
        format: crate::text::owned("lcov"),
        project: meta_project(meta, "lcov-project", "lcov import", CoverageTarget::Lcov, source::LCOV),
        coverage: CoverageSummary {
            line_rate: Rate::Ratio { covered: hit, total },
            branch_rate: Rate::Ratio { covered: branch_hit, total: found },
            lines_covered: hit,
            lines_total: total,
            branches_covered: branch_hit,
            branches_total: found,
        },
        files,
        dependencies: None,
    };
    let ghost before = report.files@;
    let snap = CoverageSnapshot::from_report(&mut report, Some(source::LCOV), stamp);
    proof {
        assert forall|a: int| #![trigger report.files@[a]] 0 <= a < last.files.len() implies lcov_file_fields(
            report.files@[a],
            last.files[a],
        ) && report.files@[a].lines@ == plausible_lines(last.files[a].lines) by {
            assert(lcov_file_fields(before[a], last.files[a]));
        }
    }
    Ok((report, snap))
}

/// `l` is a `BRDA` record of four fields whose taken count is a positive
/// number: a branch edge that was taken. A count of 0, or `-` for a block
/// never reached, is an edge not taken.
pub open spec fn taken_branch_record(l: Seq<char>) -> bool {
    let t = trim(l);
    &&& has_prefix(t, "BRDA:"@)
    &&& split_char(t.skip(5), ',').len() == 4
    &&& parse_i64(split_char(t.skip(5), ',')[3]) matches Some(v)
    &&& v > 0
}

/// `l` is a `BRDA` record of at least four fields: a branch edge.
pub open spec fn branch_record(l: Seq<char>) -> bool {
    let t = trim(l);
    has_prefix(t, "BRDA:"@) && split_char(t.skip(5), ',').len() >= 4
}

/// Branch records count toward a file's branches hit exactly when taken:
/// after `BRDA` lines read in the open block (with no `BRF`/`BRH` totals
/// among them), the branches hit have grown by the number of those records
/// whose taken count is positive, and the branches found by the number of
/// edge records.
pub proof fn lemma_branches_hit_are_taken_edges(lines: Seq<Seq<char>>, k: int)
    requires
        0 <= k <= lines.len(),
        lcov_fold(lines.take(k)) is Ok,
        forall|j: int| k <= j < lines.len() ==> has_prefix(trim(#[trigger] lines[j]), "BRDA:"@),
    ensures
        lcov_fold(lines) is Ok,
        lcov_fold(lines)->Ok_0.brh == lcov_fold(lines.take(k))->Ok_0.brh + lines.skip(k).filter(
            |l: Seq<char>| taken_branch_record(l),
        ).len(),
        lcov_fold(lines)->Ok_0.brf == lcov_fold(lines.take(k))->Ok_0.brf + lines.skip(k).filter(
            |l: Seq<char>| branch_record(l),
        ).len(),
        lcov_fold(lines)->Ok_0.files == lcov_fold(lines.take(k))->Ok_0.files,
        lcov_fold(lines)->Ok_0.path == lcov_fold(lines.take(k))->Ok_0.path,
    decreases lines.len() - k,
{
    let p = |l: Seq<char>| taken_branch_record(l);
    let q = |l: Seq<char>| branch_record(l);
    if k == lines.len() {
        assert(lines.take(k) == lines);
        assert(lines.skip(k) =~= Seq::<Seq<char>>::empty());
        assert(lines.skip(k).filter(p) =~= Seq::<Seq<char>>::empty()) by {
            reveal(Seq::filter);
        }
        assert(lines.skip(k).filter(q) =~= Seq::<Seq<char>>::empty()) by {
            reveal(Seq::filter);
        }
    } else {
        let front = lines.drop_last();
        assert(front.take(k) == lines.take(k));
        assert forall|j: int| k <= j < front.len() implies has_prefix(trim(#[trigger] front[j]), "BRDA:"@) by {
            assert(front[j] == lines[j]);
        }
        lemma_branches_hit_are_taken_edges(front, k);
        let l = lines.last();
        assert(l == lines[lines.len() - 1]);
        let t = trim(l);
        reveal_strlit("BRDA:");
        reveal_strlit("TN:");
        reveal_strlit("SF:");
        reveal_strlit("DA:");
        reveal_strlit("BRF:");
        reveal_strlit("BRH:");
        reveal_strlit("end_of_record");
        assert(has_prefix(t, "BRDA:"@));
        assert(t.len() >= 5);
        assert(t.subrange(0, 5) == "BRDA:"@);
        assert(t[0] == t.subrange(0, 5)[0]);
        assert(t[0] == 'B');
        assert(!has_prefix(t, "TN:"@)) by {
            assert(t.subrange(0, 3)[0] != "TN:"@[0]);
        }
        assert(!has_prefix(t, "SF:"@)) by {
            assert(t.subrange(0, 3)[0] != "SF:"@[0]);
        }
        assert(!has_prefix(t, "DA:"@)) by {
            assert(t.subrange(0, 3)[0] != "DA:"@[0]);
        }
        assert(lines.drop_last() == front);
        assert(lines.skip(k) =~= front.skip(k).push(l));
        assert(lines.skip(k).filter(p) == if p(l) {
            front.skip(k).filter(p).push(l)
        } else {
            front.skip(k).filter(p)
        }) by {
            reveal(Seq::filter);
            assert(front.skip(k).push(l).drop_last() == front.skip(k));
            assert(front.skip(k).push(l).last() == l);
        }
        assert(lines.skip(k).filter(q) == if q(l) {
            front.skip(k).filter(q).push(l)
        } else {
            front.skip(k).filter(q)
        }) by {
            reveal(Seq::filter);
            assert(front.skip(k).push(l).drop_last() == front.skip(k));
            assert(front.skip(k).push(l).last() == l);
        }
    }
}

/// A source file's block closes with as many branches hit as its `BRDA`
/// records have positive taken counts: a block of `SF:`, then only `BRDA`
/// lines, then `end_of_record` becomes a file with that path, whose branches
/// hit are its taken edges and whose branches found are its edges.
pub proof fn lemma_block_branch_counts(lines: Seq<Seq<char>>, k: int, m: int)
    requires
        0 <= k < m,
        lines.len() == m + 1,
        lcov_fold(lines.take(k)) is Ok,
        has_prefix(trim(lines[k]), "SF:"@),
        forall|j: int| k < j < m ==> has_prefix(trim(#[trigger] lines[j]), "BRDA:"@),
        trim(lines[m]) == "end_of_record"@,
    ensures
        lcov_fold(lines) is Ok,
        ({
            let f = lcov_fold(lines)->Ok_0.files.last();
            &&& f.path == trim(lines[k]).skip(3)
            &&& f.brh == lines.subrange(k + 1, m).filter(|l: Seq<char>| taken_branch_record(l)).len()
            &&& f.brf == lines.subrange(k + 1, m).filter(|l: Seq<char>| branch_record(l)).len()
        }),
{
    reveal_strlit("SF:");
    reveal_strlit("TN:");
    reveal_strlit("end_of_record");
    reveal_strlit("DA:");
    reveal_strlit("BRDA:");
    reveal_strlit("BRF:");
    reveal_strlit("BRH:");
    let a = lines.take(k + 1);
    assert(a.drop_last() == lines.take(k));
    assert(a.last() == lines[k]);
    let ts = trim(lines[k]);
    assert(ts.subrange(0, 3) == "SF:"@);
    assert(ts[0] == ts.subrange(0, 3)[0]);
    assert(!has_prefix(ts, "TN:"@)) by {
        assert(ts.subrange(0, 3)[0] != "TN:"@[0]);
    }
    let b = lines.take(m);
    assert(b.take(k + 1) == a);
    assert forall|j: int| k + 1 <= j < b.len() implies has_prefix(trim(#[trigger] b[j]), "BRDA:"@) by {
        assert(b[j] == lines[j]);
    }
    lemma_branches_hit_are_taken_edges(b, k + 1);
    assert(b.skip(k + 1) == lines.subrange(k + 1, m));
    assert(lines.drop_last() == b);
    assert(lines.last() == lines[m]);
    let te = trim(lines[m]);
    assert(te.len() == 13);
    assert(!has_prefix(te, "TN:"@)) by {
        assert(te.subrange(0, 3)[0] != "TN:"@[0]);
    }
    assert(!has_prefix(te, "SF:"@)) by {
        assert(te.subrange(0, 3)[0] != "SF:"@[0]);
    }
    assert(!has_prefix(te, "DA:"@)) by {
        assert(te.subrange(0, 3)[0] != "DA:"@[0]);
    }
    assert(!has_prefix(te, "BRDA:"@)) by {
        assert(te.subrange(0, 5)[0] != "BRDA:"@[0]);
    }
    assert(!has_prefix(te, "BRF:"@)) by {
        assert(te.subrange(0, 4)[0] != "BRF:"@[0]);
    }
    assert(!has_prefix(te, "BRH:"@)) by {
        assert(te.subrange(0, 4)[0] != "BRH:"@[0]);
    }
}

/// Branches found (`what` false) or hit (`what` true) summed over closed
/// files.
pub open spec fn files_branch_sum(files: Seq<LcovFile>, what: bool) -> int
    decreases files.len(),
{
    if files.len() == 0 {
        0
    } else {
        files_branch_sum(files.drop_last(), what) + if what {
            files.last().brh
        } else {
            files.last().brf
        }
    }
}

proof fn lemma_flush_sums(st: LcovModel)
    requires
        st.found == files_branch_sum(st.files, false),
        st.hit == files_branch_sum(st.files, true),
    ensures
        lcov_flush(st).found == files_branch_sum(lcov_flush(st).files, false),
        lcov_flush(st).hit == files_branch_sum(lcov_flush(st).files, true),
{
    if st.path is Some {
        let f = LcovFile { path: st.path->Some_0, lines: st.lines, brf: st.brf, brh: st.brh };
        assert(st.files.push(f).drop_last() == st.files);
    }
}

/// A tracefile's branch totals are the sums over its files: whatever has
/// been read, the branches found and hit so far are the sums of those of the
/// closed files, so the report's totals add up the files' counts.
pub proof fn lemma_branch_totals_sum_files(lines: Seq<Seq<char>>)
    requires
        lcov_fold(lines) is Ok,
    ensures
        lcov_fold(lines)->Ok_0.found == files_branch_sum(lcov_fold(lines)->Ok_0.files, false),
        lcov_fold(lines)->Ok_0.hit == files_branch_sum(lcov_fold(lines)->Ok_0.files, true),
    decreases lines.len(),
{
    if lines.len() > 0 {
        lemma_branch_totals_sum_files(lines.drop_last());
        lemma_flush_sums(lcov_fold(lines.drop_last())->Ok_0);
    }
}

/// Of a whole tracefile accepted by `parse`: its branch totals are the sums
/// of its files' branches found and hit.
pub proof fn lemma_outcome_branch_totals(input: Seq<char>)
    requires
        lcov_outcome(input) is Ok,
    ensures
        lcov_outcome(input)->Ok_0.found == files_branch_sum(lcov_outcome(input)->Ok_0.files, false),
        lcov_outcome(input)->Ok_0.hit == files_branch_sum(lcov_outcome(input)->Ok_0.files, true),
{
    lemma_branch_totals_sum_files(text_lines(input));
    lemma_flush_sums(lcov_fold(text_lines(input))->Ok_0);
}

} // verus!
