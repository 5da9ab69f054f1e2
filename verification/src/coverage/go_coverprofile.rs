//! Go coverprofile parsing.
//!
//! ```text
//! mode: count
//! github.com/foo/bar/pkg/file.go:10.2,15.3 2 5
//! ```
//! Each line after the mode header is
//! `file:startLine.startCol,endLine.endCol numStatements count`. A block is a
//! line *range*, and every line in it becomes a coverage record, taking the
//! largest count (and at least zero) where blocks overlap.
//!
//! Because a record expands, output size is bounded by the numbers in the
//! input rather than its length; both a single block and the whole profile
//! are therefore bounded, and a profile outside the bounds is rejected.

use vstd::prelude::*;

use crate::coverage::format::{meta_project, project_from_meta, IngestMeta, ParseError};
use crate::coverage::model::{
    lemma_all_plausible, lemma_block_takes_max, lines_plausible, merge_block, range_update, represents,
    count_hits, hit_lines, total_hit,
    plausible, plausible_lines, total_lines, dropped_implausible, snapshot_of, CoverageSnapshot, SnapshotStamp,
    CoverageSummary, CoverageTarget, FileCoverage, LineCoverage, OmnivoreReport, ProjectInfo, Rate,
    MAX_LINE_NUMBER,
};
use crate::coverage::source;
use crate::text::{
    chars_of, decimal, find_char, has_prefix, index_of_char, last_index_of_char, lex_lt, lines_of,
    parse_i32, parse_i64, push_all, push_str, rfind_char, signed_decimal, signed_decimal_digits,
    slice, split, split_char, split_whitespace, split_ws, starts_with_str, string_from_chars, text_lines,
    to_i32, to_i64, trim, trimmed, lex_less,
};

verus! {

/// Metadata not present in a Go coverprofile, supplied externally.
pub type GoCoverprofileMeta = IngestMeta;

/// Ceiling on the total number of covered lines one profile may expand to.
pub const MAX_TOTAL_LINES: usize = 2_000_000;

/// The line number of `startLine.startCol` (or `endLine.endCol`): the digits
/// before the first `.` read as an `i32`, or 0 when they do not parse.
pub open spec fn line_num(s: Seq<char>) -> int {
    let i = index_of_char(s, '.');
    let part = if i >= 0 { s.take(i) } else { s };
    match parse_i32(part) {
        Some(v) => v,
        None => 0,
    }
}

/// The block a trimmed, non-header line describes: file, start line, end line
/// and count; `None` for a line that is skipped.
pub open spec fn go_block(t: Seq<char>) -> Option<(Seq<char>, int, int, int)> {
    let c = last_index_of_char(t, ':');
    if c < 0 {
        None
    } else {
        let parts = split_ws(t.skip(c + 1));
        if parts.len() < 2 {
            None
        } else {
            match parse_i64(parts.last()) {
                None => None,
                Some(count) => {
                    let rp = split_char(parts[0], ',');
                    if rp.len() != 2 {
                        None
                    } else {
                        Some((t.take(c), line_num(rp[0]), line_num(rp[1]), count))
                    }
                },
            }
        }
    }
}

/// What the profile read so far has established.
pub struct GoModel {
    /// For each file, the hit count of each covered line.
    pub files: Map<Seq<char>, Map<int, int>>,
    pub has_mode: bool,
    /// How many line records the blocks read so far expand to.
    pub expanded: int,
}

pub open spec fn empty_model() -> GoModel {
    GoModel { files: Map::empty(), has_mode: false, expanded: 0 }
}

/// A block range that no real file could have.
pub open spec fn implausible_range(s: int, e: int) -> bool {
    s < 1 || e < s || e > MAX_LINE_NUMBER
}

/// Reads one line. `Err(Some((s, e)))` rejects an implausible block range,
/// `Err(None)` a profile expanding past `MAX_TOTAL_LINES`.
pub open spec fn go_apply(st: GoModel, line: Seq<char>) -> Result<GoModel, Option<(int, int)>> {
    let t = trim(line);
    if t.len() == 0 {
        Ok(st)
    } else if has_prefix(t, "mode:"@) {
        Ok(GoModel { has_mode: true, ..st })
    } else {
        match go_block(t) {
            None => Ok(st),
            Some((file, s, e, c)) => {
                if implausible_range(s, e) {
                    Err(Some((s, e)))
                } else if st.expanded + (e - s + 1) > MAX_TOTAL_LINES {
                    Err(None)
                } else {
                    let old = if st.files.contains_key(file) { st.files[file] } else { Map::empty() };
                    Ok(GoModel {
                        files: st.files.insert(file, range_update(old, s, e, c)),
                        has_mode: st.has_mode,
                        expanded: st.expanded + (e - s + 1),
                    })
                }
            },
        }
    }
}

/// Reads `lines` in order, stopping at the first rejection.
pub open spec fn go_fold(lines: Seq<Seq<char>>) -> Result<GoModel, Option<(int, int)>>
    decreases lines.len(),
{
    if lines.len() == 0 {
        Ok(empty_model())
    } else {
        match go_fold(lines.drop_last()) {
            Err(e) => Err(e),
            Ok(st) => go_apply(st, lines.last()),
        }
    }
}

pub open spec fn range_message(s: int, e: int) -> Seq<char> {
    "Block range "@ + signed_decimal(s) + ".."@ + signed_decimal(e)
        + " is not a plausible source line range (line numbers must be 1..=2000000)"@
}

pub open spec fn too_many_message() -> Seq<char> {
    "Profile expands to more than 2000000 covered lines"@
}

/// The model of a whole profile, or the message it is rejected with.
pub open spec fn go_outcome(input: Seq<char>) -> Result<GoModel, Seq<char>> {
    match go_fold(text_lines(input)) {
        Err(Some((s, e))) => Err(range_message(s, e)),
        Err(None) => Err(too_many_message()),
        Ok(st) => if !st.has_mode {
            Err("Missing mode: header"@)
        } else if st.files.dom() == Set::<Seq<char>>::empty() {
            Err("No coverage data found"@)
        } else {
            Ok(st)
        },
    }
}

/// `p` is `/`-terminated (or empty) and a prefix of every name in `names`.
pub open spec fn dir_prefix_of_all(p: Seq<char>, names: Set<Seq<char>>) -> bool {
    &&& (p.len() == 0 || p.last() == '/')
    &&& forall|n: Seq<char>| #[trigger] names.contains(n) ==> has_prefix(n, p)
}

/// `p` is the longest directory prefix shared by all of `names`.
pub open spec fn common_dir_prefix(p: Seq<char>, names: Set<Seq<char>>) -> bool {
    &&& dir_prefix_of_all(p, names)
    &&& forall|q: Seq<char>| dir_prefix_of_all(q, names) ==> q.len() <= p.len()
}

/// The files of a report, their paths taken relative to `prefix`, describe
/// the files of `st`: in order of name, each with its lines listed in order.
pub open spec fn go_files(files: Seq<FileCoverage>, st: GoModel, prefix: Seq<char>) -> bool {
    &&& forall|i: int, j: int|
        0 <= i < j < files.len() ==> lex_lt(prefix + files[i].path@, prefix + files[j].path@)
    &&& forall|i: int|
        #![trigger files[i]]
        0 <= i < files.len() ==> {
            let f = files[i];
            &&& st.files.contains_key(prefix + f.path@)
            &&& represents(f.lines@, st.files[prefix + f.path@])
            &&& f.line_rate == Rate::Ratio { covered: hit_lines(f.lines@) as i64, total: f.lines@.len() as i64 }
            &&& f.branch_rate == Rate::Ratio { covered: 0, total: 0 }
            &&& f.branches_covered == 0 && f.branches_total == 0
            &&& f.source_content is None
        }
    &&& forall|n: Seq<char>|
        st.files.contains_key(n) ==> exists|i: int| #![trigger files[i]] 0 <= i < files.len() && prefix + files[i].path@ == n
}

/// The report `parse` builds from the model of a profile.
pub open spec fn go_report(r: OmnivoreReport, st: GoModel, meta: IngestMeta) -> bool {
    &&& exists|prefix: Seq<char>| common_dir_prefix(prefix, st.files.dom()) && go_files(r.files@, st, prefix)
    &&& r.coverage.lines_total == total_lines(r.files@)
    &&& r.coverage.lines_covered == total_hit(r.files@)
    &&& r.coverage.line_rate == Rate::Ratio { covered: r.coverage.lines_covered, total: r.coverage.lines_total }
    &&& r.coverage.branch_rate == Rate::Ratio { covered: 0, total: 0 }
    &&& r.coverage.branches_covered == 0 && r.coverage.branches_total == 0
    &&& r.version@ == "0.1.0"@
    &&& r.format@ == "go-coverprofile"@
    &&& r.dependencies is None
    &&& project_from_meta(r.project, meta, "go-project"@, "go import"@)
    &&& r.project.target == CoverageTarget::GoCover
    &&& r.project.source matches Some(src) && src@ == "go"@
}

/// The line number in `startLine.startCol`: the digits before the first `.`,
/// or 0 when they do not parse.
fn parse_line_num(s: &[char]) -> (n: i32)
    ensures
        n == line_num(s@),
{
    let part = match find_char(s, '.') {
        Some(i) => {
            proof {
                crate::text::lemma_index_of_char_is(s@, '.', i as int);
            }
            slice(s, 0, i)
        },
        None => {
            proof {
                crate::text::lemma_index_of_char(s@, '.');
                assert(s@.subrange(0, s@.len() as int) == s@);
            }
            slice(s, 0, s.len())
        },
    };
    match to_i32(part.as_slice()) {
        Some(v) => v,
        None => 0,
    }
}

/// Splits a trimmed, non-header line into its block.
fn parse_block(t: &[char]) -> (r: Option<(Vec<char>, i32, i32, i64)>)
    ensures
        match go_block(t@) {
            None => r is None,
            Some((f, s, e, c)) => r matches Some((rf, rs, re, rc)) && rf@ == f && rs == s && re == e
                && rc == c,
        },
{
    let c = match rfind_char(t, ':') {
        Some(c) => c,
        None => {
            proof {
                crate::text::lemma_last_index_of_char(t@, ':', -1);
            }
            return None;
        },
    };
    proof {
        crate::text::lemma_last_index_of_char(t@, ':', c as int);
    }
    let rest = slice(t, c + 1, t.len());
    proof {
        assert(rest@ == t@.skip(c + 1));
    }
    let parts = split_whitespace(rest.as_slice());
    if parts.len() < 2 {
        return None;
    }
    let count = match to_i64(parts[parts.len() - 1].as_slice()) {
        Some(v) => v,
        None => return None,
    };
    let rp = split(parts[0].as_slice(), ',');
    if rp.len() != 2 {
        return None;
    }
    let s = parse_line_num(rp[0].as_slice());
    let e = parse_line_num(rp[1].as_slice());
    let name = slice(t, 0, c);
    proof {
        assert(name@ == t@.take(c as int));
    }
    Some((name, s, e, count))
}

/// The covered lines of one file, as accumulated while reading.
struct GoFile {
    name: Vec<char>,
    lines: Vec<LineCoverage>,
}

/// `fs` holds the files of `m`, sorted by name, each with its lines listed in
/// order; no file holds more records than the profile expanded to so far.
spec fn files_inv(fs: Seq<GoFile>, m: Map<Seq<char>, Map<int, int>>, expanded: int) -> bool {
    &&& forall|i: int, j: int| 0 <= i < j < fs.len() ==> lex_lt(fs[i].name@, fs[j].name@)
    &&& forall|i: int|
        #![trigger fs[i]]
        0 <= i < fs.len() ==> {
            &&& m.contains_key(fs[i].name@)
            &&& represents(fs[i].lines@, m[fs[i].name@])
            &&& lines_plausible(fs[i].lines@)
        }
    &&& forall|n: Seq<char>| m.contains_key(n) ==> exists|i: int| #![trigger fs[i]] 0 <= i < fs.len() && fs[i].name@ == n
    &&& fs.len() <= expanded
    &&& sum_lens(fs) <= expanded
}

/// Total number of line records held over `fs`.
spec fn sum_lens(fs: Seq<GoFile>) -> nat
    decreases fs.len(),
{
    if fs.len() == 0 {
        0
    } else {
        sum_lens(fs.drop_last()) + fs.last().lines@.len()
    }
}

proof fn lemma_sum_update(fs: Seq<GoFile>, i: int, x: GoFile)
    requires
        0 <= i < fs.len(),
    ensures
        sum_lens(fs.update(i, x)) == sum_lens(fs) - fs[i].lines@.len() + x.lines@.len(),
    decreases fs.len(),
{
    if i < fs.len() - 1 {
        assert(fs.update(i, x).drop_last() == fs.drop_last().update(i, x));
        lemma_sum_update(fs.drop_last(), i, x);
    } else {
        assert(fs.update(i, x).drop_last() == fs.drop_last());
    }
}

proof fn lemma_sum_insert(fs: Seq<GoFile>, i: int, x: GoFile)
    requires
        0 <= i <= fs.len(),
    ensures
        sum_lens(fs.insert(i, x)) == sum_lens(fs) + x.lines@.len(),
    decreases fs.len(),
{
    fs.insert_ensures(i, x);
    if i < fs.len() {
        assert(fs.insert(i, x).drop_last() == fs.drop_last().insert(i, x));
        lemma_sum_insert(fs.drop_last(), i, x);
    } else {
        assert(fs.insert(i, x).drop_last() == fs);
    }
}

proof fn lemma_sum_take(fs: Seq<GoFile>, j: int)
    requires
        0 <= j <= fs.len(),
    ensures
        sum_lens(fs.take(j)) <= sum_lens(fs),
    decreases fs.len() - j,
{
    if j < fs.len() {
        assert(fs.take(j + 1).drop_last() == fs.take(j));
        lemma_sum_take(fs, j + 1);
    } else {
        assert(fs.take(j) == fs);
    }
}

spec fn state_inv(fs: Seq<GoFile>, has_mode: bool, expanded: usize, st: GoModel) -> bool {
    &&& files_inv(fs, st.files, st.expanded)
    &&& has_mode == st.has_mode
    &&& expanded == st.expanded
    &&& st.expanded <= MAX_TOTAL_LINES
}

/// Where `name` stands among the sorted files: its index if present, else
/// where it would be inserted.
fn locate(fs: &Vec<GoFile>, name: &[char]) -> (r: (usize, bool))
    requires
        forall|i: int, j: int| 0 <= i < j < fs@.len() ==> lex_lt(fs@[i].name@, fs@[j].name@),
    ensures
        r.0 <= fs@.len(),
        forall|j: int| 0 <= j < r.0 ==> lex_lt(fs@[j].name@, name@),
        r.1 ==> r.0 < fs@.len() && fs@[r.0 as int].name@ == name@,
        !r.1 ==> forall|j: int| r.0 <= j < fs@.len() ==> lex_lt(name@, fs@[j].name@),
{
    let mut i: usize = 0;
    while i < fs.len()
        invariant
            i <= fs@.len(),
            forall|i: int, j: int| 0 <= i < j < fs@.len() ==> lex_lt(fs@[i].name@, fs@[j].name@),
            forall|j: int| 0 <= j < i ==> lex_lt(fs@[j].name@, name@),
        decreases fs.len() - i,
    {
        if !lex_less(fs[i].name.as_slice(), name) {
            if crate::text::seq_eq(fs[i].name.as_slice(), name) {
                return (i, true);
            }
            proof {
                crate::text::lemma_lex_total(fs@[i as int].name@, name@);
                assert forall|j: int| i <= j < fs@.len() implies lex_lt(name@, fs@[j].name@) by {
                    if j > i {
                        crate::text::lemma_lex_transitive(name@, fs@[i as int].name@, fs@[j].name@);
                    }
                }
            }
            return (i, false);
        }
        i += 1;
    }
    (i, false)
}

fn range_error(s: i32, e: i32) -> (r: ParseError)
    ensures
        r matches ParseError::GoCoverprofile(m) && m@ == range_message(s as int, e as int),
{
    let mut out: Vec<char> = Vec::new();
    push_str(&mut out, "Block range ");
    let a = signed_decimal_digits(s as i64);
    push_all(&mut out, a.as_slice());
    push_str(&mut out, "..");
    let b = signed_decimal_digits(e as i64);
    push_all(&mut out, b.as_slice());
    push_str(&mut out, " is not a plausible source line range (line numbers must be 1..=2000000)");
    ParseError::GoCoverprofile(string_from_chars(out.as_slice()))
}

fn go_error(msg: &str) -> (r: ParseError)
    ensures
        r matches ParseError::GoCoverprofile(m) && m@ == msg@,
{
    ParseError::GoCoverprofile(crate::text::owned(msg))
}

/// Reads one line of a profile into the accumulated files.
fn go_step(
    line: &[char],
    fs: &mut Vec<GoFile>,
    has_mode: &mut bool,
    expanded: &mut usize,
    Ghost(st): Ghost<GoModel>,
) -> (r: Result<(), ParseError>)
    requires
        state_inv(old(fs)@, *old(has_mode), *old(expanded), st),
    ensures
        match go_apply(st, line@) {
            Ok(st2) => r is Ok && state_inv(final(fs)@, *final(has_mode), *final(expanded), st2),
            Err(Some((s, e))) => r matches Err(ParseError::GoCoverprofile(m)) && m@ == range_message(s, e),
            Err(None) => r matches Err(ParseError::GoCoverprofile(m)) && m@ == too_many_message(),
        },
{
    let t = trimmed(line);
    if t.len() == 0 {
        return Ok(());
    }
    if starts_with_str(t.as_slice(), "mode:") {
        *has_mode = true;
        return Ok(());
    }
    let (name, s, e, c) = match parse_block(t.as_slice()) {
        Some(b) => b,
        None => return Ok(()),
    };
    if s < 1 || e < s || e > MAX_LINE_NUMBER {
        return Err(range_error(s, e));
    }
    let span: usize = (e - s + 1) as usize;
    if *expanded + span > MAX_TOTAL_LINES {
        return Err(go_error("Profile expands to more than 2000000 covered lines"));
    }
    let ghost old_fs = fs@;
    let ghost old_m: Map<int, int> = if st.files.contains_key(name@) {
        st.files[name@]
    } else {
        Map::empty()
    };
    let ghost new_m = range_update(old_m, s as int, e as int, c as int);
    let ghost st2 = GoModel {
        files: st.files.insert(name@, new_m),
        has_mode: st.has_mode,
        expanded: st.expanded + (e - s + 1),
    };
    let (i, found) = locate(fs, name.as_slice());
    if found {
        let lines = merge_block(&fs[i].lines, s, e, c, Ghost(old_m));
        let ghost x = GoFile { name, lines };
        proof {
            lemma_sum_update(old_fs, i as int, GoFile { name, lines });
        }
        fs.set(i, GoFile { name, lines });
        proof {
            assert(fs@ == old_fs.update(i as int, x));
            assert forall|a: int, b: int| 0 <= a < b < fs@.len() implies lex_lt(fs@[a].name@, fs@[b].name@) by {
                assert(fs@[a].name@ == old_fs[a].name@);
                assert(fs@[b].name@ == old_fs[b].name@);
            }
            assert forall|a: int| #![trigger fs@[a]] 0 <= a < fs@.len() implies {
                &&& st2.files.contains_key(fs@[a].name@)
                &&& represents(fs@[a].lines@, st2.files[fs@[a].name@])
                &&& lines_plausible(fs@[a].lines@)
            } by {
                if a != i {
                    assert(fs@[a] == old_fs[a]);
                    if a < i {
                        assert(lex_lt(old_fs[a].name@, old_fs[i as int].name@));
                    } else {
                        assert(lex_lt(old_fs[i as int].name@, old_fs[a].name@));
                    }
                    crate::text::lemma_lex_irreflexive(name@);
                }
            }
            assert forall|n: Seq<char>| st2.files.contains_key(n) implies exists|a: int|
                #![trigger fs@[a]]
                0 <= a < fs@.len() && fs@[a].name@ == n by {
                if n == name@ {
                    assert(fs@[i as int].name@ == n);
                } else {
                    let a = choose|a: int| #![trigger old_fs[a]] 0 <= a < old_fs.len() && old_fs[a].name@ == n;
                    assert(fs@[a].name@ == n);
                }
            }
        }
    } else {
        proof {
            if st.files.contains_key(name@) {
                let a = choose|a: int| #![trigger old_fs[a]] 0 <= a < old_fs.len() && old_fs[a].name@ == name@;
                crate::text::lemma_lex_irreflexive(name@);
                if a < i {
                    assert(lex_lt(old_fs[a].name@, name@));
                } else {
                    assert(lex_lt(name@, old_fs[a].name@));
                }
            }
            assert(represents(Seq::<LineCoverage>::empty(), old_m));
        }
        let empty: Vec<LineCoverage> = Vec::new();
        let lines = merge_block(&empty, s, e, c, Ghost(old_m));
        let ghost x = GoFile { name, lines };
        proof {
            lemma_sum_insert(old_fs, i as int, GoFile { name, lines });
            old_fs.insert_ensures(i as int, x);
        }
        fs.insert(i, GoFile { name, lines });
        proof {
            assert(fs@ == old_fs.insert(i as int, x));
            assert forall|a: int, b: int| 0 <= a < b < fs@.len() implies lex_lt(fs@[a].name@, fs@[b].name@) by {
                if a < i && b < i {
                    assert(fs@[a] == old_fs[a]);
                    assert(fs@[b] == old_fs[b]);
                } else if a < i && b == i {
                    assert(fs@[a] == old_fs[a]);
                } else if a < i {
                    assert(fs@[a] == old_fs[a]);
                    assert(fs@[b] == old_fs[b - 1]);
                    crate::text::lemma_lex_transitive(old_fs[a].name@, name@, old_fs[b - 1].name@);
                } else if a == i {
                    assert(fs@[b] == old_fs[b - 1]);
                } else {
                    assert(fs@[a] == old_fs[a - 1]);
                    assert(fs@[b] == old_fs[b - 1]);
                }
            }
            assert forall|a: int| #![trigger fs@[a]] 0 <= a < fs@.len() implies {
                &&& st2.files.contains_key(fs@[a].name@)
                &&& represents(fs@[a].lines@, st2.files[fs@[a].name@])
                &&& lines_plausible(fs@[a].lines@)
            } by {
                crate::text::lemma_lex_irreflexive(name@);
                if a < i {
                    assert(fs@[a] == old_fs[a]);
                    assert(lex_lt(old_fs[a].name@, name@));
                } else if a > i {
                    assert(fs@[a] == old_fs[a - 1]);
                    assert(lex_lt(name@, old_fs[a - 1].name@));
                }
            }
            assert forall|n: Seq<char>| st2.files.contains_key(n) implies exists|a: int|
                #![trigger fs@[a]]
                0 <= a < fs@.len() && fs@[a].name@ == n by {
                if n == name@ {
                    assert(fs@[i as int].name@ == n);
                } else {
                    let a = choose|a: int| #![trigger old_fs[a]] 0 <= a < old_fs.len() && old_fs[a].name@ == n;
                    if a < i {
                        assert(fs@[a] == old_fs[a]);
                    } else {
                        assert(fs@[a + 1] == old_fs[a]);
                    }
                }
            }
        }
    }
    *expanded = *expanded + span;
    proof {
        assert(go_apply(st, line@) == Ok::<GoModel, Option<(int, int)>>(st2));
    }
    Ok(())
}

proof fn lemma_fold_err(lines: Seq<Seq<char>>, k: int)
    requires
        0 <= k <= lines.len(),
        go_fold(lines.take(k)) is Err,
    ensures
        go_fold(lines) == go_fold(lines.take(k)),
    decreases lines.len() - k,
{
    if k < lines.len() {
        assert(lines.take(k + 1).drop_last() == lines.take(k));
        lemma_fold_err(lines, k + 1);
    } else {
        assert(lines.take(k) == lines);
    }
}

proof fn lemma_totals_same(a: Seq<FileCoverage>, b: Seq<FileCoverage>)
    requires
        a.len() == b.len(),
        forall|i: int| #![trigger a[i]] 0 <= i < a.len() ==> a[i].lines@ == b[i].lines@,
    ensures
        total_lines(a) == total_lines(b),
        total_hit(a) == total_hit(b),
    decreases a.len(),
{
    if a.len() > 0 {
        assert forall|i: int| #![trigger a.drop_last()[i]] 0 <= i < a.drop_last().len() implies a.drop_last()[i].lines@
            == b.drop_last()[i].lines@ by {
            assert(a.drop_last()[i] == a[i]);
            assert(b.drop_last()[i] == b[i]);
        }
        lemma_totals_same(a.drop_last(), b.drop_last());
    }
}

/// Whether every name in `fs` begins with `pre`.
fn all_start_with(fs: &Vec<GoFile>, pre: &[char]) -> (r: bool)
    ensures
        r == forall|j: int| 0 <= j < fs@.len() ==> has_prefix(#[trigger] fs@[j].name@, pre@),
{
    let mut j: usize = 0;
    while j < fs.len()
        invariant
            j <= fs@.len(),
            forall|q: int| 0 <= q < j ==> has_prefix(#[trigger] fs@[q].name@, pre@),
        decreases fs.len() - j,
    {
        if !crate::text::starts_with(fs[j].name.as_slice(), pre) {
            return false;
        }
        j += 1;
    }
    true
}

/// The length of the longest `/`-terminated prefix of the first name that
/// every name in `fs` shares.
fn find_common_prefix(fs: &Vec<GoFile>, Ghost(names): Ghost<Set<Seq<char>>>) -> (p: usize)
    requires
        fs@.len() > 0,
        forall|n: Seq<char>| names.contains(n) <==> exists|j: int| #![trigger fs@[j]] 0 <= j < fs@.len() && fs@[j].name@ == n,
    ensures
        p <= fs@[0].name@.len(),
        common_dir_prefix(fs@[0].name@.take(p as int), names),
{
    let first = &fs[0].name;
    let mut last_valid: usize = 0;
    let mut i: usize = 0;
    let mut done = false;
    proof {
        assert(names.contains(first@));
        assert forall|n: Seq<char>| #[trigger] names.contains(n) implies has_prefix(n, first@.take(0)) by {
            assert(n.subrange(0, 0) == first@.take(0));
        }
    }
    while i < first.len() && !done
        invariant
            fs@.len() > 0,
            first@ == fs@[0].name@,
            names.contains(first@),
            forall|n: Seq<char>| names.contains(n) <==> exists|j: int| #![trigger fs@[j]] 0 <= j < fs@.len() && fs@[j].name@ == n,
            i <= first@.len(),
            last_valid <= i,
            dir_prefix_of_all(first@.take(last_valid as int), names),
            forall|q: Seq<char>| dir_prefix_of_all(q, names) && q.len() <= i ==> q.len() <= last_valid,
            done ==> forall|q: Seq<char>| dir_prefix_of_all(q, names) ==> q.len() <= last_valid,
        decreases first@.len() - i,
    {
        if first[i] == '/' {
            let pre = slice(first.as_slice(), 0, i + 1);
            if all_start_with(fs, pre.as_slice()) {
                proof {
                    assert forall|n: Seq<char>| #[trigger] names.contains(n) implies has_prefix(n, pre@) by {
                        let j = choose|j: int| #![trigger fs@[j]] 0 <= j < fs@.len() && fs@[j].name@ == n;
                        assert(has_prefix(fs@[j].name@, pre@));
                    }
                    assert(first@.take(i + 1) == pre@);
                }
                last_valid = i + 1;
            } else {
                proof {
                    assert forall|q: Seq<char>| dir_prefix_of_all(q, names) implies q.len() <= last_valid by {
                        if q.len() > i {
                            assert(has_prefix(first@, q));
                            assert forall|j: int| 0 <= j < fs@.len() implies has_prefix(#[trigger] fs@[j].name@, pre@) by {
                                let n = fs@[j].name@;
                                assert(names.contains(n));
                                assert(has_prefix(n, q));
                                assert(n.subrange(0, i + 1) == q.subrange(0, i + 1));
                                assert(q.subrange(0, i + 1) == first@.subrange(0, i + 1));
                            }
                            assert(false);
                        }
                    }
                }
                done = true;
            }
        } else {
            proof {
                assert forall|q: Seq<char>| dir_prefix_of_all(q, names) && q.len() <= i + 1 implies q.len() <= last_valid by {
                    if q.len() == i + 1 {
                        assert(has_prefix(first@, q));
                        assert(q.last() == first@[i as int]);
                    }
                }
            }
        }
        i += 1;
    }
    proof {
        assert forall|q: Seq<char>| dir_prefix_of_all(q, names) implies q.len() <= last_valid by {
            if !done {
                assert(has_prefix(first@, q));
            }
        }
    }
    last_valid
}

fn copy_lines(v: &Vec<LineCoverage>) -> (r: Vec<LineCoverage>)
    ensures
        r@ == v@,
{
    let mut r: Vec<LineCoverage> = Vec::new();
    let mut i: usize = 0;
    while i < v.len()
        invariant
            i <= v@.len(),
            r@ == v@.take(i as int),
        decreases v.len() - i,
    {
        r.push(v[i]);
        i += 1;
    }
    proof {
        assert(v@.take(i as int) == v@);
    }
    r
}

/// Parse a Go coverprofile into a report and the snapshot stored for it.
///
/// A profile without a `mode:` header, one without any block, and one with an
/// implausible block range or expanding past `MAX_TOTAL_LINES` are rejected;
/// lines that are not blocks are skipped.
pub fn parse(input: &str, meta: &IngestMeta, stamp: &SnapshotStamp) -> (r: Result<(OmnivoreReport, CoverageSnapshot), ParseError>)
    ensures
        match go_outcome(input@) {
            Err(m) => r matches Err(ParseError::GoCoverprofile(msg)) && msg@ == m,
            Ok(st) => r matches Ok((report, snap)) && go_report(report, st, *meta) && snapshot_of(
                snap,
                report,
                Some("go"@),
                *stamp,
            ),
        },
{
    let chars = chars_of(input);
    let lines = lines_of(chars.as_slice());
    let ghost all = text_lines(input@);
    let mut fs: Vec<GoFile> = Vec::new();
    let mut has_mode = false;
    let mut expanded: usize = 0;
    let ghost mut st = empty_model();
    let mut k: usize = 0;
    proof {
        assert(all.take(0).len() == 0);
    }
    while k < lines.len()
        invariant
            k <= lines@.len(),
            lines@.len() == all.len(),
            all == text_lines(input@),
            forall|q: int| 0 <= q < lines@.len() ==> #[trigger] lines@[q]@ == all[q],
            go_fold(all.take(k as int)) == Ok::<GoModel, Option<(int, int)>>(st),
            state_inv(fs@, has_mode, expanded, st),
        decreases lines.len() - k,
    {
        proof {
            assert(all.take(k + 1).drop_last() == all.take(k as int));
            assert(all.take(k + 1).last() == lines@[k as int]@);
        }
        let res = go_step(lines[k].as_slice(), &mut fs, &mut has_mode, &mut expanded, Ghost(st));
        match res {
            Err(err) => {
                proof {
                    lemma_fold_err(all, k + 1);
                }
                return Err(err);
            },
            Ok(()) => {
                proof {
                    st = go_apply(st, all[k as int])->Ok_0;
                }
            },
        }
        k += 1;
    }
    proof {
        assert(all.take(k as int) == all);
    }
    if !has_mode {
        return Err(go_error("Missing mode: header"));
    }
    if fs.len() == 0 {
        proof {
            assert(st.files.dom() == Set::<Seq<char>>::empty());
        }
        return Err(go_error("No coverage data found"));
    }
    proof {
        assert(st.files.contains_key(fs@[0].name@));
        assert(st.files.dom() != Set::<Seq<char>>::empty());
        assert(go_outcome(input@) == Ok::<GoModel, Seq<char>>(st));
    }
    let plen = find_common_prefix(&fs, Ghost(st.files.dom()));
    let ghost prefix = fs@[0].name@.take(plen as int);
    let mut out: Vec<FileCoverage> = Vec::new();
    let mut total: i64 = 0;
    let mut hit: i64 = 0;
    let mut j: usize = 0;
    while j < fs.len()
        invariant
            j <= fs@.len(),
            out@.len() == j,
            state_inv(fs@, has_mode, expanded, st),
            common_dir_prefix(prefix, st.files.dom()),
            prefix.len() == plen,
            total == total_lines(out@),
            hit == total_hit(out@),
            total_lines(out@) == sum_lens(fs@.take(j as int)),
            hit <= total,
            forall|q: int|
                #![trigger out@[q]]
                0 <= q < j ==> {
                    let f = out@[q];
                    &&& prefix + f.path@ == fs@[q].name@
                    &&& f.lines@ == fs@[q].lines@
                    &&& f.line_rate == Rate::Ratio { covered: hit_lines(f.lines@) as i64, total: f.lines@.len() as i64 }
                    &&& f.branch_rate == Rate::Ratio { covered: 0, total: 0 }
                    &&& f.branches_covered == 0 && f.branches_total == 0
                    &&& f.source_content is None
                },
        decreases fs.len() - j,
    {
        let f = &fs[j];
        proof {
            assert(st.files.dom().contains(f.name@));
            assert(has_prefix(f.name@, prefix));
            lemma_sum_take(fs@, j + 1);
            assert(fs@.take(j + 1).drop_last() == fs@.take(j as int));
            crate::coverage::model::lemma_hit_le(f.lines@);
        }
        let rel = slice(f.name.as_slice(), plen, f.name.len());
        proof {
            assert(prefix + rel@ == f.name@);
        }
        let path = string_from_chars(rel.as_slice());
        let lines = copy_lines(&f.lines);
        let fh = count_hits(&lines);
        let n = lines.len() as i64;
        let ghost before = out@;
        out.push(
            FileCoverage {
                path,
                line_rate: Rate::Ratio { covered: fh, total: n },
                branch_rate: Rate::Ratio { covered: 0, total: 0 },
                lines,
                branches_covered: 0,
                branches_total: 0,
                source_content: None,
            },
        );
        proof {
            assert(out@.drop_last() == before);
        }
        total = total + n;
        hit = hit + fh;
        j += 1;
    }
    proof {
        assert(fs@.take(j as int) == fs@);
        assert forall|a: int, b: int| 0 <= a < b < out@.len() implies lex_lt(prefix + out@[a].path@, prefix + out@[b].path@) by {
            assert(prefix + out@[a].path@ == fs@[a].name@);
            assert(prefix + out@[b].path@ == fs@[b].name@);
        }
        assert forall|nm: Seq<char>| st.files.contains_key(nm) implies exists|i: int|
            #![trigger out@[i]]
            0 <= i < out@.len() && prefix + out@[i].path@ == nm by {
            let a = choose|a: int| #![trigger fs@[a]] 0 <= a < fs@.len() && fs@[a].name@ == nm;
            assert(prefix + out@[a].path@ == nm);
        }
        assert forall|a: int| #![trigger out@[a]] 0 <= a < out@.len() implies lines_plausible(out@[a].lines@) by {
            assert(lines_plausible(fs@[a].lines@));
        }
        assert(go_files(out@, st, prefix));
    }
    let mut report = OmnivoreReport {
        version: crate::text::owned("0.1.0"),
        format: crate::text::owned("go-coverprofile"),
        project: meta_project(meta, "go-project", "go import", CoverageTarget::GoCover, source::GO),
        coverage: CoverageSummary {
            line_rate: Rate::Ratio { covered: hit, total },
            branch_rate: Rate::Ratio { covered: 0, total: 0 },
            lines_covered: hit,
            lines_total: total,
            branches_covered: 0,
            branches_total: 0,
        },
        files: out,
        dependencies: None,
    };
    let ghost before = report.files@;
    let snap = CoverageSnapshot::from_report(&mut report, Some(source::GO), stamp);
    proof {
        let after = report.files@;
        assert forall|a: int| #![trigger before[a]] 0 <= a < before.len() implies before[a].lines@ == after[a].lines@ by {
            assert(lines_plausible(before[a].lines@));
            lemma_all_plausible(before[a].lines@);
        }
        lemma_totals_same(before, after);
        assert forall|a: int, b: int| 0 <= a < b < after.len() implies lex_lt(prefix + after[a].path@, prefix + after[b].path@) by {
            assert(after[a].path == before[a].path);
            assert(after[b].path == before[b].path);
        }
        assert forall|a: int| #![trigger after[a]] 0 <= a < after.len() implies {
            let f = after[a];
            &&& st.files.contains_key(prefix + f.path@)
            &&& represents(f.lines@, st.files[prefix + f.path@])
            &&& f.line_rate == Rate::Ratio { covered: hit_lines(f.lines@) as i64, total: f.lines@.len() as i64 }
            &&& f.branch_rate == Rate::Ratio { covered: 0, total: 0 }
            &&& f.branches_covered == 0 && f.branches_total == 0
            &&& f.source_content is None
        } by {
            assert(before[a].lines@ == after[a].lines@);
        }
        assert forall|nm: Seq<char>| st.files.contains_key(nm) implies exists|i: int|
            #![trigger after[i]]
            0 <= i < after.len() && prefix + after[i].path@ == nm by {
            let a = choose|a: int| #![trigger before[a]] 0 <= a < before.len() && prefix + before[a].path@ == nm;
            assert(after[a].path == before[a].path);
        }
        assert(go_files(after, st, prefix));
    }
    Ok((report, snap))
}

/// The block a profile line describes, if it is one: neither blank nor the
/// `mode:` header.
pub open spec fn block_of(l: Seq<char>) -> Option<(Seq<char>, int, int, int)> {
    let t = trim(l);
    if t.len() == 0 || has_prefix(t, "mode:"@) {
        None
    } else {
        go_block(t)
    }
}

/// Every line the block `b` covers is recorded for its file with at least
/// the block's count.
pub open spec fn counts_at_least(st: GoModel, b: (Seq<char>, int, int, int)) -> bool {
    &&& st.files.contains_key(b.0)
    &&& forall|n: int|
        #![trigger st.files[b.0][n]]
        #![trigger st.files[b.0].contains_key(n)]
        b.1 <= n <= b.2 ==> st.files[b.0].contains_key(n) && st.files[b.0][n] >= b.3
}

/// No recorded line counts below zero.
pub open spec fn counts_nonnegative(st: GoModel) -> bool {
    forall|f: Seq<char>, n: int|
        #![trigger st.files[f][n]]
        st.files.contains_key(f) && st.files[f].contains_key(n) ==> st.files[f][n] >= 0
}

/// Overlapping blocks take the maximum count: once a profile has been read,
/// every line a block of it covers counts at least that block's count, so a
/// later block with a smaller count (or a repeat with count 0) never erases
/// earlier hits; and no line counts below zero.
pub proof fn lemma_profile_counts_at_least_blocks(lines: Seq<Seq<char>>)
    requires
        go_fold(lines) is Ok,
    ensures
        counts_nonnegative(go_fold(lines)->Ok_0),
        forall|k: int|
            0 <= k < lines.len() && #[trigger] block_of(lines[k]) is Some ==> counts_at_least(
                go_fold(lines)->Ok_0,
                block_of(lines[k])->Some_0,
            ),
    decreases lines.len(),
{
    if lines.len() > 0 {
        let front = lines.drop_last();
        let l = lines.last();
        assert(l == lines[lines.len() - 1]);
        lemma_profile_counts_at_least_blocks(front);
        let st = go_fold(front)->Ok_0;
        let nx = go_fold(lines)->Ok_0;
        let t = trim(l);
        if t.len() == 0 || has_prefix(t, "mode:"@) || go_block(t) is None {
            assert(nx.files == st.files);
            assert forall|k: int| 0 <= k < lines.len() && #[trigger] block_of(lines[k]) is Some implies counts_at_least(
                nx,
                block_of(lines[k])->Some_0,
            ) by {
                if k < front.len() {
                    assert(lines[k] == front[k]);
                    assert(block_of(front[k]) is Some);
                    assert(counts_at_least(st, block_of(front[k])->Some_0));
                    let b = block_of(lines[k])->Some_0;
                    assert(nx.files[b.0] == st.files[b.0]);
                    assert forall|n: int| b.1 <= n <= b.2 implies nx.files[b.0].contains_key(n) && #[trigger] nx.files[b.0][n]
                        >= b.3 by {
                        assert(st.files[b.0][n] >= b.3);
                    }
                } else {
                    assert(lines[k] == l);
                    assert(block_of(l) is None);
                }
            }
        } else {
            let (file, s, e, c) = go_block(t)->Some_0;
            let old = if st.files.contains_key(file) { st.files[file] } else { Map::<int, int>::empty() };
            lemma_block_takes_max(old, s, e, c);
            let nm = range_update(old, s, e, c);
            assert(nx.files == st.files.insert(file, nm));
            assert forall|f: Seq<char>, n: int|
                #![trigger nx.files[f][n]]
                nx.files.contains_key(f) && nx.files[f].contains_key(n) implies nx.files[f][n] >= 0 by {
                if f == file {
                    if s <= n <= e {
                        if old.contains_key(n) {
                            assert(st.files[f][n] >= 0);
                        }
                    } else {
                        assert(st.files[f][n] >= 0);
                    }
                } else {
                    assert(st.files[f][n] >= 0);
                }
            }
            assert forall|k: int| 0 <= k < lines.len() && #[trigger] block_of(lines[k]) is Some implies counts_at_least(
                nx,
                block_of(lines[k])->Some_0,
            ) by {
                let b = block_of(lines[k])->Some_0;
                if k < front.len() {
                    assert(lines[k] == front[k]);
                    assert(block_of(front[k]) is Some);
                    assert(counts_at_least(st, b));
                    assert(nx.files.contains_key(b.0));
                    assert forall|n: int| b.1 <= n <= b.2 implies nx.files[b.0].contains_key(n) && #[trigger] nx.files[b.0][n]
                        >= b.3 by {
                        assert(st.files[b.0].contains_key(n));
                        assert(st.files[b.0][n] >= b.3);
                        if b.0 == file {
                            assert(old == st.files[file]);
                            assert(old.contains_key(n));
                        }
                    }
                } else {
                    assert(lines[k] == l);
                    assert(b == (file, s, e, c));
                    assert(nx.files.contains_key(b.0));
                    assert forall|n: int| b.1 <= n <= b.2 implies nx.files[b.0].contains_key(n) && #[trigger] nx.files[b.0][n]
                        >= b.3 by {
                        assert(nm.contains_key(n));
                    }
                }
            }
        }
    }
}

/// `v`, the count recorded for line `n` of file `f`, comes from the
/// profile: it is 0 or the count of a block among `lines` covering that line.
pub open spec fn count_from_blocks(lines: Seq<Seq<char>>, f: Seq<char>, n: int, v: int) -> bool {
    v == 0 || exists|k: int| 0 <= k < lines.len() && #[trigger] block_gives(lines[k], f, n, v)
}

/// Profile line `l` is a block of file `f` covering line `n` with count `v`.
pub open spec fn block_gives(l: Seq<char>, f: Seq<char>, n: int, v: int) -> bool {
    match block_of(l) {
        Some(b) => b.0 == f && b.1 <= n <= b.2 && b.3 == v,
        None => false,
    }
}

/// Counts are never invented or added up: every recorded count is 0 or the
/// count of one block covering the line, so with the bound below it is the
/// largest count of the blocks covering the line (or 0).
pub proof fn lemma_profile_counts_come_from_blocks(lines: Seq<Seq<char>>)
    requires
        go_fold(lines) is Ok,
    ensures
        forall|f: Seq<char>, n: int|
            #![trigger go_fold(lines)->Ok_0.files[f][n]]
            go_fold(lines)->Ok_0.files.contains_key(f) && go_fold(lines)->Ok_0.files[f].contains_key(n)
                ==> count_from_blocks(lines, f, n, go_fold(lines)->Ok_0.files[f][n]),
    decreases lines.len(),
{
    if lines.len() > 0 {
        let front = lines.drop_last();
        let l = lines.last();
        assert(l == lines[lines.len() - 1]);
        lemma_profile_counts_come_from_blocks(front);
        let st = go_fold(front)->Ok_0;
        let nx = go_fold(lines)->Ok_0;
        let t = trim(l);
        assert forall|f: Seq<char>, n: int, v: int| count_from_blocks(front, f, n, v) implies count_from_blocks(
            lines,
            f,
            n,
            v,
        ) by {
            if v != 0 {
                let k = choose|k: int| 0 <= k < front.len() && #[trigger] block_gives(front[k], f, n, v);
                assert(lines[k] == front[k]);
                assert(block_gives(lines[k], f, n, v));
            }
        }
        if t.len() == 0 || has_prefix(t, "mode:"@) || go_block(t) is None {
            assert(nx.files == st.files);
            assert forall|f: Seq<char>, n: int|
                #![trigger nx.files[f][n]]
                nx.files.contains_key(f) && nx.files[f].contains_key(n) implies count_from_blocks(
                lines,
                f,
                n,
                nx.files[f][n],
            ) by {
                assert(count_from_blocks(front, f, n, st.files[f][n]));
            }
        } else {
            let (file, s, e, c) = go_block(t)->Some_0;
            let old = if st.files.contains_key(file) { st.files[file] } else { Map::<int, int>::empty() };
            lemma_block_takes_max(old, s, e, c);
            let nm = range_update(old, s, e, c);
            assert(nx.files == st.files.insert(file, nm));
            assert(block_of(lines[lines.len() - 1]) == Some((file, s, e, c)));
            assert forall|f: Seq<char>, n: int|
                #![trigger nx.files[f][n]]
                nx.files.contains_key(f) && nx.files[f].contains_key(n) implies count_from_blocks(
                lines,
                f,
                n,
                nx.files[f][n],
            ) by {
                if f == file && s <= n <= e && nx.files[f][n] == c {
                    let k = lines.len() - 1;
                    assert(block_of(lines[k]) == Some((file, s, e, c)));
                    assert(block_gives(lines[k], f, n, c));
                } else if f == file && s <= n <= e {
                    if old.contains_key(n) {
                        assert(st.files[f][n] == nx.files[f][n]);
                        assert(count_from_blocks(front, f, n, st.files[f][n]));
                    }
                } else if f == file {
                    assert(nx.files[f][n] == st.files[f][n]);
                    assert(count_from_blocks(front, f, n, st.files[f][n]));
                } else {
                    assert(nx.files[f][n] == st.files[f][n]);
                    assert(count_from_blocks(front, f, n, st.files[f][n]));
                }
            }
        }
    }
}

/// Of a whole profile accepted by `parse`: every line a block covers counts
/// at least that block's count, none counts below zero, and every count is 0
/// or the count of a block covering the line: the largest of them.
pub proof fn lemma_accepted_profile_counts(input: Seq<char>)
    requires
        go_outcome(input) is Ok,
    ensures
        counts_nonnegative(go_outcome(input)->Ok_0),
        forall|k: int|
            0 <= k < text_lines(input).len() && #[trigger] block_of(text_lines(input)[k]) is Some ==> counts_at_least(
                go_outcome(input)->Ok_0,
                block_of(text_lines(input)[k])->Some_0,
            ),
        forall|f: Seq<char>, n: int|
            #![trigger go_outcome(input)->Ok_0.files[f][n]]
            go_outcome(input)->Ok_0.files.contains_key(f) && go_outcome(input)->Ok_0.files[f].contains_key(n)
                ==> count_from_blocks(text_lines(input), f, n, go_outcome(input)->Ok_0.files[f][n]),
{
    lemma_profile_counts_at_least_blocks(text_lines(input));
    lemma_profile_counts_come_from_blocks(text_lines(input));
}

} // verus!
