//! The normalized coverage model shared by every input format.
//!
//! Rates are kept exact: a rate is either the ratio of two counts, or, when a
//! producer reports the rate itself, that reported value carried through
//! unchanged as its IEEE-754 bit pattern. Converting to a floating-point
//! number is left to the presentation layer.

use vstd::prelude::*;

use crate::coverage::source;
use crate::ids::{new_uuid, uuid_hyphenated, uuid_v4_bytes};
use crate::text::{chars_of, eq_str, owned, to_ascii_uppercase, trimmed, ascii_upper, trim, trim_start};

verus! {

/// The largest line number any real source file can plausibly have.
///
/// A line number outside `1..=MAX_LINE_NUMBER` is malformed or hostile: the
/// file page renders one row per line up to the highest line it sees, so an
/// unbounded line number turns every later read of that page into a huge
/// allocation.
pub const MAX_LINE_NUMBER: i32 = 2_000_000;

/// Where and how the measured code ran.
#[derive(Debug, Clone, Copy, PartialEq, Eq, Structural)]
pub enum CoverageTarget {
    JvmUnit,
    AndroidInstrumented,
    IosUnit,
    KotlinNative,
    Composite,
    RustLlvmCov,
    GoCover,
    PythonCoverage,
    Lcov,
}

/// The canonical `SCREAMING_SNAKE_CASE` name of a target.
pub open spec fn target_name(t: CoverageTarget) -> Seq<char> {
    match t {
        CoverageTarget::JvmUnit => "JVM_UNIT"@,
        CoverageTarget::AndroidInstrumented => "ANDROID_INSTRUMENTED"@,
        CoverageTarget::IosUnit => "IOS_UNIT"@,
        CoverageTarget::KotlinNative => "KOTLIN_NATIVE"@,
        CoverageTarget::Composite => "COMPOSITE"@,
        CoverageTarget::RustLlvmCov => "RUST_LLVM_COV"@,
        CoverageTarget::GoCover => "GO_COVER"@,
        CoverageTarget::PythonCoverage => "PYTHON_COVERAGE"@,
        CoverageTarget::Lcov => "LCOV"@,
    }
}

/// The target a normalized (upper-case, `_`-separated) name denotes.
pub open spec fn target_from_name(n: Seq<char>) -> Option<CoverageTarget> {
    if n == "JVM_UNIT"@ || n == "JVMUNIT"@ {
        Some(CoverageTarget::JvmUnit)
    } else if n == "ANDROID_INSTRUMENTED"@ || n == "ANDROIDINSTRUMENTED"@ {
        Some(CoverageTarget::AndroidInstrumented)
    } else if n == "IOS_UNIT"@ || n == "IOSUNIT"@ {
        Some(CoverageTarget::IosUnit)
    } else if n == "KOTLIN_NATIVE"@ || n == "KOTLINNATIVE"@ {
        Some(CoverageTarget::KotlinNative)
    } else if n == "COMPOSITE"@ {
        Some(CoverageTarget::Composite)
    } else if n == "RUST_LLVM_COV"@ || n == "RUSTLLVMCOV"@ {
        Some(CoverageTarget::RustLlvmCov)
    } else if n == "GO_COVER"@ || n == "GOCOVER"@ {
        Some(CoverageTarget::GoCover)
    } else if n == "PYTHON_COVERAGE"@ || n == "PYTHONCOVERAGE"@ {
        Some(CoverageTarget::PythonCoverage)
    } else if n == "LCOV"@ {
        Some(CoverageTarget::Lcov)
    } else {
        None
    }
}

/// `s` with every `-` replaced by `_`.
pub open spec fn dashes_to_underscores(s: Seq<char>) -> Seq<char> {
    s.map_values(|c: char| if c == '-' { '_' } else { c })
}

/// How `from_str_loose` normalizes its input before matching.
pub open spec fn normalized_target_name(s: Seq<char>) -> Seq<char> {
    dashes_to_underscores(ascii_upper(trim(s)))
}

impl CoverageTarget {
    /// Canonical `SCREAMING_SNAKE_CASE` string, as persisted and compared.
    pub fn as_str(&self) -> (s: &'static str)
        ensures
            s@ == target_name(*self),
    {
        match self {
            CoverageTarget::JvmUnit => "JVM_UNIT",
            CoverageTarget::AndroidInstrumented => "ANDROID_INSTRUMENTED",
            CoverageTarget::IosUnit => "IOS_UNIT",
            CoverageTarget::KotlinNative => "KOTLIN_NATIVE",
            CoverageTarget::Composite => "COMPOSITE",
            CoverageTarget::RustLlvmCov => "RUST_LLVM_COV",
            CoverageTarget::GoCover => "GO_COVER",
            CoverageTarget::PythonCoverage => "PYTHON_COVERAGE",
            CoverageTarget::Lcov => "LCOV",
        }
    }

    /// Parse a target from a user-supplied string: surrounding whitespace is
    /// ignored, case is ignored, and `-` stands for `_`; both the canonical and
    /// the PascalCase spelling are accepted.
    pub fn from_str_loose(s: &str) -> (r: Option<CoverageTarget>)
        ensures
            r == target_from_name(normalized_target_name(s@)),
    {
        let t = trimmed(chars_of(s).as_slice());
        let up = to_ascii_uppercase(t.as_slice());
        let mut n: Vec<char> = Vec::new();
        let mut i: usize = 0;
        while i < up.len()
            invariant
                i <= up.len(),
                n@ == dashes_to_underscores(up@.take(i as int)),
            decreases up.len() - i,
        {
            let c = up[i];
            n.push(if c == '-' { '_' } else { c });
            proof {
                assert(up@.take(i + 1) == up@.take(i as int).push(c));
            }
            i += 1;
        }
        proof {
            assert(up@.take(i as int) == up@);
        }
        let n = n.as_slice();
        if eq_str(n, "JVM_UNIT") || eq_str(n, "JVMUNIT") {
            Some(CoverageTarget::JvmUnit)
        } else if eq_str(n, "ANDROID_INSTRUMENTED") || eq_str(n, "ANDROIDINSTRUMENTED") {
            Some(CoverageTarget::AndroidInstrumented)
        } else if eq_str(n, "IOS_UNIT") || eq_str(n, "IOSUNIT") {
            Some(CoverageTarget::IosUnit)
        } else if eq_str(n, "KOTLIN_NATIVE") || eq_str(n, "KOTLINNATIVE") {
            Some(CoverageTarget::KotlinNative)
        } else if eq_str(n, "COMPOSITE") {
            Some(CoverageTarget::Composite)
        } else if eq_str(n, "RUST_LLVM_COV") || eq_str(n, "RUSTLLVMCOV") {
            Some(CoverageTarget::RustLlvmCov)
        } else if eq_str(n, "GO_COVER") || eq_str(n, "GOCOVER") {
            Some(CoverageTarget::GoCover)
        } else if eq_str(n, "PYTHON_COVERAGE") || eq_str(n, "PYTHONCOVERAGE") {
            Some(CoverageTarget::PythonCoverage)
        } else if eq_str(n, "LCOV") {
            Some(CoverageTarget::Lcov)
        } else {
            None
        }
    }
}

/// A coverage rate, kept exact.
#[derive(Debug, Clone, Copy, PartialEq, Eq, Structural)]
pub enum Rate {
    /// `covered / total`, or zero when `total` is not positive.
    Ratio { covered: i64, total: i64 },
    /// A rate the producer reported itself, as the bits of the reported `f64`.
    Reported { bits: u64 },
}

impl Rate {
    pub fn ratio(covered: i64, total: i64) -> (r: Rate)
        ensures
            r == (Rate::Ratio { covered, total }),
    {
        Rate::Ratio { covered, total }
    }

    /// The zero rate (`0 / 0`).
    pub fn zero() -> (r: Rate)
        ensures
            r == (Rate::Ratio { covered: 0, total: 0 }),
    {
        Rate::Ratio { covered: 0, total: 0 }
    }
}

/// Execution count of one source line.
#[derive(Debug, Clone, Copy, PartialEq, Eq, Structural)]
pub struct LineCoverage {
    pub line_number: i32,
    pub hit_count: i64,
}

/// Coverage of one source file.
#[derive(Debug, Clone, PartialEq)]
pub struct FileCoverage {
    pub path: String,
    pub line_rate: Rate,
    pub branch_rate: Rate,
    pub lines: Vec<LineCoverage>,
    /// Branch edges covered and total in this file. Zero totals mean the
    /// format carries no branch data for the file.
    pub branches_covered: i64,
    pub branches_total: i64,
    pub source_content: Option<String>,
}

/// Project-wide totals.
#[derive(Debug, Clone, Copy, PartialEq, Eq, Structural)]
pub struct CoverageSummary {
    pub line_rate: Rate,
    pub branch_rate: Rate,
    pub lines_covered: i64,
    pub lines_total: i64,
    pub branches_covered: i64,
    pub branches_total: i64,
}

#[derive(Debug, Clone, PartialEq)]
pub struct ProjectInfo {
    pub id: String,
    pub name: String,
    pub commit_sha: Option<String>,
    pub branch: Option<String>,
    pub target: CoverageTarget,
    /// Which tool produced this report; the Omnivore agent when absent.
    pub source: Option<String>,
}

#[derive(Debug, Clone, Copy, PartialEq, Eq, Structural)]
pub enum ModuleType {
    Internal,
    External,
}

#[derive(Debug, Clone, PartialEq)]
pub struct ModuleNode {
    pub id: String,
    pub name: String,
    pub module_type: ModuleType,
    pub group: Option<String>,
    pub version: Option<String>,
}

#[derive(Debug, Clone, PartialEq)]
pub struct ModuleEdge {
    pub from: String,
    pub to: String,
    pub configuration: String,
}

#[derive(Debug, Clone, PartialEq)]
pub struct DependencyGraph {
    pub modules: Vec<ModuleNode>,
    pub edges: Vec<ModuleEdge>,
}

/// A normalized coverage report.
#[derive(Debug, Clone, PartialEq)]
pub struct OmnivoreReport {
    pub version: String,
    pub format: String,
    pub project: ProjectInfo,
    pub coverage: CoverageSummary,
    pub files: Vec<FileCoverage>,
    pub dependencies: Option<DependencyGraph>,
}

/// A line record that can describe a real source line.
pub open spec fn plausible(l: LineCoverage) -> bool {
    1 <= l.line_number <= MAX_LINE_NUMBER
}

/// The plausible line records of `s`, in order.
pub open spec fn plausible_lines(s: Seq<LineCoverage>) -> Seq<LineCoverage> {
    s.filter(|l: LineCoverage| plausible(l))
}

/// Total number of line records over `files`.
pub open spec fn total_lines(files: Seq<FileCoverage>) -> nat
    decreases files.len(),
{
    if files.len() == 0 {
        0
    } else {
        total_lines(files.drop_last()) + files.last().lines@.len()
    }
}

/// Total number of plausible line records over `files`.
pub open spec fn total_plausible(files: Seq<FileCoverage>) -> nat
    decreases files.len(),
{
    if files.len() == 0 {
        0
    } else {
        total_plausible(files.drop_last()) + plausible_lines(files.last().lines@).len()
    }
}

/// Sum of per-file branch counts.
pub open spec fn sum_branches(files: Seq<FileCoverage>, covered: bool) -> int
    decreases files.len(),
{
    if files.len() == 0 {
        0
    } else {
        sum_branches(files.drop_last(), covered) + if covered {
            files.last().branches_covered as int
        } else {
            files.last().branches_total as int
        }
    }
}

/// Every running branch sum over `files` fits in an `i64`.
pub open spec fn branch_sums_fit(files: Seq<FileCoverage>) -> bool {
    forall|i: int|
        0 <= i <= files.len() ==> i64::MIN <= #[trigger] sum_branches(files.take(i), true) <= i64::MAX
            && i64::MIN <= sum_branches(files.take(i), false) <= i64::MAX
}

proof fn lemma_plausible_step(s: Seq<LineCoverage>, i: int)
    requires
        0 <= i < s.len(),
    ensures
        plausible_lines(s.take(i + 1)) == if plausible(s[i]) {
            plausible_lines(s.take(i)).push(s[i])
        } else {
            plausible_lines(s.take(i))
        },
{
    assert(s.take(i + 1).drop_last() == s.take(i));
    reveal_with_fuel(Seq::<_>::filter, 1);
}

proof fn lemma_plausible_len(s: Seq<LineCoverage>)
    ensures
        plausible_lines(s).len() <= s.len(),
    decreases s.len(),
{
    reveal_with_fuel(Seq::<_>::filter, 1);
    if s.len() > 0 {
        lemma_plausible_len(s.drop_last());
    }
}

pub proof fn lemma_total_lines_grows(files: Seq<FileCoverage>, i: int)
    requires
        0 <= i <= files.len(),
    ensures
        total_lines(files.take(i)) <= total_lines(files),
        total_plausible(files.take(i)) <= total_plausible(files),
    decreases files.len() - i,
{
    if i < files.len() {
        assert(files.take(i + 1).drop_last() == files.take(i));
        lemma_total_lines_grows(files, i + 1);
    } else {
        assert(files.take(i) == files);
    }
}

proof fn lemma_total_plausible_le(files: Seq<FileCoverage>)
    ensures
        total_plausible(files) <= total_lines(files),
    decreases files.len(),
{
    if files.len() > 0 {
        lemma_total_plausible_le(files.drop_last());
        lemma_plausible_len(files.last().lines@);
    }
}

/// Keeps the plausible line records of `lines`.
pub fn keep_plausible(lines: &Vec<LineCoverage>) -> (r: Vec<LineCoverage>)
    ensures
        r@ == plausible_lines(lines@),
{
    let mut out: Vec<LineCoverage> = Vec::new();
    let mut i: usize = 0;
    while i < lines.len()
        invariant
            i <= lines.len(),
            out@ == plausible_lines(lines@.take(i as int)),
        decreases lines.len() - i,
    {
        let l = lines[i];
        proof {
            lemma_plausible_step(lines@, i as int);
        }
        if 1 <= l.line_number && l.line_number <= MAX_LINE_NUMBER {
            out.push(l);
        }
        i += 1;
    }
    proof {
        assert(lines@.take(i as int) == lines@);
    }
    out
}

/// `m` after a block covering `s..=e` with count `c`: each covered line takes
/// the larger of its current count (zero if new) and `c`.
pub open spec fn range_update(m: Map<int, int>, s: int, e: int, c: int) -> Map<int, int> {
    Map::new(
        |ln: int| m.contains_key(ln) || (s <= ln <= e),
        |ln: int|
            if s <= ln <= e {
                let old = if m.contains_key(ln) { m[ln] } else { 0 };
                if c > old { c } else { old }
            } else {
                m[ln]
            },
    )
}

/// Overlapping blocks take the larger count: after a block covering `s..=e`
/// with count `c`, each line it covers counts at least `c` and at least what
/// it counted before (zero for a new line), and is one of the two; every
/// other line keeps its count, and no line is lost.
pub proof fn lemma_block_takes_max(m: Map<int, int>, s: int, e: int, c: int)
    ensures
        forall|ln: int| #[trigger] range_update(m, s, e, c).contains_key(ln) <==> (m.contains_key(ln) || s <= ln <= e),
        forall|ln: int|
            s <= ln <= e ==> {
                let old = if m.contains_key(ln) { m[ln] } else { 0 };
                &&& #[trigger] range_update(m, s, e, c)[ln] >= c
                &&& range_update(m, s, e, c)[ln] >= old
                &&& (range_update(m, s, e, c)[ln] == c || range_update(m, s, e, c)[ln] == old)
            },
        forall|ln: int|
            m.contains_key(ln) && !(s <= ln <= e) ==> #[trigger] range_update(m, s, e, c)[ln] == m[ln],
{
}

/// `v` lists the lines of `m` in increasing order with their counts.
pub open spec fn represents(v: Seq<LineCoverage>, m: Map<int, int>) -> bool {
    &&& forall|i: int, j: int| 0 <= i < j < v.len() ==> v[i].line_number < v[j].line_number
    &&& forall|i: int| 0 <= i < v.len() ==> m.contains_key(#[trigger] v[i].line_number as int)
        && m[v[i].line_number as int] == v[i].hit_count
    &&& forall|ln: int| m.contains_key(ln) ==> exists|i: int| 0 <= i < v.len() && #[trigger] v[i].line_number == ln
}

/// Every record of `v` names a plausible line.
pub open spec fn lines_plausible(v: Seq<LineCoverage>) -> bool {
    forall|i: int| 0 <= i < v.len() ==> plausible(#[trigger] v[i])
}

/// `r` lists, in increasing order, exactly the lines of `m` below `b`, each
/// with its count.
pub open spec fn lists_below(r: Seq<LineCoverage>, m: Map<int, int>, b: int) -> bool {
    &&& forall|i: int, j: int| 0 <= i < j < r.len() ==> r[i].line_number < r[j].line_number
    &&& forall|i: int|
        #![trigger r[i]]
        0 <= i < r.len() ==> r[i].line_number < b && m.contains_key(r[i].line_number as int)
            && m[r[i].line_number as int] == r[i].hit_count
    &&& forall|ln: int|
        m.contains_key(ln) && ln < b ==> exists|i: int| #![trigger r[i]] 0 <= i < r.len() && r[i].line_number == ln
}

/// The lines of `v` with a block `s..=e` of count `c` merged in.
pub fn merge_block(v: &Vec<LineCoverage>, s: i32, e: i32, c: i64, Ghost(m): Ghost<Map<int, int>>) -> (r: Vec<LineCoverage>)
    requires
        represents(v@, m),
        s <= e < i32::MAX,
    ensures
        represents(r@, range_update(m, s as int, e as int, c as int)),
        lines_plausible(v@) && 1 <= s && e <= MAX_LINE_NUMBER ==> lines_plausible(r@),
        r@.len() <= v@.len() + (e - s + 1),
{
    let ghost t = range_update(m, s as int, e as int, c as int);
    let mut r: Vec<LineCoverage> = Vec::new();
    let mut k: usize = 0;
    while k < v.len() && v[k].line_number < s
        invariant
            k <= v.len(),
            r@ == v@.take(k as int),
            forall|j: int| 0 <= j < k ==> v@[j].line_number < s,
        decreases v.len() - k,
    {
        r.push(v[k]);
        k += 1;
    }
    proof {
        assert forall|ln: int| t.contains_key(ln) && ln < s implies exists|i: int|
            #![trigger r@[i]]
            0 <= i < r@.len() && r@[i].line_number == ln by {
            assert(m.contains_key(ln));
            let j = choose|j: int| 0 <= j < v@.len() && #[trigger] v@[j].line_number == ln;
            if j >= k {
                assert(v@[k as int].line_number >= s);
                assert(v@[k as int].line_number <= v@[j].line_number);
            }
            assert(r@[j] == v@[j]);
        }
        assert(lists_below(r@, t, s as int));
    }
    let mut ln: i64 = s as i64;
    while ln <= e as i64
        invariant
            represents(v@, m),
            s <= e < i32::MAX,
            t == range_update(m, s as int, e as int, c as int),
            s <= ln <= e + 1,
            k <= v.len(),
            lists_below(r@, t, ln as int),
            lines_plausible(v@) && 1 <= s && e <= MAX_LINE_NUMBER ==> lines_plausible(r@),
            forall|j: int| 0 <= j < k ==> v@[j].line_number < ln,
            forall|j: int| k <= j < v@.len() ==> v@[j].line_number >= ln,
            r@.len() <= k + (ln - s),
        decreases e + 1 - ln,
    {
        let ghost before = r@;
        if k < v.len() && v[k].line_number as i64 == ln {
            let old = v[k].hit_count;
            proof {
                assert(m.contains_key(ln as int));
                assert(m[ln as int] == old);
            }
            r.push(LineCoverage { line_number: ln as i32, hit_count: if c > old { c } else { old } });
            proof {
                assert forall|j: int| k + 1 <= j < v@.len() implies v@[j].line_number >= ln + 1 by {
                    assert(v@[k as int].line_number < v@[j].line_number);
                }
            }
            k += 1;
        } else {
            proof {
                if m.contains_key(ln as int) {
                    let j = choose|j: int| 0 <= j < v@.len() && #[trigger] v@[j].line_number == ln;
                    if j > k {
                        assert(v@[k as int].line_number < v@[j].line_number);
                    }
                }
                assert(!m.contains_key(ln as int));
                assert forall|j: int| k <= j < v@.len() implies v@[j].line_number >= ln + 1 by {
                    if j > k {
                        assert(v@[k as int].line_number < v@[j].line_number);
                    }
                }
            }
            r.push(LineCoverage { line_number: ln as i32, hit_count: if c > 0 { c } else { 0 } });
        }
        proof {
            assert(r@ == before.push(r@.last()));
            assert forall|x: int| t.contains_key(x) && x < ln + 1 implies exists|i: int|
                #![trigger r@[i]]
                0 <= i < r@.len() && r@[i].line_number == x by {
                if x < ln {
                    let i = choose|i: int| #![trigger before[i]] 0 <= i < before.len() && before[i].line_number == x;
                    assert(r@[i] == before[i]);
                } else {
                    assert(r@[r@.len() - 1].line_number == x);
                }
            }
            if lines_plausible(v@) && 1 <= s && e <= MAX_LINE_NUMBER {
                assert forall|i: int| 0 <= i < r@.len() implies plausible(#[trigger] r@[i]) by {
                    if i < before.len() {
                        assert(r@[i] == before[i]);
                    }
                }
            }
        }
        ln += 1;
    }
    proof {
        let lim = if k < v@.len() { v@[k as int].line_number as int } else { 0x8000_0000int };
        assert forall|x: int| t.contains_key(x) && x < lim implies exists|i: int|
            #![trigger r@[i]]
            0 <= i < r@.len() && r@[i].line_number == x by {
            if x >= ln {
                assert(m.contains_key(x));
                let j = choose|j: int| 0 <= j < v@.len() && #[trigger] v@[j].line_number == x;
                if j > k {
                    assert(v@[k as int].line_number < v@[j].line_number);
                }
            }
        }
        assert(lists_below(r@, t, lim));
    }
    while k < v.len()
        invariant
            represents(v@, m),
            s <= e < i32::MAX,
            t == range_update(m, s as int, e as int, c as int),
            k <= v.len(),
            lists_below(r@, t, if k < v@.len() { v@[k as int].line_number as int } else { 0x8000_0000int }),
            lines_plausible(v@) && 1 <= s && e <= MAX_LINE_NUMBER ==> lines_plausible(r@),
            forall|j: int| k <= j < v@.len() ==> v@[j].line_number > e,
            r@.len() <= k + (e + 1 - s),
        decreases v.len() - k,
    {
        let ghost before = r@;
        let x = v[k];
        r.push(x);
        proof {
            assert(r@ == before.push(x));
            let lim2 = if k + 1 < v@.len() { v@[k + 1].line_number as int } else { 0x8000_0000int };
            if k + 1 < v@.len() {
                assert(x.line_number < v@[k + 1].line_number);
            }
            assert forall|y: int| t.contains_key(y) && y < lim2 implies exists|i: int|
                #![trigger r@[i]]
                0 <= i < r@.len() && r@[i].line_number == y by {
                if y < x.line_number {
                    let i = choose|i: int| #![trigger before[i]] 0 <= i < before.len() && before[i].line_number == y;
                    assert(r@[i] == before[i]);
                } else if y == x.line_number {
                    assert(r@[r@.len() - 1].line_number == y);
                } else {
                    assert(m.contains_key(y));
                    let j = choose|j: int| 0 <= j < v@.len() && #[trigger] v@[j].line_number == y;
                    if j < k {
                        assert(v@[j].line_number < x.line_number);
                    } else if j > k + 1 {
                        assert(v@[k + 1].line_number < v@[j].line_number);
                    }
                }
            }
            if lines_plausible(v@) && 1 <= s && e <= MAX_LINE_NUMBER {
                assert forall|i: int| 0 <= i < r@.len() implies plausible(#[trigger] r@[i]) by {
                    if i < before.len() {
                        assert(r@[i] == before[i]);
                    }
                }
            }
            assert forall|j: int| k + 1 <= j < v@.len() implies v@[j].line_number > e by {
            }
        }
        k += 1;
    }
    proof {
        assert forall|x: int| t.contains_key(x) implies exists|i: int|
            0 <= i < r@.len() && #[trigger] r@[i].line_number == x by {
            if !(s <= x <= e) {
                assert(m.contains_key(x));
                let j = choose|j: int| 0 <= j < v@.len() && #[trigger] v@[j].line_number == x;
            }
            let i = choose|i: int| #![trigger r@[i]] 0 <= i < r@.len() && r@[i].line_number == x;
            assert(r@[i].line_number == x);
        }
    }
    r
}

/// The records that list the lines of `m` in order.
pub open spec fn listed(m: Map<int, int>) -> Seq<LineCoverage> {
    choose|s: Seq<LineCoverage>| represents(s, m)
}

/// Only one sequence of records lists the lines of a map in order.
pub proof fn lemma_represents_unique(a: Seq<LineCoverage>, b: Seq<LineCoverage>, m: Map<int, int>)
    requires
        represents(a, m),
        represents(b, m),
    ensures
        a == b,
    decreases a.len(),
{
    if a.len() == 0 {
        if b.len() > 0 {
            assert(m.contains_key(b[0].line_number as int));
            let i = choose|i: int| 0 <= i < a.len() && #[trigger] a[i].line_number == b[0].line_number;
        }
        assert(a =~= b);
    } else {
        let k = a[0].line_number as int;
        assert(m.contains_key(k));
        let j = choose|j: int| 0 <= j < b.len() && #[trigger] b[j].line_number == k;
        assert(m.contains_key(b[0].line_number as int));
        let j2 = choose|j2: int| 0 <= j2 < a.len() && #[trigger] a[j2].line_number == b[0].line_number;
        if j > 0 {
            assert(b[0].line_number < b[j].line_number);
        }
        if j2 > 0 {
            assert(a[0].line_number < a[j2].line_number);
        }
        assert(a[0] == b[0]);
        let m2 = m.remove(k);
        let a2 = a.drop_first();
        let b2 = b.drop_first();
        assert forall|x: int| m2.contains_key(x) implies exists|i: int|
            0 <= i < a2.len() && #[trigger] a2[i].line_number == x by {
            let i = choose|i: int| 0 <= i < a.len() && #[trigger] a[i].line_number == x;
            assert(a2[i - 1] == a[i]);
        }
        assert forall|x: int| m2.contains_key(x) implies exists|i: int|
            0 <= i < b2.len() && #[trigger] b2[i].line_number == x by {
            let i = choose|i: int| 0 <= i < b.len() && #[trigger] b[i].line_number == x;
            assert(b2[i - 1] == b[i]);
        }
        assert forall|i: int| 0 <= i < a2.len() implies m2.contains_key(#[trigger] a2[i].line_number as int)
            && m2[a2[i].line_number as int] == a2[i].hit_count by {
            assert(a2[i] == a[i + 1]);
            assert(a[0].line_number < a[i + 1].line_number);
        }
        assert forall|i: int| 0 <= i < b2.len() implies m2.contains_key(#[trigger] b2[i].line_number as int)
            && m2[b2[i].line_number as int] == b2[i].hit_count by {
            assert(b2[i] == b[i + 1]);
            assert(b[0].line_number < b[i + 1].line_number);
        }
        assert(represents(a2, m2));
        assert(represents(b2, m2));
        lemma_represents_unique(a2, b2, m2);
        assert(a == seq![a[0]] + a2);
        assert(b == seq![b[0]] + b2);
    }
}

pub proof fn lemma_listed(s: Seq<LineCoverage>, m: Map<int, int>)
    requires
        represents(s, m),
    ensures
        listed(m) == s,
{
    lemma_represents_unique(listed(m), s, m);
}

/// Records that all name plausible lines survive sanitizing unchanged.
pub proof fn lemma_all_plausible(v: Seq<LineCoverage>)
    requires
        lines_plausible(v),
    ensures
        plausible_lines(v) == v,
    decreases v.len(),
{
    reveal_with_fuel(Seq::<_>::filter, 1);
    if v.len() > 0 {
        lemma_all_plausible(v.drop_last());
        assert(v.drop_last().push(v.last()) == v);
    }
}

/// Sanitizing is idempotent: what it keeps, a second pass keeps whole.
pub proof fn lemma_plausible_idempotent(s: Seq<LineCoverage>)
    ensures
        plausible_lines(plausible_lines(s)) == plausible_lines(s),
{
    s.filter_lemma(|l: LineCoverage| plausible(l));
    assert forall|i: int| 0 <= i < plausible_lines(s).len() implies plausible(#[trigger] plausible_lines(s)[i]) by {}
    lemma_all_plausible(plausible_lines(s));
}

/// A name made only of capitals and underscores, as the canonical names
/// are, is its own normal form.
proof fn lemma_canonical_normal(s: Seq<char>)
    requires
        s.len() > 0,
        forall|i: int| 0 <= i < s.len() ==> ('A' <= #[trigger] s[i] <= 'Z' || s[i] == '_'),
    ensures
        normalized_target_name(s) == s,
{
    assert(!crate::text::is_ws(s[0]));
    assert(!crate::text::is_ws(s.last()));
    assert(trim_start(s) == s);
    assert(crate::text::trim_end(s) == s);
    assert(ascii_upper(s) =~= s);
    assert(dashes_to_underscores(s) =~= s);
}

/// Reading back the canonical name of a target gives the target: what is
/// persisted under `as_str` is recognized by `from_str_loose`.
pub proof fn lemma_target_name_round_trip(t: CoverageTarget)
    ensures
        target_from_name(normalized_target_name(target_name(t))) == Some(t),
{
    reveal_strlit("JVM_UNIT");
    reveal_strlit("ANDROID_INSTRUMENTED");
    reveal_strlit("IOS_UNIT");
    reveal_strlit("KOTLIN_NATIVE");
    reveal_strlit("COMPOSITE");
    reveal_strlit("RUST_LLVM_COV");
    reveal_strlit("GO_COVER");
    reveal_strlit("PYTHON_COVERAGE");
    reveal_strlit("LCOV");
    reveal_strlit("JVMUNIT");
    reveal_strlit("ANDROIDINSTRUMENTED");
    reveal_strlit("IOSUNIT");
    reveal_strlit("KOTLINNATIVE");
    reveal_strlit("RUSTLLVMCOV");
    reveal_strlit("GOCOVER");
    reveal_strlit("PYTHONCOVERAGE");
    let n = target_name(t);
    assert forall|i: int| 0 <= i < n.len() implies ('A' <= #[trigger] n[i] <= 'Z' || n[i] == '_') by {}
    lemma_canonical_normal(n);
}

/// How many records of `v` have a positive count.
pub open spec fn hit_lines(v: Seq<LineCoverage>) -> nat
    decreases v.len(),
{
    if v.len() == 0 {
        0
    } else {
        hit_lines(v.drop_last()) + if v.last().hit_count > 0 { 1nat } else { 0nat }
    }
}

/// How many records over all of `files` have a positive count.
pub open spec fn total_hit(files: Seq<FileCoverage>) -> nat
    decreases files.len(),
{
    if files.len() == 0 {
        0
    } else {
        total_hit(files.drop_last()) + hit_lines(files.last().lines@)
    }
}

pub proof fn lemma_hit_le(v: Seq<LineCoverage>)
    ensures
        hit_lines(v) <= v.len(),
    decreases v.len(),
{
    if v.len() > 0 {
        lemma_hit_le(v.drop_last());
    }
}

/// How many records of `v` have a positive count.
pub(crate) fn count_hits(v: &Vec<LineCoverage>) -> (n: i64)
    requires
        v@.len() <= i64::MAX,
    ensures
        n == hit_lines(v@),
{
    let mut n: i64 = 0;
    let mut i: usize = 0;
    while i < v.len()
        invariant
            i <= v@.len(),
            v@.len() <= i64::MAX,
            n == hit_lines(v@.take(i as int)),
            n <= i,
        decreases v.len() - i,
    {
        proof {
            assert(v@.take(i + 1).drop_last() == v@.take(i as int));
        }
        if v[i].hit_count > 0 {
            n = n + 1;
        }
        i += 1;
    }
    proof {
        assert(v@.take(i as int) == v@);
    }
    n
}

pub fn copy_opt_string(s: &Option<String>) -> (r: Option<String>)
    ensures
        r == *s,
{
    match s {
        Some(v) => Some(v.clone()),
        None => None,
    }
}

impl FileCoverage {
    /// Whether this file carries real branch counts.
    pub fn has_branch_counts(&self) -> (b: bool)
        ensures
            b == (self.branches_total > 0),
    {
        self.branches_total > 0
    }

    /// Sum `(covered, total)` branch edges across files; `None` when no file
    /// reports any branches (the producer predates per-file branch counts).
    pub fn branch_totals(files: &[FileCoverage]) -> (r: Option<(i64, i64)>)
        requires
            branch_sums_fit(files@),
        ensures
            sum_branches(files@, false) > 0 ==> r == Some(
                (sum_branches(files@, true) as i64, sum_branches(files@, false) as i64),
            ),
            sum_branches(files@, false) <= 0 ==> r is None,
    {
        let mut covered: i64 = 0;
        let mut total: i64 = 0;
        let mut i: usize = 0;
        while i < files.len()
            invariant
                i <= files.len(),
                branch_sums_fit(files@),
                covered == sum_branches(files@.take(i as int), true),
                total == sum_branches(files@.take(i as int), false),
            decreases files.len() - i,
        {
            proof {
                assert(files@.take(i + 1).drop_last() == files@.take(i as int));
                assert(i64::MIN <= sum_branches(files@.take(i + 1), true) <= i64::MAX);
                assert(i64::MIN <= sum_branches(files@.take(i + 1), false) <= i64::MAX);
            }
            covered = covered + files[i].branches_covered;
            total = total + files[i].branches_total;
            i += 1;
        }
        proof {
            assert(files@.take(i as int) == files@);
        }
        if total > 0 {
            Some((covered, total))
        } else {
            None
        }
    }
}

/// `after` is `before` with the implausible line records of every file dropped.
pub open spec fn dropped_implausible(before: Seq<FileCoverage>, after: Seq<FileCoverage>) -> bool {
    &&& after.len() == before.len()
    &&& forall|i: int| 0 <= i < before.len() ==> {
        &&& (#[trigger] after[i]).lines@ == plausible_lines(before[i].lines@)
        &&& after[i].path == before[i].path
        &&& after[i].line_rate == before[i].line_rate
        &&& after[i].branch_rate == before[i].branch_rate
        &&& after[i].branches_covered == before[i].branches_covered
        &&& after[i].branches_total == before[i].branches_total
        &&& after[i].source_content == before[i].source_content
    }
}

impl OmnivoreReport {
    /// Discard line records that cannot describe a real source line, and
    /// return how many were dropped.
    pub fn drop_implausible_lines(&mut self) -> (dropped: usize)
        requires
            total_lines(old(self).files@) <= usize::MAX,
        ensures
            dropped_implausible(old(self).files@, final(self).files@),
            dropped == total_lines(old(self).files@) - total_plausible(old(self).files@),
            final(self).version == old(self).version,
            final(self).format == old(self).format,
            final(self).project == old(self).project,
            final(self).coverage == old(self).coverage,
            final(self).dependencies == old(self).dependencies,
    {
        let mut kept: Vec<FileCoverage> = Vec::new();
        let mut dropped: usize = 0;
        let mut i: usize = 0;
        proof {
            lemma_total_plausible_le(self.files@);
        }
        while i < self.files.len()
            invariant
                i <= self.files.len(),
                total_lines(self.files@) <= usize::MAX,
                total_plausible(self.files@) <= total_lines(self.files@),
                kept@.len() == i,
                dropped == total_lines(self.files@.take(i as int)) - total_plausible(self.files@.take(i as int)),
                total_plausible(self.files@.take(i as int)) <= total_lines(self.files@.take(i as int)),
                forall|j: int| 0 <= j < i ==> {
                    &&& (#[trigger] kept@[j]).lines@ == plausible_lines(self.files@[j].lines@)
                    &&& kept@[j].path == self.files@[j].path
                    &&& kept@[j].line_rate == self.files@[j].line_rate
                    &&& kept@[j].branch_rate == self.files@[j].branch_rate
                    &&& kept@[j].branches_covered == self.files@[j].branches_covered
                    &&& kept@[j].branches_total == self.files@[j].branches_total
                    &&& kept@[j].source_content == self.files@[j].source_content
                },
            decreases self.files.len() - i,
        {
            let f = &self.files[i];
            let lines = keep_plausible(&f.lines);
            proof {
                lemma_plausible_len(f.lines@);
                assert(self.files@.take(i + 1).drop_last() == self.files@.take(i as int));
                lemma_total_lines_grows(self.files@, i + 1);
            }
            dropped = dropped + (f.lines.len() - lines.len());
            kept.push(FileCoverage {
                path: f.path.clone(),
                line_rate: f.line_rate,
                branch_rate: f.branch_rate,
                lines,
                branches_covered: f.branches_covered,
                branches_total: f.branches_total,
                source_content: copy_opt_string(&f.source_content),
            });
            i += 1;
        }
        proof {
            assert(self.files@.take(i as int) == self.files@);
        }
        self.files = kept;
        dropped
    }
}

/// A report as stored, without its serialized file and dependency payloads.
#[derive(Debug, Clone, PartialEq)]
pub struct CoverageSnapshot {
    pub id: String,
    pub project_id: String,
    pub commit_sha: Option<String>,
    pub branch: Option<String>,
    /// The canonical target name.
    pub target: String,
    /// Provenance — which tool produced this snapshot.
    pub source: String,
    pub line_rate: Rate,
    pub branch_rate: Rate,
    pub lines_covered: i64,
    pub lines_total: i64,
    pub branches_covered: i64,
    pub branches_total: i64,
    pub file_count: i64,
    /// Milliseconds since the Unix epoch.
    pub created_at_ms: i64,
}

#[verifier::external_type_specification]
#[verifier::external_body]
pub struct ExSystemTime(std::time::SystemTime);

/// `std::time::SystemTime::now`: the system clock's reading. Nothing is
/// stated of it.
#[verifier::external_body]
fn system_now() -> (r: std::time::SystemTime) {
    std::time::SystemTime::now()
}

/// `SystemTime::duration_since(UNIX_EPOCH)`: how long after the Unix epoch
/// `t` lies; nothing when `t` lies before it.
#[verifier::external_body]
fn since_unix_epoch(t: &std::time::SystemTime) -> (r: Option<std::time::Duration>) {
    match t.duration_since(std::time::UNIX_EPOCH) {
        Ok(d) => Some(d),
        Err(_) => None,
    }
}

/// `Duration::as_millis`: the whole milliseconds in `d`.
#[verifier::external_body]
fn whole_millis(d: &std::time::Duration) -> (r: u128) {
    d.as_millis()
}

/// The current time in milliseconds since the Unix epoch, as
/// `millis_to_i64` gives the clock's reading; nothing when the system clock
/// reads before the epoch.
pub fn now_millis() -> (r: Option<i64>)
    ensures
        r matches Some(ms) ==> ms >= 0,
{
    let t = system_now();
    let d = match since_unix_epoch(&t) {
        Some(d) => d,
        None => return None,
    };
    millis_to_i64(whole_millis(&d))
}

/// A count of milliseconds as an `i64`; nothing when it does not fit.
pub fn millis_to_i64(ms: u128) -> (r: Option<i64>)
    ensures
        r == (if ms <= i64::MAX as u128 {
            Some(ms as i64)
        } else {
            None::<i64>
        }),
{
    if ms <= 0x7fff_ffff_ffff_ffffu128 {
        Some(ms as i64)
    } else {
        None
    }
}

/// The identity and time under which a snapshot is recorded.
#[derive(Debug, Clone, PartialEq)]
pub struct SnapshotStamp {
    pub id: String,
    /// Milliseconds since the Unix epoch.
    pub created_at_ms: i64,
}

/// A stamp for a snapshot recorded now: a fresh random version-4 UUID,
/// hyphenated, and the current time. Nothing when the system has no random
/// number generator to draw from, or its clock reads before the Unix epoch.
pub fn draw_stamp() -> (r: Option<SnapshotStamp>)
    ensures
        r matches Some(st) ==> st.created_at_ms >= 0 && exists|b: Seq<u8>|
            b.len() == 16 && st.id@ == #[trigger] uuid_hyphenated(uuid_v4_bytes(b)),
{
    let id = match new_uuid() {
        Some(id) => id,
        None => return None,
    };
    let created_at_ms = match now_millis() {
        Some(ms) => ms,
        None => return None,
    };
    Some(SnapshotStamp { id, created_at_ms })
}

/// The provenance a snapshot records: the caller's non-empty `source`, else
/// the report's own non-empty source, else the Omnivore agent.
pub open spec fn chosen_source(given: Option<Seq<char>>, reported: Option<Seq<char>>) -> Seq<char> {
    match given {
        Some(s) if s.len() > 0 => s,
        _ => match reported {
            Some(s) if s.len() > 0 => s,
            _ => "omnivore-agent"@,
        },
    }
}

pub open spec fn opt_view(s: Option<String>) -> Option<Seq<char>> {
    match s {
        Some(v) => Some(v@),
        None => None,
    }
}

pub open spec fn opt_str_view(s: Option<&str>) -> Option<Seq<char>> {
    match s {
        Some(v) => Some(v@),
        None => None,
    }
}

/// What `from_report` records of a (sanitized) report.
pub open spec fn snapshot_of(
    snap: CoverageSnapshot,
    report: OmnivoreReport,
    source: Option<Seq<char>>,
    stamp: SnapshotStamp,
) -> bool {
    &&& snap.id@ == stamp.id@
    &&& snap.created_at_ms == stamp.created_at_ms
    &&& snap.project_id == report.project.id
    &&& snap.commit_sha == report.project.commit_sha
    &&& snap.branch == report.project.branch
    &&& snap.target@ == target_name(report.project.target)
    &&& snap.source@ == chosen_source(source, opt_view(report.project.source))
    &&& snap.line_rate == report.coverage.line_rate
    &&& snap.branch_rate == report.coverage.branch_rate
    &&& snap.lines_covered == report.coverage.lines_covered
    &&& snap.lines_total == report.coverage.lines_total
    &&& snap.branches_covered == report.coverage.branches_covered
    &&& snap.branches_total == report.coverage.branches_total
    &&& snap.file_count == report.files@.len()
}

impl CoverageSnapshot {
    /// Build a storable snapshot from a normalized report, sanitizing it first
    /// so that no implausible line number is ever stored; it is recorded
    /// under the identity and time of `stamp`.
    pub fn from_report(report: &mut OmnivoreReport, source: Option<&str>, stamp: &SnapshotStamp) -> (snap: CoverageSnapshot)
        requires
            total_lines(old(report).files@) <= usize::MAX,
            old(report).files@.len() <= i64::MAX,
        ensures
            dropped_implausible(old(report).files@, final(report).files@),
            final(report).version == old(report).version,
            final(report).format == old(report).format,
            final(report).project == old(report).project,
            final(report).coverage == old(report).coverage,
            final(report).dependencies == old(report).dependencies,
            snapshot_of(snap, *final(report), opt_str_view(source), *stamp),
    {
        report.drop_implausible_lines();
        let chosen: String = match source {
            Some(s) if !s.is_empty() => owned(s),
            _ => match &report.project.source {
                Some(s) if !s.as_str().is_empty() => s.clone(),
                _ => owned(source::OMNIVORE_AGENT),
            },
        };
        CoverageSnapshot {
            id: owned(stamp.id.as_str()),
            project_id: report.project.id.clone(),
            commit_sha: copy_opt_string(&report.project.commit_sha),
            branch: copy_opt_string(&report.project.branch),
            target: owned(report.project.target.as_str()),
            source: chosen,
            line_rate: report.coverage.line_rate,
            branch_rate: report.coverage.branch_rate,
            lines_covered: report.coverage.lines_covered,
            lines_total: report.coverage.lines_total,
            branches_covered: report.coverage.branches_covered,
            branches_total: report.coverage.branches_total,
            file_count: report.files.len() as i64,
            created_at_ms: stamp.created_at_ms,
        }
    }
}

} // verus!
