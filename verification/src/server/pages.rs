//! What the HTML pages compute before rendering: escaping, labels, the rows
//! of the file view, and where a file's source may be found.

use vstd::prelude::*;

use crate::coverage::model::{FileCoverage, LineCoverage};
use crate::text::{
    chars_of, decimal_digits, eq_str, has_substring, lines_of, owned, push_all, push_str, signed_decimal,
    split, split_char, string_from_chars, text_lines, trim_end,
};

verus! {

/// The escaped form of one character.
pub open spec fn escape_char(c: char) -> Seq<char> {
    if c == '&' {
        "&amp;"@
    } else if c == '<' {
        "&lt;"@
    } else if c == '>' {
        "&gt;"@
    } else if c == '"' {
        "&quot;"@
    } else {
        seq![c]
    }
}

/// `s` with `&`, `<`, `>` and `"` replaced by their entities.
pub open spec fn escaped(s: Seq<char>) -> Seq<char>
    decreases s.len(),
{
    if s.len() == 0 {
        Seq::empty()
    } else {
        escaped(s.drop_last()) + escape_char(s.last())
    }
}

/// What decoding the entities `&amp;`, `&lt;`, `&gt;` and `&quot;` gives
/// for `t`, read from the front; every other character stands for itself.
pub open spec fn unescaped(t: Seq<char>) -> Seq<char>
    decreases t.len(),
{
    if t.len() == 0 {
        Seq::empty()
    } else if t.len() >= 5 && t.take(5) == "&amp;"@ {
        seq!['&'] + unescaped(t.skip(5))
    } else if t.len() >= 4 && t.take(4) == "&lt;"@ {
        seq!['<'] + unescaped(t.skip(4))
    } else if t.len() >= 4 && t.take(4) == "&gt;"@ {
        seq!['>'] + unescaped(t.skip(4))
    } else if t.len() >= 6 && t.take(6) == "&quot;"@ {
        seq!['"'] + unescaped(t.skip(6))
    } else {
        seq![t[0]] + unescaped(t.skip(1))
    }
}

/// `t` holds no `<`, `>` or `"`: nothing that could open a tag or close a
/// quoted attribute.
pub open spec fn markup_free(t: Seq<char>) -> bool {
    forall|i: int| 0 <= i < t.len() ==> #[trigger] t[i] != '<' && t[i] != '>' && t[i] != '"'
}

proof fn lemma_escaped_concat(a: Seq<char>, b: Seq<char>)
    ensures
        escaped(a + b) == escaped(a) + escaped(b),
    decreases b.len(),
{
    if b.len() == 0 {
        assert(a + b =~= a);
        assert(escaped(a) + escaped(b) =~= escaped(a));
    } else {
        lemma_escaped_concat(a, b.drop_last());
        assert((a + b).drop_last() =~= a + b.drop_last());
        assert((a + b).last() == b.last());
        assert(escaped(a) + escaped(b.drop_last()) + escape_char(b.last()) =~= escaped(a) + (escaped(b.drop_last())
            + escape_char(b.last())));
    }
}

proof fn lemma_unescape_one(c: char, rest: Seq<char>)
    ensures
        unescaped(escape_char(c) + rest) == seq![c] + unescaped(rest),
        markup_free(escape_char(c)),
{
    reveal_strlit("&amp;");
    reveal_strlit("&lt;");
    reveal_strlit("&gt;");
    reveal_strlit("&quot;");
    let t = escape_char(c) + rest;
    let e = escape_char(c);
    assert(t.take(e.len() as int) =~= e);
    assert(t.skip(e.len() as int) =~= rest);
    if c == '&' {
        assert(t.take(5) =~= "&amp;"@);
    } else if c == '<' {
        assert(t.take(4) =~= "&lt;"@);
        if t.len() >= 5 {
            assert(t.take(5)[1] != "&amp;"@[1]);
        }
    } else if c == '>' {
        assert(t.take(4) =~= "&gt;"@);
        if t.len() >= 5 {
            assert(t.take(5)[1] != "&amp;"@[1]);
        }
        assert(t.take(4)[1] != "&lt;"@[1]);
    } else if c == '"' {
        assert(t.take(6) =~= "&quot;"@);
        assert(t.take(5)[1] != "&amp;"@[1]);
        assert(t.take(4)[1] != "&lt;"@[1]);
        assert(t.take(4)[1] != "&gt;"@[1]);
    } else {
        assert(t[0] == c);
        if t.len() >= 4 {
            assert(t.take(4)[0] != "&lt;"@[0]);
            assert(t.take(4)[0] != "&gt;"@[0]);
        }
        if t.len() >= 5 {
            assert(t.take(5)[0] != "&amp;"@[0]);
        }
        if t.len() >= 6 {
            assert(t.take(6)[0] != "&quot;"@[0]);
        }
    }
}

/// Escaping loses nothing and leaves no markup: decoding the four entities
/// in `html_escape`'s output gives back its input, and the output holds no
/// `<`, `>` or `"`.
pub proof fn lemma_escape_round_trip(s: Seq<char>)
    ensures
        unescaped(escaped(s)) == s,
        markup_free(escaped(s)),
    decreases s.len(),
{
    if s.len() > 0 {
        let c = s[0];
        let rest = s.skip(1);
        lemma_escape_round_trip(rest);
        assert(seq![c] + rest =~= s);
        lemma_escaped_concat(seq![c], rest);
        assert(seq![c].drop_last() =~= Seq::<char>::empty());
        assert(escaped(Seq::<char>::empty()) == Seq::<char>::empty());
        assert(Seq::<char>::empty() + escape_char(c) =~= escape_char(c));
        assert(escaped(seq![c]) == escape_char(c));
        lemma_unescape_one(c, escaped(rest));
        let e = escape_char(c);
        let t = escaped(s);
        assert(t == e + escaped(rest));
        assert forall|i: int| 0 <= i < t.len() implies #[trigger] t[i] != '<' && t[i] != '>' && t[i] != '"' by {
            if i >= e.len() {
                assert(t[i] == escaped(rest)[i - e.len()]);
            } else {
                assert(t[i] == e[i]);
            }
        }
    }
}

/// Escape text for inclusion in HTML content or a quoted attribute.
pub fn html_escape(s: &str) -> (r: String)
    ensures
        r@ == escaped(s@),
{
    let cs = chars_of(s);
    let mut out: Vec<char> = Vec::new();
    let mut i: usize = 0;
    while i < cs.len()
        invariant
            i <= cs@.len(),
            cs@ == s@,
            out@ == escaped(cs@.take(i as int)),
        decreases cs.len() - i,
    {
        let c = cs[i];
        proof {
            assert(cs@.take(i + 1).drop_last() == cs@.take(i as int));
            reveal_strlit("&amp;");
            reveal_strlit("&lt;");
            reveal_strlit("&gt;");
            reveal_strlit("&quot;");
        }
        if c == '&' {
            push_str(&mut out, "&amp;");
        } else if c == '<' {
            push_str(&mut out, "&lt;");
        } else if c == '>' {
            push_str(&mut out, "&gt;");
        } else if c == '"' {
            push_str(&mut out, "&quot;");
        } else {
            out.push(c);
        }
        i += 1;
    }
    proof {
        assert(cs@.take(i as int) == cs@);
    }
    string_from_chars(out.as_slice())
}

/// Escaped text holds no `<`, `>` or `"`, so it can open no tag and close
/// no attribute.
pub proof fn lemma_escaped_is_inert(s: Seq<char>)
    ensures
        !escaped(s).contains('<'),
        !escaped(s).contains('>'),
        !escaped(s).contains('"'),
    decreases s.len(),
{
    if s.len() > 0 {
        lemma_escaped_is_inert(s.drop_last());
        let a = escaped(s.drop_last());
        let b = escape_char(s.last());
        reveal_strlit("&amp;");
        reveal_strlit("&lt;");
        reveal_strlit("&gt;");
        reveal_strlit("&quot;");
        assert forall|k: int| 0 <= k < (a + b).len() implies (a + b)[k] != '<' && (a + b)[k] != '>' && (a
            + b)[k] != '"' by {
            if k < a.len() {
                assert((a + b)[k] == a[k]);
                assert(a.contains(a[k]));
            } else {
                assert((a + b)[k] == b[k - a.len()]);
            }
        }
    }
}

/// The human name of a target, given its canonical or PascalCase name;
/// any other name is shown as it is.
pub open spec fn target_label_of(t: Seq<char>) -> Seq<char> {
    if t == "JVM_UNIT"@ || t == "JvmUnit"@ {
        "Unit Tests"@
    } else if t == "ANDROID_INSTRUMENTED"@ || t == "AndroidInstrumented"@ {
        "Instrumented Tests"@
    } else if t == "IOS_UNIT"@ || t == "IosUnit"@ {
        "iOS Unit Tests"@
    } else if t == "KOTLIN_NATIVE"@ || t == "KotlinNative"@ {
        "Kotlin/Native Tests"@
    } else if t == "COMPOSITE"@ || t == "Composite"@ {
        "Composite"@
    } else if t == "RUST_LLVM_COV"@ || t == "RustLlvmCov"@ {
        "Rust (llvm-cov)"@
    } else if t == "GO_COVER"@ || t == "GoCover"@ {
        "Go"@
    } else if t == "PYTHON_COVERAGE"@ || t == "PythonCoverage"@ {
        "Python"@
    } else if t == "LCOV"@ || t == "Lcov"@ {
        "lcov"@
    } else {
        t
    }
}

pub fn target_label(target: &str) -> (r: String)
    ensures
        r@ == target_label_of(target@),
{
    let t = chars_of(target);
    let t = t.as_slice();
    if eq_str(t, "JVM_UNIT") || eq_str(t, "JvmUnit") {
        owned("Unit Tests")
    } else if eq_str(t, "ANDROID_INSTRUMENTED") || eq_str(t, "AndroidInstrumented") {
        owned("Instrumented Tests")
    } else if eq_str(t, "IOS_UNIT") || eq_str(t, "IosUnit") {
        owned("iOS Unit Tests")
    } else if eq_str(t, "KOTLIN_NATIVE") || eq_str(t, "KotlinNative") {
        owned("Kotlin/Native Tests")
    } else if eq_str(t, "COMPOSITE") || eq_str(t, "Composite") {
        owned("Composite")
    } else if eq_str(t, "RUST_LLVM_COV") || eq_str(t, "RustLlvmCov") {
        owned("Rust (llvm-cov)")
    } else if eq_str(t, "GO_COVER") || eq_str(t, "GoCover") {
        owned("Go")
    } else if eq_str(t, "PYTHON_COVERAGE") || eq_str(t, "PythonCoverage") {
        owned("Python")
    } else if eq_str(t, "LCOV") || eq_str(t, "Lcov") {
        owned("lcov")
    } else {
        owned(target)
    }
}

/// How a line of the file view is marked.
#[derive(Debug, Clone, Copy, PartialEq, Eq, Structural)]
pub enum LineStatus {
    Covered,
    Uncovered,
    NoData,
}

/// One row of the file view.
pub struct LineRow {
    pub number: i32,
    pub hits: i64,
    pub status: LineStatus,
    pub css_class: &'static str,
    pub code: String,
}

/// The count of the last record for line `n`, if any.
pub open spec fn last_hit(lines: Seq<LineCoverage>, n: int) -> Option<i64>
    decreases lines.len(),
{
    if lines.len() == 0 {
        None
    } else if lines.last().line_number == n {
        Some(lines.last().hit_count)
    } else {
        last_hit(lines.drop_last(), n)
    }
}

/// The highest line number among `lines`.
pub open spec fn max_line(lines: Seq<LineCoverage>) -> int
    decreases lines.len(),
{
    if lines.len() == 0 {
        i32::MIN as int
    } else {
        let m = max_line(lines.drop_last());
        if lines.last().line_number > m {
            lines.last().line_number as int
        } else {
            m
        }
    }
}

pub open spec fn opt_source_lines(source: Option<String>) -> Seq<Seq<char>> {
    match source {
        Some(s) => text_lines(s@),
        None => Seq::empty(),
    }
}

/// How many rows the file view shows: one per source line when the source is
/// known, else up to the highest covered line.
pub open spec fn row_count(f: FileCoverage) -> int {
    let src = opt_source_lines(f.source_content);
    if src.len() > 0 {
        src.len() as int
    } else if f.lines@.len() == 0 {
        0
    } else if max_line(f.lines@) > 0 {
        max_line(f.lines@)
    } else {
        0
    }
}

/// Row `k` (line `k + 1`) of the file view.
pub open spec fn row_ok(r: LineRow, f: FileCoverage, k: int) -> bool {
    let src = opt_source_lines(f.source_content);
    &&& r.number == k + 1
    &&& r.code@ == (if k < src.len() {
        src[k]
    } else {
        Seq::empty()
    })
    &&& match last_hit(f.lines@, k + 1) {
        Some(h) => if h > 0 {
            r.hits == h && r.status == LineStatus::Covered && r.css_class@ == "line-covered"@
        } else {
            r.hits == 0 && r.status == LineStatus::Uncovered && r.css_class@ == "line-uncovered"@
        },
        None => r.hits == 0 && r.status == LineStatus::NoData && r.css_class@ == ""@,
    }
}

proof fn lemma_max_line(lines: Seq<LineCoverage>)
    ensures
        forall|i: int| 0 <= i < lines.len() ==> lines[i].line_number <= max_line(lines),
        i32::MIN <= max_line(lines) <= i32::MAX,
    decreases lines.len(),
{
    if lines.len() > 0 {
        lemma_max_line(lines.drop_last());
        assert forall|i: int| 0 <= i < lines.len() - 1 implies lines[i] == lines.drop_last()[i] by {}
    }
}

/// The rows of the file view.
pub fn line_rows(f: &FileCoverage) -> (rows: Vec<LineRow>)
    requires
        opt_source_lines(f.source_content).len() <= i32::MAX,
    ensures
        rows@.len() == row_count(*f),
        forall|k: int| 0 <= k < rows@.len() ==> row_ok(#[trigger] rows@[k], *f, k),
{
    let src: Vec<Vec<char>> = match &f.source_content {
        Some(s) => lines_of(chars_of(s.as_str()).as_slice()),
        None => Vec::new(),
    };
    let ghost sl = opt_source_lines(f.source_content);
    proof {
        lemma_max_line(f.lines@);
    }
    let mut count: i32 = 0;
    if src.len() > 0 {
        count = src.len() as i32;
    } else if f.lines.len() == 0 {
        return Vec::new();
    } else {
        let mut m: i32 = i32::MIN;
        let mut i: usize = 0;
        while i < f.lines.len()
            invariant
                i <= f.lines@.len(),
                m == max_line(f.lines@.take(i as int)),
            decreases f.lines.len() - i,
        {
            proof {
                assert(f.lines@.take(i + 1).drop_last() == f.lines@.take(i as int));
            }
            if f.lines[i].line_number > m {
                m = f.lines[i].line_number;
            }
            i += 1;
        }
        proof {
            assert(f.lines@.take(i as int) == f.lines@);
        }
        if m > 0 {
            count = m;
        }
    }
    proof {
        assert(count == row_count(*f));
    }
    // The count of the last record of each line, for lines 1..=count.
    let mut hits: Vec<Option<i64>> = Vec::new();
    let mut z: i32 = 0;
    while z < count
        invariant
            0 <= z <= count,
            hits@.len() == z,
            forall|q: int| 0 <= q < z ==> hits@[q] is None,
        decreases count - z,
    {
        hits.push(None);
        z += 1;
    }
    let mut i: usize = 0;
    proof {
        assert forall|q: int| 0 <= q < count implies hits@[q] == last_hit(f.lines@.take(0), q + 1) by {}
    }
    while i < f.lines.len()
        invariant
            i <= f.lines@.len(),
            hits@.len() == count,
            0 <= count,
            forall|q: int| 0 <= q < count ==> hits@[q] == last_hit(#[trigger] f.lines@.take(i as int), q + 1),
        decreases f.lines.len() - i,
    {
        let l = f.lines[i];
        proof {
            assert(f.lines@.take(i + 1).drop_last() == f.lines@.take(i as int));
            assert(f.lines@.take(i + 1).last() == l);
        }
        if 1 <= l.line_number && l.line_number <= count {
            hits.set((l.line_number - 1) as usize, Some(l.hit_count));
        }
        i += 1;
    }
    proof {
        assert(f.lines@.take(i as int) == f.lines@);
    }
    let mut rows: Vec<LineRow> = Vec::new();
    let mut n: i32 = 1;
    while n <= count
        invariant
            1 <= n <= count + 1,
            count <= i32::MAX,
            count == row_count(*f),
            rows@.len() == n - 1,
            hits@.len() == count,
            src@.len() == sl.len(),
            sl == opt_source_lines(f.source_content),
            forall|q: int| 0 <= q < src@.len() ==> #[trigger] src@[q]@ == sl[q],
            forall|q: int| 0 <= q < count ==> hits@[q] == last_hit(f.lines@, q + 1),
            forall|k: int| 0 <= k < rows@.len() ==> row_ok(#[trigger] rows@[k], *f, k),
        decreases count + 1 - n,
    {
        let k = (n - 1) as usize;
        let code = if k < src.len() {
            string_from_chars(src[k].as_slice())
        } else {
            owned("")
        };
        let row = match hits[k] {
            Some(h) => if h > 0 {
                LineRow { number: n, hits: h, status: LineStatus::Covered, css_class: "line-covered", code }
            } else {
                LineRow { number: n, hits: 0, status: LineStatus::Uncovered, css_class: "line-uncovered", code }
            },
            None => LineRow { number: n, hits: 0, status: LineStatus::NoData, css_class: "", code },
        };
        proof {
            reveal_strlit("");
            if (k as int) < sl.len() {
                assert(code@ == sl[k as int]);
            }
            assert(row.number == k + 1);
            assert(row.code@ == (if (k as int) < sl.len() { sl[k as int] } else { Seq::<char>::empty() }));
            assert(hits@[k as int] == last_hit(f.lines@, k + 1));
            assert(row_ok(row, *f, k as int));
        }
        let ghost before = rows@;
        rows.push(row);
        proof {
            assert forall|j: int| 0 <= j < rows@.len() implies row_ok(#[trigger] rows@[j], *f, j) by {
                if j < before.len() {
                    assert(rows@[j] == before[j]);
                }
            }
        }
        if n == count {
            return rows;
        }
        n += 1;
    }
    rows
}

/// The paths, in order of preference, at which a coverage path's source may
/// live in the repository: under each of its segments as a module with a
/// standard source directory, under the configured source root, and bare.
pub open spec fn source_candidates(source_root: Option<Seq<char>>, file_path: Seq<char>) -> Seq<Seq<char>> {
    match source_root {
        None => seq![file_path],
        Some(raw) => {
            let root = trim_trailing_slashes(raw);
            let direct = if has_substring(root, "src/main/java"@) || has_substring(root, "src/main/kotlin"@) {
                seq![root + "/"@ + file_path]
            } else {
                Seq::empty()
            };
            direct + module_candidates(root, file_path, distinct_segments(split_char(file_path, '/'))) + seq![
                root + "/"@ + file_path,
                file_path,
            ]
        },
    }
}

/// `s` without the `/` characters at its end.
pub open spec fn trim_trailing_slashes(s: Seq<char>) -> Seq<char>
    decreases s.len(),
{
    if s.len() > 0 && s.last() == '/' {
        trim_trailing_slashes(s.drop_last())
    } else {
        s
    }
}

/// The segments in order of first appearance, each once.
pub open spec fn distinct_segments(segs: Seq<Seq<char>>) -> Seq<Seq<char>>
    decreases segs.len(),
{
    if segs.len() == 0 {
        Seq::empty()
    } else {
        let d = distinct_segments(segs.drop_last());
        if d.contains(segs.last()) {
            d
        } else {
            d.push(segs.last())
        }
    }
}

/// For each segment, the path under it as a module with each standard
/// source directory.
pub open spec fn module_candidates(root: Seq<char>, file_path: Seq<char>, segs: Seq<Seq<char>>) -> Seq<Seq<char>>
    decreases segs.len(),
{
    if segs.len() == 0 {
        Seq::empty()
    } else {
        let seg = segs.last();
        module_candidates(root, file_path, segs.drop_last()) + seq![
            root + "/"@ + seg + "/"@ + "src/main/java"@ + "/"@ + file_path,
            root + "/"@ + seg + "/"@ + "src/main/kotlin"@ + "/"@ + file_path,
        ]
    }
}

fn contains_seg(seen: &Vec<Vec<char>>, seg: &[char]) -> (r: bool)
    ensures
        r == seen@.map_values(|v: Vec<char>| v@).contains(seg@),
{
    let mut i: usize = 0;
    while i < seen.len()
        invariant
            i <= seen@.len(),
            forall|k: int| 0 <= k < i ==> seen@[k]@ != seg@,
        decreases seen.len() - i,
    {
        if crate::text::seq_eq(seen[i].as_slice(), seg) {
            proof {
                assert(seen@.map_values(|v: Vec<char>| v@)[i as int] == seg@);
            }
            return true;
        }
        i += 1;
    }
    proof {
        if seen@.map_values(|v: Vec<char>| v@).contains(seg@) {
            let m = seen@.map_values(|v: Vec<char>| v@);
            let k = choose|k: int| 0 <= k < m.len() && #[trigger] m[k] == seg@;
            assert(seen@[k]@ == seg@);
        }
    }
    false
}

fn path3(a: &[char], b: &[char], c: &str, d: &[char]) -> (r: String)
    ensures
        r@ == a@ + "/"@ + b@ + "/"@ + c@ + "/"@ + d@,
{
    let mut v: Vec<char> = Vec::new();
    push_all(&mut v, a);
    push_str(&mut v, "/");
    push_all(&mut v, b);
    push_str(&mut v, "/");
    push_str(&mut v, c);
    push_str(&mut v, "/");
    push_all(&mut v, d);
    string_from_chars(v.as_slice())
}

fn path1(a: &[char], d: &[char]) -> (r: String)
    ensures
        r@ == a@ + "/"@ + d@,
{
    let mut v: Vec<char> = Vec::new();
    push_all(&mut v, a);
    push_str(&mut v, "/");
    push_all(&mut v, d);
    string_from_chars(v.as_slice())
}

/// Where the source of `file_path` may live in the repository, in order of
/// preference.
pub fn build_source_candidates(source_root: Option<&str>, file_path: &str) -> (r: Vec<String>)
    ensures
        r@.map_values(|s: String| s@) == source_candidates(
            match source_root {
                Some(v) => Some(v@),
                None => None,
            },
            file_path@,
        ),
{
    let fp = chars_of(file_path);
    let mut out: Vec<String> = Vec::new();
    match source_root {
        None => {
            out.push(owned(file_path));
            proof {
                assert(out@.map_values(|s: String| s@) =~= seq![file_path@]);
            }
            out
        },
        Some(raw) => {
            let rc = chars_of(raw);
            let mut j: usize = rc.len();
            proof {
                assert(rc@.take(j as int) == rc@);
            }
            while j > 0 && rc[j - 1] == '/'
                invariant
                    j <= rc@.len(),
                    trim_trailing_slashes(rc@) == trim_trailing_slashes(rc@.take(j as int)),
                decreases j,
            {
                proof {
                    assert(rc@.take(j as int).drop_last() == rc@.take(j - 1));
                }
                j -= 1;
            }
            let root = crate::text::slice(rc.as_slice(), 0, j);
            proof {
                assert(rc@.take(rc@.len() as int) == rc@);
                assert(root@ == rc@.take(j as int));
                assert(trim_trailing_slashes(root@) == root@);
            }
            let ghost rt = root@;
            if crate::text::contains_str(root.as_slice(), "src/main/java") || crate::text::contains_str(
                root.as_slice(),
                "src/main/kotlin",
            ) {
                out.push(path1(root.as_slice(), fp.as_slice()));
            }
            let ghost direct = out@.map_values(|s: String| s@);
            let segs = split(fp.as_slice(), '/');
            let ghost ss = split_char(file_path@, '/');
            let mut seen: Vec<Vec<char>> = Vec::new();
            let mut i: usize = 0;
            proof {
                assert(ss.take(0) =~= Seq::<Seq<char>>::empty());
                assert(out@.map_values(|s: String| s@) =~= direct + module_candidates(rt, file_path@, Seq::<Seq<char>>::empty()));
                assert(seen@.map_values(|v: Vec<char>| v@) =~= distinct_segments(Seq::<Seq<char>>::empty()));
            }
            while i < segs.len()
                invariant
                    i <= segs@.len(),
                    segs@.len() == ss.len(),
                    forall|k: int| 0 <= k < segs@.len() ==> #[trigger] segs@[k]@ == ss[k],
                    fp@ == file_path@,
                    root@ == rt,
                    seen@.map_values(|v: Vec<char>| v@) == distinct_segments(ss.take(i as int)),
                    out@.map_values(|s: String| s@) == direct + module_candidates(rt, file_path@, distinct_segments(ss.take(i as int))),
                decreases segs.len() - i,
            {
                proof {
                    assert(ss.take(i + 1).drop_last() == ss.take(i as int));
                    assert(ss.take(i + 1).last() == segs@[i as int]@);
                }
                let seg = &segs[i];
                if !contains_seg(&seen, seg.as_slice()) {
                    let ghost d = distinct_segments(ss.take(i as int));
                    let ghost before = out@.map_values(|s: String| s@);
                    out.push(path3(root.as_slice(), seg.as_slice(), "src/main/java", fp.as_slice()));
                    out.push(path3(root.as_slice(), seg.as_slice(), "src/main/kotlin", fp.as_slice()));
                    let ghost sv = seen@.map_values(|v: Vec<char>| v@);
                    seen.push(crate::text::slice(seg.as_slice(), 0, seg.len()));
                    proof {
                        assert(seg@.subrange(0, seg@.len() as int) == seg@);
                        assert(seen@.map_values(|v: Vec<char>| v@) =~= sv.push(seg@));
                        assert(d.push(seg@).drop_last() == d);
                        assert(out@.map_values(|s: String| s@) =~= before + seq![
                            rt + "/"@ + seg@ + "/"@ + "src/main/java"@ + "/"@ + file_path@,
                            rt + "/"@ + seg@ + "/"@ + "src/main/kotlin"@ + "/"@ + file_path@,
                        ]);
                        assert(module_candidates(rt, file_path@, d.push(seg@)) == module_candidates(rt, file_path@, d) + seq![
                            rt + "/"@ + seg@ + "/"@ + "src/main/java"@ + "/"@ + file_path@,
                            rt + "/"@ + seg@ + "/"@ + "src/main/kotlin"@ + "/"@ + file_path@,
                        ]);
                    }
                }
                i += 1;
            }
            proof {
                assert(ss.take(i as int) == ss);
            }
            let ghost before = out@.map_values(|s: String| s@);
            out.push(path1(root.as_slice(), fp.as_slice()));
            out.push(owned(file_path));
            proof {
                assert(out@.map_values(|s: String| s@) =~= before + seq![rt + "/"@ + file_path@, file_path@]);
            }
            out
        },
    }
}

/// The gutter mark of a row.
pub open spec fn gutter_mark(status: LineStatus) -> Seq<char> {
    match status {
        LineStatus::Covered => "<span class=\"gutter-mark gutter-covered\"></span>"@,
        LineStatus::Uncovered => "<span class=\"gutter-mark gutter-uncovered\"></span>"@,
        LineStatus::NoData => Seq::empty(),
    }
}

/// The hit badge of a row.
pub open spec fn hit_badge(status: LineStatus, hits: i64) -> Seq<char> {
    match status {
        LineStatus::Covered => "<span class=\"hit-badge hit-covered\">"@ + signed_decimal(hits as int) + "x</span>"@,
        LineStatus::Uncovered => "<span class=\"hit-badge hit-uncovered\">0x</span>"@,
        LineStatus::NoData => Seq::empty(),
    }
}

/// The table row the file view renders for `row`.
pub open spec fn row_markup(row: LineRow) -> Seq<char> {
    "<tr class=\""@ + row.css_class@ + "\"><td class=\"line-gutter\">"@ + gutter_mark(row.status)
        + "</td><td class=\"line-num\">"@ + signed_decimal(row.number as int) + "</td><td class=\"line-hits\">"@
        + hit_badge(row.status, row.hits) + "</td><td class=\"line-code\"><pre>"@ + escaped(row.code@)
        + "</pre></td></tr>"@
}

/// Appends the decimal text of `v` to `out`.
fn push_signed(out: &mut Vec<char>, v: i64)
    ensures
        final(out)@ == old(out)@ + signed_decimal(v as int),
{
    if v < 0 {
        out.push('-');
        let m: u64 = (0i128 - (v as i128)) as u64;
        let d = decimal_digits(m);
        push_all(out, d.as_slice());
        proof {
            assert(m as nat == (-(v as int)) as nat);
        }
    } else {
        let d = decimal_digits(v as u64);
        push_all(out, d.as_slice());
    }
}

/// Render one row of the file view as HTML, its code escaped.
pub fn row_html(row: &LineRow) -> (r: String)
    ensures
        r@ == row_markup(*row),
{
    let mut out: Vec<char> = Vec::new();
    push_str(&mut out, "<tr class=\"");
    push_str(&mut out, row.css_class);
    push_str(&mut out, "\"><td class=\"line-gutter\">");
    match row.status {
        LineStatus::Covered => push_str(&mut out, "<span class=\"gutter-mark gutter-covered\"></span>"),
        LineStatus::Uncovered => push_str(&mut out, "<span class=\"gutter-mark gutter-uncovered\"></span>"),
        LineStatus::NoData => {},
    }
    push_str(&mut out, "</td><td class=\"line-num\">");
    push_signed(&mut out, row.number as i64);
    push_str(&mut out, "</td><td class=\"line-hits\">");
    match row.status {
        LineStatus::Covered => {
            push_str(&mut out, "<span class=\"hit-badge hit-covered\">");
            push_signed(&mut out, row.hits);
            push_str(&mut out, "x</span>");
        },
        LineStatus::Uncovered => push_str(&mut out, "<span class=\"hit-badge hit-uncovered\">0x</span>"),
        LineStatus::NoData => {},
    }
    push_str(&mut out, "</td><td class=\"line-code\"><pre>");
    let code = html_escape(row.code.as_str());
    push_all(&mut out, chars_of(code.as_str()).as_slice());
    push_str(&mut out, "</pre></td></tr>");
    proof {
        assert(out@ =~= row_markup(*row));
    }
    string_from_chars(out.as_slice())
}

} // verus!
