//! Supported report formats, their detection, and the shared parser types.

use vstd::prelude::*;

use crate::coverage::model::{copy_opt_string, CoverageTarget, ProjectInfo};
use crate::coverage::source;
use crate::text::{
    char_width, chars_of, owned, contains_str, has_prefix, has_substring, push_all, push_str, starts_with_str,
    string_from_chars, to_lowercase, trim, trim_bounds, unicode_lowercase,
};

verus! {

/// Why a report could not be parsed.
#[derive(Debug, Clone, PartialEq)]
pub enum ParseError {
    Json(String),
    Lcov(String),
    LlvmCov(String),
    GoCoverprofile(String),
    PythonCoverage(String),
    Jacoco(String),
    UnknownFormat,
}

/// The text of a parse error (its `Display` form).
pub open spec fn parse_error_text(e: ParseError) -> Seq<char> {
    match e {
        ParseError::Json(m) => "Invalid JSON: "@ + m@,
        ParseError::Lcov(m) => "Invalid lcov: "@ + m@,
        ParseError::LlvmCov(m) => "Invalid llvm-cov export: "@ + m@,
        ParseError::GoCoverprofile(m) => "Invalid Go coverprofile: "@ + m@,
        ParseError::PythonCoverage(m) => "Invalid Python coverage.py JSON: "@ + m@,
        ParseError::Jacoco(m) => "Invalid JaCoCo/Kover XML: "@ + m@,
        ParseError::UnknownFormat => "Unknown format"@,
    }
}

impl ParseError {
    pub fn message(&self) -> (s: String)
        ensures
            s@ == parse_error_text(*self),
    {
        let mut out: Vec<char> = Vec::new();
        let detail: &String = match self {
            ParseError::Json(m) => {
                push_str(&mut out, "Invalid JSON: ");
                m
            },
            ParseError::Lcov(m) => {
                push_str(&mut out, "Invalid lcov: ");
                m
            },
            ParseError::LlvmCov(m) => {
                push_str(&mut out, "Invalid llvm-cov export: ");
                m
            },
            ParseError::GoCoverprofile(m) => {
                push_str(&mut out, "Invalid Go coverprofile: ");
                m
            },
            ParseError::PythonCoverage(m) => {
                push_str(&mut out, "Invalid Python coverage.py JSON: ");
                m
            },
            ParseError::Jacoco(m) => {
                push_str(&mut out, "Invalid JaCoCo/Kover XML: ");
                m
            },
            ParseError::UnknownFormat => {
                return crate::text::owned("Unknown format");
            },
        };
        let d = chars_of(detail.as_str());
        push_all(&mut out, d.as_slice());
        string_from_chars(out.as_slice())
    }
}

/// Metadata that formats without embedded project info need supplied
/// externally — mapped from the ingest endpoint's query parameters.
#[derive(Debug, Clone, PartialEq)]
pub struct IngestMeta {
    pub project_id: Option<String>,
    pub project_name: Option<String>,
    pub commit_sha: Option<String>,
    pub branch: Option<String>,
}

impl Default for IngestMeta {
    fn default() -> (m: IngestMeta)
        ensures
            m.project_id is None && m.project_name is None && m.commit_sha is None && m.branch is None,
    {
        IngestMeta { project_id: None, project_name: None, commit_sha: None, branch: None }
    }
}

/// The project metadata a parser records: the values of `meta`, with the
/// parser's defaults standing in for a missing id and name.
pub open spec fn project_from_meta(
    p: ProjectInfo,
    meta: IngestMeta,
    default_id: Seq<char>,
    default_name: Seq<char>,
) -> bool {
    &&& p.id@ == (match meta.project_id {
        Some(s) => s@,
        None => default_id,
    })
    &&& p.name@ == (match meta.project_name {
        Some(s) => s@,
        None => default_name,
    })
    &&& p.commit_sha == meta.commit_sha
    &&& p.branch == meta.branch
}

/// The project a parser records for a report built from `meta`.
pub fn meta_project(
    meta: &IngestMeta,
    default_id: &str,
    default_name: &str,
    target: CoverageTarget,
    source: &str,
) -> (p: ProjectInfo)
    ensures
        project_from_meta(p, *meta, default_id@, default_name@),
        p.target == target,
        p.source matches Some(s) && s@ == source@,
{
    let id = match &meta.project_id {
        Some(s) => s.clone(),
        None => owned(default_id),
    };
    let name = match &meta.project_name {
        Some(s) => s.clone(),
        None => owned(default_name),
    };
    ProjectInfo {
        id,
        name,
        commit_sha: copy_opt_string(&meta.commit_sha),
        branch: copy_opt_string(&meta.branch),
        target,
        source: Some(owned(source)),
    }
}

/// Supported coverage report formats.
#[derive(Debug, Clone, Copy, PartialEq, Eq, Structural)]
pub enum CoverageFormat {
    Omnivore,
    Lcov,
    LlvmCov,
    GoCoverprofile,
    PythonCoverage,
    /// JaCoCo-compatible XML, produced by JaCoCo itself.
    Jacoco,
    /// The same XML produced by Kover; differs only in recorded provenance.
    Kover,
}

/// The format a lower-cased name denotes.
pub open spec fn format_from_name(n: Seq<char>) -> Option<CoverageFormat> {
    if n == "omnivore"@ {
        Some(CoverageFormat::Omnivore)
    } else if n == "lcov"@ {
        Some(CoverageFormat::Lcov)
    } else if n == "llvm-cov"@ || n == "llvm_cov"@ || n == "llvmcov"@ {
        Some(CoverageFormat::LlvmCov)
    } else if n == "go"@ || n == "go-coverprofile"@ || n == "go_coverprofile"@ || n == "coverprofile"@ {
        Some(CoverageFormat::GoCoverprofile)
    } else if n == "python"@ || n == "python-coverage"@ || n == "python_coverage"@ || n == "coveragepy"@
        || n == "coverage.py"@ {
        Some(CoverageFormat::PythonCoverage)
    } else if n == "kover"@ {
        Some(CoverageFormat::Kover)
    } else if n == "jacoco"@ || n == "jacoco-xml"@ || n == "jacoco_xml"@ {
        Some(CoverageFormat::Jacoco)
    } else {
        None
    }
}

/// The provenance recorded for reports of a format.
pub open spec fn format_source(f: CoverageFormat) -> Seq<char> {
    match f {
        CoverageFormat::Omnivore => "omnivore-agent"@,
        CoverageFormat::Lcov => "lcov"@,
        CoverageFormat::LlvmCov => "llvm-cov"@,
        CoverageFormat::GoCoverprofile => "go"@,
        CoverageFormat::PythonCoverage => "python-coverage"@,
        CoverageFormat::Jacoco => "jacoco"@,
        CoverageFormat::Kover => "kover"@,
    }
}

/// How many leading characters of `t` fit in `limit` UTF-8 bytes.
pub open spec fn head_chars(t: Seq<char>, limit: int) -> nat
    decreases t.len(),
{
    if t.len() == 0 || char_width(t[0]) > limit {
        0
    } else {
        1 + head_chars(t.drop_first(), limit - char_width(t[0]))
    }
}

/// A JaCoCo-compatible XML report: starts with `<`, and its first 512 bytes
/// hold the JaCoCo DTD identifier or a `<report` element.
pub open spec fn jacoco_like(t: Seq<char>) -> bool {
    let head = t.take(head_chars(t, 512) as int);
    t.len() > 0 && t[0] == '<' && (has_substring(head, "//JACOCO//DTD"@) || has_substring(head, "<report"@))
}

/// The format `detect` infers for (untrimmed) content.
pub open spec fn detected_format(content: Seq<char>) -> Option<CoverageFormat> {
    let t = trim(content);
    if has_prefix(t, "{"@) {
        if has_substring(t, "\"format\""@) && has_substring(t, "\"omnivore\""@) {
            Some(CoverageFormat::Omnivore)
        } else if has_substring(t, "\"type\""@) && has_substring(t, "llvm.coverage"@) {
            Some(CoverageFormat::LlvmCov)
        } else if has_substring(t, "\"executed_lines\""@) && has_substring(t, "\"num_statements\""@) {
            Some(CoverageFormat::PythonCoverage)
        } else {
            Some(CoverageFormat::Omnivore)
        }
    } else if has_prefix(t, "TN:"@) || has_prefix(t, "SF:"@) {
        Some(CoverageFormat::Lcov)
    } else if has_prefix(t, "mode:"@) {
        Some(CoverageFormat::GoCoverprofile)
    } else if jacoco_like(t) {
        Some(CoverageFormat::Jacoco)
    } else {
        None
    }
}

proof fn lemma_head_chars_step(t: Seq<char>, limit: int, i: int, used: int)
    requires
        0 <= i < t.len(),
        head_chars(t, limit) == i + head_chars(t.skip(i), limit - used),
    ensures
        char_width(t[i]) <= limit - used ==> head_chars(t, limit) == i + 1 + head_chars(
            t.skip(i + 1),
            limit - used - char_width(t[i]),
        ),
        char_width(t[i]) > limit - used ==> head_chars(t, limit) == i,
{
    assert(t.skip(i)[0] == t[i]);
    assert(t.skip(i).drop_first() == t.skip(i + 1));
}

/// Recognize a JaCoCo-compatible XML report (as emitted by JaCoCo and Kover)
/// in already-trimmed content, looking only at its first 512 bytes.
pub fn is_jacoco_xml(trimmed: &[char]) -> (r: bool)
    ensures
        r == jacoco_like(trimmed@),
{
    if trimmed.len() == 0 || trimmed[0] != '<' {
        return false;
    }
    let mut i: usize = 0;
    let mut used: usize = 0;
    proof {
        assert(trimmed@.skip(0) == trimmed@);
    }
    let mut stop = false;
    while i < trimmed.len() && !stop
        invariant
            i <= trimmed.len(),
            used <= 512,
            stop ==> head_chars(trimmed@, 512) == i,
            !stop ==> head_chars(trimmed@, 512) == i + head_chars(trimmed@.skip(i as int), 512 - used),
        decreases trimmed.len() - i + (if stop { 0int } else { 1int }),
    {
        let v: u32 = trimmed[i] as u32;
        let w: usize = if v <= 0x7f {
            1
        } else if v <= 0x7ff {
            2
        } else if v <= 0xffff && !(0xd800 <= v && v <= 0xdfff) {
            3
        } else {
            4
        };
        proof {
            assert(w == char_width(trimmed@[i as int]));
            lemma_head_chars_step(trimmed@, 512, i as int, used as int);
        }
        if w > 512 - used {
            stop = true;
        } else {
            used = used + w;
            i += 1;
        }
    }
    proof {
        if !stop {
            assert(trimmed@.skip(i as int).len() == 0);
        }
        assert(head_chars(trimmed@, 512) == i);
    }
    let head = crate::text::slice(trimmed, 0, i);
    proof {
        assert(head@ == trimmed@.take(i as int));
    }
    contains_str(head.as_slice(), "//JACOCO//DTD") || contains_str(head.as_slice(), "<report")
}

impl CoverageFormat {
    /// Parse a format string (case-insensitive).
    pub fn from_str_loose(s: &str) -> (r: Option<CoverageFormat>)
        ensures
            r == format_from_name(unicode_lowercase(s@)),
    {
        let lower = to_lowercase(s);
        let n = chars_of(lower.as_str());
        let n = n.as_slice();
        let eq = |lit: &str| -> (b: bool)
            ensures
                b == (n@ == lit@),
            { crate::text::eq_str(n, lit) };
        if eq("omnivore") {
            Some(CoverageFormat::Omnivore)
        } else if eq("lcov") {
            Some(CoverageFormat::Lcov)
        } else if eq("llvm-cov") || eq("llvm_cov") || eq("llvmcov") {
            Some(CoverageFormat::LlvmCov)
        } else if eq("go") || eq("go-coverprofile") || eq("go_coverprofile") || eq("coverprofile") {
            Some(CoverageFormat::GoCoverprofile)
        } else if eq("python") || eq("python-coverage") || eq("python_coverage") || eq("coveragepy")
            || eq("coverage.py") {
            Some(CoverageFormat::PythonCoverage)
        } else if eq("kover") {
            Some(CoverageFormat::Kover)
        } else if eq("jacoco") || eq("jacoco-xml") || eq("jacoco_xml") {
            Some(CoverageFormat::Jacoco)
        } else {
            None
        }
    }

    /// Canonical provenance (`source`) recorded for reports of this format.
    pub fn source(&self) -> (s: &'static str)
        ensures
            s@ == format_source(*self),
    {
        match self {
            CoverageFormat::Omnivore => source::OMNIVORE_AGENT,
            CoverageFormat::Lcov => source::LCOV,
            CoverageFormat::LlvmCov => source::LLVM_COV,
            CoverageFormat::GoCoverprofile => source::GO,
            CoverageFormat::PythonCoverage => source::PYTHON_COVERAGE,
            CoverageFormat::Jacoco => source::JACOCO,
            CoverageFormat::Kover => source::KOVER,
        }
    }

    /// Auto-detect format from content.
    pub fn detect(content: &str) -> (r: Option<CoverageFormat>)
        ensures
            r == detected_format(content@),
    {
        let chars = chars_of(content);
        let t = crate::text::trimmed(chars.as_slice());
        let t = t.as_slice();
        if starts_with_str(t, "{") {
            if contains_str(t, "\"format\"") && contains_str(t, "\"omnivore\"") {
                Some(CoverageFormat::Omnivore)
            } else if contains_str(t, "\"type\"") && contains_str(t, "llvm.coverage") {
                Some(CoverageFormat::LlvmCov)
            } else if contains_str(t, "\"executed_lines\"") && contains_str(t, "\"num_statements\"") {
                Some(CoverageFormat::PythonCoverage)
            } else {
                Some(CoverageFormat::Omnivore)
            }
        } else if starts_with_str(t, "TN:") || starts_with_str(t, "SF:") {
            Some(CoverageFormat::Lcov)
        } else if starts_with_str(t, "mode:") {
            Some(CoverageFormat::GoCoverprofile)
        } else if is_jacoco_xml(t) {
            Some(CoverageFormat::Jacoco)
        } else {
            None
        }
    }
}

} // verus!
