//! The decisions of the ingest endpoint and the coverage badge that do not
//! touch storage: which format and target an upload is read as, with which
//! metadata, and which series a badge names.

use vstd::prelude::*;

use crate::coverage::format::{detected_format, format_from_name, CoverageFormat, IngestMeta};
use crate::coverage::model::{copy_opt_string, normalized_target_name, target_from_name, CoverageTarget};
use crate::text::{chars_of, eq_ignore_ascii_case, eq_ignore_case, owned, push_all, push_str, string_from_chars, unicode_lowercase};

verus! {

/// Query parameters of the ingest endpoint.
pub struct IngestParams {
    /// Explicit format; detected from the body when absent.
    pub format: Option<String>,
    /// Coverage target for formats that do not record their own.
    pub target: Option<String>,
    pub project_id: Option<String>,
    pub project_name: Option<String>,
    pub commit_sha: Option<String>,
    pub branch: Option<String>,
    /// GitHub repository slug for pull-request comments.
    pub github_repo: Option<String>,
    /// Pull request to comment on.
    pub pr_number: Option<u64>,
    /// Branch to compare against.
    pub base_branch: Option<String>,
}

/// The format an upload is read as, or the answer to a request whose
/// format is unknown or cannot be detected.
pub fn ingest_format(format: Option<&str>, body: &str) -> (r: Result<CoverageFormat, (u16, String)>)
    ensures
        match format {
            Some(f) => match format_from_name(unicode_lowercase(f@)) {
                Some(x) => r == Ok::<CoverageFormat, (u16, String)>(x),
                None => r matches Err(e) && e.0 == 400 && e.1@ == "Unknown format: "@ + f@
                    + ". Use omnivore, lcov, llvm-cov, go, python, kover, or jacoco"@,
            },
            None => match detected_format(body@) {
                Some(x) => r == Ok::<CoverageFormat, (u16, String)>(x),
                None => r matches Err(e) && e.0 == 400 && e.1@
                    == "Could not detect format. Specify ?format= query parameter"@,
            },
        },
{
    match format {
        Some(f) => match CoverageFormat::from_str_loose(f) {
            Some(x) => Ok(x),
            None => {
                let mut m = chars_of("Unknown format: ");
                push_all(&mut m, chars_of(f).as_slice());
                push_str(&mut m, ". Use omnivore, lcov, llvm-cov, go, python, kover, or jacoco");
                Err((400, string_from_chars(m.as_slice())))
            },
        },
        None => match CoverageFormat::detect(body) {
            Some(x) => Ok(x),
            None => Err((400, owned("Could not detect format. Specify ?format= query parameter"))),
        },
    }
}

/// The target a JaCoCo or Kover upload is recorded under: the requested one,
/// or JVM unit tests when none is requested.
pub fn jacoco_target(target: Option<&str>) -> (r: Result<CoverageTarget, (u16, String)>)
    ensures
        match target {
            Some(t) => match target_from_name(normalized_target_name(t@)) {
                Some(x) => r == Ok::<CoverageTarget, (u16, String)>(x),
                None => r matches Err(e) && e.0 == 400 && e.1@ == "Unknown target: "@ + t@,
            },
            None => r == Ok::<CoverageTarget, (u16, String)>(CoverageTarget::JvmUnit),
        },
{
    match target {
        Some(t) => match CoverageTarget::from_str_loose(t) {
            Some(x) => Ok(x),
            None => {
                let mut m = chars_of("Unknown target: ");
                push_all(&mut m, chars_of(t).as_slice());
                Err((400, string_from_chars(m.as_slice())))
            },
        },
        None => Ok(CoverageTarget::JvmUnit),
    }
}

/// The metadata an upload's query gives the parsers.
pub fn ingest_meta(params: &IngestParams) -> (m: IngestMeta)
    ensures
        m.project_id == params.project_id,
        m.project_name == params.project_name,
        m.commit_sha == params.commit_sha,
        m.branch == params.branch,
{
    IngestMeta {
        project_id: copy_opt_string(&params.project_id),
        project_name: copy_opt_string(&params.project_name),
        commit_sha: copy_opt_string(&params.commit_sha),
        branch: copy_opt_string(&params.branch),
    }
}

/// Query parameters of the badge endpoint.
pub struct BadgeQuery {
    /// `line` (the default) or `branch`.
    pub metric: Option<String>,
    /// Only series of this target.
    pub target: Option<String>,
    /// Only series of this provenance.
    pub source: Option<String>,
}

/// A filter that is present and not empty.
pub open spec fn wanted(f: Option<String>) -> Option<Seq<char>> {
    match f {
        Some(s) => if s@.len() > 0 {
            Some(s@)
        } else {
            None
        },
        None => None,
    }
}

pub open spec fn filter_admits(f: Option<Seq<char>>, v: Seq<char>) -> bool {
    match f {
        Some(w) => eq_ignore_case(w, v),
        None => true,
    }
}

/// A `(target, source)` series passes the badge's filters.
pub open spec fn series_admitted(s: (String, String), q: BadgeQuery) -> bool {
    filter_admits(wanted(q.target), s.0@) && filter_admits(wanted(q.source), s.1@)
}

/// How many of `series` pass the filters.
pub open spec fn admitted_count(series: Seq<(String, String)>, q: BadgeQuery) -> nat
    decreases series.len(),
{
    if series.len() == 0 {
        0
    } else {
        admitted_count(series.drop_last(), q) + if series_admitted(series.last(), q) {
            1nat
        } else {
            0nat
        }
    }
}

fn admits(f: &Option<String>, v: &String) -> (b: bool)
    ensures
        b == filter_admits(wanted(*f), v@),
{
    match f {
        Some(w) => {
            if w.as_str().is_empty() {
                true
            } else {
                eq_ignore_ascii_case(chars_of(w.as_str()).as_slice(), chars_of(v.as_str()).as_slice())
            }
        },
        None => true,
    }
}

/// The single series a badge should show: the one series passing the
/// filters. None when no series or several pass, so the badge reads
/// "unknown" rather than silently picking one.
pub fn select_badge_series(series: &Vec<(String, String)>, q: &BadgeQuery) -> (r: Option<usize>)
    ensures
        match r {
            Some(i) => i < series@.len() && series_admitted(series@[i as int], *q) && admitted_count(series@, *q)
                == 1,
            None => admitted_count(series@, *q) != 1,
        },
{
    let mut found: Option<usize> = None;
    let mut count: usize = 0;
    let mut i: usize = 0;
    proof {
        assert(series@.take(0) =~= Seq::<(String, String)>::empty());
    }
    while i < series.len()
        invariant
            i <= series@.len(),
            count == admitted_count(series@.take(i as int), *q),
            count <= i,
            match found {
                Some(k) => k < i && series_admitted(series@[k as int], *q) && count >= 1,
                None => count == 0,
            },
        decreases series.len() - i,
    {
        proof {
            assert(series@.take(i + 1).drop_last() == series@.take(i as int));
            assert(series@.take(i + 1).last() == series@[i as int]);
        }
        let s = &series[i];
        if admits(&q.target, &s.0) && admits(&q.source, &s.1) {
            count = count + 1;
            if found.is_none() {
                found = Some(i);
            }
        }
        i += 1;
    }
    proof {
        assert(series@.take(i as int) == series@);
    }
    if count == 1 {
        found
    } else {
        None
    }
}

} // verus!
