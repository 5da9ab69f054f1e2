//! Validation for values that get interpolated into outbound URLs.
//!
//! Repository slugs, repository-relative paths and git refs are formatted
//! straight into GitHub API and raw-content URL paths. These checks are the
//! single gate every such value passes, so that a caller-supplied value can
//! never change the shape of the path it is placed in.

use vstd::prelude::*;

use crate::text::{
    ascii_alnum, chars_of, control, eq_str, is_ascii_alnum, is_cc, split, split_char, utf8_len,
    utf8_len_at_most,
};

verus! {

/// Characters GitHub allows in an owner name.
pub open spec fn owner_char(c: char) -> bool {
    is_ascii_alnum(c) || c == '-' || c == '_'
}

/// Characters GitHub allows in a repository name (and that are safe in a git ref here).
pub open spec fn name_char(c: char) -> bool {
    is_ascii_alnum(c) || c == '-' || c == '_' || c == '.'
}

pub open spec fn is_dot_segment(s: Seq<char>) -> bool {
    s == "."@ || s == ".."@
}

pub open spec fn valid_owner(s: Seq<char>) -> bool {
    &&& s.len() > 0
    &&& utf8_len(s) <= 39
    &&& !is_dot_segment(s)
    &&& forall|i: int| 0 <= i < s.len() ==> owner_char(#[trigger] s[i])
}

pub open spec fn valid_repo_name(s: Seq<char>) -> bool {
    &&& s.len() > 0
    &&& utf8_len(s) <= 100
    &&& !is_dot_segment(s)
    &&& forall|i: int| 0 <= i < s.len() ==> name_char(#[trigger] s[i])
}

/// An `owner/name` slug: exactly two `/`-separated parts, each valid.
pub open spec fn valid_repo_slug(s: Seq<char>) -> bool {
    let parts = split_char(s, '/');
    parts.len() == 2 && valid_owner(parts[0]) && valid_repo_name(parts[1])
}

/// A repository-relative path safe to append to a URL.
pub open spec fn safe_repo_path(s: Seq<char>) -> bool {
    &&& s.len() > 0
    &&& utf8_len(s) <= 1024
    &&& s[0] != '/'
    &&& forall|i: int| 0 <= i < s.len() ==> !is_cc(#[trigger] s[i]) && s[i] != '\\'
    &&& forall|k: int| 0 <= k < split_char(s, '/').len() ==> {
        let seg = #[trigger] split_char(s, '/')[k];
        seg.len() > 0 && !is_dot_segment(seg)
    }
}

/// A git ref safe to interpolate into a URL path: a commit SHA, tag, or branch
/// name without traversal or separators of its own.
pub open spec fn valid_git_ref(s: Seq<char>) -> bool {
    valid_repo_name(s)
}

fn all_chars(s: &[char], dots: bool) -> (r: bool)
    ensures
        r == forall|i: int| 0 <= i < s@.len() ==> (if dots { name_char(#[trigger] s@[i]) } else { owner_char(s@[i]) }),
{
    let mut i: usize = 0;
    while i < s.len()
        invariant
            i <= s.len(),
            forall|k: int| 0 <= k < i ==> (if dots { name_char(#[trigger] s@[k]) } else { owner_char(s@[k]) }),
        decreases s.len() - i,
    {
        let c = s[i];
        if !(ascii_alnum(c) || c == '-' || c == '_' || (dots && c == '.')) {
            return false;
        }
        i += 1;
    }
    true
}

fn dot_segment(s: &[char]) -> (r: bool)
    ensures
        r == is_dot_segment(s@),
{
    eq_str(s, ".") || eq_str(s, "..")
}

pub fn is_valid_owner(owner: &[char]) -> (r: bool)
    ensures
        r == valid_owner(owner@),
{
    owner.len() > 0 && utf8_len_at_most(owner, 39) && !dot_segment(owner) && all_chars(owner, false)
}

pub fn is_valid_repo_name(name: &[char]) -> (r: bool)
    ensures
        r == valid_repo_name(name@),
{
    name.len() > 0 && utf8_len_at_most(name, 100) && !dot_segment(name) && all_chars(name, true)
}

/// Validate a GitHub repository slug (`owner/name`).
///
/// Accepts exactly two non-empty segments made of characters GitHub actually
/// allows in owner and repository names. Rejects `.`/`..` segments, extra
/// slashes, whitespace, and anything that could alter the shape of a URL path.
pub fn is_valid_repo_slug(repo: &str) -> (r: bool)
    ensures
        r == valid_repo_slug(repo@),
{
    let chars = chars_of(repo);
    let parts = split(chars.as_slice(), '/');
    if parts.len() != 2 {
        return false;
    }
    is_valid_owner(parts[0].as_slice()) && is_valid_repo_name(parts[1].as_slice())
}

/// Validate a repository-relative file path before it is appended to a URL.
///
/// Rejects absolute paths, `..` traversal, empty segments, and control
/// characters.
pub fn is_safe_repo_path(path: &str) -> (r: bool)
    ensures
        r == safe_repo_path(path@),
{
    let s = chars_of(path);
    if s.len() == 0 || !utf8_len_at_most(s.as_slice(), 1024) || s[0] == '/' {
        return false;
    }
    let mut i: usize = 0;
    while i < s.len()
        invariant
            i <= s.len(),
            s@ == path@,
            forall|k: int| 0 <= k < i ==> !is_cc(#[trigger] s@[k]) && s@[k] != '\\',
        decreases s.len() - i,
    {
        if control(s[i]) || s[i] == '\\' {
            proof {
                assert(!(!is_cc(s@[i as int]) && s@[i as int] != '\\'));
            }
            return false;
        }
        i += 1;
    }
    let parts = split(s.as_slice(), '/');
    let mut k: usize = 0;
    while k < parts.len()
        invariant
            k <= parts.len(),
            s@ == path@,
            parts@.len() == split_char(s@, '/').len(),
            forall|j: int| 0 <= j < parts@.len() ==> #[trigger] parts@[j]@ == split_char(s@, '/')[j],
            forall|j: int| 0 <= j < k ==> {
                let seg = #[trigger] split_char(s@, '/')[j];
                seg.len() > 0 && !is_dot_segment(seg)
            },
        decreases parts.len() - k,
    {
        if parts[k].len() == 0 || dot_segment(parts[k].as_slice()) {
            proof {
                assert(parts@[k as int]@ == split_char(s@, '/')[k as int]);
                let seg = split_char(s@, '/')[k as int];
                assert(!(seg.len() > 0 && !is_dot_segment(seg)));
            }
            return false;
        }
        proof {
            assert(parts@[k as int]@ == split_char(s@, '/')[k as int]);
        }
        k += 1;
    }
    true
}

/// A git ref safe to interpolate into a URL path.
pub fn is_valid_git_ref(git_ref: &str) -> (r: bool)
    ensures
        r == valid_git_ref(git_ref@),
{
    let s = chars_of(git_ref);
    is_valid_repo_name(s.as_slice())
}

} // verus!
