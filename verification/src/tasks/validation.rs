//! Input validation for titles, tags and descriptions.

use vstd::prelude::*;

use crate::tasks::model::TaskError;
use crate::text::{
    alphanumeric, chars_of, contains_char, is_ws, owned, string_from_chars, trim, trim_bounds,
    unicode_alphanumeric, utf8_len, utf8_len_at_most, whitespace,
};

verus! {

/// Why a title is rejected, if it is.
pub open spec fn title_problem(title: Seq<char>) -> Option<Seq<char>> {
    let t = trim(title);
    if t.len() == 0 {
        Some("Title cannot be empty"@)
    } else if utf8_len(t) > 200 {
        Some("Title cannot exceed 200 characters"@)
    } else if t.contains('\n') || t.contains('\r') {
        Some("Title cannot contain newlines"@)
    } else {
        None
    }
}

/// A character allowed in a tag.
pub open spec fn tag_char(c: char) -> bool {
    unicode_alphanumeric(c) || c == '-' || c == '_'
}

/// Why a tag is rejected, if it is.
pub open spec fn tag_problem(tag: Seq<char>) -> Option<Seq<char>> {
    let t = trim(tag);
    if t.len() == 0 {
        Some("Tag cannot be empty"@)
    } else if utf8_len(t) > 50 {
        Some("Tag cannot exceed 50 characters"@)
    } else if !(forall|i: int| 0 <= i < t.len() ==> tag_char(#[trigger] t[i])) {
        Some("Tag can only contain alphanumeric characters, hyphens, and underscores"@)
    } else {
        None
    }
}

/// The outcome of a validation that reports `problem`.
pub open spec fn validated(r: Result<(), TaskError>, problem: Option<Seq<char>>) -> bool {
    match problem {
        None => r is Ok,
        Some(m) => r matches Err(TaskError::ValidationError(msg)) && msg@ == m,
    }
}

fn validation_error(msg: &str) -> (r: Result<(), TaskError>)
    ensures
        r matches Err(TaskError::ValidationError(m)) && m@ == msg@,
{
    Err(TaskError::ValidationError(owned(msg)))
}

/// Validate a task title.
pub fn validate_title(title: &str) -> (r: Result<(), TaskError>)
    ensures
        validated(r, title_problem(title@)),
{
    let chars = chars_of(title);
    let (lo, hi) = trim_bounds(chars.as_slice());
    let t = crate::text::slice(chars.as_slice(), lo, hi);
    if t.len() == 0 {
        return validation_error("Title cannot be empty");
    }
    if !utf8_len_at_most(t.as_slice(), 200) {
        return validation_error("Title cannot exceed 200 characters");
    }
    if contains_char(t.as_slice(), '\n') || contains_char(t.as_slice(), '\r') {
        return validation_error("Title cannot contain newlines");
    }
    Ok(())
}

/// Validate a tag name.
pub fn validate_tag(tag: &str) -> (r: Result<(), TaskError>)
    ensures
        validated(r, tag_problem(tag@)),
{
    let chars = chars_of(tag);
    let (lo, hi) = trim_bounds(chars.as_slice());
    let t = crate::text::slice(chars.as_slice(), lo, hi);
    if t.len() == 0 {
        return validation_error("Tag cannot be empty");
    }
    if !utf8_len_at_most(t.as_slice(), 50) {
        return validation_error("Tag cannot exceed 50 characters");
    }
    let mut i: usize = 0;
    while i < t.len()
        invariant
            i <= t.len(),
            t@ == trim(tag@),
            t.len() > 0,
            utf8_len(t@) <= 50,
            forall|k: int| 0 <= k < i ==> tag_char(#[trigger] t@[k]),
        decreases t.len() - i,
    {
        let c = t[i];
        if !(alphanumeric(c) || c == '-' || c == '_') {
            proof {
                assert(t@ == trim(tag@));
                assert(!tag_char(trim(tag@)[i as int]));
                assert(!(forall|k: int| 0 <= k < trim(tag@).len() ==> tag_char(#[trigger] trim(tag@)[k])));
            }
            return validation_error(
                "Tag can only contain alphanumeric characters, hyphens, and underscores",
            );
        }
        i += 1;
    }
    Ok(())
}

/// `s` with every run of Unicode whitespace replaced by one space; `space`
/// says whether the text before `s` already ended in such a run.
pub open spec fn collapse_ws(s: Seq<char>, space: bool) -> Seq<char>
    decreases s.len(),
{
    if s.len() == 0 {
        Seq::empty()
    } else if is_ws(s[0]) {
        if space {
            collapse_ws(s.drop_first(), true)
        } else {
            seq![' '] + collapse_ws(s.drop_first(), true)
        }
    } else {
        seq![s[0]] + collapse_ws(s.drop_first(), false)
    }
}

/// A description as stored: trimmed, with whitespace runs collapsed to one space.
pub open spec fn sanitized(desc: Seq<char>) -> Seq<char> {
    collapse_ws(trim(desc), false)
}

/// Sanitize a description by trimming and collapsing whitespace runs.
pub fn sanitize_description(desc: &str) -> (r: String)
    ensures
        r@ == sanitized(desc@),
{
    let chars = chars_of(desc);
    let (lo, hi) = trim_bounds(chars.as_slice());
    let ghost t = chars@.subrange(lo as int, hi as int);
    let mut out: Vec<char> = Vec::new();
    let mut last_was_space = false;
    let mut i: usize = lo;
    proof {
        assert(t.skip(0) == t);
        assert(out@ + collapse_ws(t.skip(i - lo), last_was_space) == collapse_ws(t, false));
    }
    while i < hi
        invariant
            lo <= i <= hi <= chars.len(),
            t == chars@.subrange(lo as int, hi as int),
            out@ + collapse_ws(t.skip(i - lo), last_was_space) == collapse_ws(t, false),
        decreases hi - i,
    {
        let ch = chars[i];
        proof {
            assert(t.skip(i - lo)[0] == ch);
            assert(t.skip(i - lo).drop_first() == t.skip(i - lo + 1));
        }
        if whitespace(ch) {
            if !last_was_space {
                out.push(' ');
                last_was_space = true;
                proof {
                    assert(out@ + collapse_ws(t.skip(i - lo + 1), true) == out@.drop_last() + (seq![' '] + collapse_ws(t.skip(i - lo + 1), true)));
                }
            }
        } else {
            out.push(ch);
            last_was_space = false;
            proof {
                assert(out@ + collapse_ws(t.skip(i - lo + 1), false) == out@.drop_last() + (seq![ch] + collapse_ws(t.skip(i - lo + 1), false)));
            }
        }
        i += 1;
    }
    proof {
        assert(t.skip(i - lo).len() == 0);
        assert(out@ + collapse_ws(t.skip(i - lo), last_was_space) == out@);
        assert(t.skip(0) == t);
    }
    string_from_chars(out.as_slice())
}

} // verus!
