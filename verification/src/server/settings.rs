//! The server's switches, read from the values of their environment
//! settings (which the caller looks up), and the small request checks that
//! depend on them.

use vstd::prelude::*;

use crate::text::{
    ascii_lower, chars_of, parse_i64, parse_usize, to_i64, to_usize, decimal, decimal_digits, eq_ignore_case, eq_ignore_ascii_case, eq_str, has_prefix, is_ascii_alnum,
    owned, push_all, push_str, split, split_char, starts_with_str, string_from_chars, to_ascii_lowercase, trim,
    trim_start, trimmed, trimmed_start,
};
use crate::validation::{is_valid_repo_slug, valid_repo_slug};

verus! {

pub open spec fn opt_view(s: Option<&str>) -> Option<Seq<char>> {
    match s {
        Some(v) => Some(v@),
        None => None,
    }
}

/// A setting that reads as "on": `1`, `true`, `yes` or `on`, ignoring case
/// and surrounding whitespace; an absent setting is off.
pub open spec fn truthy(v: Option<Seq<char>>) -> bool {
    let t = ascii_lower(trim(
        match v {
            Some(s) => s,
            None => Seq::empty(),
        },
    ));
    t == "1"@ || t == "true"@ || t == "yes"@ || t == "on"@
}

pub fn is_truthy(v: Option<&str>) -> (b: bool)
    ensures
        b == truthy(opt_view(v)),
{
    let s = match v {
        Some(s) => chars_of(s),
        None => {
            proof {
                reveal_strlit("");
            }
            Vec::new()
        },
    };
    let t = to_ascii_lowercase(trimmed(s.as_slice()).as_slice());
    let t = t.as_slice();
    eq_str(t, "1") || eq_str(t, "true") || eq_str(t, "yes") || eq_str(t, "on")
}

/// Is API-key auth demanded unconditionally (`OMNIVORE_REQUIRE_API_KEY`)?
pub fn api_key_required(setting: Option<&str>) -> (b: bool)
    ensures
        b == truthy(opt_view(setting)),
{
    is_truthy(setting)
}

/// Is view access gated behind login (`OMNIVORE_REQUIRE_LOGIN_TO_VIEW`)?
pub fn require_login_to_view(setting: Option<&str>) -> (b: bool)
    ensures
        b == truthy(opt_view(setting)),
{
    is_truthy(setting)
}

/// Whether to mark auth cookies `Secure`: as `OMNIVORE_COOKIE_SECURE` says
/// when it is set and not blank, else when the dashboard URL is `https://`.
pub open spec fn secure_cookies(cookie_setting: Option<Seq<char>>, dashboard_url: Option<Seq<char>>) -> bool {
    let by_url = match dashboard_url {
        Some(u) => has_prefix(trim_start(u), "https://"@),
        None => false,
    };
    match cookie_setting {
        Some(v) => if trim(v).len() > 0 {
            truthy(Some(v))
        } else {
            by_url
        },
        None => by_url,
    }
}

pub fn cookie_secure(cookie_setting: Option<&str>, dashboard_url: Option<&str>) -> (b: bool)
    ensures
        b == secure_cookies(opt_view(cookie_setting), opt_view(dashboard_url)),
{
    if let Some(v) = cookie_setting {
        if trimmed(chars_of(v).as_slice()).len() > 0 {
            return is_truthy(Some(v));
        }
    }
    match dashboard_url {
        Some(u) => starts_with_str(trimmed_start(chars_of(u).as_slice()).as_slice(), "https://"),
        None => false,
    }
}

/// The scopes asked of GitHub when none are configured: identity and org
/// membership only, no repository access.
pub const DEFAULT_OAUTH_SCOPES: &'static str = "read:user,read:org";

/// The OAuth scopes to request: the trimmed `OMNIVORE_GITHUB_SCOPES`, or the
/// default when it is absent or blank.
pub fn oauth_scopes(setting: Option<&str>) -> (r: String)
    ensures
        r@ == match opt_view(setting) {
            Some(v) => if trim(v).len() > 0 {
                trim(v)
            } else {
                DEFAULT_OAUTH_SCOPES@
            },
            None => DEFAULT_OAUTH_SCOPES@,
        },
{
    if let Some(v) = setting {
        let t = trimmed(chars_of(v).as_slice());
        if t.len() > 0 {
            return string_from_chars(t.as_slice());
        }
    }
    owned(DEFAULT_OAUTH_SCOPES)
}

/// OAuth application credentials.
pub struct OAuthConfig {
    pub client_id: String,
    pub client_secret: String,
}

impl OAuthConfig {
    /// The configuration given by `GITHUB_CLIENT_ID` and
    /// `GITHUB_CLIENT_SECRET`; none (the dashboard stays open) when either is
    /// missing or empty.
    pub fn from_env(client_id: Option<String>, client_secret: Option<String>) -> (r: Option<OAuthConfig>)
        ensures
            match (client_id, client_secret) {
                (Some(i), Some(s)) => if i@.len() > 0 && s@.len() > 0 {
                    r matches Some(c) && c.client_id@ == i@ && c.client_secret@ == s@
                } else {
                    r is None
                },
                _ => r is None,
            },
    {
        match (client_id, client_secret) {
            (Some(i), Some(s)) => {
                if i.as_str().is_empty() || s.as_str().is_empty() {
                    None
                } else {
                    Some(OAuthConfig { client_id: i, client_secret: s })
                }
            },
            _ => None,
        }
    }
}

/// Is OAuth configured? When it is not, the dashboard runs fully open.
pub fn oauth_enabled(client_id: Option<&str>, client_secret: Option<&str>) -> (b: bool)
    ensures
        b == (client_id matches Some(i) && client_secret matches Some(s) && i@.len() > 0 && s@.len() > 0),
{
    match (client_id, client_secret) {
        (Some(i), Some(s)) => !i.is_empty() && !s.is_empty(),
        _ => false,
    }
}

/// `username` is on the comma-separated admin list, by a non-empty entry
/// equal up to ASCII case.
pub open spec fn on_admin_list(list: Seq<char>, username: Seq<char>) -> bool {
    exists|k: int|
        0 <= k < split_char(list, ',').len() && trim(#[trigger] split_char(list, ',')[k]).len() > 0 && eq_ignore_case(
            trim(split_char(list, ',')[k]),
            username,
        )
}

/// The answer `OMNIVORE_ADMIN_USERS` gives on whether `username` is an
/// admin: none when the list is absent or blank (another source decides).
pub fn admin_by_list(list: Option<&str>, username: &str) -> (r: Option<bool>)
    ensures
        list is Some && trim(list->Some_0@).len() > 0 ==> r == Some(on_admin_list(list->Some_0@, username@)),
        !(list is Some && trim(list->Some_0@).len() > 0) ==> r is None,
{
    let l = match list {
        Some(l) => l,
        None => return None,
    };
    let lc = chars_of(l);
    if trimmed(lc.as_slice()).len() == 0 {
        return None;
    }
    let u = chars_of(username);
    let parts = split(lc.as_slice(), ',');
    let mut k: usize = 0;
    while k < parts.len()
        invariant
            k <= parts@.len(),
            lc@ == l@,
            list == Some(l),
            trim(l@).len() > 0,
            u@ == username@,
            parts@.len() == split_char(l@, ',').len(),
            forall|q: int| 0 <= q < parts@.len() ==> #[trigger] parts@[q]@ == split_char(l@, ',')[q],
            forall|q: int|
                0 <= q < k ==> !(trim(#[trigger] split_char(l@, ',')[q]).len() > 0 && eq_ignore_case(
                    trim(split_char(l@, ',')[q]),
                    username@,
                )),
        decreases parts.len() - k,
    {
        let name = trimmed(parts[k].as_slice());
        if name.len() > 0 && eq_ignore_ascii_case(name.as_slice(), u.as_slice()) {
            proof {
                assert(parts@[k as int]@ == split_char(l@, ',')[k as int]);
                assert(name@ == trim(split_char(l@, ',')[k as int]));
                assert(eq_ignore_case(name@, username@));
                assert(trim(split_char(l@, ',')[k as int]).len() > 0 && eq_ignore_case(
                    trim(split_char(l@, ',')[k as int]),
                    username@,
                ));
                assert(on_admin_list(l@, username@));
            }
            return Some(true);
        }
        k += 1;
    }
    Some(false)
}

/// Reject a `github_repo` that is not a plain `owner/name` slug, so an
/// invalid value can never be stored and later put into a GitHub URL. An
/// absent or blank value clears the field and passes.
pub fn validate_repo_field(repo: Option<&str>) -> (r: Result<(), (u16, String)>)
    ensures
        match opt_view(repo) {
            None => r is Ok,
            Some(v) => if trim(v).len() == 0 || valid_repo_slug(v) {
                r is Ok
            } else {
                r matches Err(e) && e.0 == 400 && e.1@ == "Invalid github_repo '"@ + v + "' — expected owner/name"@
            },
        },
{
    match repo {
        None => Ok(()),
        Some(r) => {
            if trimmed(chars_of(r).as_slice()).len() == 0 || is_valid_repo_slug(r) {
                Ok(())
            } else {
                let mut m = chars_of("Invalid github_repo '");
                let rc = chars_of(r);
                push_all(&mut m, rc.as_slice());
                push_str(&mut m, "' — expected owner/name");
                Err((400, string_from_chars(m.as_slice())))
            }
        },
    }
}

/// Reject a project-scoped API key used against another project. `scope` is
/// the project the presented key is limited to, if any.
pub fn enforce_project_scope(scope: Option<&str>, project_id: &str) -> (r: Result<(), (u16, String)>)
    ensures
        match scope {
            None => r is Ok,
            Some(s) => if s@ == project_id@ {
                r is Ok
            } else {
                r matches Err(e) && e.0 == 403 && e.1@ == "API key is scoped to project '"@ + s@
                    + "', cannot write to '"@ + project_id@ + "'"@
            },
        },
{
    let s = match scope {
        Some(s) => s,
        None => return Ok(()),
    };
    let sc = chars_of(s);
    let pc = chars_of(project_id);
    if crate::text::seq_eq(sc.as_slice(), pc.as_slice()) {
        return Ok(());
    }
    let mut m = chars_of("API key is scoped to project '");
    push_all(&mut m, sc.as_slice());
    push_str(&mut m, "', cannot write to '");
    push_all(&mut m, pc.as_slice());
    push_str(&mut m, "'");
    Err((403, string_from_chars(m.as_slice())))
}

/// The character a project ID character becomes in a download file name.
pub open spec fn filename_char(c: char) -> char {
    if is_ascii_alnum(c) || c == '-' || c == '_' || c == '.' {
        c
    } else {
        '-'
    }
}

/// A project ID reduced to characters safe inside a quoted `filename=`
/// value: at most 100 of its characters, each unsafe one replaced by `-`;
/// `project` when nothing but dashes is left.
pub open spec fn safe_filename(id: Seq<char>) -> Seq<char> {
    let cleaned = cleaned_id(id);
    if forall|i: int| 0 <= i < cleaned.len() ==> #[trigger] cleaned[i] == '-' {
        "project"@
    } else {
        cleaned
    }
}

/// The first 100 characters of `id`, each made safe.
pub open spec fn cleaned_id(id: Seq<char>) -> Seq<char> {
    id.take(first_hundred(id)).map_values(|c: char| filename_char(c))
}

pub open spec fn first_hundred(id: Seq<char>) -> int {
    if id.len() < 100 {
        id.len() as int
    } else {
        100
    }
}

pub fn sanitize_filename(id: &str) -> (r: String)
    ensures
        r@ == safe_filename(id@),
{
    let c = chars_of(id);
    let n: usize = if c.len() < 100 { c.len() } else { 100 };
    let mut out: Vec<char> = Vec::new();
    let mut all_dash = true;
    let mut i: usize = 0;
    while i < n
        invariant
            i <= n <= c@.len(),
            c@ == id@,
            out@ == c@.take(i as int).map_values(|x: char| filename_char(x)),
            all_dash == forall|k: int| 0 <= k < out@.len() ==> out@[k] == '-',
        decreases n - i,
    {
        let x = c[i];
        let y = if crate::text::ascii_alnum(x) || x == '-' || x == '_' || x == '.' { x } else { '-' };
        let ghost before = out@;
        out.push(y);
        proof {
            assert(c@.take(i + 1).map_values(|x: char| filename_char(x)) =~= before.push(y));
            assert(out@ == before.push(y));
            if y == '-' && all_dash {
                assert forall|k: int| 0 <= k < out@.len() implies out@[k] == '-' by {
                    if k < before.len() {
                        assert(out@[k] == before[k]);
                    }
                }
            }
            if y != '-' {
                assert(out@[out@.len() - 1] != '-');
            }
            if !all_dash {
                let k = choose|k: int| 0 <= k < before.len() && before[k] != '-';
                assert(out@[k] == before[k]);
            }
        }
        if y != '-' {
            all_dash = false;
        }
        i += 1;
    }
    proof {
        assert(out@ == cleaned_id(id@));
    }
    if all_dash {
        owned("project")
    } else {
        string_from_chars(out.as_slice())
    }
}

/// A download file name holds only ASCII letters, digits, `-`, `_` and
/// `.`, is not empty, and has at most 100 characters.
pub proof fn lemma_safe_filename(id: Seq<char>)
    ensures
        safe_filename(id).len() > 0,
        safe_filename(id).len() <= 100,
        forall|i: int|
            0 <= i < safe_filename(id).len() ==> is_ascii_alnum(#[trigger] safe_filename(id)[i])
                || safe_filename(id)[i] == '-' || safe_filename(id)[i] == '_' || safe_filename(id)[i] == '.',
{
    reveal_strlit("project");
}

/// Sanitizing a name that is already safe leaves it as it is, so a file
/// name is sanitized once and for all.
pub proof fn lemma_safe_filename_idempotent(id: Seq<char>)
    ensures
        safe_filename(safe_filename(id)) == safe_filename(id),
{
    let r = safe_filename(id);
    lemma_safe_filename(id);
    let c = cleaned_id(r);
    assert(first_hundred(r) == r.len());
    assert(r.take(r.len() as int) == r);
    assert forall|i: int| 0 <= i < r.len() implies #[trigger] c[i] == r[i] by {
        assert(filename_char(r[i]) == r[i]);
    }
    assert(c =~= r);
    reveal_strlit("project");
    if forall|i: int| 0 <= i < cleaned_id(id).len() ==> #[trigger] cleaned_id(id)[i] == '-' {
        assert(r == "project"@);
        assert(r[0] == 'p');
    } else {
        assert(r == cleaned_id(id));
    }
}

/// How long the server has been up, in days, hours and minutes.
pub open spec fn uptime_text(secs: u64) -> Seq<char> {
    let days = secs / 86400;
    let hours = (secs % 86400) / 3600;
    let mins = (secs % 3600) / 60;
    if days > 0 {
        decimal(days as nat) + "d "@ + decimal(hours as nat) + "h "@ + decimal(mins as nat) + "m"@
    } else if hours > 0 {
        decimal(hours as nat) + "h "@ + decimal(mins as nat) + "m"@
    } else {
        decimal(mins as nat) + "m"@
    }
}

pub fn format_uptime(secs: u64) -> (r: String)
    ensures
        r@ == uptime_text(secs),
{
    let days = secs / 86400;
    let hours = (secs % 86400) / 3600;
    let mins = (secs % 3600) / 60;
    let mut out: Vec<char> = Vec::new();
    if days > 0 {
        push_all(&mut out, decimal_digits(days).as_slice());
        push_str(&mut out, "d ");
        push_all(&mut out, decimal_digits(hours).as_slice());
        push_str(&mut out, "h ");
    } else if hours > 0 {
        push_all(&mut out, decimal_digits(hours).as_slice());
        push_str(&mut out, "h ");
    }
    push_all(&mut out, decimal_digits(mins).as_slice());
    push_str(&mut out, "m");
    proof {
        reveal_strlit("");
    }
    string_from_chars(out.as_slice())
}

/// The trimmed, non-blank entries of a list split at commas.
pub open spec fn nonblank_trimmed(parts: Seq<Seq<char>>) -> Seq<Seq<char>>
    decreases parts.len(),
{
    if parts.len() == 0 {
        Seq::empty()
    } else {
        let rest = nonblank_trimmed(parts.drop_last());
        if trim(parts.last()).len() > 0 {
            rest.push(trim(parts.last()))
        } else {
            rest
        }
    }
}

/// Entries joined by `", "`.
pub open spec fn comma_joined(ts: Seq<Seq<char>>) -> Seq<char>
    decreases ts.len(),
{
    if ts.len() == 0 {
        Seq::empty()
    } else if ts.len() == 1 {
        ts[0]
    } else {
        comma_joined(ts.drop_last()) + ", "@ + ts.last()
    }
}

/// A project's tags as stored: none for an absent or blank field, else the
/// trimmed, non-blank comma-separated entries joined by `", "`.
pub fn normalize_tags(tags: Option<&str>) -> (r: Option<String>)
    ensures
        match opt_view(tags) {
            Some(v) => if trim(v).len() > 0 {
                r matches Some(t) && t@ == comma_joined(nonblank_trimmed(split_char(v, ',')))
            } else {
                r is None
            },
            None => r is None,
        },
{
    let v = match tags {
        Some(v) => v,
        None => return None,
    };
    let vc = chars_of(v);
    if trimmed(vc.as_slice()).len() == 0 {
        return None;
    }
    let parts = split(vc.as_slice(), ',');
    let ghost pv = split_char(v@, ',');
    let mut out: Vec<char> = Vec::new();
    let ghost mut acc: Seq<Seq<char>> = Seq::empty();
    let mut any = false;
    let mut k: usize = 0;
    while k < parts.len()
        invariant
            k <= parts@.len(),
            parts@.len() == pv.len(),
            forall|j: int| 0 <= j < parts@.len() ==> #[trigger] parts@[j]@ == pv[j],
            acc == nonblank_trimmed(pv.take(k as int)),
            out@ == comma_joined(acc),
            any == (acc.len() > 0),
        decreases parts.len() - k,
    {
        let t = trimmed(parts[k].as_slice());
        proof {
            assert(pv.take(k + 1).drop_last() == pv.take(k as int));
            assert(pv.take(k + 1).last() == pv[k as int]);
        }
        if t.len() > 0 {
            proof {
                reveal_strlit(", ");
                assert(acc.push(t@).drop_last() == acc);
            }
            if any {
                push_str(&mut out, ", ");
            }
            push_all(&mut out, t.as_slice());
            proof {
                acc = acc.push(t@);
            }
            any = true;
        }
        k += 1;
    }
    proof {
        assert(pv.take(k as int) == pv);
    }
    Some(string_from_chars(out.as_slice()))
}

/// A retention setting from its form field: the field read as an `i64`,
/// raised to `floor`; `default` when the field is absent, empty or not a
/// number.
pub open spec fn retention_value(field: Option<Seq<char>>, floor: i64, default: i64) -> i64 {
    match field {
        Some(v) => if v.len() == 0 {
            default
        } else {
            match parse_i64(v) {
                Some(n) => if n < floor {
                    floor
                } else {
                    n as i64
                },
                None => default,
            }
        },
        None => default,
    }
}

pub fn retention_setting(field: Option<&str>, floor: i64, default: i64) -> (r: i64)
    ensures
        r == retention_value(opt_view(field), floor, default),
{
    match field {
        Some(v) => {
            let vc = chars_of(v);
            if vc.len() == 0 {
                return default;
            }
            match to_i64(vc.as_slice()) {
                Some(n) => if n < floor {
                    floor
                } else {
                    n
                },
                None => default,
            }
        },
        None => default,
    }
}

/// Largest request body accepted when `OMNIVORE_MAX_UPLOAD_BYTES` is not set.
pub const DEFAULT_MAX_UPLOAD_BYTES: usize = 32 * 1024 * 1024;

/// The upload limit a setting gives: the trimmed setting read as a positive
/// `usize`, else the default.
pub open spec fn upload_limit(setting: Option<Seq<char>>) -> usize {
    match setting {
        Some(v) => match parse_usize(trim(v)) {
            Some(n) => if n > 0 {
                n as usize
            } else {
                DEFAULT_MAX_UPLOAD_BYTES
            },
            None => DEFAULT_MAX_UPLOAD_BYTES,
        },
        None => DEFAULT_MAX_UPLOAD_BYTES,
    }
}

pub fn max_upload_bytes(setting: Option<&str>) -> (n: usize)
    ensures
        n == upload_limit(opt_view(setting)),
{
    match setting {
        Some(v) => match to_usize(trimmed(chars_of(v).as_slice()).as_slice()) {
            Some(n) => if n > 0 {
                n
            } else {
                DEFAULT_MAX_UPLOAD_BYTES
            },
            None => DEFAULT_MAX_UPLOAD_BYTES,
        },
        None => DEFAULT_MAX_UPLOAD_BYTES,
    }
}

/// Which origins may call the API across origins, from
/// `OMNIVORE_CORS_ORIGINS`.
pub enum CorsPolicy {
    /// Blank or absent: same-origin only.
    SameOrigin,
    /// `*`: every origin.
    AnyOrigin,
    /// The listed origins, trimmed, blank entries dropped.
    Origins(Vec<String>),
}

pub fn cors_policy(setting: Option<&str>) -> (r: CorsPolicy)
    ensures
        ({
            let t = trim(
                match opt_view(setting) {
                    Some(v) => v,
                    None => Seq::empty(),
                },
            );
            if t.len() == 0 {
                r is SameOrigin
            } else if t == "*"@ {
                r is AnyOrigin
            } else {
                r matches CorsPolicy::Origins(v) && v@.map_values(|o: String| o@) == nonblank_trimmed(
                    split_char(t, ','),
                )
            }
        }),
{
    let t = match setting {
        Some(v) => trimmed(chars_of(v).as_slice()),
        None => {
            proof {
                reveal_strlit("");
            }
            Vec::new()
        },
    };
    if t.len() == 0 {
        return CorsPolicy::SameOrigin;
    }
    if eq_str(t.as_slice(), "*") {
        return CorsPolicy::AnyOrigin;
    }
    let parts = split(t.as_slice(), ',');
    let ghost pv = split_char(t@, ',');
    let mut out: Vec<String> = Vec::new();
    let mut k: usize = 0;
    while k < parts.len()
        invariant
            k <= parts@.len(),
            parts@.len() == pv.len(),
            forall|j: int| 0 <= j < parts@.len() ==> #[trigger] parts@[j]@ == pv[j],
            out@.map_values(|o: String| o@) == nonblank_trimmed(pv.take(k as int)),
        decreases parts.len() - k,
    {
        let e = trimmed(parts[k].as_slice());
        proof {
            assert(pv.take(k + 1).drop_last() == pv.take(k as int));
            assert(pv.take(k + 1).last() == pv[k as int]);
        }
        if e.len() > 0 {
            out.push(string_from_chars(e.as_slice()));
        }
        proof {
            assert(out@.map_values(|o: String| o@) =~= nonblank_trimmed(pv.take(k + 1)));
        }
        k += 1;
    }
    proof {
        assert(pv.take(k as int) == pv);
    }
    CorsPolicy::Origins(out)
}

/// What a write request must show: nothing when no key is required, else
/// the key it presents, to be looked up.
pub enum WriteAccess {
    Open,
    Presented(String),
}

/// The first step of authenticating a write: a key is required when
/// `OMNIVORE_REQUIRE_API_KEY` is on or any key exists; a request that needs
/// one and carries no `X-API-Key` header (`header`) is refused.
pub fn write_access(required_setting: bool, keys_exist: bool, header: Option<&str>) -> (r: Result<
    WriteAccess,
    (u16, String),
>)
    ensures
        !(required_setting || keys_exist) ==> r matches Ok(WriteAccess::Open),
        (required_setting || keys_exist) && header is None ==> (r matches Err(e) && e.0 == 401 && e.1@
            == "Missing X-API-Key header"@),
        (required_setting || keys_exist) && header is Some ==> (r matches Ok(WriteAccess::Presented(k)) && k@
            == header->Some_0@),
{
    if !(required_setting || keys_exist) {
        return Ok(WriteAccess::Open);
    }
    match header {
        Some(h) => Ok(WriteAccess::Presented(owned(h))),
        None => Err((401, owned("Missing X-API-Key header"))),
    }
}

/// The second step: the presented key must be one the store knows.
pub fn presented_key_outcome(found: bool) -> (r: Result<(), (u16, String)>)
    ensures
        found ==> r is Ok,
        !found ==> (r matches Err(e) && e.0 == 401 && e.1@ == "Invalid API key"@),
{
    if found {
        Ok(())
    } else {
        Err((401, owned("Invalid API key")))
    }
}

/// The OAuth callback's CSRF check, made before the code is spent: the state
/// cookie must be present and the `state` parameter (empty when absent) equal
/// to it.
pub fn oauth_state_check(cookie: Option<&str>, provided: Option<&str>) -> (r: Result<(), (u16, String)>)
    ensures
        cookie is None ==> (r matches Err(e) && e.0 == 400 && e.1@
            == "Missing OAuth state cookie — restart login from /auth/login"@),
        cookie is Some ==> {
            let p = match provided {
                Some(v) => v@,
                None => Seq::<char>::empty(),
            };
            &&& (cookie->Some_0@ == p ==> r is Ok)
            &&& (cookie->Some_0@ != p ==> (r matches Err(e) && e.0 == 400 && e.1@
                == "OAuth state mismatch — possible login CSRF; restart login"@))
        },
{
    let expected = match cookie {
        Some(c) => c,
        None => return Err((400, owned("Missing OAuth state cookie — restart login from /auth/login"))),
    };
    let given = match provided {
        Some(p) => p,
        None => "",
    };
    proof {
        reveal_strlit("");
        assert(given@ == match provided {
            Some(v) => v@,
            None => Seq::<char>::empty(),
        });
    }
    if !crate::server::csrf::constant_time_eq(expected, given) {
        return Err((400, owned("OAuth state mismatch — possible login CSRF; restart login")));
    }
    Ok(())
}

} // verus!
