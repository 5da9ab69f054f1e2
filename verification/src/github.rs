//! Finding a covered file's source on GitHub: the URLs to fetch, how a
//! coverage path is matched against a repository's file list, and the cache
//! of those lists. The requests themselves are made by the caller.

use vstd::prelude::*;

use crate::text::{
    chars_of, contains_str, ends_with, has_substring, has_suffix, owned, push_all, push_str, split,
    split_char, string_from_chars,
};
use crate::validation::{is_safe_repo_path, is_valid_git_ref, is_valid_repo_slug, safe_repo_path, valid_git_ref, valid_repo_slug};

verus! {

/// The raw-content URL of `file_path` at `commit_sha` (the default branch's
/// head when absent), or none when the repository, path or ref could not be
/// put into a URL safely.
pub fn source_url(github_repo: &str, file_path: &str, commit_sha: Option<&str>) -> (r: Option<String>)
    ensures
        match r {
            Some(u) => valid_repo_slug(github_repo@) && safe_repo_path(file_path@) && (commit_sha matches Some(s)
                ==> valid_git_ref(s@)) && u@ == "https://raw.githubusercontent.com/"@ + github_repo@ + "/"@ + (
            match commit_sha {
                Some(s) => s@,
                None => "HEAD"@,
            }) + "/"@ + file_path@,
            None => !(valid_repo_slug(github_repo@) && safe_repo_path(file_path@) && (commit_sha matches Some(s)
                ==> valid_git_ref(s@))),
        },
{
    if !is_valid_repo_slug(github_repo) || !is_safe_repo_path(file_path) {
        return None;
    }
    if let Some(s) = commit_sha {
        if !is_valid_git_ref(s) {
            return None;
        }
    }
    let git_ref = match commit_sha {
        Some(s) => s,
        None => "HEAD",
    };
    let mut u = chars_of("https://raw.githubusercontent.com/");
    push_all(&mut u, chars_of(github_repo).as_slice());
    push_str(&mut u, "/");
    push_all(&mut u, chars_of(git_ref).as_slice());
    push_str(&mut u, "/");
    push_all(&mut u, chars_of(file_path).as_slice());
    Some(string_from_chars(u.as_slice()))
}

/// The Git Trees API URL listing a repository's files, or none for an
/// invalid repository slug.
pub fn tree_url(github_repo: &str) -> (r: Option<String>)
    ensures
        match r {
            Some(u) => valid_repo_slug(github_repo@) && u@ == "https://api.github.com/repos/"@ + github_repo@
                + "/git/trees/HEAD?recursive=1"@,
            None => !valid_repo_slug(github_repo@),
        },
{
    if !is_valid_repo_slug(github_repo) {
        return None;
    }
    let mut u = chars_of("https://api.github.com/repos/");
    push_all(&mut u, chars_of(github_repo).as_slice());
    push_str(&mut u, "/git/trees/HEAD?recursive=1");
    Some(string_from_chars(u.as_slice()))
}

/// The paths of the files (blobs) among a repository's tree entries, in
/// order; each entry is a path and its kind.
pub open spec fn blob_paths(entries: Seq<(String, String)>) -> Seq<Seq<char>>
    decreases entries.len(),
{
    if entries.len() == 0 {
        Seq::empty()
    } else {
        let rest = blob_paths(entries.drop_last());
        if entries.last().1@ == "blob"@ {
            rest.push(entries.last().0@)
        } else {
            rest
        }
    }
}

/// The file list a repository's tree gives: the paths of its blobs.
pub fn tree_files(entries: &Vec<(String, String)>) -> (r: Vec<String>)
    ensures
        r@.map_values(|s: String| s@) == blob_paths(entries@),
{
    let mut out: Vec<String> = Vec::new();
    let mut i: usize = 0;
    proof {
        assert(out@.map_values(|s: String| s@) =~= blob_paths(entries@.take(0)));
    }
    while i < entries.len()
        invariant
            i <= entries@.len(),
            out@.map_values(|s: String| s@) == blob_paths(entries@.take(i as int)),
        decreases entries.len() - i,
    {
        proof {
            assert(entries@.take(i + 1).drop_last() == entries@.take(i as int));
            assert(entries@.take(i + 1).last() == entries@[i as int]);
        }
        let e = &entries[i];
        if crate::text::eq_str(chars_of(e.1.as_str()).as_slice(), "blob") {
            let ghost before = out@.map_values(|s: String| s@);
            out.push(e.0.clone());
            proof {
                assert(out@.map_values(|s: String| s@) =~= before.push(e.0@));
            }
        }
        i += 1;
    }
    proof {
        assert(entries@.take(i as int) == entries@);
    }
    out
}

/// The last `/`-separated segment of a path.
pub open spec fn basename(p: Seq<char>) -> Seq<char> {
    split_char(p, '/').last()
}

/// `p` is the coverage path `cp` or ends with `/cp`.
pub open spec fn path_matches(p: Seq<char>, cp: Seq<char>) -> bool {
    has_suffix(p, "/"@ + cp) || p == cp
}

/// The paths of `ps` that the coverage path `cp` names, in order.
pub open spec fn matching(ps: Seq<Seq<char>>, cp: Seq<char>) -> Seq<Seq<char>>
    decreases ps.len(),
{
    if ps.len() == 0 {
        Seq::empty()
    } else {
        let rest = matching(ps.drop_last(), cp);
        if path_matches(ps.last(), cp) {
            rest.push(ps.last())
        } else {
            rest
        }
    }
}

/// The paths of `ps` under a `src/main/` directory, in order.
pub open spec fn under_src_main(ps: Seq<Seq<char>>) -> Seq<Seq<char>>
    decreases ps.len(),
{
    if ps.len() == 0 {
        Seq::empty()
    } else {
        let rest = under_src_main(ps.drop_last());
        if has_substring(ps.last(), "/src/main/"@) {
            rest.push(ps.last())
        } else {
            rest
        }
    }
}

/// The paths of `ps` whose file is named `name`, in order.
pub open spec fn named(ps: Seq<Seq<char>>, name: Seq<char>) -> Seq<Seq<char>>
    decreases ps.len(),
{
    if ps.len() == 0 {
        Seq::empty()
    } else {
        let rest = named(ps.drop_last(), name);
        if basename(ps.last()) == name {
            rest.push(ps.last())
        } else {
            rest
        }
    }
}

/// The first path of least length.
pub open spec fn first_shortest(ps: Seq<Seq<char>>) -> Seq<char>
    decreases ps.len(),
{
    if ps.len() <= 1 {
        ps[0]
    } else {
        let b = first_shortest(ps.drop_last());
        if ps.last().len() < b.len() {
            ps.last()
        } else {
            b
        }
    }
}

/// How many trailing segments `a` and `b` share.
pub open spec fn common_tail(a: Seq<Seq<char>>, b: Seq<Seq<char>>) -> nat
    decreases a.len(),
{
    if a.len() == 0 || b.len() == 0 || a.last() != b.last() {
        0
    } else {
        1 + common_tail(a.drop_last(), b.drop_last())
    }
}

/// The first path sharing the most trailing segments with `parts`.
pub open spec fn best_overlap(ps: Seq<Seq<char>>, parts: Seq<Seq<char>>) -> Seq<char>
    decreases ps.len(),
{
    if ps.len() <= 1 {
        ps[0]
    } else {
        let b = best_overlap(ps.drop_last(), parts);
        if common_tail(parts, split_char(ps.last(), '/')) > common_tail(parts, split_char(b, '/')) {
            ps.last()
        } else {
            b
        }
    }
}

/// Where a coverage path lives in a repository with the files `ps`: the
/// single file whose path ends with it; among several, the single one under
/// `src/main/`, else the first shortest. With none, the single file of the
/// same name, or among several the first sharing the most trailing
/// segments with the coverage path.
pub open spec fn resolved(ps: Seq<Seq<char>>, cp: Seq<char>) -> Option<Seq<char>> {
    let ms = matching(ps, cp);
    if ms.len() == 1 {
        Some(ms[0])
    } else if ms.len() > 1 {
        let sm = under_src_main(ms);
        if sm.len() == 1 {
            Some(sm[0])
        } else {
            Some(first_shortest(ms))
        }
    } else {
        let ns = named(ps, basename(cp));
        if ns.len() == 0 {
            None
        } else if ns.len() == 1 {
            Some(ns[0])
        } else {
            Some(best_overlap(ns, split_char(cp, '/')))
        }
    }
}

fn last_segment(p: &[char]) -> (r: Vec<char>)
    ensures
        r@ == basename(p@),
{
    let parts = split(p, '/');
    proof {
        crate::text::lemma_split_char_nonempty(p@, '/');
    }
    crate::text::slice(parts[parts.len() - 1].as_slice(), 0, parts[parts.len() - 1].len())
}

fn tail_overlap(a: &Vec<Vec<char>>, b: &Vec<Vec<char>>) -> (n: usize)
    ensures
        n == common_tail(a@.map_values(|v: Vec<char>| v@), b@.map_values(|v: Vec<char>| v@)),
{
    let ghost av = a@.map_values(|v: Vec<char>| v@);
    let ghost bv = b@.map_values(|v: Vec<char>| v@);
    let mut n: usize = 0;
    let mut go = true;
    proof {
        assert(av.take(a@.len() as int) == av);
        assert(bv.take(b@.len() as int) == bv);
    }
    while go && n < a.len() && n < b.len()
        invariant
            av == a@.map_values(|v: Vec<char>| v@),
            bv == b@.map_values(|v: Vec<char>| v@),
            n <= a@.len(),
            n <= b@.len(),
            common_tail(av, bv) == n + common_tail(av.take(a@.len() - n), bv.take(b@.len() - n)),
            !go ==> common_tail(av.take(a@.len() - n), bv.take(b@.len() - n)) == 0,
        decreases a.len() - n + (if go { 1int } else { 0int }),
    {
        let x = &a[a.len() - 1 - n];
        let y = &b[b.len() - 1 - n];
        let ghost at = av.take(a@.len() - n);
        let ghost bt = bv.take(b@.len() - n);
        proof {
            assert(at.last() == x@);
            assert(bt.last() == y@);
        }
        if crate::text::seq_eq(x.as_slice(), y.as_slice()) {
            proof {
                assert(at.drop_last() == av.take(a@.len() - n - 1));
                assert(bt.drop_last() == bv.take(b@.len() - n - 1));
            }
            n += 1;
        } else {
            go = false;
        }
    }
    proof {
        if go {
            assert(av.take(a@.len() - n).len() == 0 || bv.take(b@.len() - n).len() == 0);
        }
    }
    n
}

fn splits(p: &[char]) -> (r: Vec<Vec<char>>)
    ensures
        r@.map_values(|v: Vec<char>| v@) == split_char(p@, '/'),
{
    let r = split(p, '/');
    proof {
        assert(r@.map_values(|v: Vec<char>| v@) =~= split_char(p@, '/'));
    }
    r
}

/// Find where a coverage path like `com/example/Foo.kt` lives among a
/// repository's files (`app/src/main/java/com/example/Foo.kt`).
pub fn resolve_in_tree(files: &Vec<String>, coverage_path: &str) -> (r: Option<String>)
    ensures
        match resolved(files@.map_values(|s: String| s@), coverage_path@) {
            Some(p) => r matches Some(x) && x@ == p,
            None => r is None,
        },
{
    let ghost ps = files@.map_values(|s: String| s@);
    let cp = chars_of(coverage_path);
    let mut suffix = chars_of("/");
    push_all(&mut suffix, cp.as_slice());
    // The matching paths.
    let mut ms: Vec<Vec<char>> = Vec::new();
    let mut i: usize = 0;
    proof {
        assert(ps.take(0) =~= Seq::<Seq<char>>::empty());
        assert(ms@.map_values(|v: Vec<char>| v@) =~= matching(ps.take(0), coverage_path@));
    }
    while i < files.len()
        invariant
            i <= files@.len(),
            ps == files@.map_values(|s: String| s@),
            cp@ == coverage_path@,
            suffix@ == "/"@ + coverage_path@,
            ms@.map_values(|v: Vec<char>| v@) == matching(ps.take(i as int), coverage_path@),
        decreases files.len() - i,
    {
        proof {
            assert(ps.take(i + 1).drop_last() == ps.take(i as int));
            assert(ps.take(i + 1).last() == files@[i as int]@);
        }
        let p = chars_of(files[i].as_str());
        if ends_with(p.as_slice(), suffix.as_slice()) || crate::text::seq_eq(p.as_slice(), cp.as_slice()) {
            let ghost before = ms@.map_values(|v: Vec<char>| v@);
            ms.push(p);
            proof {
                assert(ms@.map_values(|v: Vec<char>| v@) =~= before.push(files@[i as int]@));
            }
        }
        i += 1;
    }
    proof {
        assert(ps.take(i as int) == ps);
    }
    let ghost msv = ms@.map_values(|v: Vec<char>| v@);
    if ms.len() == 1 {
        return Some(string_from_chars(ms[0].as_slice()));
    }
    if ms.len() > 1 {
        // Those under src/main.
        let mut sm: Vec<usize> = Vec::new();
        let mut j: usize = 0;
        proof {
            assert(msv.take(0) =~= Seq::<Seq<char>>::empty());
        }
        while j < ms.len()
            invariant
                j <= ms@.len(),
                msv == ms@.map_values(|v: Vec<char>| v@),
                sm@.map_values(|k: usize| msv[k as int]) == under_src_main(msv.take(j as int)),
                forall|q: int| 0 <= q < sm@.len() ==> sm@[q] < ms@.len(),
            decreases ms.len() - j,
        {
            proof {
                assert(msv.take(j + 1).drop_last() == msv.take(j as int));
                assert(msv.take(j + 1).last() == ms@[j as int]@);
            }
            if contains_str(ms[j].as_slice(), "/src/main/") {
                let ghost before = sm@.map_values(|k: usize| msv[k as int]);
                sm.push(j);
                proof {
                    assert(sm@.map_values(|k: usize| msv[k as int]) =~= before.push(msv[j as int]));
                }
            }
            j += 1;
        }
        proof {
            assert(msv.take(j as int) == msv);
        }
        if sm.len() == 1 {
            proof {
                assert(sm@.map_values(|k: usize| msv[k as int])[0] == msv[sm@[0] as int]);
            }
            return Some(string_from_chars(ms[sm[0]].as_slice()));
        }
        // The first shortest.
        let mut b: usize = 0;
        let mut k: usize = 1;
        proof {
            assert(msv.take(1).len() == 1);
            assert(first_shortest(msv.take(1)) == msv[0]);
        }
        while k < ms.len()
            invariant
                1 <= k <= ms@.len(),
                b < ms@.len(),
                msv == ms@.map_values(|v: Vec<char>| v@),
                first_shortest(msv.take(k as int)) == msv[b as int],
            decreases ms.len() - k,
        {
            proof {
                assert(msv.take(k + 1).drop_last() == msv.take(k as int));
                assert(msv.take(k + 1).last() == msv[k as int]);
            }
            if ms[k].len() < ms[b].len() {
                b = k;
            }
            k += 1;
        }
        proof {
            assert(msv.take(k as int) == msv);
        }
        return Some(string_from_chars(ms[b].as_slice()));
    }
    // No path ends with the coverage path: look for the file by name.
    let name = last_segment(cp.as_slice());
    let mut ns: Vec<Vec<char>> = Vec::new();
    let mut i: usize = 0;
    proof {
        assert(ps.take(0) =~= Seq::<Seq<char>>::empty());
        assert(ns@.map_values(|v: Vec<char>| v@) =~= named(ps.take(0), basename(coverage_path@)));
    }
    while i < files.len()
        invariant
            i <= files@.len(),
            ps == files@.map_values(|s: String| s@),
            name@ == basename(coverage_path@),
            ns@.map_values(|v: Vec<char>| v@) == named(ps.take(i as int), basename(coverage_path@)),
        decreases files.len() - i,
    {
        proof {
            assert(ps.take(i + 1).drop_last() == ps.take(i as int));
            assert(ps.take(i + 1).last() == files@[i as int]@);
        }
        let p = chars_of(files[i].as_str());
        let pb = last_segment(p.as_slice());
        if crate::text::seq_eq(pb.as_slice(), name.as_slice()) {
            let ghost before = ns@.map_values(|v: Vec<char>| v@);
            ns.push(p);
            proof {
                assert(ns@.map_values(|v: Vec<char>| v@) =~= before.push(files@[i as int]@));
            }
        }
        i += 1;
    }
    proof {
        assert(ps.take(i as int) == ps);
    }
    let ghost nsv = ns@.map_values(|v: Vec<char>| v@);
    if ns.len() == 0 {
        return None;
    }
    if ns.len() == 1 {
        return Some(string_from_chars(ns[0].as_slice()));
    }
    let parts = splits(cp.as_slice());
    let mut b: usize = 0;
    let mut bo: usize = tail_overlap(&parts, &splits(ns[0].as_slice()));
    let mut k: usize = 1;
    proof {
        assert(nsv.take(1).len() == 1);
        assert(best_overlap(nsv.take(1), split_char(coverage_path@, '/')) == nsv[0]);
    }
    while k < ns.len()
        invariant
            1 <= k <= ns@.len(),
            b < ns@.len(),
            nsv == ns@.map_values(|v: Vec<char>| v@),
            parts@.map_values(|v: Vec<char>| v@) == split_char(coverage_path@, '/'),
            best_overlap(nsv.take(k as int), split_char(coverage_path@, '/')) == nsv[b as int],
            bo == common_tail(split_char(coverage_path@, '/'), split_char(nsv[b as int], '/')),
        decreases ns.len() - k,
    {
        proof {
            assert(nsv.take(k + 1).drop_last() == nsv.take(k as int));
            assert(nsv.take(k + 1).last() == nsv[k as int]);
        }
        let o = tail_overlap(&parts, &splits(ns[k].as_slice()));
        if o > bo {
            b = k;
            bo = o;
        }
        k += 1;
    }
    proof {
        assert(nsv.take(k as int) == nsv);
    }
    Some(string_from_chars(ns[b].as_slice()))
}

/// How long a repository's file list stays usable, in milliseconds.
pub const TREE_TTL_MS: u64 = 900_000;

/// Cap on repositories whose file lists are held in memory.
pub const TREE_CACHE_MAX_REPOS: usize = 32;

/// One repository's cached file list.
pub struct CachedTree {
    pub repo: String,
    pub fetched_at_ms: u64,
    pub files: Vec<String>,
}

/// File lists of recently viewed repositories.
pub struct TreeCache {
    entries: Vec<CachedTree>,
}

pub type CachedView = (Seq<char>, u64, Seq<Seq<char>>);

pub open spec fn cached_view(c: CachedTree) -> CachedView {
    (c.repo@, c.fetched_at_ms, c.files@.map_values(|s: String| s@))
}

impl View for TreeCache {
    type V = Seq<CachedView>;

    closed spec fn view(&self) -> Seq<CachedView> {
        self.entries@.map_values(|c: CachedTree| cached_view(c))
    }
}

pub open spec fn fresh(e: CachedView, now: u64) -> bool {
    (if now >= e.1 {
        now - e.1
    } else {
        0
    }) < TREE_TTL_MS
}

/// The entries of `es` still within their time to live.
pub open spec fn fresh_entries(es: Seq<CachedView>, now: u64) -> Seq<CachedView>
    decreases es.len(),
{
    if es.len() == 0 {
        Seq::empty()
    } else {
        let rest = fresh_entries(es.drop_last(), now);
        if fresh(es.last(), now) {
            rest.push(es.last())
        } else {
            rest
        }
    }
}

/// The entries of `es` for other repositories than `repo`.
pub open spec fn without(es: Seq<CachedView>, repo: Seq<char>) -> Seq<CachedView>
    decreases es.len(),
{
    if es.len() == 0 {
        Seq::empty()
    } else {
        let rest = without(es.drop_last(), repo);
        if es.last().0 != repo {
            rest.push(es.last())
        } else {
            rest
        }
    }
}

/// The file list `es` holds for `repo`, from its first entry.
pub open spec fn lookup(es: Seq<CachedView>, repo: Seq<char>) -> Option<Seq<Seq<char>>>
    decreases es.len(),
{
    if es.len() == 0 {
        None
    } else {
        match lookup(es.drop_last(), repo) {
            Some(f) => Some(f),
            None => if es.last().0 == repo {
                Some(es.last().2)
            } else {
                None
            },
        }
    }
}

/// The first entry fetched earliest.
pub open spec fn oldest(es: Seq<CachedView>) -> int
    decreases es.len(),
{
    if es.len() <= 1 {
        0
    } else {
        let b = oldest(es.drop_last());
        if es.last().1 < es[b].1 {
            es.len() - 1
        } else {
            b
        }
    }
}

/// The entries after caching `files` for `repo` at `now`: the oldest entry
/// is evicted first when the cache is full.
pub open spec fn cached_after_insert(es: Seq<CachedView>, repo: Seq<char>, files: Seq<Seq<char>>, now: u64) -> Seq<CachedView> {
    let kept = if es.len() >= TREE_CACHE_MAX_REPOS {
        es.remove(oldest(es))
    } else {
        es
    };
    without(kept, repo).push((repo, now, files))
}

fn copy_files(v: &Vec<String>) -> (r: Vec<String>)
    ensures
        r@.map_values(|s: String| s@) == v@.map_values(|s: String| s@),
{
    let mut r: Vec<String> = Vec::new();
    let mut i: usize = 0;
    while i < v.len()
        invariant
            i <= v@.len(),
            r@.map_values(|s: String| s@) == v@.take(i as int).map_values(|s: String| s@),
        decreases v.len() - i,
    {
        let ghost before = r@.map_values(|s: String| s@);
        let c = v[i].clone();
        proof {
            assert(c@ == v@[i as int]@);
        }
        r.push(c);
        proof {
            assert(r@.map_values(|s: String| s@) =~= before.push(c@));
            assert(v@.take(i + 1).map_values(|s: String| s@) =~= v@.take(i as int).map_values(|s: String| s@).push(
                v@[i as int]@,
            ));
        }
        i += 1;
    }
    proof {
        assert(v@.take(i as int) == v@);
    }
    r
}

fn copy_entry(c: &CachedTree) -> (r: CachedTree)
    ensures
        cached_view(r) == cached_view(*c),
{
    CachedTree { repo: c.repo.clone(), fetched_at_ms: c.fetched_at_ms, files: copy_files(&c.files) }
}

/// Keeps the entries of `es` admitted by `keep_fresh` (those within their
/// time to live at `now`) or else those not for `repo`.
fn retain_entries(es: &Vec<CachedTree>, keep_fresh: bool, now: u64, repo: &str) -> (r: Vec<CachedTree>)
    ensures
        keep_fresh ==> r@.map_values(|c: CachedTree| cached_view(c)) == fresh_entries(
            es@.map_values(|c: CachedTree| cached_view(c)),
            now,
        ),
        !keep_fresh ==> r@.map_values(|c: CachedTree| cached_view(c)) == without(
            es@.map_values(|c: CachedTree| cached_view(c)),
            repo@,
        ),
{
    let ghost v = es@.map_values(|c: CachedTree| cached_view(c));
    let rc = chars_of(repo);
    let mut r: Vec<CachedTree> = Vec::new();
    let mut i: usize = 0;
    proof {
        assert(v.take(0) =~= Seq::<CachedView>::empty());
        assert(r@.map_values(|c: CachedTree| cached_view(c)) =~= Seq::<CachedView>::empty());
    }
    while i < es.len()
        invariant
            i <= es@.len(),
            v == es@.map_values(|c: CachedTree| cached_view(c)),
            rc@ == repo@,
            keep_fresh ==> r@.map_values(|c: CachedTree| cached_view(c)) == fresh_entries(v.take(i as int), now),
            !keep_fresh ==> r@.map_values(|c: CachedTree| cached_view(c)) == without(v.take(i as int), repo@),
        decreases es.len() - i,
    {
        proof {
            assert(v.take(i + 1).drop_last() == v.take(i as int));
            assert(v.take(i + 1).last() == cached_view(es@[i as int]));
        }
        let e = &es[i];
        let keep = if keep_fresh {
            let age: u64 = if now >= e.fetched_at_ms { now - e.fetched_at_ms } else { 0 };
            age < TREE_TTL_MS
        } else {
            !crate::text::seq_eq(chars_of(e.repo.as_str()).as_slice(), rc.as_slice())
        };
        if keep {
            let ghost before = r@.map_values(|c: CachedTree| cached_view(c));
            r.push(copy_entry(e));
            proof {
                assert(r@.map_values(|c: CachedTree| cached_view(c)) =~= before.push(cached_view(*e)));
            }
        }
        i += 1;
    }
    proof {
        assert(v.take(i as int) == v);
    }
    r
}

impl TreeCache {
    pub fn new() -> (r: TreeCache)
        ensures
            r@ == Seq::<CachedView>::empty(),
    {
        let r = TreeCache { entries: Vec::new() };
        proof {
            assert(r@ =~= Seq::<CachedView>::empty());
        }
        r
    }

    /// The cached file list of `repo`, if one is still fresh at `now_ms`;
    /// entries past their time to live are dropped on the way.
    pub fn get(&mut self, repo: &str, now_ms: u64) -> (r: Option<Vec<String>>)
        ensures
            final(self)@ == fresh_entries(old(self)@, now_ms),
            match lookup(final(self)@, repo@) {
                Some(f) => r matches Some(v) && v@.map_values(|s: String| s@) == f,
                None => r is None,
            },
    {
        let kept = retain_entries(&self.entries, true, now_ms, repo);
        self.entries = kept;
        let ghost es = self@;
        let rc = chars_of(repo);
        let mut i: usize = 0;
        proof {
            assert(es.take(0) =~= Seq::<CachedView>::empty());
        }
        while i < self.entries.len()
            invariant
                i <= es.len(),
                es == self@,
                es == fresh_entries(old(self)@, now_ms),
                rc@ == repo@,
                lookup(es.take(i as int), repo@) is None,
            decreases self.entries.len() - i,
        {
            proof {
                assert(es.take(i + 1).drop_last() == es.take(i as int));
                assert(es.take(i + 1).last() == cached_view(self.entries@[i as int]));
            }
            if crate::text::seq_eq(chars_of(self.entries[i].repo.as_str()).as_slice(), rc.as_slice()) {
                proof {
                    lemma_lookup_prefix(es, repo@, i + 1);
                }
                return Some(copy_files(&self.entries[i].files));
            }
            i += 1;
        }
        proof {
            assert(es.take(i as int) == es);
        }
        None
    }

    /// Cache `files` for `repo` at `now_ms`, evicting the oldest entry when
    /// the cache is full rather than clearing it.
    pub fn insert(&mut self, repo: &str, files: Vec<String>, now_ms: u64)
        ensures
            final(self)@ == cached_after_insert(old(self)@, repo@, files@.map_values(|s: String| s@), now_ms),
    {
        let ghost es = self@;
        if self.entries.len() >= TREE_CACHE_MAX_REPOS {
            let mut b: usize = 0;
            let mut k: usize = 1;
            proof {
                assert(es.take(1).len() == 1);
                assert(oldest(es.take(1)) == 0);
            }
            while k < self.entries.len()
                invariant
                    1 <= k <= es.len(),
                    b < k,
                    es == self@,
                    oldest(es.take(k as int)) == b,
                decreases self.entries.len() - k,
            {
                proof {
                    assert(es.take(k + 1).drop_last() == es.take(k as int));
                    assert(es.take(k + 1).last() == es[k as int]);
                    assert(es.take(k + 1)[b as int] == es[b as int]);
                }
                if self.entries[k].fetched_at_ms < self.entries[b].fetched_at_ms {
                    b = k;
                }
                k += 1;
            }
            proof {
                assert(es.take(k as int) == es);
            }
            let ghost before = self.entries@;
            let _evicted = self.entries.remove(b);
            proof {
                assert(self@ =~= es.remove(b as int));
            }
        }
        let kept = retain_entries(&self.entries, false, now_ms, repo);
        let mut kept = kept;
        let ghost kv = kept@.map_values(|c: CachedTree| cached_view(c));
        let entry = CachedTree { repo: owned(repo), fetched_at_ms: now_ms, files };
        let ghost ev = cached_view(entry);
        kept.push(entry);
        proof {
            assert(kept@.map_values(|c: CachedTree| cached_view(c)) =~= kv.push(ev));
        }
        self.entries = kept;
    }
}

proof fn lemma_lookup_prefix(es: Seq<CachedView>, repo: Seq<char>, k: int)
    requires
        0 <= k <= es.len(),
        lookup(es.take(k), repo) is Some,
    ensures
        lookup(es, repo) == lookup(es.take(k), repo),
    decreases es.len() - k,
{
    if k < es.len() {
        assert(es.take(k + 1).drop_last() == es.take(k));
        lemma_lookup_prefix(es, repo, k + 1);
    } else {
        assert(es.take(k) == es);
    }
}

/// Drop the cached file list of a repository, e.g. after an upload from a
/// different commit.
pub fn invalidate_tree_cache(cache: &mut TreeCache, github_repo: &str)
    ensures
        final(cache)@ == without(old(cache)@, github_repo@),
{
    let kept = retain_entries(&cache.entries, false, 0, github_repo);
    cache.entries = kept;
}

/// After invalidation nothing is cached for the repository.
pub proof fn lemma_invalidated_is_gone(es: Seq<CachedView>, repo: Seq<char>)
    ensures
        lookup(without(es, repo), repo) is None,
    decreases es.len(),
{
    if es.len() > 0 {
        lemma_invalidated_is_gone(es.drop_last(), repo);
        let w = without(es.drop_last(), repo);
        if es.last().0 != repo {
            assert(w.push(es.last()).drop_last() == w);
        }
    }
}

proof fn lemma_lookup_absent(es: Seq<CachedView>, repo: Seq<char>)
    requires
        forall|k: int| 0 <= k < es.len() ==> (#[trigger] es[k]).0 != repo,
    ensures
        lookup(es, repo) is None,
    decreases es.len(),
{
    if es.len() > 0 {
        assert forall|k: int| 0 <= k < es.drop_last().len() implies (#[trigger] es.drop_last()[k]).0 != repo by {
            assert(es.drop_last()[k] == es[k]);
        }
        lemma_lookup_absent(es.drop_last(), repo);
    }
}

proof fn lemma_without_excludes(es: Seq<CachedView>, repo: Seq<char>)
    ensures
        forall|k: int| 0 <= k < without(es, repo).len() ==> (#[trigger] without(es, repo)[k]).0 != repo,
    decreases es.len(),
{
    if es.len() > 0 {
        lemma_without_excludes(es.drop_last(), repo);
        let rest = without(es.drop_last(), repo);
        if es.last().0 != repo {
            assert forall|k: int| 0 <= k < rest.len() implies rest.push(es.last())[k] == rest[k] by {}
        }
    }
}

proof fn lemma_fresh_excludes(es: Seq<CachedView>, repo: Seq<char>, now: u64)
    requires
        forall|k: int| 0 <= k < es.len() ==> (#[trigger] es[k]).0 != repo,
    ensures
        forall|k: int| 0 <= k < fresh_entries(es, now).len() ==> (#[trigger] fresh_entries(es, now)[k]).0 != repo,
    decreases es.len(),
{
    if es.len() > 0 {
        assert forall|k: int| 0 <= k < es.drop_last().len() implies (#[trigger] es.drop_last()[k]).0 != repo by {
            assert(es.drop_last()[k] == es[k]);
        }
        lemma_fresh_excludes(es.drop_last(), repo, now);
        let rest = fresh_entries(es.drop_last(), now);
        if fresh(es.last(), now) {
            assert(es.last() == es[es.len() - 1]);
            assert forall|k: int| 0 <= k < rest.len() implies rest.push(es.last())[k] == rest[k] by {}
        }
    }
}

/// A file list just cached for a repository is what a lookup at the same
/// moment finds, whatever the cache held before and whatever was evicted.
pub proof fn lemma_cached_then_found(es: Seq<CachedView>, repo: Seq<char>, files: Seq<Seq<char>>, now: u64)
    ensures
        lookup(fresh_entries(cached_after_insert(es, repo, files, now), now), repo) == Some(files),
{
    let kept = if es.len() >= TREE_CACHE_MAX_REPOS {
        es.remove(oldest(es))
    } else {
        es
    };
    let w = without(kept, repo);
    let all = w.push((repo, now, files));
    assert(all.drop_last() == w);
    assert(fresh((repo, now, files), now));
    lemma_without_excludes(kept, repo);
    lemma_fresh_excludes(w, repo, now);
    lemma_lookup_absent(fresh_entries(w, now), repo);
    assert(fresh_entries(all, now) == fresh_entries(w, now).push((repo, now, files)));
    assert(fresh_entries(all, now).drop_last() == fresh_entries(w, now));
}

proof fn lemma_oldest_in_range(es: Seq<CachedView>)
    requires
        es.len() >= 1,
    ensures
        0 <= oldest(es) < es.len(),
    decreases es.len(),
{
    if es.len() > 1 {
        lemma_oldest_in_range(es.drop_last());
    }
}

proof fn lemma_without_len(es: Seq<CachedView>, repo: Seq<char>)
    ensures
        without(es, repo).len() <= es.len(),
    decreases es.len(),
{
    if es.len() > 0 {
        lemma_without_len(es.drop_last(), repo);
    }
}

proof fn lemma_fresh_len(es: Seq<CachedView>, now: u64)
    ensures
        fresh_entries(es, now).len() <= es.len(),
    decreases es.len(),
{
    if es.len() > 0 {
        lemma_fresh_len(es.drop_last(), now);
    }
}

/// The cache never holds more than `TREE_CACHE_MAX_REPOS` file lists:
/// neither caching a list nor looking one up takes it past the cap.
pub proof fn lemma_cache_bounded(es: Seq<CachedView>, repo: Seq<char>, files: Seq<Seq<char>>, now: u64)
    requires
        es.len() <= TREE_CACHE_MAX_REPOS,
    ensures
        cached_after_insert(es, repo, files, now).len() <= TREE_CACHE_MAX_REPOS,
        fresh_entries(es, now).len() <= TREE_CACHE_MAX_REPOS,
{
    let kept = if es.len() >= TREE_CACHE_MAX_REPOS {
        es.remove(oldest(es))
    } else {
        es
    };
    if es.len() >= TREE_CACHE_MAX_REPOS {
        lemma_oldest_in_range(es);
    }
    lemma_without_len(kept, repo);
    lemma_fresh_len(es, now);
}

proof fn lemma_first_shortest(ps: Seq<Seq<char>>)
    requires
        ps.len() >= 1,
    ensures
        ps.contains(first_shortest(ps)),
        forall|i: int| 0 <= i < ps.len() ==> first_shortest(ps).len() <= (#[trigger] ps[i]).len(),
    decreases ps.len(),
{
    if ps.len() > 1 {
        let front = ps.drop_last();
        lemma_first_shortest(front);
        let b = first_shortest(front);
        let j = choose|j: int| 0 <= j < front.len() && front[j] == b;
        assert(ps[j] == b);
        assert(ps.last() == ps[ps.len() - 1]);
        assert forall|i: int| 0 <= i < ps.len() implies first_shortest(ps).len() <= (#[trigger] ps[i]).len() by {
            if i < front.len() {
                assert(ps[i] == front[i]);
            }
        }
    } else {
        assert(ps[0] == ps[0]);
    }
}

proof fn lemma_matching(ps: Seq<Seq<char>>, cp: Seq<char>)
    ensures
        forall|x: Seq<char>| #[trigger] matching(ps, cp).contains(x) <==> ps.contains(x) && path_matches(x, cp),
    decreases ps.len(),
{
    if ps.len() > 0 {
        let front = ps.drop_last();
        lemma_matching(front, cp);
        let rest = matching(front, cp);
        let l = ps.last();
        assert(l == ps[ps.len() - 1]);
        assert forall|x: Seq<char>| #[trigger] matching(ps, cp).contains(x) <==> ps.contains(x) && path_matches(x, cp) by {
            let m = matching(ps, cp);
            if ps.contains(x) && path_matches(x, cp) {
                let i = choose|i: int| 0 <= i < ps.len() && ps[i] == x;
                if i < front.len() {
                    assert(front[i] == x);
                    assert(front.contains(x));
                    assert(rest.contains(x));
                    let q = choose|q: int| 0 <= q < rest.len() && rest[q] == x;
                    if path_matches(l, cp) {
                        assert(m == rest.push(l));
                        assert(m[q] == x);
                    } else {
                        assert(m == rest);
                    }
                    assert(m.contains(x));
                } else {
                    assert(x == l);
                    assert(m == rest.push(l));
                    assert(m[rest.len() as int] == x);
                }
            }
            if m.contains(x) {
                let i = choose|i: int| 0 <= i < m.len() && m[i] == x;
                if path_matches(l, cp) && i == rest.len() {
                    assert(m == rest.push(l));
                    assert(x == l);
                } else {
                    if path_matches(l, cp) {
                        assert(m == rest.push(l));
                    } else {
                        assert(m == rest);
                    }
                    assert(rest[i] == x);
                    assert(rest.contains(x));
                    assert(front.contains(x) && path_matches(x, cp));
                    let j = choose|j: int| 0 <= j < front.len() && front[j] == x;
                    assert(ps[j] == x);
                }
            }
        }
    } else {
        assert(matching(ps, cp) == Seq::<Seq<char>>::empty());
    }
}

/// When several tree paths end with the coverage path and not exactly one
/// of them lies under `/src/main/`, the path resolved is one of those
/// matches, and no other match is shorter.
pub proof fn lemma_ambiguous_resolves_to_shortest(ps: Seq<Seq<char>>, cp: Seq<char>)
    requires
        exists|i: int, j: int| 0 <= i < j < ps.len() && path_matches(ps[i], cp) && path_matches(ps[j], cp),
        under_src_main(matching(ps, cp)).len() != 1,
    ensures
        resolved(ps, cp) matches Some(r) && ps.contains(r) && path_matches(r, cp) && forall|j: int|
            0 <= j < ps.len() && path_matches(#[trigger] ps[j], cp) ==> r.len() <= ps[j].len(),
{
    lemma_matching(ps, cp);
    let ms = matching(ps, cp);
    let (i, j) = choose|i: int, j: int| 0 <= i < j < ps.len() && path_matches(ps[i], cp) && path_matches(ps[j], cp);
    assert(ps.contains(ps[i]));
    assert(ms.contains(ps[i]));
    if ms.len() == 1 {
        assert(ms.contains(ps[j]) && ps.contains(ps[j]));
        assert(ms[0] == ps[i]);
        assert(ms[0] == ps[j]);
        lemma_distinct_matches_count(ps, cp, i, j);
    }
    lemma_first_shortest(ms);
    let r = first_shortest(ms);
    assert forall|k: int| 0 <= k < ps.len() && path_matches(#[trigger] ps[k], cp) implies r.len() <= ps[k].len() by {
        assert(ps.contains(ps[k]));
        assert(ms.contains(ps[k]));
        let q = choose|q: int| 0 <= q < ms.len() && ms[q] == ps[k];
        assert(r.len() <= ms[q].len());
    }
}

/// Two matching positions give two entries of `matching`.
proof fn lemma_distinct_matches_count(ps: Seq<Seq<char>>, cp: Seq<char>, i: int, j: int)
    requires
        0 <= i < j < ps.len(),
        path_matches(ps[i], cp),
        path_matches(ps[j], cp),
    ensures
        matching(ps, cp).len() >= 2,
    decreases ps.len(),
{
    lemma_matching_len(ps.take(j), cp, i);
    assert(ps.take(j + 1).drop_last() == ps.take(j));
    assert(ps.take(j + 1).last() == ps[j]);
    lemma_matching_prefix(ps, cp, j + 1);
}

/// A matching position gives `matching` an entry.
proof fn lemma_matching_len(ps: Seq<Seq<char>>, cp: Seq<char>, i: int)
    requires
        0 <= i < ps.len(),
        path_matches(ps[i], cp),
    ensures
        matching(ps, cp).len() >= 1,
{
    lemma_matching(ps, cp);
    assert(ps.contains(ps[i]));
    assert(matching(ps, cp).contains(ps[i]));
}

/// `matching` only grows as paths are added.
proof fn lemma_matching_prefix(ps: Seq<Seq<char>>, cp: Seq<char>, k: int)
    requires
        0 <= k <= ps.len(),
    ensures
        matching(ps.take(k), cp).len() <= matching(ps, cp).len(),
    decreases ps.len() - k,
{
    if k < ps.len() {
        assert(ps.take(k + 1).drop_last() == ps.take(k));
        lemma_matching_prefix(ps, cp, k + 1);
    } else {
        assert(ps.take(k) == ps);
    }
}

/// Among the paths the coverage path names, `first_shortest` picks one of
/// least length, the first such in tree order.
proof fn lemma_first_shortest_match(ps: Seq<Seq<char>>, cp: Seq<char>)
    requires
        matching(ps, cp).len() >= 1,
    ensures
        exists|i: int|
            0 <= i < ps.len() && ps[i] == first_shortest(matching(ps, cp)) && path_matches(ps[i], cp) && (forall|j: int|
                0 <= j < i && path_matches(#[trigger] ps[j], cp) ==> ps[j].len() > ps[i].len()),
        forall|j: int|
            0 <= j < ps.len() && path_matches(#[trigger] ps[j], cp) ==> first_shortest(matching(ps, cp)).len()
                <= ps[j].len(),
    decreases ps.len(),
{
    let front = ps.drop_last();
    let l = ps.last();
    assert(l == ps[ps.len() - 1]);
    let ms0 = matching(front, cp);
    let ms = matching(ps, cp);
    lemma_matching(front, cp);
    if !path_matches(l, cp) {
        assert(ms == ms0);
        lemma_first_shortest_match(front, cp);
        let i = choose|i: int|
            0 <= i < front.len() && front[i] == first_shortest(ms0) && path_matches(front[i], cp) && (forall|j: int|
                0 <= j < i && path_matches(#[trigger] front[j], cp) ==> front[j].len() > front[i].len());
        assert(ps[i] == front[i]);
        assert forall|j: int| 0 <= j < i && path_matches(#[trigger] ps[j], cp) implies ps[j].len() > ps[i].len() by {
            assert(ps[j] == front[j]);
        }
        assert forall|j: int| 0 <= j < ps.len() && path_matches(#[trigger] ps[j], cp) implies first_shortest(ms).len()
            <= ps[j].len() by {
            assert(j < front.len());
            assert(ps[j] == front[j]);
        }
    } else {
        assert(ms == ms0.push(l));
        let n = ps.len() - 1;
        if ms0.len() == 0 {
            assert(ms.len() == 1);
            assert(first_shortest(ms) == l);
            assert forall|j: int| 0 <= j < n implies !path_matches(#[trigger] ps[j], cp) by {
                assert(ps[j] == front[j]);
                if path_matches(ps[j], cp) {
                    assert(front.contains(front[j]));
                    assert(ms0.contains(front[j]));
                }
            }
            assert(ps[n] == first_shortest(ms));
            assert forall|j: int| 0 <= j < ps.len() && path_matches(#[trigger] ps[j], cp) implies first_shortest(ms).len()
                <= ps[j].len() by {
                if j < n {
                    assert(ps[j] == front[j]);
                }
            }
        } else {
            lemma_first_shortest_match(front, cp);
            let b = first_shortest(ms0);
            assert(ms.drop_last() == ms0);
            assert(ms.last() == l);
            assert(first_shortest(ms) == if l.len() < b.len() { l } else { b });
            let i = choose|i: int|
                0 <= i < front.len() && front[i] == b && path_matches(front[i], cp) && (forall|j: int|
                    0 <= j < i && path_matches(#[trigger] front[j], cp) ==> front[j].len() > front[i].len());
            if l.len() < b.len() {
                assert(ps[n] == first_shortest(ms));
                assert forall|j: int| 0 <= j < n && path_matches(#[trigger] ps[j], cp) implies ps[j].len() > ps[n].len() by {
                    assert(ps[j] == front[j]);
                }
            } else {
                assert(ps[i] == front[i]);
                assert forall|j: int| 0 <= j < i && path_matches(#[trigger] ps[j], cp) implies ps[j].len() > ps[i].len() by {
                    assert(ps[j] == front[j]);
                }
            }
            assert forall|j: int| 0 <= j < ps.len() && path_matches(#[trigger] ps[j], cp) implies first_shortest(ms).len()
                <= ps[j].len() by {
                if j < n {
                    assert(ps[j] == front[j]);
                }
            }
        }
    }
}

/// When several tree paths end with the coverage path and not exactly one
/// of them lies under `/src/main/`, the resolved path is the first in tree
/// order of those of least length: a match, no match shorter than it, and
/// every earlier match longer.
pub proof fn lemma_ambiguous_resolves_to_first_shortest(ps: Seq<Seq<char>>, cp: Seq<char>)
    requires
        exists|i: int, j: int| 0 <= i < j < ps.len() && path_matches(ps[i], cp) && path_matches(ps[j], cp),
        under_src_main(matching(ps, cp)).len() != 1,
    ensures
        exists|i: int|
            0 <= i < ps.len() && resolved(ps, cp) == Some(ps[i]) && path_matches(ps[i], cp) && (forall|j: int|
                0 <= j < i && path_matches(#[trigger] ps[j], cp) ==> ps[j].len() > ps[i].len()) && (forall|j: int|
                0 <= j < ps.len() && path_matches(#[trigger] ps[j], cp) ==> ps[i].len() <= ps[j].len()),
{
    let (a, b) = choose|a: int, b: int| 0 <= a < b < ps.len() && path_matches(ps[a], cp) && path_matches(ps[b], cp);
    lemma_distinct_matches_count(ps, cp, a, b);
    let ms = matching(ps, cp);
    assert(resolved(ps, cp) == Some(first_shortest(ms)));
    lemma_first_shortest_match(ps, cp);
    let k = choose|k: int|
        0 <= k < ps.len() && ps[k] == first_shortest(ms) && path_matches(ps[k], cp) && (forall|j: int|
            0 <= j < k && path_matches(#[trigger] ps[j], cp) ==> ps[j].len() > ps[k].len());
    assert(resolved(ps, cp) == Some(ps[k]));
}

proof fn lemma_under_src_main(ps: Seq<Seq<char>>)
    ensures
        forall|x: Seq<char>|
            #[trigger] under_src_main(ps).contains(x) ==> ps.contains(x) && has_substring(x, "/src/main/"@),
    decreases ps.len(),
{
    if ps.len() > 0 {
        let front = ps.drop_last();
        lemma_under_src_main(front);
        let rest = under_src_main(front);
        let l = ps.last();
        assert(l == ps[ps.len() - 1]);
        assert forall|x: Seq<char>| #[trigger] under_src_main(ps).contains(x) implies ps.contains(x) && has_substring(
            x,
            "/src/main/"@,
        ) by {
            let m = under_src_main(ps);
            let i = choose|i: int| 0 <= i < m.len() && m[i] == x;
            if has_substring(l, "/src/main/"@) && i == rest.len() {
                assert(m == rest.push(l));
            } else {
                if has_substring(l, "/src/main/"@) {
                    assert(m == rest.push(l));
                } else {
                    assert(m == rest);
                }
                assert(rest[i] == x);
                assert(rest.contains(x));
                let j = choose|j: int| 0 <= j < front.len() && front[j] == x;
                assert(ps[j] == x);
            }
        }
    }
}

/// Whenever some tree path ends with the coverage path, the path resolved
/// is one of them; when several do and exactly one of those lies under
/// `/src/main/`, it is that one.
pub proof fn lemma_resolved_is_a_match(ps: Seq<Seq<char>>, cp: Seq<char>)
    requires
        exists|i: int| 0 <= i < ps.len() && path_matches(#[trigger] ps[i], cp),
    ensures
        resolved(ps, cp) matches Some(r) && ps.contains(r) && path_matches(r, cp),
        under_src_main(matching(ps, cp)).len() == 1 ==> resolved(ps, cp) == Some(
            under_src_main(matching(ps, cp))[0],
        ) && has_substring(under_src_main(matching(ps, cp))[0], "/src/main/"@),
{
    let i = choose|i: int| 0 <= i < ps.len() && path_matches(#[trigger] ps[i], cp);
    lemma_matching_len(ps, cp, i);
    lemma_matching(ps, cp);
    let ms = matching(ps, cp);
    lemma_under_src_main(ms);
    let sm = under_src_main(ms);
    if sm.len() == 1 {
        assert(sm.contains(sm[0]));
    }
    if ms.len() == 1 {
        assert(ms.contains(ms[0]));
        if sm.len() == 1 {
            assert(ms.contains(sm[0]));
            let q = choose|q: int| 0 <= q < ms.len() && ms[q] == sm[0];
            assert(q == 0);
        }
    } else {
        lemma_first_shortest(ms);
    }
}

} // verus!
