use omnivore::validation::{is_safe_repo_path, is_valid_git_ref, is_valid_repo_slug};

#[test]
fn accepts_ordinary_slugs() {
    assert!(is_valid_repo_slug("jkjamies/omnivore"));
    assert!(is_valid_repo_slug("some-org/my_repo.js"));
}

#[test]
fn rejects_path_pivots_and_junk() {
    // The traversal cases are the reason this function exists: a client
    // controlled slug must not be able to retarget the API path.
    assert!(!is_valid_repo_slug("owner/repo/../../user"));
    assert!(!is_valid_repo_slug("../../user"));
    assert!(!is_valid_repo_slug("owner"));
    assert!(!is_valid_repo_slug("owner/repo/extra"));
    assert!(!is_valid_repo_slug("owner/"));
    assert!(!is_valid_repo_slug("/repo"));
    assert!(!is_valid_repo_slug(""));
    assert!(!is_valid_repo_slug("own er/repo"));
    assert!(!is_valid_repo_slug("owner/re po"));
    assert!(!is_valid_repo_slug("owner/repo?x=1"));
    assert!(!is_valid_repo_slug("owner/repo#frag"));
    assert!(!is_valid_repo_slug("owner:pass@host/repo"));
}

#[test]
fn accepts_ordinary_paths() {
    assert!(is_safe_repo_path("app/src/main/kotlin/Foo.kt"));
    assert!(is_safe_repo_path("main.go"));
}

#[test]
fn rejects_traversal_paths() {
    assert!(!is_safe_repo_path("../secrets"));
    assert!(!is_safe_repo_path("app/../../etc/passwd"));
    assert!(!is_safe_repo_path("/etc/passwd"));
    assert!(!is_safe_repo_path("app//foo"));
    assert!(!is_safe_repo_path(""));
    assert!(!is_safe_repo_path("a\nb"));
}

#[test]
fn git_refs_are_plain_names() {
    assert!(is_valid_git_ref("main"));
    assert!(is_valid_git_ref("0123abcdef"));
    assert!(is_valid_git_ref("v1.2.3"));
    assert!(!is_valid_git_ref(""));
    assert!(!is_valid_git_ref(".."));
    assert!(!is_valid_git_ref("feature/x"));
    assert!(!is_valid_git_ref(&"a".repeat(101)));
}
