use omnivore::github::{
    invalidate_tree_cache, resolve_in_tree, source_url, tree_files, tree_url, TreeCache, TREE_CACHE_MAX_REPOS,
    TREE_TTL_MS,
};

fn files(v: &[&str]) -> Vec<String> {
    v.iter().map(|s| s.to_string()).collect()
}

#[test]
fn raw_source_urls_only_for_safe_inputs() {
    assert_eq!(
        source_url("octo/repo", "src/main.rs", Some("abc123")).as_deref(),
        Some("https://raw.githubusercontent.com/octo/repo/abc123/src/main.rs")
    );
    assert_eq!(
        source_url("octo/repo", "src/main.rs", None).as_deref(),
        Some("https://raw.githubusercontent.com/octo/repo/HEAD/src/main.rs")
    );
    assert_eq!(source_url("octo/repo", "../secret", None), None);
    assert_eq!(source_url("octo/../x", "a.rs", None), None);
    assert_eq!(source_url("octo/repo", "a.rs", Some("a b")), None);
}

#[test]
fn tree_url_for_valid_slugs() {
    assert_eq!(
        tree_url("octo/repo").as_deref(),
        Some("https://api.github.com/repos/octo/repo/git/trees/HEAD?recursive=1")
    );
    assert_eq!(tree_url("not a slug"), None);
}

#[test]
fn only_blobs_are_files() {
    let entries = vec![
        ("src".to_string(), "tree".to_string()),
        ("src/a.rs".to_string(), "blob".to_string()),
        ("README.md".to_string(), "blob".to_string()),
    ];
    assert_eq!(tree_files(&entries), files(&["src/a.rs", "README.md"]));
}

#[test]
fn coverage_paths_resolve_by_suffix_then_src_main_then_name() {
    let tree = files(&[
        "app/src/main/java/com/x/A.kt",
        "app/src/test/java/com/x/A.kt",
        "lib/com/y/B.kt",
        "other/B.kt",
        "deep/one/C.kt",
        "deep/two/C.kt",
    ]);
    assert_eq!(resolve_in_tree(&tree, "com/x/A.kt").as_deref(), Some("app/src/main/java/com/x/A.kt"));
    assert_eq!(resolve_in_tree(&tree, "com/y/B.kt").as_deref(), Some("lib/com/y/B.kt"));
    assert_eq!(resolve_in_tree(&tree, "two/C.kt").as_deref(), Some("deep/two/C.kt"));
    assert_eq!(resolve_in_tree(&tree, "pkg/two/C.kt").as_deref(), Some("deep/two/C.kt"));
    assert_eq!(resolve_in_tree(&tree, "nothing/Z.kt"), None);
    assert_eq!(resolve_in_tree(&files(&["x/Solo.kt"]), "pkg/Solo.kt").as_deref(), Some("x/Solo.kt"));
}

#[test]
fn cached_trees_expire_and_can_be_invalidated() {
    let mut cache = TreeCache::new();
    assert_eq!(cache.get("octo/repo", 0), None);
    cache.insert("octo/repo", files(&["a.rs"]), 1_000);
    assert_eq!(cache.get("octo/repo", 1_000), Some(files(&["a.rs"])));
    assert_eq!(cache.get("octo/repo", 1_000 + TREE_TTL_MS - 1), Some(files(&["a.rs"])));
    assert_eq!(cache.get("octo/repo", 1_000 + TREE_TTL_MS), None);
    cache.insert("octo/repo", files(&["b.rs"]), 5_000_000);
    cache.insert("octo/repo", files(&["c.rs"]), 5_000_001);
    assert_eq!(cache.get("octo/repo", 5_000_002), Some(files(&["c.rs"])));
    invalidate_tree_cache(&mut cache, "octo/repo");
    assert_eq!(cache.get("octo/repo", 5_000_002), None);
}

#[test]
fn a_full_cache_evicts_the_oldest_tree() {
    let mut cache = TreeCache::new();
    for i in 0..TREE_CACHE_MAX_REPOS {
        cache.insert(&format!("o/r{i}"), files(&["x"]), 10 + i as u64);
    }
    cache.insert("o/new", files(&["y"]), 100);
    assert_eq!(cache.get("o/r0", 100), None);
    assert_eq!(cache.get("o/r1", 100), Some(files(&["x"])));
    assert_eq!(cache.get("o/new", 100), Some(files(&["y"])));
}
