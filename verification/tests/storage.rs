use omnivore::storage::{
    auto_create_projects, column_migrations, hash_key, is_ratchet_branch, migration_phases, migration_plan, api_key_from, new_api_key,
    probe_query, project_for_ingest, schema_statements,
};

#[test]
fn schema_scripts_split_into_statements_without_comments() {
    let sql = "-- projects\nCREATE TABLE a (x INT);\n\n-- the index\n-- second comment\nCREATE INDEX i ON a(x);\n  ;\nCREATE TABLE b (y INT)";
    let stmts = schema_statements(sql);
    assert_eq!(
        stmts,
        vec![
            "CREATE TABLE a (x INT)".to_string(),
            "CREATE INDEX i ON a(x)".to_string(),
            "CREATE TABLE b (y INT)".to_string(),
        ]
    );
    assert!(schema_statements("").is_empty());
    assert!(schema_statements("-- only a comment\n").is_empty());
}

#[test]
fn indexes_are_created_after_tables() {
    let stmts = vec![
        "CREATE TABLE a (x INT)".to_string(),
        "create index i on a(x)".to_string(),
        "CREATE TABLE b (y INT)".to_string(),
    ];
    let (tables, indexes) = migration_phases(&stmts);
    assert_eq!(tables, vec!["CREATE TABLE a (x INT)".to_string(), "CREATE TABLE b (y INT)".to_string()]);
    assert_eq!(indexes, vec!["create index i on a(x)".to_string()]);
}

#[test]
fn api_keys_are_hashed_with_sha256_hex() {
    assert_eq!(hash_key(""), "e3b0c44298fc1c149afbf4c8996fb92427ae41e4649b934ca495991b7852b855");
    assert_eq!(hash_key("abc"), "ba7816bf8f01cfea414140de5dae2223b00361a396177a9cb410ff61f20015ad");
}

#[test]
fn new_api_keys_have_the_documented_shape() {
    let (raw, prefix, hash) = new_api_key().unwrap();
    assert_eq!(raw.len(), 45);
    assert!(raw.starts_with("omni_"));
    assert!(raw[5..].chars().all(|c| c.is_ascii_hexdigit() && !c.is_ascii_uppercase()));
    assert_eq!(prefix, &raw[..8]);
    assert_eq!(hash, hash_key(&raw));
    assert_ne!(new_api_key().unwrap().0, raw);
}

#[test]
fn project_autocreation_is_on_unless_switched_off() {
    assert!(auto_create_projects(None));
    assert!(auto_create_projects(Some("")));
    assert!(auto_create_projects(Some("yes")));
    for off in ["0", "false", " NO ", "Off"] {
        assert!(!auto_create_projects(Some(off)), "{off}");
    }
}

#[test]
fn ratchets_follow_protected_branches() {
    assert!(is_ratchet_branch(None, None));
    assert!(is_ratchet_branch(Some("  "), Some("dev")));
    assert!(is_ratchet_branch(Some("Main"), None));
    assert!(is_ratchet_branch(Some("master"), Some("  ")));
    assert!(!is_ratchet_branch(Some("feature/x"), None));
    assert!(is_ratchet_branch(Some("release"), Some("dev, Release")));
    assert!(!is_ratchet_branch(Some("main"), Some("dev,release")));
}

#[test]
fn upgrades_probe_one_column_each() {
    let ms = column_migrations();
    assert_eq!(ms.len(), 10);
    assert_eq!(
        probe_query(&ms[0]),
        "SELECT COUNT(*) FROM pragma_table_info('coverage_snapshots') WHERE name = 'dependencies_json'"
    );
    assert_eq!(ms[9].probe, "ratchet_enabled");
    assert_eq!(ms[9].statements.len(), 3);
    assert!(ms.iter().all(|m| m.statements.iter().all(|s| s.starts_with("ALTER TABLE "))));
}

#[test]
fn the_plan_runs_tables_then_missing_upgrades_then_indexes() {
    let stmts = schema_statements("CREATE INDEX i ON projects(tags);\nCREATE TABLE projects (id TEXT);\n");
    let ms = column_migrations();
    let mut missing = vec![false; ms.len()];
    missing[8] = true;
    let plan = migration_plan(&stmts, &ms, &missing);
    assert_eq!(
        plan,
        vec![
            "CREATE TABLE projects (id TEXT)".to_string(),
            "ALTER TABLE projects ADD COLUMN tags TEXT".to_string(),
            "CREATE INDEX i ON projects(tags)".to_string(),
        ]
    );
    let none = migration_plan(&stmts, &ms, &vec![false; ms.len()]);
    assert_eq!(none.len(), 2);
}

#[test]
fn ingest_creates_missing_projects_only_when_allowed() {
    assert_eq!(project_for_ingest(true, false, "p", None), Ok(None));
    assert_eq!(
        project_for_ingest(false, true, "p", Some("Proj")),
        Ok(Some(("p".to_string(), "Proj".to_string())))
    );
    assert_eq!(project_for_ingest(false, true, "p", None), Ok(Some(("p".to_string(), "p".to_string()))));
    assert_eq!(
        project_for_ingest(false, false, "p", None),
        Err("Project 'p' does not exist and OMNIVORE_ALLOW_PROJECT_AUTOCREATE is disabled".to_string())
    );
}

#[test]
fn an_api_key_is_built_from_its_random_digits() {
    let a = "0123456789abcdef0123456789abcdef";
    let b = "fedcba9876543210fedcba9876543210";
    let (raw, prefix, hash) = api_key_from(a, b);
    assert_eq!(raw, "omni_0123456789abcdef0123456789abcdeffedcba98");
    assert_eq!(prefix, "omni_012");
    assert_eq!(hash, hash_key(&raw));
}
