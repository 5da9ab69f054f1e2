use omnivore::server::settings::{
    admin_by_list, api_key_required, cors_policy, max_upload_bytes, normalize_tags, retention_setting, CorsPolicy,
    DEFAULT_MAX_UPLOAD_BYTES, oauth_state_check, presented_key_outcome, write_access, WriteAccess, cookie_secure, enforce_project_scope, format_uptime, is_truthy, oauth_enabled,
    oauth_scopes, require_login_to_view, sanitize_filename, validate_repo_field, OAuthConfig, DEFAULT_OAUTH_SCOPES,
};

#[test]
fn truthy_settings() {
    for on in ["1", "true", "YES", " On "] {
        assert!(is_truthy(Some(on)), "{on}");
    }
    for off in ["0", "false", "", "enabled"] {
        assert!(!is_truthy(Some(off)), "{off}");
    }
    assert!(!is_truthy(None));
    assert!(api_key_required(Some("true")));
    assert!(!require_login_to_view(None));
}

#[test]
fn cookies_are_secure_by_setting_or_https_url() {
    assert!(cookie_secure(Some("yes"), None));
    assert!(!cookie_secure(Some("no"), Some("https://dash.example")));
    assert!(cookie_secure(Some("  "), Some("  https://dash.example")));
    assert!(!cookie_secure(None, Some("http://dash.example")));
    assert!(!cookie_secure(None, None));
}

#[test]
fn oauth_scopes_default_when_blank() {
    assert_eq!(oauth_scopes(None), DEFAULT_OAUTH_SCOPES);
    assert_eq!(oauth_scopes(Some("   ")), "read:user,read:org");
    assert_eq!(oauth_scopes(Some(" repo ")), "repo");
}

#[test]
fn oauth_needs_both_credentials() {
    assert!(oauth_enabled(Some("id"), Some("secret")));
    assert!(!oauth_enabled(Some(""), Some("secret")));
    assert!(!oauth_enabled(Some("id"), None));
    let cfg = OAuthConfig::from_env(Some("id".into()), Some("secret".into())).unwrap();
    assert_eq!(cfg.client_id, "id");
    assert_eq!(cfg.client_secret, "secret");
    assert!(OAuthConfig::from_env(Some("id".into()), Some(String::new())).is_none());
    assert!(OAuthConfig::from_env(None, Some("secret".into())).is_none());
}

#[test]
fn admin_list_matches_usernames_ignoring_case() {
    assert_eq!(admin_by_list(Some("alice, Bob"), "bob"), Some(true));
    assert_eq!(admin_by_list(Some("alice, Bob"), "carol"), Some(false));
    assert_eq!(admin_by_list(Some(" , "), ""), Some(false));
    assert_eq!(admin_by_list(Some("   "), "alice"), None);
    assert_eq!(admin_by_list(None, "alice"), None);
}

#[test]
fn repo_field_must_be_a_slug_or_blank() {
    assert!(validate_repo_field(None).is_ok());
    assert!(validate_repo_field(Some("  ")).is_ok());
    assert!(validate_repo_field(Some("octo/repo")).is_ok());
    let err = validate_repo_field(Some("../etc")).unwrap_err();
    assert_eq!(err.0, 400);
    assert_eq!(err.1, "Invalid github_repo '../etc' — expected owner/name");
}

#[test]
fn scoped_keys_only_write_their_project() {
    assert!(enforce_project_scope(None, "any").is_ok());
    assert!(enforce_project_scope(Some("p1"), "p1").is_ok());
    let err = enforce_project_scope(Some("p1"), "p2").unwrap_err();
    assert_eq!(err.0, 403);
    assert_eq!(err.1, "API key is scoped to project 'p1', cannot write to 'p2'");
}

#[test]
fn filenames_are_sanitized() {
    assert_eq!(sanitize_filename("my-project_1.0"), "my-project_1.0");
    assert_eq!(sanitize_filename("a b/c\"d"), "a-b-c-d");
    assert_eq!(sanitize_filename("///"), "project");
    assert_eq!(sanitize_filename(""), "project");
    assert_eq!(sanitize_filename(&"x".repeat(150)).len(), 100);
    let once = sanitize_filename("ü\u{0}name");
    assert_eq!(sanitize_filename(&once), once);
}

#[test]
fn uptime_is_formatted_by_largest_unit() {
    assert_eq!(format_uptime(59), "0m");
    assert_eq!(format_uptime(3 * 3600 + 7 * 60), "3h 7m");
    assert_eq!(format_uptime(2 * 86400 + 5 * 3600 + 60), "2d 5h 1m");
}

#[test]
fn project_tags_are_normalized() {
    assert_eq!(normalize_tags(None), None);
    assert_eq!(normalize_tags(Some("  ")), None);
    assert_eq!(normalize_tags(Some(" backend ,, ui,  ")).as_deref(), Some("backend, ui"));
    assert_eq!(normalize_tags(Some(",")).as_deref(), Some(""));
    assert_eq!(normalize_tags(Some("solo")).as_deref(), Some("solo"));
}

#[test]
fn retention_fields_have_floors_and_defaults() {
    assert_eq!(retention_setting(None, 1, 30), 30);
    assert_eq!(retention_setting(Some(""), 1, 30), 30);
    assert_eq!(retention_setting(Some("abc"), 1, 30), 30);
    assert_eq!(retention_setting(Some("0"), 1, 30), 1);
    assert_eq!(retention_setting(Some("-5"), 0, 60), 0);
    assert_eq!(retention_setting(Some("+90"), 0, 60), 90);
    assert_eq!(retention_setting(Some(" 9"), 0, 60), 60);
}

#[test]
fn upload_limit_defaults_to_32_mib() {
    assert_eq!(DEFAULT_MAX_UPLOAD_BYTES, 32 * 1024 * 1024);
    assert_eq!(max_upload_bytes(None), DEFAULT_MAX_UPLOAD_BYTES);
    assert_eq!(max_upload_bytes(Some(" 1024 ")), 1024);
    assert_eq!(max_upload_bytes(Some("0")), DEFAULT_MAX_UPLOAD_BYTES);
    assert_eq!(max_upload_bytes(Some("-1")), DEFAULT_MAX_UPLOAD_BYTES);
    assert_eq!(max_upload_bytes(Some("lots")), DEFAULT_MAX_UPLOAD_BYTES);
}

#[test]
fn cors_origins_come_from_the_setting() {
    assert!(matches!(cors_policy(None), CorsPolicy::SameOrigin));
    assert!(matches!(cors_policy(Some("   ")), CorsPolicy::SameOrigin));
    assert!(matches!(cors_policy(Some(" * ")), CorsPolicy::AnyOrigin));
    match cors_policy(Some("https://a.example, ,https://b.example ")) {
        CorsPolicy::Origins(v) => assert_eq!(v, vec!["https://a.example".to_string(), "https://b.example".to_string()]),
        _ => panic!("expected a list of origins"),
    }
}

#[test]
fn writes_need_a_key_once_keys_exist_or_one_is_required() {
    assert!(matches!(write_access(false, false, None), Ok(WriteAccess::Open)));
    assert!(matches!(write_access(false, false, Some("k")), Ok(WriteAccess::Open)));
    match write_access(true, false, Some("omni_abc")) {
        Ok(WriteAccess::Presented(k)) => assert_eq!(k, "omni_abc"),
        _ => panic!("expected the presented key"),
    }
    match write_access(false, true, None) {
        Err(e) => assert_eq!(e, (401, "Missing X-API-Key header".to_string())),
        _ => panic!("expected a refusal"),
    }
    assert!(presented_key_outcome(true).is_ok());
    assert_eq!(presented_key_outcome(false), Err((401, "Invalid API key".to_string())));
}

#[test]
fn the_oauth_state_must_match_its_cookie() {
    assert!(oauth_state_check(Some("abc"), Some("abc")).is_ok());
    assert_eq!(
        oauth_state_check(None, Some("abc")),
        Err((400, "Missing OAuth state cookie — restart login from /auth/login".to_string()))
    );
    assert_eq!(
        oauth_state_check(Some("abc"), Some("abd")),
        Err((400, "OAuth state mismatch — possible login CSRF; restart login".to_string()))
    );
    assert!(oauth_state_check(Some("abc"), None).is_err());
    assert!(oauth_state_check(Some(""), None).is_ok());
}
