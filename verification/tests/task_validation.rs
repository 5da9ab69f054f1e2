use omnivore::tasks::validation::{sanitize_description, validate_tag, validate_title};

#[test]
fn valid_title() {
    assert!(validate_title("Fix the bug").is_ok());
}

#[test]
fn empty_title_rejected() {
    assert!(validate_title("").is_err());
    assert!(validate_title("   ").is_err());
}

#[test]
fn long_title_rejected() {
    let long = "a".repeat(201);
    assert!(validate_title(&long).is_err());
}

#[test]
fn newline_title_rejected() {
    assert!(validate_title("line1\nline2").is_err());
}

#[test]
fn valid_tag() {
    assert!(validate_tag("bug-fix").is_ok());
    assert!(validate_tag("v2_feature").is_ok());
}

#[test]
fn empty_tag_rejected() {
    assert!(validate_tag("").is_err());
}

#[test]
fn special_chars_tag_rejected() {
    assert!(validate_tag("bug fix").is_err());
    assert!(validate_tag("tag@name").is_err());
}

#[test]
fn sanitize_collapses_whitespace() {
    assert_eq!(sanitize_description("  hello   world  "), "hello world");
}

#[test]
fn sanitize_collapses_tabs_and_newlines() {
    assert_eq!(sanitize_description("\ta\n\n b \t"), "a b");
    let once = sanitize_description("  x   y ");
    assert_eq!(sanitize_description(&once), once);
}

#[test]
fn title_at_the_limit_is_accepted() {
    assert!(validate_title(&"a".repeat(200)).is_ok());
}
