use omnivore::server::csrf::{
    constant_time_eq, csrf_error, issue, mint, mint_from, sign, signing_key, verify, verify_signature,
};

const KEY: &str = "test-signing-key";

#[test]
fn a_minted_token_verifies() {
    let token = mint(KEY).unwrap();
    assert!(verify_signature(&token, KEY));
}

#[test]
fn a_forged_token_does_not_verify() {
    // An attacker who can guess the random half still cannot sign it.
    assert!(!verify_signature("deadbeef.0000000000000000000000000000000", KEY));
    assert!(!verify_signature("no-separator", KEY));
    assert!(!verify_signature("", KEY));
}

#[test]
fn a_tampered_token_does_not_verify() {
    let token = mint(KEY).unwrap();
    let (random, signature) = token.split_once('.').unwrap();
    let tampered = format!("{random}x.{signature}");
    assert!(!verify_signature(&tampered, KEY));
}

#[test]
fn a_token_signed_under_another_key_does_not_verify() {
    let token = mint("one key").unwrap();
    assert!(!verify_signature(&token, "another key"));
}

#[test]
fn signatures_are_32_hex_digits() {
    let s = sign("value", KEY);
    assert_eq!(s.len(), 32);
    assert!(s.chars().all(|c| c.is_ascii_hexdigit() && !c.is_ascii_uppercase()));
    assert_eq!(s, sign("value", KEY));
    assert_ne!(s, sign("value2", KEY));
    assert_eq!(verify_signature(&format!("value.{s}"), KEY), true);
}

#[test]
fn minted_tokens_have_a_random_part_of_64_hex_digits() {
    let token = mint(KEY).unwrap();
    let (random, _) = token.split_once('.').unwrap();
    assert_eq!(random.len(), 64);
    assert_ne!(mint(KEY).unwrap(), token);
}

#[test]
fn constant_time_eq_compares_exactly() {
    assert!(constant_time_eq("abc", "abc"));
    assert!(!constant_time_eq("abc", "abd"));
    assert!(!constant_time_eq("abc", "ab"));
    assert!(constant_time_eq("", ""));
}

#[test]
fn issue_keeps_a_valid_cookie_and_replaces_a_bad_one() {
    let token = mint(KEY).unwrap();
    assert_eq!(issue(Some(&token), KEY).unwrap(), token);
    let fresh = issue(Some("garbage"), KEY).unwrap();
    assert_ne!(fresh, "garbage");
    assert!(verify_signature(&fresh, KEY));
    assert!(verify_signature(&issue(None, KEY).unwrap(), KEY));
}

#[test]
fn verify_requires_matching_signed_cookie_and_field() {
    let token = mint(KEY).unwrap();
    assert!(verify(false, None, None, KEY).is_ok());
    assert!(verify(true, Some(&token), Some(&token), KEY).is_ok());
    let refused = verify(true, Some(&token), None, KEY).unwrap_err();
    assert_eq!(refused, csrf_error());
    assert_eq!(refused.0, 403);
    assert_eq!(refused.1, "CSRF check failed — reload the page and try again");
    let other = mint(KEY).unwrap();
    assert!(verify(true, Some(&token), Some(&other), KEY).is_err());
    assert!(verify(true, Some("forged.sig"), Some("forged.sig"), KEY).is_err());
}

#[test]
fn the_signing_key_is_the_secret_or_the_process_key() {
    assert_eq!(signing_key(Some("  s3cret "), "proc"), "s3cret");
    assert_eq!(signing_key(Some("   "), "proc"), "proc");
    assert_eq!(signing_key(None, "proc"), "proc");
}

#[test]
fn a_token_is_its_random_part_a_dot_and_the_signature() {
    let token = mint_from("abc123", KEY);
    assert_eq!(token, format!("abc123.{}", sign("abc123", KEY)));
    assert!(verify_signature(&token, KEY));
    let minted = mint(KEY).unwrap();
    let (random, _) = minted.split_once('.').unwrap();
    assert_eq!(mint_from(random, KEY), minted);
}
