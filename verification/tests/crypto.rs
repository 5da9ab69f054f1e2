use base64::Engine;
use omnivore::crypto::{decrypt, encrypt, encrypt_with_nonce, is_enabled, key_material, CryptoError, PREFIX};

#[test]
fn round_trips_with_a_key() {
    let key = Some("correct horse battery staple");
    let stored = encrypt("ghp_secret", key).unwrap();
    assert!(stored.starts_with(PREFIX), "should be tagged: {stored}");
    assert!(!stored.contains("ghp_secret"), "plaintext must not survive");
    assert_eq!(decrypt(&stored, key).unwrap(), "ghp_secret");
}

#[test]
fn is_a_no_op_without_a_key() {
    assert_eq!(encrypt("ghp_secret", None).unwrap(), "ghp_secret");
    assert_eq!(decrypt("ghp_secret", None).unwrap(), "ghp_secret");
}

#[test]
fn plaintext_rows_still_decrypt_after_enabling_encryption() {
    assert_eq!(
        decrypt("ghp_written_before_encryption", Some("k")).unwrap(),
        "ghp_written_before_encryption"
    );
}

#[test]
fn encrypted_rows_fail_loudly_if_the_key_goes_away() {
    let stored = encrypt("ghp_secret", Some("k")).unwrap();
    assert!(matches!(decrypt(&stored, None), Err(CryptoError::MissingKey)));
}

#[test]
fn wrong_key_is_rejected_rather_than_returning_garbage() {
    let stored = encrypt("ghp_secret", Some("right")).unwrap();
    assert!(matches!(decrypt(&stored, Some("wrong")), Err(CryptoError::Undecryptable)));
}

#[test]
fn tampering_is_detected() {
    let stored = encrypt("ghp_secret", Some("k")).unwrap();
    let mut bytes = base64::engine::general_purpose::STANDARD
        .decode(stored.strip_prefix(PREFIX).unwrap())
        .unwrap();
    let last = bytes.len() - 1;
    bytes[last] ^= 0xFF;
    let tampered = format!("{PREFIX}{}", base64::engine::general_purpose::STANDARD.encode(bytes));
    assert!(matches!(decrypt(&tampered, Some("k")), Err(CryptoError::Undecryptable)));
}

#[test]
fn nonce_is_per_record() {
    assert_ne!(
        encrypt("same", Some("k")).unwrap(),
        encrypt("same", Some("k")).unwrap(),
        "identical plaintexts must not produce identical ciphertexts"
    );
}

#[test]
fn a_blank_secret_means_no_key() {
    assert!(!is_enabled(Some("   ")));
    assert!(!is_enabled(None));
    assert!(is_enabled(Some("k")));
    assert!(key_material(Some("")).is_none());
    assert_eq!(key_material(Some("k")).unwrap().len(), 32);
    assert_eq!(key_material(Some(" k ")), key_material(Some("k")));
    assert_eq!(encrypt("x", Some("  ")).unwrap(), "x");
}

#[test]
fn malformed_payloads_are_reported() {
    assert_eq!(decrypt("omnivore:v1:!!!", Some("k")), Err(CryptoError::Malformed));
    assert_eq!(decrypt("omnivore:v1:AAAA", Some("k")), Err(CryptoError::Malformed));
    assert_eq!(
        CryptoError::MissingKey.message(),
        "secret is encrypted but OMNIVORE_SECRET_KEY is not set"
    );
}

#[test]
fn sealing_with_a_given_nonce_is_exact_and_opens_again() {
    let key = key_material(Some("k")).unwrap();
    let nonce = [7u8; 12];
    let stored = encrypt_with_nonce("ghp_secret", &key, &nonce).unwrap();
    assert_eq!(stored, encrypt_with_nonce("ghp_secret", &key, &nonce).unwrap());
    let payload = base64::engine::general_purpose::STANDARD
        .decode(stored.strip_prefix(PREFIX).unwrap())
        .unwrap();
    assert_eq!(&payload[..12], &nonce);
    assert_eq!(payload.len(), 12 + "ghp_secret".len() + 16);
    assert_eq!(decrypt(&stored, Some("k")).unwrap(), "ghp_secret");
    assert_ne!(stored, encrypt_with_nonce("ghp_secret", &key, &[8u8; 12]).unwrap());
}
