//! Encryption for secrets held at rest.
//!
//! The only secret stored is a user's GitHub OAuth access token, kept for the
//! life of their session. It is sealed with ChaCha20-Poly1305 under a random
//! 96-bit nonce per record, keyed by the `OMNIVORE_SECRET_KEY` passphrase
//! (hashed to 32 bytes). AEAD rather than a bare stream cipher, so a tampered
//! ciphertext fails loudly instead of decrypting to garbage.
//!
//! Encryption is opt-in: without a passphrase values are stored as they are.
//! Stored values are tagged so both forms coexist: ciphertext is
//! `omnivore:v1:<base64(nonce || ciphertext)>`, anything else is plaintext.
//! The passphrase is handed in by the caller, which reads it from the
//! environment.

use vstd::prelude::*;

use base64::Engine;
use chacha20poly1305::aead::{Aead, KeyInit};
use sha2::Digest;

use crate::text::{chars_of, has_prefix, has_substring, occurs_at, owned, push_all, slice, starts_with_str, string_from_chars, trim, trimmed};
use vstd::utf8::{decode_utf8, encode_utf8, valid_utf8};

verus! {

/// The tag that marks a stored value as ciphertext.
pub const PREFIX: &'static str = "omnivore:v1:";

/// Bytes of nonce at the front of a sealed payload.
pub const NONCE_LEN: usize = 12;

/// Why a stored secret could not be recovered.
#[derive(Debug, Clone, Copy, PartialEq, Eq, Structural)]
pub enum CryptoError {
    MissingKey,
    Malformed,
    Undecryptable,
}

pub open spec fn crypto_error_text(e: CryptoError) -> Seq<char> {
    match e {
        CryptoError::MissingKey => "secret is encrypted but OMNIVORE_SECRET_KEY is not set"@,
        CryptoError::Malformed => "stored secret is malformed"@,
        CryptoError::Undecryptable => "stored secret failed authentication — wrong key, or the data was tampered with"@,
    }
}

impl CryptoError {
    /// The text of the error.
    pub fn message(&self) -> (s: String)
        ensures
            s@ == crypto_error_text(*self),
    {
        match self {
            CryptoError::MissingKey => owned("secret is encrypted but OMNIVORE_SECRET_KEY is not set"),
            CryptoError::Malformed => owned("stored secret is malformed"),
            CryptoError::Undecryptable => owned(
                "stored secret failed authentication — wrong key, or the data was tampered with",
            ),
        }
    }
}

/// The SHA-256 digest of `data`.
pub uninterp spec fn sha256_digest(data: Seq<u8>) -> Seq<u8>;

/// What ChaCha20-Poly1305 seals `plaintext` into under `key` and `nonce`.
pub uninterp spec fn aead_seal(key: Seq<u8>, nonce: Seq<u8>, plaintext: Seq<u8>) -> Seq<u8>;

/// What ChaCha20-Poly1305 opens `ciphertext` into under `key` and `nonce`;
/// `None` when it fails authentication.
pub uninterp spec fn aead_open(key: Seq<u8>, nonce: Seq<u8>, ciphertext: Seq<u8>) -> Option<Seq<u8>>;

/// The standard, padded base64 encoding of `data`.
pub uninterp spec fn base64_encode(data: Seq<u8>) -> Seq<char>;

/// The bytes `text` decodes to under standard, padded base64; `None` when it
/// is not such an encoding.
pub uninterp spec fn base64_decode(text: Seq<char>) -> Option<Seq<u8>>;

/// `sha2::Sha256` over `data`: a 32-byte digest.
#[verifier::external_body]
pub(crate) fn sha256(data: &[u8]) -> (r: Vec<u8>)
    ensures
        r@ == sha256_digest(data@),
        r@.len() == 32,
{
    sha2::Sha256::digest(data).to_vec()
}

/// `getrandom::fill` on a buffer of `n` bytes: the bytes drawn, or nothing
/// when the system has no random number generator to offer. Nothing is
/// stated of which bytes come back, only how many.
#[verifier::external_body]
pub(crate) fn random_bytes(n: usize) -> (r: Option<Vec<u8>>)
    requires
        n <= 4096,
    ensures
        r matches Some(v) ==> v@.len() == n,
{
    let mut bytes = vec![0u8; n];
    match getrandom::fill(&mut bytes) {
        Ok(()) => Some(bytes),
        Err(_) => None,
    }
}

/// A plaintext of `len` bytes is within what ChaCha20-Poly1305 seals under
/// one nonce: fewer than `u32::MAX` blocks of 64 bytes.
pub open spec fn within_cipher_limit(len: nat) -> bool {
    len / 64 < u32::MAX
}

/// `ChaCha20Poly1305::encrypt`: the ciphertext with its 16-byte tag appended,
/// which opens again to the plaintext under the same key and nonce. The
/// cipher refuses, and nothing is returned, exactly when the plaintext is
/// beyond its block-counter limit.
#[verifier::external_body]
fn seal(key: &[u8], nonce: &[u8], plaintext: &[u8]) -> (r: Option<Vec<u8>>)
    requires
        key@.len() == 32,
        nonce@.len() == NONCE_LEN,
    ensures
        r is Some <==> within_cipher_limit(plaintext@.len()),
        r matches Some(c) ==> c@ == aead_seal(key@, nonce@, plaintext@) && c@.len() == plaintext@.len() + 16
            && aead_open(key@, nonce@, c@) == Some(plaintext@),
{
    let cipher = chacha20poly1305::ChaCha20Poly1305::new(chacha20poly1305::Key::from_slice(key));
    cipher.encrypt(chacha20poly1305::Nonce::from_slice(nonce), plaintext).ok()
}

/// `ChaCha20Poly1305::decrypt`: the plaintext, or nothing when the ciphertext
/// fails authentication.
#[verifier::external_body]
fn open(key: &[u8], nonce: &[u8], ciphertext: &[u8]) -> (r: Option<Vec<u8>>)
    requires
        key@.len() == 32,
        nonce@.len() == NONCE_LEN,
    ensures
        match r {
            Some(p) => aead_open(key@, nonce@, ciphertext@) == Some(p@),
            None => aead_open(key@, nonce@, ciphertext@) is None,
        },
{
    let cipher = chacha20poly1305::ChaCha20Poly1305::new(chacha20poly1305::Key::from_slice(key));
    cipher.decrypt(chacha20poly1305::Nonce::from_slice(nonce), ciphertext).ok()
}

/// A character of the standard base64 alphabet, or its padding `=`.
pub open spec fn is_base64_char(c: char) -> bool {
    ('A' <= c <= 'Z') || ('a' <= c <= 'z') || ('0' <= c <= '9') || c == '+' || c == '/' || c == '='
}

/// `base64::engine::general_purpose::STANDARD.encode`, which decodes back to
/// `data` and is written in the standard alphabet with `=` padding.
#[verifier::external_body]
fn encode_base64(data: &[u8]) -> (r: String)
    ensures
        r@ == base64_encode(data@),
        base64_decode(r@) == Some(data@),
        forall|i: int| 0 <= i < r@.len() ==> is_base64_char(#[trigger] r@[i]),
{
    base64::engine::general_purpose::STANDARD.encode(data)
}

/// `base64::engine::general_purpose::STANDARD.decode`.
#[verifier::external_body]
fn decode_base64(text: &str) -> (r: Option<Vec<u8>>)
    ensures
        match r {
            Some(b) => base64_decode(text@) == Some(b@),
            None => base64_decode(text@) is None,
        },
{
    base64::engine::general_purpose::STANDARD.decode(text).ok()
}

/// `String::from_utf8`: the text `bytes` encode, when they are valid UTF-8.
#[verifier::external_body]
fn utf8_string(bytes: Vec<u8>) -> (r: Option<String>)
    ensures
        match r {
            Some(s) => valid_utf8(bytes@) && s@ == decode_utf8(bytes@),
            None => !valid_utf8(bytes@),
        },
{
    String::from_utf8(bytes).ok()
}

pub open spec fn opt_chars(s: Option<&str>) -> Option<Seq<char>> {
    match s {
        Some(v) => Some(v@),
        None => None,
    }
}

/// The key a passphrase gives: the digest of a fixed context string and the
/// trimmed passphrase; none for a missing or blank passphrase.
pub open spec fn secret_key(secret: Option<Seq<char>>) -> Option<Seq<u8>> {
    match secret {
        None => None,
        Some(raw) => {
            let t = trim(raw);
            if t.len() == 0 {
                None
            } else {
                Some(sha256_digest(encode_utf8("omnivore-secret-key-v1"@) + encode_utf8(t)))
            }
        },
    }
}

/// The 32-byte key for a passphrase, if one is configured.
pub fn key_material(secret: Option<&str>) -> (r: Option<Vec<u8>>)
    ensures
        match secret_key(opt_chars(secret)) {
            Some(k) => r matches Some(v) && v@ == k && k.len() == 32,
            None => r is None,
        },
{
    let raw = match secret {
        Some(s) => s,
        None => return None,
    };
    let t = trimmed(chars_of(raw).as_slice());
    if t.len() == 0 {
        return None;
    }
    let ts = string_from_chars(t.as_slice());
    let context = "omnivore-secret-key-v1".as_bytes();
    let mut data: Vec<u8> = Vec::new();
    let mut i: usize = 0;
    while i < context.len()
        invariant
            i <= context@.len(),
            data@ == context@.take(i as int),
        decreases context.len() - i,
    {
        data.push(context[i]);
        i += 1;
    }
    let body = ts.as_str().as_bytes();
    let mut j: usize = 0;
    while j < body.len()
        invariant
            j <= body@.len(),
            data@ == context@ + body@.take(j as int),
        decreases body.len() - j,
    {
        data.push(body[j]);
        j += 1;
    }
    proof {
        assert(context@.take(i as int) == context@);
        assert(body@.take(j as int) == body@);
    }
    Some(sha256(data.as_slice()))
}

/// Is encryption configured?
pub fn is_enabled(secret: Option<&str>) -> (b: bool)
    ensures
        b == secret_key(opt_chars(secret)) is Some,
{
    key_material(secret).is_some()
}

/// The stored form of `p` sealed under `key` with `nonce`.
pub open spec fn sealed_form(p: Seq<char>, key: Seq<u8>, nonce: Seq<u8>) -> Seq<char> {
    PREFIX@ + base64_encode(nonce + aead_seal(key, nonce, encode_utf8(p)))
}

/// `stored` is `p` sealed under `key` with a nonce of the right length, in a
/// form that opens again.
pub open spec fn sealed_under(p: Seq<char>, key: Seq<u8>, stored: Seq<char>) -> bool {
    exists|n: Seq<u8>|
        #![trigger sealed_form(p, key, n)]
        {
            let c = aead_seal(key, n, encode_utf8(p));
            &&& n.len() == NONCE_LEN
            &&& stored == sealed_form(p, key, n)
            &&& c.len() == encode_utf8(p).len() + 16
            &&& aead_open(key, n, c) == Some(encode_utf8(p))
            &&& base64_decode(base64_encode(n + c)) == Some(n + c)
            &&& forall|i: int|
                0 <= i < base64_encode(n + c).len() ==> is_base64_char(#[trigger] base64_encode(n + c)[i])
        }
}

/// `stored` is what encrypting `p` gives: `p` itself without a key, or when
/// the cipher refuses a plaintext beyond its limit; else `p` sealed under the
/// key with some nonce.
pub open spec fn encrypted(p: Seq<char>, secret: Option<Seq<char>>, stored: Seq<char>) -> bool {
    match secret_key(secret) {
        None => stored == p,
        Some(k) => if within_cipher_limit(encode_utf8(p).len()) {
            sealed_under(p, k, stored)
        } else {
            stored == p
        },
    }
}

/// Seal `plaintext` under `key` with the given `nonce` into its stored form,
/// `omnivore:v1:` and the base64 of the nonce and the ciphertext. Nothing
/// when the plaintext is beyond the cipher's limit.
pub fn encrypt_with_nonce(plaintext: &str, key: &[u8], nonce: &[u8]) -> (r: Option<String>)
    requires
        key@.len() == 32,
        nonce@.len() == NONCE_LEN,
    ensures
        r is Some <==> within_cipher_limit(encode_utf8(plaintext@).len()),
        r matches Some(s) ==> s@ == sealed_form(plaintext@, key@, nonce@) && sealed_under(plaintext@, key@, s@),
{
    let pt = plaintext.as_bytes();
    let ct = match seal(key, nonce, pt) {
        Some(c) => c,
        None => return None,
    };
    let mut payload: Vec<u8> = Vec::new();
    let mut i: usize = 0;
    while i < nonce.len()
        invariant
            i <= nonce@.len(),
            payload@ == nonce@.take(i as int),
        decreases nonce.len() - i,
    {
        payload.push(nonce[i]);
        i += 1;
    }
    let mut j: usize = 0;
    while j < ct.len()
        invariant
            j <= ct@.len(),
            i == nonce@.len(),
            payload@ == nonce@ + ct@.take(j as int),
        decreases ct.len() - j,
    {
        payload.push(ct[j]);
        j += 1;
    }
    proof {
        assert(nonce@.take(i as int) == nonce@);
        assert(ct@.take(j as int) == ct@);
    }
    let encoded = encode_base64(payload.as_slice());
    let mut out = chars_of(PREFIX);
    let e = chars_of(encoded.as_str());
    push_all(&mut out, e.as_slice());
    let r = string_from_chars(out.as_slice());
    proof {
        let k = key@;
        let n = nonce@;
        assert(r@ == sealed_form(plaintext@, k, n));
    }
    Some(r)
}

/// Encrypt a secret for storage. Returns the value unchanged when encryption
/// is not configured, so callers can always write the result directly; the
/// same when the cipher refuses a plaintext beyond its limit. With a key it
/// draws a fresh nonce, and returns nothing when the system has no random
/// number generator to draw it from.
pub fn encrypt(plaintext: &str, secret: Option<&str>) -> (r: Option<String>)
    ensures
        secret_key(opt_chars(secret)) is None ==> r is Some,
        r matches Some(s) ==> encrypted(plaintext@, opt_chars(secret), s@),
{
    let key = match key_material(secret) {
        Some(k) => k,
        None => return Some(owned(plaintext)),
    };
    let nonce = match random_bytes(NONCE_LEN) {
        Some(n) => n,
        None => return None,
    };
    match encrypt_with_nonce(plaintext, key.as_slice(), nonce.as_slice()) {
        Some(s) => Some(s),
        None => Some(owned(plaintext)),
    }
}

/// What decrypting `stored` gives.
pub open spec fn decrypted(stored: Seq<char>, secret: Option<Seq<char>>) -> Result<Seq<char>, CryptoError> {
    if !has_prefix(stored, PREFIX@) {
        Ok(stored)
    } else {
        match secret_key(secret) {
            None => Err(CryptoError::MissingKey),
            Some(k) => match base64_decode(stored.skip(PREFIX@.len() as int)) {
                None => Err(CryptoError::Malformed),
                Some(payload) => if payload.len() <= NONCE_LEN {
                    Err(CryptoError::Malformed)
                } else {
                    match aead_open(k, payload.take(NONCE_LEN as int), payload.skip(NONCE_LEN as int)) {
                        None => Err(CryptoError::Undecryptable),
                        Some(pt) => if valid_utf8(pt) {
                            Ok(decode_utf8(pt))
                        } else {
                            Err(CryptoError::Malformed)
                        },
                    }
                },
            },
        }
    }
}

/// Decrypt a stored secret. Untagged values are returned as they are, which
/// keeps rows written before encryption was enabled working.
pub fn decrypt(stored: &str, secret: Option<&str>) -> (r: Result<String, CryptoError>)
    ensures
        match decrypted(stored@, opt_chars(secret)) {
            Ok(s) => r matches Ok(x) && x@ == s,
            Err(e) => r == Err::<String, CryptoError>(e),
        },
{
    let chars = chars_of(stored);
    if !starts_with_str(chars.as_slice(), PREFIX) {
        return Ok(owned(stored));
    }
    let key = match key_material(secret) {
        Some(k) => k,
        None => return Err(CryptoError::MissingKey),
    };
    proof {
        reveal_strlit("omnivore:v1:");
    }
    let encoded = string_from_chars(slice(chars.as_slice(), 12, chars.len()).as_slice());
    let payload = match decode_base64(encoded.as_str()) {
        Some(p) => p,
        None => return Err(CryptoError::Malformed),
    };
    if payload.len() <= NONCE_LEN {
        return Err(CryptoError::Malformed);
    }
    let mut nonce: Vec<u8> = Vec::new();
    let mut i: usize = 0;
    while i < NONCE_LEN
        invariant
            i <= NONCE_LEN,
            NONCE_LEN < payload@.len(),
            nonce@ == payload@.take(i as int),
        decreases NONCE_LEN - i,
    {
        nonce.push(payload[i]);
        i += 1;
    }
    let mut ct: Vec<u8> = Vec::new();
    let mut j: usize = NONCE_LEN;
    while j < payload.len()
        invariant
            NONCE_LEN <= j <= payload@.len(),
            ct@ == payload@.subrange(NONCE_LEN as int, j as int),
        decreases payload.len() - j,
    {
        ct.push(payload[j]);
        j += 1;
    }
    proof {
        assert(ct@ == payload@.skip(NONCE_LEN as int));
    }
    let pt = match open(key.as_slice(), nonce.as_slice(), ct.as_slice()) {
        Some(p) => p,
        None => return Err(CryptoError::Undecryptable),
    };
    match utf8_string(pt) {
        Some(s) => Ok(s),
        None => Err(CryptoError::Malformed),
    }
}

/// Decrypting what `encrypt` stored gives back the plaintext, whatever nonce
/// was drawn, unless the value was stored as plaintext that itself carries
/// the ciphertext tag.
pub proof fn lemma_round_trip(p: Seq<char>, secret: Option<Seq<char>>, stored: Seq<char>)
    requires
        encrypted(p, secret, stored),
        stored == p ==> !has_prefix(p, PREFIX@),
    ensures
        decrypted(stored, secret) == Ok::<Seq<char>, CryptoError>(p),
{
    if stored != p {
        let k = secret_key(secret)->Some_0;
        lemma_sealed_opens(p, k, stored);
        vstd::utf8::encode_utf8_valid_utf8(p);
        vstd::utf8::encode_utf8_decode_utf8(p);
    }
}

/// A sealed value carries the ciphertext tag, and under its key decrypts to
/// the plaintext.
proof fn lemma_sealed_opens(p: Seq<char>, k: Seq<u8>, stored: Seq<char>)
    requires
        sealed_under(p, k, stored),
    ensures
        has_prefix(stored, PREFIX@),
        base64_decode(stored.skip(PREFIX@.len() as int)) matches Some(payload) && payload.len() > NONCE_LEN
            && aead_open(k, payload.take(NONCE_LEN as int), payload.skip(NONCE_LEN as int)) == Some(encode_utf8(p)),
{
    let n = choose|n: Seq<u8>|
        #![trigger sealed_form(p, k, n)]
        {
            let c = aead_seal(k, n, encode_utf8(p));
            &&& n.len() == NONCE_LEN
            &&& stored == sealed_form(p, k, n)
            &&& c.len() == encode_utf8(p).len() + 16
            &&& aead_open(k, n, c) == Some(encode_utf8(p))
            &&& base64_decode(base64_encode(n + c)) == Some(n + c)
        };
    let c = aead_seal(k, n, encode_utf8(p));
    reveal_strlit("omnivore:v1:");
    let b = base64_encode(n + c);
    assert(stored == PREFIX@ + b);
    assert(stored.subrange(0, PREFIX@.len() as int) =~= PREFIX@);
    assert(stored.skip(PREFIX@.len() as int) == b);
    assert((n + c).take(NONCE_LEN as int) == n);
    assert((n + c).skip(NONCE_LEN as int) == c);
}

/// Under a configured key, a secret within the cipher's limit is stored
/// sealed: it carries the ciphertext tag, decrypts to the plaintext under
/// that key, once the key is gone decrypting it fails for want of one, and
/// the stored text does not show a secret holding a character that neither
/// base64 nor the tag uses (such as `_` in a GitHub token).
pub proof fn lemma_stored_sealed_under_key(p: Seq<char>, secret: Option<Seq<char>>, stored: Seq<char>)
    requires
        encrypted(p, secret, stored),
        secret_key(secret) is Some,
        within_cipher_limit(encode_utf8(p).len()),
    ensures
        has_prefix(stored, PREFIX@),
        decrypted(stored, secret) == Ok::<Seq<char>, CryptoError>(p),
        decrypted(stored, None) == Err::<Seq<char>, CryptoError>(CryptoError::MissingKey),
        (exists|j: int| 0 <= j < p.len() && !is_base64_char(#[trigger] p[j]) && p[j] != ':') ==> !has_substring(
            stored,
            p,
        ),
{
    let k = secret_key(secret)->Some_0;
    lemma_sealed_opens(p, k, stored);
    if exists|j: int| 0 <= j < p.len() && !is_base64_char(#[trigger] p[j]) && p[j] != ':' {
        let j = choose|j: int| 0 <= j < p.len() && !is_base64_char(#[trigger] p[j]) && p[j] != ':';
        lemma_sealed_hides_plaintext(p, k, stored, j);
    }
    vstd::utf8::encode_utf8_valid_utf8(p);
    vstd::utf8::encode_utf8_decode_utf8(p);
}

/// Without a passphrase, encryption leaves a secret as it is.
pub proof fn lemma_no_op_without_key(p: Seq<char>, stored: Seq<char>)
    requires
        encrypted(p, None, stored),
    ensures
        stored == p,
        !has_prefix(p, PREFIX@) ==> decrypted(stored, None) == Ok::<Seq<char>, CryptoError>(p),
{
}

/// A sealed value never shows a plaintext that holds a character outside
/// the base64 alphabet other than `:`: the stored text is the tag and base64.
pub proof fn lemma_sealed_hides_plaintext(p: Seq<char>, k: Seq<u8>, stored: Seq<char>, j: int)
    requires
        sealed_under(p, k, stored),
        0 <= j < p.len(),
        !is_base64_char(p[j]),
        p[j] != ':',
    ensures
        !has_substring(stored, p),
{
    let n = choose|n: Seq<u8>|
        #![trigger sealed_form(p, k, n)]
        {
            let c = aead_seal(k, n, encode_utf8(p));
            &&& n.len() == NONCE_LEN
            &&& stored == sealed_form(p, k, n)
            &&& c.len() == encode_utf8(p).len() + 16
            &&& aead_open(k, n, c) == Some(encode_utf8(p))
            &&& base64_decode(base64_encode(n + c)) == Some(n + c)
            &&& forall|i: int|
                0 <= i < base64_encode(n + c).len() ==> is_base64_char(#[trigger] base64_encode(n + c)[i])
        };
    let b = base64_encode(n + aead_seal(k, n, encode_utf8(p)));
    reveal_strlit("omnivore:v1:");
    assert(stored == PREFIX@ + b);
    assert forall|q: int| 0 <= q < stored.len() implies is_base64_char(#[trigger] stored[q]) || stored[q] == ':' by {
        if q >= PREFIX@.len() {
            assert(stored[q] == b[q - PREFIX@.len()]);
        }
    }
    if has_substring(stored, p) {
        let at = choose|at: int| occurs_at(stored, p, at);
        assert(stored.subrange(at, at + p.len())[j] == stored[at + j]);
        assert(is_base64_char(stored[at + j]) || stored[at + j] == ':');
    }
}

} // verus!
