//! CSRF protection for the HTML form endpoints: a signed double-submit token.
//!
//! A token is a random value plus a keyed digest over it, handed out in a
//! cookie and echoed in a hidden form field. A request is accepted only when
//! both are present, equal, and carry a valid signature. An attacker on
//! another origin can neither read the cookie nor forge the signature.
//!
//! Signing means the server does not remember issued tokens. The signing key
//! is the `OMNIVORE_SECRET_KEY` passphrase, or a per-process random key; the
//! caller supplies it.
//!
//! Only enforced when OAuth is enabled: with no authentication there is no
//! session for an attacker to ride.

use vstd::prelude::*;

use crate::crypto::{sha256, sha256_digest};
use crate::ids::{is_simple_uuid, lemma_simple_uuid_digits, new_uuid_simple};
use crate::text::{chars_of, find_char, index_of_char, owned, push_all, push_str, slice, string_from_chars, trim, trimmed};
use vstd::utf8::encode_utf8;

verus! {

pub const COOKIE_NAME: &'static str = "omnivore_csrf";

pub const FIELD_NAME: &'static str = "csrf_token";

/// The lower-case hexadecimal digit for `d < 16`.
pub open spec fn hex_digit(d: int) -> char {
    if d < 10 {
        ((d + ('0' as int)) as u8) as char
    } else {
        ((d - 10 + ('a' as int)) as u8) as char
    }
}

/// Lower-case hexadecimal, two digits per byte.
pub open spec fn hex_lower(b: Seq<u8>) -> Seq<char>
    decreases b.len(),
{
    if b.len() == 0 {
        Seq::empty()
    } else {
        hex_lower(b.drop_last()) + seq![hex_digit((b.last() / 16) as int), hex_digit((b.last() % 16) as int)]
    }
}

pub open spec fn is_lower_hex(c: char) -> bool {
    ('0' <= c <= '9') || ('a' <= c <= 'f')
}

/// `hex::encode`: lower-case hexadecimal, two digits per byte.
#[verifier::external_body]
pub(crate) fn hex_encode(data: &[u8]) -> (r: String)
    ensures
        r@ == hex_lower(data@),
{
    hex::encode(data)
}

/// The signature of `value` under `key`: the first 16 bytes of the SHA-256
/// of a context string, the key and the value, in hexadecimal.
pub open spec fn signature_of(value: Seq<char>, key: Seq<char>) -> Seq<char> {
    hex_lower(sha256_digest(encode_utf8("omnivore-csrf-v1"@) + encode_utf8(key) + encode_utf8(value)).take(16))
}

/// A token is valid when the part after its first `.` is the signature of
/// the part before it.
pub open spec fn signature_valid(token: Seq<char>, key: Seq<char>) -> bool {
    let i = index_of_char(token, '.');
    i >= 0 && signature_of(token.take(i), key) == token.skip(i + 1)
}

fn push_bytes(out: &mut Vec<u8>, b: &[u8])
    ensures
        final(out)@ == old(out)@ + b@,
{
    let ghost start = out@;
    let mut i: usize = 0;
    while i < b.len()
        invariant
            i <= b@.len(),
            out@ == start + b@.take(i as int),
        decreases b.len() - i,
    {
        out.push(b[i]);
        i += 1;
    }
    proof {
        assert(b@.take(i as int) == b@);
    }
}

/// The signature of `value` under `key`.
pub fn sign(value: &str, key: &str) -> (r: String)
    ensures
        r@ == signature_of(value@, key@),
{
    let mut data: Vec<u8> = Vec::new();
    push_bytes(&mut data, "omnivore-csrf-v1".as_bytes());
    push_bytes(&mut data, key.as_bytes());
    push_bytes(&mut data, value.as_bytes());
    let digest = sha256(data.as_slice());
    let mut head: Vec<u8> = Vec::new();
    let mut i: usize = 0;
    while i < 16
        invariant
            i <= 16,
            digest@.len() == 32,
            head@ == digest@.take(i as int),
        decreases 16 - i,
    {
        head.push(digest[i]);
        i += 1;
    }
    hex_encode(head.as_slice())
}

/// Byte-wise comparison whose running time does not depend on where the
/// inputs first differ.
pub fn constant_time_eq(a: &str, b: &str) -> (r: bool)
    ensures
        r == (a@ == b@),
{
    let x = a.as_bytes();
    let y = b.as_bytes();
    proof {
        vstd::utf8::encode_utf8_decode_utf8(a@);
        vstd::utf8::encode_utf8_decode_utf8(b@);
    }
    if x.len() != y.len() {
        return false;
    }
    let mut acc: u8 = 0;
    let mut i: usize = 0;
    proof {
        assert(x@.take(0) =~= y@.take(0));
    }
    while i < x.len()
        invariant
            i <= x@.len(),
            x@.len() == y@.len(),
            (acc == 0) == (x@.take(i as int) == y@.take(i as int)),
        decreases x.len() - i,
    {
        let p = x[i];
        let q = y[i];
        let d = p ^ q;
        proof {
            assert((d == 0) == (p == q)) by (bit_vector)
                requires
                    d == p ^ q,
            ;
            assert(((acc | d) == 0) == (acc == 0 && d == 0)) by (bit_vector);
            assert(x@.take(i + 1) == x@.take(i as int).push(p));
            assert(y@.take(i + 1) == y@.take(i as int).push(q));
            if x@.take(i + 1) == y@.take(i + 1) {
                assert(x@.take(i + 1).drop_last() == x@.take(i as int));
                assert(y@.take(i + 1).drop_last() == y@.take(i as int));
                assert(x@.take(i + 1).last() == p);
            }
        }
        acc = acc | d;
        i += 1;
    }
    proof {
        assert(x@.take(i as int) == x@);
        assert(y@.take(i as int) == y@);
    }
    acc == 0
}

/// Does `token` carry a valid signature under `key`?
pub fn verify_signature(token: &str, key: &str) -> (r: bool)
    ensures
        r == signature_valid(token@, key@),
{
    let t = chars_of(token);
    let i = match find_char(t.as_slice(), '.') {
        Some(i) => {
            proof {
                crate::text::lemma_index_of_char_is(t@, '.', i as int);
            }
            i
        },
        None => {
            proof {
                crate::text::lemma_index_of_char(t@, '.');
            }
            return false;
        },
    };
    let random = string_from_chars(slice(t.as_slice(), 0, i).as_slice());
    let signature = string_from_chars(slice(t.as_slice(), i + 1, t.len()).as_slice());
    proof {
        assert(random@ == token@.take(i as int));
        assert(signature@ == token@.skip(i + 1));
    }
    constant_time_eq(sign(random.as_str(), key).as_str(), signature.as_str())
}

/// A value signed under `key` and joined to its signature by a `.` verifies,
/// provided the value holds no `.` of its own.
pub proof fn lemma_signed_token_verifies(value: Seq<char>, key: Seq<char>)
    requires
        !value.contains('.'),
    ensures
        signature_valid(value + "."@ + signature_of(value, key), key),
{
    let token = value + "."@ + signature_of(value, key);
    reveal_strlit(".");
    assert(token[value.len() as int] == '.');
    assert forall|k: int| 0 <= k < value.len() implies token[k] != '.' by {
        assert(token[k] == value[k]);
    }
    crate::text::lemma_index_of_char_is(token, '.', value.len() as int);
    assert(token.take(value.len() as int) == value);
    assert(token.skip(value.len() as int + 1) == signature_of(value, key));
}

/// The token for the random part `random` under `key`: the part, a `.`,
/// and its signature.
pub open spec fn token_for(random: Seq<char>, key: Seq<char>) -> Seq<char> {
    random + "."@ + signature_of(random, key)
}

/// The random part of a minted token: two simple version-4 UUIDs, 64
/// lower-case hexadecimal digits in all.
pub open spec fn is_random_part(d: Seq<char>) -> bool {
    exists|a: Seq<char>, b: Seq<char>| #![trigger is_simple_uuid(a), is_simple_uuid(b)]
        is_simple_uuid(a) && is_simple_uuid(b) && d == a + b
}

/// The token for the random part `random`: the part, a `.`, and its
/// signature under `key`. It verifies whenever the part holds no `.`.
pub fn mint_from(random: &str, key: &str) -> (r: String)
    ensures
        r@ == token_for(random@, key@),
        !random@.contains('.') ==> signature_valid(r@, key@),
{
    let signature = sign(random, key);
    let mut out = chars_of(random);
    push_str(&mut out, ".");
    let sc = chars_of(signature.as_str());
    push_all(&mut out, sc.as_slice());
    proof {
        if !random@.contains('.') {
            lemma_signed_token_verifies(random@, key@);
        }
    }
    string_from_chars(out.as_slice())
}

/// A fresh token: 64 random hexadecimal digits, a `.`, and their signature.
/// Every minted token verifies under the key it was minted with. Nothing
/// when the system has no random number generator to draw from.
pub fn mint(key: &str) -> (r: Option<String>)
    ensures
        r matches Some(t) ==> signature_valid(t@, key@) && exists|d: Seq<char>|
            #![trigger token_for(d, key@)]
            is_random_part(d) && t@ == token_for(d, key@),
{
    let a = match new_uuid_simple() {
        Some(a) => a,
        None => return None,
    };
    let b = match new_uuid_simple() {
        Some(b) => b,
        None => return None,
    };
    let mut random = chars_of(a.as_str());
    let bc = chars_of(b.as_str());
    push_all(&mut random, bc.as_slice());
    let random = string_from_chars(random.as_slice());
    proof {
        lemma_simple_uuid_digits(a@);
        lemma_simple_uuid_digits(b@);
        assert(random@ == a@ + b@);
        assert(is_random_part(random@));
        assert forall|k: int| 0 <= k < random@.len() implies random@[k] != '.' by {
            if k < 32 {
                assert(random@[k] == a@[k]);
            } else {
                assert(random@[k] == b@[k - 32]);
            }
        }
    }
    let t = mint_from(random.as_str(), key);
    Some(t)
}

/// The token to hand out: an existing cookie token when it still verifies,
/// so that several forms and tabs agree, else a freshly minted one; nothing
/// when none verifies and no random number generator is there to mint one.
pub fn issue(existing: Option<&str>, key: &str) -> (r: Option<String>)
    ensures
        r matches Some(t) ==> signature_valid(t@, key@),
        (existing matches Some(e) && signature_valid(e@, key@)) ==> (r matches Some(t) && t@ == existing->Some_0@),
{
    if let Some(e) = existing {
        if verify_signature(e, key) {
            return Some(owned(e));
        }
    }
    mint(key)
}

/// The answer to a request whose token is refused.
pub fn csrf_error() -> (r: (u16, String))
    ensures
        r.0 == 403,
        r.1@ == "CSRF check failed — reload the page and try again"@,
{
    (403, owned("CSRF check failed — reload the page and try again"))
}

/// Validate the token submitted with a form against the cookie's. Always
/// passes when OAuth is off.
pub fn verify(oauth_enabled: bool, cookie: Option<&str>, submitted: Option<&str>, key: &str) -> (r: Result<
    (),
    (u16, String),
>)
    ensures
        r is Ok <==> (!oauth_enabled || (cookie matches Some(c) && submitted matches Some(s) && signature_valid(
            c@,
            key@,
        ) && c@ == s@)),
        r matches Err(e) ==> e.0 == 403 && e.1@ == "CSRF check failed — reload the page and try again"@,
{
    if !oauth_enabled {
        return Ok(());
    }
    let (c, s) = match (cookie, submitted) {
        (Some(c), Some(s)) => (c, s),
        _ => return Err(csrf_error()),
    };
    if !verify_signature(c, key) || !constant_time_eq(c, s) {
        return Err(csrf_error());
    }
    Ok(())
}

/// The key tokens are signed with: the trimmed `OMNIVORE_SECRET_KEY` when it
/// is set and not blank, else the key drawn once for this process.
pub fn signing_key(secret: Option<&str>, process_key: &str) -> (r: String)
    ensures
        r@ == match secret {
            Some(s) => if trim(s@).len() > 0 {
                trim(s@)
            } else {
                process_key@
            },
            None => process_key@,
        },
{
    if let Some(s) = secret {
        let t = trimmed(chars_of(s).as_slice());
        if t.len() > 0 {
            return string_from_chars(t.as_slice());
        }
    }
    owned(process_key)
}

} // verus!
