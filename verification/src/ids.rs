//! Random identifiers: version-4 UUIDs drawn from the system's random number
//! generator, in the two renderings the dashboard uses.

use vstd::prelude::*;

use crate::crypto::random_bytes;
use crate::server::csrf::{hex_digit, hex_lower, is_lower_hex};

verus! {

/// The bytes of the version-4 UUID built from 16 random bytes `b`: the high
/// nibble of byte 6 holds the version (4), the top two bits of byte 8 the
/// RFC 4122 variant (`10`); every other bit is `b`'s.
pub open spec fn uuid_v4_bytes(b: Seq<u8>) -> Seq<u8> {
    b.update(6, (b[6] & 0x0fu8) | 0x40u8).update(8, (b[8] & 0x3fu8) | 0x80u8)
}

/// The hyphenated rendering of UUID bytes `v`: lower-case hexadecimal in
/// groups of 8, 4, 4, 4 and 12 digits joined by `-`.
pub open spec fn uuid_hyphenated(v: Seq<u8>) -> Seq<char> {
    hex_lower(v.subrange(0, 4)) + seq!['-'] + hex_lower(v.subrange(4, 6)) + seq!['-'] + hex_lower(
        v.subrange(6, 8),
    ) + seq!['-'] + hex_lower(v.subrange(8, 10)) + seq!['-'] + hex_lower(v.subrange(10, 16))
}

/// `uuid::Builder::from_random_bytes(bytes).into_uuid()` rendered with
/// `.simple()`: the version-4 UUID made from the bytes, as 32 lower-case
/// hexadecimal digits.
#[verifier::external_body]
fn uuid_simple_from(bytes: &[u8]) -> (r: String)
    requires
        bytes@.len() == 16,
    ensures
        r@ == hex_lower(uuid_v4_bytes(bytes@)),
{
    let mut arr = [0u8; 16];
    arr.copy_from_slice(bytes);
    uuid::Builder::from_random_bytes(arr).into_uuid().simple().to_string()
}

/// `uuid::Builder::from_random_bytes(bytes).into_uuid()` rendered with
/// `to_string`: the version-4 UUID made from the bytes, hyphenated.
#[verifier::external_body]
fn uuid_hyphenated_from(bytes: &[u8]) -> (r: String)
    requires
        bytes@.len() == 16,
    ensures
        r@ == uuid_hyphenated(uuid_v4_bytes(bytes@)),
{
    let mut arr = [0u8; 16];
    arr.copy_from_slice(bytes);
    uuid::Builder::from_random_bytes(arr).into_uuid().to_string()
}

/// `d` is a hexadecimal digit of `hex_lower`'s alphabet.
proof fn lemma_hex_digit(d: int)
    requires
        0 <= d < 16,
    ensures
        is_lower_hex(hex_digit(d)),
{
    if d < 10 {
        assert(((d + ('0' as int)) as u8) as char == ((d + 48) as u8) as char);
    }
}

/// `hex_lower` writes two lower-case hexadecimal digits per byte.
pub proof fn lemma_hex_lower_digits(b: Seq<u8>)
    ensures
        hex_lower(b).len() == 2 * b.len(),
        forall|i: int| 0 <= i < hex_lower(b).len() ==> is_lower_hex(#[trigger] hex_lower(b)[i]),
    decreases b.len(),
{
    if b.len() > 0 {
        lemma_hex_lower_digits(b.drop_last());
        lemma_hex_digit((b.last() / 16) as int);
        lemma_hex_digit((b.last() % 16) as int);
        let h = hex_lower(b);
        let front = hex_lower(b.drop_last());
        assert forall|i: int| 0 <= i < h.len() implies is_lower_hex(#[trigger] h[i]) by {
            if i < front.len() {
                assert(h[i] == front[i]);
            }
        }
    }
}

/// `s` is the simple rendering of some version-4 UUID.
pub open spec fn is_simple_uuid(s: Seq<char>) -> bool {
    exists|b: Seq<u8>| b.len() == 16 && s == #[trigger] hex_lower(uuid_v4_bytes(b))
}

/// A fresh random version-4 UUID as 32 lower-case hexadecimal digits;
/// nothing when the system has no random number generator to draw from.
pub fn new_uuid_simple() -> (r: Option<String>)
    ensures
        r matches Some(s) ==> is_simple_uuid(s@),
{
    match random_bytes(16) {
        Some(b) => {
            let s = uuid_simple_from(b.as_slice());
            proof {
                assert(s@ == hex_lower(uuid_v4_bytes(b@)));
            }
            Some(s)
        },
        None => None,
    }
}

/// A fresh random version-4 UUID, hyphenated; nothing when the system has no
/// random number generator to draw from.
pub fn new_uuid() -> (r: Option<String>)
    ensures
        r matches Some(s) ==> exists|b: Seq<u8>| b.len() == 16 && s@ == #[trigger] uuid_hyphenated(uuid_v4_bytes(b)),
{
    match random_bytes(16) {
        Some(b) => {
            let s = uuid_hyphenated_from(b.as_slice());
            proof {
                assert(s@ == uuid_hyphenated(uuid_v4_bytes(b@)));
            }
            Some(s)
        },
        None => None,
    }
}

/// A simple UUID text is 32 lower-case hexadecimal digits.
pub proof fn lemma_simple_uuid_digits(s: Seq<char>)
    requires
        is_simple_uuid(s),
    ensures
        s.len() == 32,
        forall|i: int| 0 <= i < s.len() ==> is_lower_hex(#[trigger] s[i]),
{
    let b = choose|b: Seq<u8>| b.len() == 16 && s == #[trigger] hex_lower(uuid_v4_bytes(b));
    lemma_hex_lower_digits(uuid_v4_bytes(b));
}

} // verus!
