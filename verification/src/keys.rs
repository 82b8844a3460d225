//! Document handles: 128 random bits, written as 32 lowercase hex digits.

use rand::Rng;
use vstd::prelude::*;

verus! {

/// The lowercase hex digit for a number below 16.
pub open spec fn hex_digit(n: int) -> char {
    if n < 10 {
        ('0' as int + n) as char
    } else {
        ('a' as int + n - 10) as char
    }
}

/// The lowercase hex form of a run of bytes: two digits for each byte, the
/// high half first.
pub open spec fn hex_lower(bytes: Seq<u8>) -> Seq<char> {
    Seq::new(
        2 * bytes.len(),
        |i: int| if i % 2 == 0 { hex_digit(bytes[i / 2] as int / 16) } else { hex_digit(bytes[i / 2] as int % 16) },
    )
}

/// Whether `c` is a decimal digit or one of the letters `a` to `f`.
pub open spec fn is_hex_digit(c: char) -> bool {
    ('0' <= c && c <= '9') || ('a' <= c && c <= 'f')
}

/// Whether `s` has the shape of a handle: 32 lowercase hex digits.
pub open spec fn is_key(s: Seq<char>) -> bool {
    s.len() == 32 && forall|i: int| 0 <= i < 32 ==> is_hex_digit(#[trigger] s[i])
}

/// `hex::encode`, on sixteen bytes: the bytes in lowercase hex, two digits
/// for each byte with the high half first, and nothing else.
#[verifier::external_body]
fn encode(bits: &[u8; 16]) -> (text: String)
    ensures
        text@ == hex_lower(bits@),
{
    hex::encode(bits)
}

/// `rand::thread_rng().gen()`, for sixteen bytes: the bytes come from the
/// thread's random number generator, and nothing is known of their values.
#[verifier::external_body]
fn random_bits() -> (bits: [u8; 16]) {
    rand::thread_rng().gen()
}

/// The hex form of sixteen bytes is a handle.
pub proof fn lemma_hex_is_key(bits: Seq<u8>)
    requires
        bits.len() == 16,
    ensures
        is_key(hex_lower(bits)),
{
    assert forall|i: int| 0 <= i < 32 implies is_hex_digit(#[trigger] hex_lower(bits)[i]) by {
        let b = bits[i / 2] as int;
        assert(0 <= b / 16 < 16);
        assert(0 <= b % 16 < 16);
    }
}

/// The handle that stands for the given bits.
pub fn key_of(bits: [u8; 16]) -> (key: String)
    ensures
        key@ == hex_lower(bits@),
        is_key(key@),
{
    proof {
        lemma_hex_is_key(bits@);
    }
    encode(&bits)
}

/// A new handle, from 128 random bits.
pub fn new_key() -> (key: String)
    ensures
        is_key(key@),
{
    key_of(random_bits())
}

} // verus!
