//! SHA-256 and lowercase hex encoding, the two primitives behind
//! content-addressed identifiers.

use vstd::prelude::*;
use sha2::Digest;

verus! {

/// What `sha2::Sha256::digest` returns for the given bytes.
pub uninterp spec fn sha256(data: Seq<u8>) -> Seq<u8>;

/// Calls `sha2::Sha256::digest` on `data`.
///
/// Trusted: the result is `sha256(data)`, a 32-byte value (the output size of
/// SHA-256).
#[verifier::external_body]
pub(crate) fn sha256_digest(data: &[u8]) -> (r: Vec<u8>)
    ensures
        r@ == sha256(data@),
        r@.len() == 32,
{
    sha2::Sha256::digest(data).to_vec()
}

/// The lowercase hexadecimal digit for `n < 16`.
pub open spec fn hex_digit(n: int) -> char {
    if n < 10 {
        (48 + n) as char
    } else {
        (87 + n) as char
    }
}

/// Lowercase hex encoding: two digits per byte, high nibble first.
pub open spec fn hex_of(bytes: Seq<u8>) -> Seq<char> {
    Seq::new(
        2 * bytes.len(),
        |i: int|
            if i % 2 == 0 {
                hex_digit((bytes[i / 2] / 16) as int)
            } else {
                hex_digit((bytes[i / 2] % 16) as int)
            },
    )
}

/// Calls `hex::encode` on `data`.
///
/// Trusted: `hex::encode` writes each byte as two characters of
/// `"0123456789abcdef"`, the high nibble first.
#[verifier::external_body]
pub(crate) fn hex_encode(data: &[u8]) -> (r: String)
    ensures
        r@ == hex_of(data@),
{
    hex::encode(data)
}

/// The hex string of the SHA-256 digest of `data`.
pub open spec fn digest_hex(data: Seq<u8>) -> Seq<char> {
    hex_of(sha256(data))
}

/// SHA-256 of `data`, as a lowercase hex string of 64 characters.
pub fn digest_to_hex(data: &[u8]) -> (r: String)
    ensures
        r@ == digest_hex(data@),
        r@.len() == 64,
{
    let d = sha256_digest(data);
    hex_encode(d.as_slice())
}

} // verus!
