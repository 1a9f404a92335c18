//! Digests: SHA-256 of a text, written as lowercase hexadecimal.

use sha2::Digest;
use sha2::Sha256;
use vstd::prelude::*;
use vstd::string::StringExecFns;
use vstd::utf8::encode_utf8;

verus! {

/// The SHA-256 value of a byte sequence.
///
/// The algorithm itself is not written out here: this stands for whatever the
/// `sha2` crate computes, which depends on the bytes alone.
pub uninterp spec fn sha256(data: Seq<u8>) -> Seq<u8>;

/// The lowercase hexadecimal digit of a value below sixteen.
pub open spec fn hex_digit(nibble: int) -> char {
    if nibble < 10 {
        ('0' as int + nibble) as char
    } else {
        ('a' as int + nibble - 10) as char
    }
}

/// The lowercase hexadecimal text of a byte sequence: two digits for each
/// byte, the high half first.
pub open spec fn hex_text(bytes: Seq<u8>) -> Seq<char> {
    Seq::new(
        2 * bytes.len(),
        |i: int|
            if i % 2 == 0 {
                hex_digit(bytes[i / 2] as int / 16)
            } else {
                hex_digit(bytes[i / 2] as int % 16)
            },
    )
}

/// The digest of a text: the hexadecimal text of the SHA-256 value of its
/// UTF-8 bytes.
pub open spec fn digest_of(data: Seq<char>) -> Seq<char> {
    hex_text(sha256(encode_utf8(data)))
}

/// The digest of a pair of digests: the digest of the left text followed by
/// the right text.
pub open spec fn pair_digest(left: Seq<char>, right: Seq<char>) -> Seq<char> {
    digest_of(left + right)
}

/// Calls `sha2::Sha256::digest`, which feeds the bytes to a fresh hasher and
/// finalizes it. Trusted: the result is the SHA-256 value of `data`, and it
/// is 32 bytes long (the output size of `Sha256` is `U32`).
#[verifier::external_body]
fn sha256_bytes(data: &[u8]) -> (out: Vec<u8>)
    ensures
        out@ == sha256(data@),
        out@.len() == 32,
{
    Sha256::digest(data).to_vec()
}

/// Calls `hex::encode`. Trusted: each byte becomes two characters out of
/// `0123456789abcdef`, the one for its high four bits first, in the order of
/// the bytes.
#[verifier::external_body]
fn hex_encode(bytes: &[u8]) -> (text: String)
    ensures
        text@ == hex_text(bytes@),
{
    hex::encode(bytes)
}

/// Hashes a text into its digest.
pub fn hash(data: &str) -> (digest: String)
    ensures
        digest@ == digest_of(data@),
        digest@.len() == 64,
{
    let raw = sha256_bytes(data.as_bytes());
    hex_encode(raw.as_slice())
}

/// Hashes two digests into the digest of their parent: `a` stands on the
/// left, `b` on the right.
pub fn hash_pair(a: &str, b: &str) -> (digest: String)
    ensures
        digest@ == pair_digest(a@, b@),
        digest@.len() == 64,
{
    let joined = a.to_owned().concat(b);
    hash(joined.as_str())
}

} // verus!
