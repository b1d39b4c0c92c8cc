//! Content hashing: SHA-256 rendered as lowercase hexadecimal text.

use sha2::Digest;
use vstd::prelude::*;

verus! {

/// Number of characters in a rendered digest.
pub const DIGEST_HEX_LEN: usize = 64;

/// The SHA-256 digest of `bytes`, rendered as 64 lowercase hexadecimal digits.
pub uninterp spec fn sha256_hex(bytes: Seq<u8>) -> Seq<char>;

/// Whether `c` is one of the digits `0`-`9` or `a`-`f`.
pub open spec fn is_lower_hex_digit(c: char) -> bool {
    ('0' <= c && c <= '9') || ('a' <= c && c <= 'f')
}

/// Whether `s` has the shape of a rendered digest: 64 lowercase hexadecimal digits.
pub open spec fn is_digest_text(s: Seq<char>) -> bool {
    &&& s.len() == DIGEST_HEX_LEN
    &&& forall|i: int| 0 <= i < s.len() ==> is_lower_hex_digit(#[trigger] s[i])
}

/// The digest of a text: the digest of its UTF-8 encoding.
pub open spec fn hash_text(text: Seq<char>) -> Seq<char> {
    sha256_hex(vstd::utf8::encode_utf8(text))
}

/// Calls `sha2::Sha256::digest` on `bytes` and formats the 32-byte output with `{:x}`.
/// Trusted: the result is the digest named by `sha256_hex`, and it is 64 characters
/// long, each a lowercase hexadecimal digit (two per output byte).
#[verifier::external_body]
fn sha256_hex_of(bytes: &[u8]) -> (digest: String)
    ensures
        digest@ == sha256_hex(bytes@),
        is_digest_text(digest@),
{
    format!("{:x}", sha2::Sha256::digest(bytes))
}

/// Hashes the UTF-8 bytes of `content`.
pub fn hash_content(content: &str) -> (digest: String)
    ensures
        digest@ == hash_text(content@),
        is_digest_text(digest@),
{
    sha256_hex_of(content.as_bytes())
}

} // verus!
