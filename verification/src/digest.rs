//! The cryptographic hash under every block digest.

use vstd::prelude::*;
use vstd::utf8::is_ascii_chars;
use crate::text::{hex_string, is_lower_hex, lemma_hex_string_shape, to_hex};

verus! {

/// The number of characters of every digest: two for each of the 32 bytes of
/// a SHA-256 hash. No difficulty above it can be met.
pub const DIGEST_LEN: usize = 64;

/// The SHA-256 hash of `message`, as the `sha2` crate computes it.
pub uninterp spec fn sha256(message: Seq<u8>) -> Seq<u8>;

/// `Sha256::digest` of the `sha2` crate: the 32 bytes of the SHA-256 hash of
/// `message`. The hash is a function of the message alone, which is all this
/// contract claims of it.
#[verifier::external_body]
pub(crate) fn sha256_digest(message: &[u8]) -> (out: [u8; 32])
    ensures
        out@ == sha256(message@),
{
    <sha2::Sha256 as sha2::Digest>::digest(message).into()
}

/// The digest of `content`: its SHA-256 hash in lowercase hexadecimal, 64
/// characters long. It seals a block, and it can stand for an image or any
/// other content in a record.
pub fn hex_digest(content: &[u8]) -> (hash: String)
    ensures
        hash@ == hex_string(sha256(content@)),
        hash@.len() == DIGEST_LEN,
        is_lower_hex(hash@),
        is_ascii_chars(hash@),
{
    let raw: [u8; 32] = sha256_digest(content);
    proof {
        lemma_hex_string_shape(raw@);
    }
    to_hex(raw.as_slice())
}

} // verus!
