//! The hash oracle: SHA-256 over byte strings.
use sha2::Digest;
use vstd::prelude::*;

verus! {

/// Number of bytes in a digest, and the deepest level a key path can reach.
pub const DIGEST_LEN: usize = 32;

/// The SHA-256 digest of a byte string.
pub uninterp spec fn sha256_of(data: Seq<u8>) -> Seq<u8>;

/// Relies on sha2::Sha256: the digest of `data`, always 32 bytes long.
#[verifier::external_body]
pub fn hash(data: &[u8]) -> (r: Vec<u8>)
    ensures
        r@ == sha256_of(data@),
        r@.len() == DIGEST_LEN,
{
    let mut hasher = sha2::Sha256::new();
    hasher.update(data);
    hasher.finalize().to_vec()
}

} // verus!
