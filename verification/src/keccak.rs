//! The Keccak-256 hash, computed by the `sha3` crate.

use vstd::prelude::*;
use sha3::Digest;

verus! {

/// The Keccak-256 digest of a byte string.
pub uninterp spec fn keccak256_digest(data: Seq<u8>) -> Seq<u8>;

/// `sha3::Keccak256::digest`: the 32-byte Keccak-256 digest of `data`.
/// Trusted: the contract names the digest and claims nothing of its bytes.
#[verifier::external_body]
pub(crate) fn keccak256(data: &[u8]) -> (r: [u8; 32])
    ensures
        r@ == keccak256_digest(data@),
{
    sha3::Keccak256::digest(data).into()
}

} // verus!
