//! SHA-256, as the `sha2` crate computes it.
use sha2::Digest;
use vstd::prelude::*;

verus! {

/// The SHA-256 digest of a byte string.
pub uninterp spec fn sha256(data: Seq<u8>) -> Seq<u8>;

/// `<sha2::Sha256 as Digest>::digest`: the SHA-256 digest of `data`, which depends on
/// `data` alone.
#[verifier::external_body]
pub(crate) fn sha256_digest(data: &[u8]) -> (res: [u8; 32])
    ensures
        res@ == sha256(data@),
{
    sha2::Sha256::digest(data).into()
}

} // verus!
