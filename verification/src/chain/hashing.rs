use sha2::Digest;
use vstd::prelude::*;

verus! {

/// The SHA-256 digest of a byte string, as computed by the `sha2` crate.
pub uninterp spec fn sha256_digest(data: Seq<u8>) -> Seq<u8>;

/// Calls `sha2::Sha256::digest` on `data`. The contract claims that the
/// digest is a function of the input bytes alone and names it
/// `sha256_digest`; the SHA-256 algorithm itself is not restated.
#[verifier::external_body]
pub(crate) fn sha256(data: &Vec<u8>) -> (out: [u8; 32])
    ensures
        out@ == sha256_digest(data@),
{
    sha2::Sha256::digest(data.as_slice()).into()
}

} // verus!
