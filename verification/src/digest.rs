//! The digest function that every key and every stored pair goes through.

use tiny_keccak::{Hasher, Sha3};
use vstd::prelude::*;

verus! {

/// The SHA3-256 digest of `input`, as the `tiny_keccak` crate computes it.
pub uninterp spec fn sha3_256(input: Seq<u8>) -> Seq<u8>;

/// Hashes `val` with SHA3-256.
///
/// Trusted: the body runs `tiny_keccak`'s `Sha3::v256` hasher over `val`
/// (`Hasher::update` once, then `Hasher::finalize` into 32 bytes). The
/// contract only names what comes back: the digest is a function of the
/// input bytes alone.
#[verifier::external_body]
pub fn hash(val: &[u8]) -> (digest: [u8; 32])
    ensures
        digest@ == sha3_256(val@),
{
    let mut sha3 = Sha3::v256();
    let mut output = [0u8; 32];
    sha3.update(val);
    sha3.finalize(&mut output);
    output
}

} // verus!
