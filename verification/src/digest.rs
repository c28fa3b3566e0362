//! The strong digest that confirms a weak-fingerprint hit.

use vstd::prelude::*;

verus! {

/// Width of a strong digest in bytes.
pub const DIGEST_LEN: usize = 32;

/// A strong digest: the 32 bytes that BLAKE3 gives for a byte string.
pub type Digest = [u8; 32];

/// The BLAKE3 hash of `input` in its default mode, as 32 bytes.
pub uninterp spec fn blake3_digest(input: Seq<u8>) -> Seq<u8>;

/// Calls `blake3::hash` and hands back the 32 bytes that the returned
/// `blake3::Hash` holds.
///
/// Trusted: the result is the BLAKE3 hash of the bytes of `input`, a function
/// of those bytes alone.
#[verifier::external_body]
pub(crate) fn hash_bytes(input: &[u8]) -> (digest: Digest)
    ensures
        digest@ == blake3_digest(input@),
{
    *blake3::hash(input).as_bytes()
}

/// The strong digest of `input`.
pub fn strong_digest(input: &[u8]) -> (digest: Digest)
    ensures
        digest@ == blake3_digest(input@),
        digest@.len() == DIGEST_LEN,
{
    hash_bytes(input)
}

/// Whether two digests hold the same bytes.
pub fn same_digest(a: &Digest, b: &Digest) -> (same: bool)
    ensures
        same == (a@ == b@),
{
    let mut i: usize = 0;
    while i < 32
        invariant
            i <= 32,
            forall|j: int| 0 <= j < i ==> a@[j] == b@[j],
        decreases 32 - i,
    {
        if a[i] != b[i] {
            return false;
        }
        i += 1;
    }
    assert(a@ =~= b@);
    true
}

} // verus!
