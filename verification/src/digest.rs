//! The digest primitive: a fixed 32-byte cryptographic hash of a byte string.

use vstd::prelude::*;

verus! {

/// The 32-byte digest of a byte string, as `blake3::hash` computes it.
/// The digest depends only on the input bytes; its value is named here
/// rather than written out, and every contract of the library speaks of
/// digests through this name.
pub uninterp spec fn digest_of(bytes: Seq<u8>) -> Seq<u8>;

/// The all-zero 32-byte value: the designated combined root of an empty
/// document set.
pub open spec fn zero_digest() -> Seq<u8> {
    Seq::new(32, |i: int| 0u8)
}

/// Relies on `blake3::hash`: returns the 32-byte digest of the input, a pure
/// function of the input bytes alone.
#[verifier::external_body]
pub(crate) fn hash_bytes(data: &[u8]) -> (r: Vec<u8>)
    ensures
        r@ == digest_of(data@),
        r@.len() == 32,
{
    blake3::hash(data).as_bytes().to_vec()
}

/// Builds the all-zero 32-byte digest.
pub fn zero_digest_exec() -> (r: Vec<u8>)
    ensures
        r@ == zero_digest(),
{
    let mut v: Vec<u8> = Vec::new();
    let mut i: usize = 0;
    while i < 32
        invariant
            i <= 32,
            v@.len() == i,
            forall|j: int| 0 <= j < i ==> v@[j] == 0u8,
        decreases 32 - i,
    {
        v.push(0u8);
        i = i + 1;
    }
    proof {
        assert(v@ =~= zero_digest());
    }
    v
}

} // verus!
