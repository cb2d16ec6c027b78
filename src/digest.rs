//! Digests: the fixed-length identifiers that key every stored blob.
use bytehash::{Blake2b, ByteHash, State};
use std::hash::Hasher;
use vstd::prelude::*;

verus! {

/// Length in bytes of a digest.
pub const DIGEST_LEN: usize = 32;

/// A digest of a byte sequence.
pub type Digest = [u8; 32];

/// The Blake2b digest (32 bytes) of a byte sequence.
pub uninterp spec fn blake2b_of(bytes: Seq<u8>) -> Seq<u8>;

/// Relies on `bytehash::Blake2b`: a fresh state, fed the bytes through
/// `Hasher::write` and closed by `State::fin`, gives the 32-byte Blake2b
/// digest of those bytes and nothing else.
#[verifier::external_body]
pub(crate) fn digest_bytes(bytes: &[u8]) -> (r: Digest)
    ensures
        r@ == blake2b_of(bytes@),
{
    let mut state = <Blake2b as ByteHash>::state();
    state.write(bytes);
    state.fin()
}

/// Compares two digests byte by byte.
pub fn digest_eq(a: &Digest, b: &Digest) -> (r: bool)
    ensures
        r == (a@ == b@),
{
    let mut i: usize = 0;
    while i < DIGEST_LEN
        invariant
            0 <= i <= DIGEST_LEN,
            a@.len() == DIGEST_LEN,
            b@.len() == DIGEST_LEN,
            forall|j: int| 0 <= j < i ==> a@[j] == b@[j],
        decreases DIGEST_LEN - i,
    {
        if a[i] != b[i] {
            return false;
        }
        i = i + 1;
    }
    assert(a@ =~= b@);
    true
}

/// The digest of `bytes`, as the store keys them.
pub fn digest_of(bytes: &[u8]) -> (r: Digest)
    ensures
        r@ == blake2b_of(bytes@),
{
    digest_bytes(bytes)
}

} // verus!
