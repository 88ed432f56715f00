//! The pair-combination function of the tree: Keccak-256 over raw bytes.

use vstd::prelude::*;
use tiny_keccak::{Hasher, Keccak};

verus! {

/// The Keccak-256 digest of a byte string (32 bytes).
pub uninterp spec fn keccak256_of(data: Seq<u8>) -> Seq<u8>;

/// Relies on tiny_keccak's `Keccak::v256`, `Hasher::update` and
/// `Hasher::finalize`: the 32-byte Keccak-256 digest of `data`, which depends
/// on those bytes alone.
#[verifier::external_body]
pub(crate) fn keccak256_bytes(data: &[u8]) -> (r: [u8; 32])
    ensures
        r@ == keccak256_of(data@),
{
    let mut hasher = Keccak::v256();
    let mut output: [u8; 32] = [0; 32];
    hasher.update(data);
    hasher.finalize(&mut output);
    output
}

/// The bytes of a sequence of hashes, one after the other.
pub open spec fn concat_hashes(items: Seq<[u8; 32]>) -> Seq<u8>
    decreases items.len(),
{
    if items.len() == 0 {
        Seq::empty()
    } else {
        concat_hashes(items.drop_last()) + items.last()@
    }
}

/// The parent of two nodes: Keccak-256 of the left bytes followed by the right.
pub open spec fn commit_spec(a: Seq<u8>, b: Seq<u8>) -> Seq<u8> {
    keccak256_of(a + b)
}

} // verus!
