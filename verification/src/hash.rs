//! Keccak-256, and the hash of an unordered pair of digests.
use crate::digest::{
    digest_le, digest_max, digest_min, lemma_digest_le_antisymmetric, lemma_digest_le_total,
    spec_digest_le,
};
use tiny_keccak::{Hasher, Keccak};
use vstd::prelude::*;

verus! {

/// The Keccak-256 digest of a byte string.
pub uninterp spec fn keccak256_digest(data: Seq<u8>) -> [u8; 32];

/// Hashes `data` with Keccak-256.
///
/// Trusted: the body feeds `data` to a fresh `tiny_keccak::Keccak::v256()`
/// hasher through `Hasher::update` and reads 32 bytes back with
/// `Hasher::finalize`. The contract claims only that the bytes returned are
/// a function of the bytes of `data`, and gives that function its name.
#[verifier::external_body]
pub fn keccak256(data: &[u8]) -> (output: [u8; 32])
    ensures
        output == keccak256_digest(data@),
{
    let mut hasher = Keccak::v256();
    hasher.update(data);
    let mut output = [0u8; 32];
    hasher.finalize(&mut output);
    output
}

/// The 64 bytes that are hashed for a pair of digests: the smaller digest
/// followed by the larger.
pub open spec fn pair_input(a: [u8; 32], b: [u8; 32]) -> Seq<u8> {
    digest_min(a, b)@ + digest_max(a, b)@
}

/// The digest of a parent node: the two children are put in ascending
/// order, joined into one 64-byte string, and hashed.
pub open spec fn spec_hash_pair(a: [u8; 32], b: [u8; 32]) -> [u8; 32] {
    keccak256_digest(pair_input(a, b))
}

/// Two distinct byte strings with the same Keccak-256 digest.
pub open spec fn keccak256_collision(x: Seq<u8>, y: Seq<u8>) -> bool {
    x != y && keccak256_digest(x) == keccak256_digest(y)
}

/// The bytes hashed for a pair tell which two digests were paired: pairs
/// with the same bytes have the same smaller and the same larger digest.
pub proof fn lemma_pair_input_injective(a: [u8; 32], b: [u8; 32], c: [u8; 32], d: [u8; 32])
    requires
        pair_input(a, b) == pair_input(c, d),
    ensures
        digest_min(a, b) == digest_min(c, d),
        digest_max(a, b) == digest_max(c, d),
{
    let (low, high) = (digest_min(a, b), digest_max(a, b));
    let (low2, high2) = (digest_min(c, d), digest_max(c, d));
    assert forall|i: int| 0 <= i < 32 implies low[i] == low2[i] && high[i] == high2[i] by {
        assert((low@ + high@)[i] == low[i]);
        assert((low2@ + high2@)[i] == low2[i]);
        assert((low@ + high@)[i + 32] == high[i]);
        assert((low2@ + high2@)[i + 32] == high2[i]);
    }
    assert(low =~= low2);
    assert(high =~= high2);
}

/// Pairing two different digests with the same third digest hashes
/// different bytes.
pub proof fn lemma_pair_input_differs(a: [u8; 32], b: [u8; 32], other: [u8; 32])
    requires
        a != b,
    ensures
        pair_input(a, other) != pair_input(b, other),
        pair_input(other, a) != pair_input(other, b),
{
    lemma_digest_le_total(a, other);
    lemma_digest_le_total(b, other);
    if pair_input(a, other) == pair_input(b, other) {
        lemma_pair_input_injective(a, other, b, other);
    }
    if pair_input(other, a) == pair_input(other, b) {
        lemma_pair_input_injective(other, a, other, b);
    }
    if spec_digest_le(a, other) && spec_digest_le(other, a) {
        lemma_digest_le_antisymmetric(a, other);
    }
    if spec_digest_le(b, other) && spec_digest_le(other, b) {
        lemma_digest_le_antisymmetric(b, other);
    }
}

/// The parent digest does not depend on which child is named first.
pub proof fn lemma_hash_pair_commutes(a: [u8; 32], b: [u8; 32])
    ensures
        spec_hash_pair(a, b) == spec_hash_pair(b, a),
{
    lemma_digest_le_total(a, b);
    if spec_digest_le(a, b) && spec_digest_le(b, a) {
        lemma_digest_le_antisymmetric(a, b);
    }
}

/// Hashes two digests as an unordered pair.
pub fn hash_pair(a: &[u8; 32], b: &[u8; 32]) -> (parent: [u8; 32])
    ensures
        parent == spec_hash_pair(*a, *b),
{
    let mut joined: Vec<u8> = Vec::with_capacity(64);
    if digest_le(a, b) {
        joined.extend_from_slice(a.as_slice());
        joined.extend_from_slice(b.as_slice());
        assert(joined@ =~= a@ + b@);
    } else {
        joined.extend_from_slice(b.as_slice());
        joined.extend_from_slice(a.as_slice());
        assert(joined@ =~= b@ + a@);
    }
    keccak256(joined.as_slice())
}

} // verus!
