//! The byte-wise order on 32-byte digests.
use vstd::prelude::*;
use vstd::relations::total_ordering;

verus! {

/// `a` comes strictly before `b`: at the first position where the two
/// digests differ, the byte of `a` is the smaller one.
pub open spec fn spec_digest_lt(a: [u8; 32], b: [u8; 32]) -> bool {
    exists|k: int|
        0 <= k < 32 && #[trigger] a[k] < b[k] && forall|j: int| 0 <= j < k ==> a[j] == b[j]
}

/// The lexicographic order on digests, read as byte strings.
pub open spec fn spec_digest_le(a: [u8; 32], b: [u8; 32]) -> bool {
    a == b || spec_digest_lt(a, b)
}

/// The order of `spec_digest_le` as a relation, for use with sequences.
pub open spec fn digest_order() -> spec_fn([u8; 32], [u8; 32]) -> bool {
    |a: [u8; 32], b: [u8; 32]| spec_digest_le(a, b)
}

/// The smaller of two digests.
pub open spec fn digest_min(a: [u8; 32], b: [u8; 32]) -> [u8; 32] {
    if spec_digest_le(a, b) {
        a
    } else {
        b
    }
}

/// The larger of two digests.
pub open spec fn digest_max(a: [u8; 32], b: [u8; 32]) -> [u8; 32] {
    if spec_digest_le(a, b) {
        b
    } else {
        a
    }
}

/// Two digests that agree on their first `n` bytes are equal or ordered
/// one way or the other.
proof fn lemma_scan_from(a: [u8; 32], b: [u8; 32], n: int)
    requires
        0 <= n <= 32,
        forall|j: int| 0 <= j < n ==> a[j] == b[j],
    ensures
        a == b || spec_digest_lt(a, b) || spec_digest_lt(b, a),
    decreases 32 - n,
{
    if n == 32 {
        assert(a =~= b);
    } else if a[n] == b[n] {
        lemma_scan_from(a, b, n + 1);
    } else if a[n] < b[n] {
        assert(spec_digest_lt(a, b));
    } else {
        assert(b[n] < a[n]);
        assert(spec_digest_lt(b, a));
    }
}

/// Any two digests are comparable.
pub proof fn lemma_digest_le_total(a: [u8; 32], b: [u8; 32])
    ensures
        spec_digest_le(a, b) || spec_digest_le(b, a),
{
    lemma_scan_from(a, b, 0);
}

/// Two digests that each come before the other are the same digest.
pub proof fn lemma_digest_le_antisymmetric(a: [u8; 32], b: [u8; 32])
    requires
        spec_digest_le(a, b),
        spec_digest_le(b, a),
    ensures
        a == b,
{
    if a != b {
        let k1 = choose|k: int|
            0 <= k < 32 && #[trigger] a[k] < b[k] && forall|j: int| 0 <= j < k ==> a[j] == b[j];
        let k2 = choose|k: int|
            0 <= k < 32 && #[trigger] b[k] < a[k] && forall|j: int| 0 <= j < k ==> b[j] == a[j];
        if k1 < k2 {
            assert(b[k1] == a[k1]);
        } else if k2 < k1 {
            assert(a[k2] == b[k2]);
        }
    }
}

/// The order is transitive.
pub proof fn lemma_digest_le_transitive(a: [u8; 32], b: [u8; 32], c: [u8; 32])
    requires
        spec_digest_le(a, b),
        spec_digest_le(b, c),
    ensures
        spec_digest_le(a, c),
{
    if a != b && b != c {
        let k1 = choose|k: int|
            0 <= k < 32 && #[trigger] a[k] < b[k] && forall|j: int| 0 <= j < k ==> a[j] == b[j];
        let k2 = choose|k: int|
            0 <= k < 32 && #[trigger] b[k] < c[k] && forall|j: int| 0 <= j < k ==> b[j] == c[j];
        let k = if k1 <= k2 {
            k1
        } else {
            k2
        };
        assert(a[k] < c[k]);
        assert(forall|j: int| 0 <= j < k ==> a[j] == c[j]);
        assert(spec_digest_lt(a, c));
    }
}

/// The byte-wise order on digests is a total order.
pub proof fn lemma_digest_order_total()
    ensures
        total_ordering(digest_order()),
{
    let r = digest_order();
    assert forall|x: [u8; 32], y: [u8; 32]| #[trigger] r(x, y) && #[trigger] r(y, x) implies x
        == y by {
        lemma_digest_le_antisymmetric(x, y);
    }
    assert forall|x: [u8; 32], y: [u8; 32], z: [u8; 32]| #[trigger]
        r(x, y) && #[trigger] r(y, z) implies r(x, z) by {
        lemma_digest_le_transitive(x, y, z);
    }
    assert forall|x: [u8; 32], y: [u8; 32]| #[trigger] r(x, y) || #[trigger] r(y, x) by {
        lemma_digest_le_total(x, y);
    }
}

/// Whether `a` comes before `b`, or equals it, in the byte-wise order.
pub fn digest_le(a: &[u8; 32], b: &[u8; 32]) -> (le: bool)
    ensures
        le == spec_digest_le(*a, *b),
{
    let mut i: usize = 0;
    while i < 32
        invariant
            0 <= i <= 32,
            forall|j: int| 0 <= j < i ==> a[j] == b[j],
        decreases 32 - i,
    {
        if a[i] < b[i] {
            assert(spec_digest_lt(*a, *b));
            return true;
        }
        if a[i] > b[i] {
            assert(spec_digest_lt(*b, *a));
            proof {
                if spec_digest_le(*a, *b) {
                    lemma_digest_le_antisymmetric(*a, *b);
                }
            }
            return false;
        }
        i += 1;
    }
    assert(*a =~= *b);
    true
}

/// Whether two digests are the same 32 bytes.
pub fn digest_eq(a: &[u8; 32], b: &[u8; 32]) -> (eq: bool)
    ensures
        eq == (*a == *b),
{
    let mut i: usize = 0;
    while i < 32
        invariant
            0 <= i <= 32,
            forall|j: int| 0 <= j < i ==> a[j] == b[j],
        decreases 32 - i,
    {
        if a[i] != b[i] {
            return false;
        }
        i += 1;
    }
    assert(*a =~= *b);
    true
}

} // verus!
