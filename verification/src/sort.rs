//! Sorting digests into ascending order.
use crate::digest::{
    digest_le, digest_order, lemma_digest_le_total, lemma_digest_le_transitive,
    lemma_digest_order_total, spec_digest_le,
};
use vstd::prelude::*;
use vstd::relations::sorted_by;
use vstd::seq_lib::{lemma_multiset_commutative, lemma_sorted_unique, to_multiset_build};

verus! {

/// `digests` in ascending byte-wise order.
pub open spec fn sorted_digests(digests: Seq<[u8; 32]>) -> Seq<[u8; 32]> {
    digests.sort_by(digest_order())
}

/// The ascending arrangement of a collection of digests is unique: a
/// sorted sequence with the same elements as `digests`, each as often, is
/// `sorted_digests(digests)`.
pub proof fn lemma_sorted_digests_unique(arranged: Seq<[u8; 32]>, digests: Seq<[u8; 32]>)
    requires
        sorted_by(arranged, digest_order()),
        arranged.to_multiset() == digests.to_multiset(),
    ensures
        arranged == sorted_digests(digests),
{
    lemma_digest_order_total();
    digests.lemma_sort_by_ensures(digest_order());
    lemma_sorted_unique(arranged, sorted_digests(digests), digest_order());
}

/// Sorting keeps every digest, each as often as it occurred, and puts them
/// in ascending order.
pub proof fn lemma_sorted_digests_properties(digests: Seq<[u8; 32]>)
    ensures
        sorted_by(sorted_digests(digests), digest_order()),
        sorted_digests(digests).to_multiset() == digests.to_multiset(),
        sorted_digests(digests).len() == digests.len(),
        forall|d: [u8; 32]| digests.contains(d) <==> sorted_digests(digests).contains(d),
{
    broadcast use vstd::seq_lib::group_to_multiset_ensures;

    lemma_digest_order_total();
    digests.lemma_sort_by_ensures(digest_order());
    let sorted = sorted_digests(digests);
    assert(sorted.to_multiset().len() == digests.to_multiset().len());
    assert forall|d: [u8; 32]| digests.contains(d) <==> sorted.contains(d) by {
        assert(digests.to_multiset().count(d) == sorted.to_multiset().count(d));
    }
}

/// Copies the digests at positions `from..to` of `digests`.
fn copy_range(digests: &Vec<[u8; 32]>, from: usize, to: usize) -> (part: Vec<[u8; 32]>)
    requires
        from <= to <= digests.len(),
    ensures
        part@ == digests@.subrange(from as int, to as int),
{
    let mut part: Vec<[u8; 32]> = Vec::new();
    let mut i: usize = from;
    while i < to
        invariant
            from <= i <= to <= digests.len(),
            part@ == digests@.subrange(from as int, i as int),
        decreases to - i,
    {
        part.push(digests[i]);
        i += 1;
        assert(part@ =~= digests@.subrange(from as int, i as int));
    }
    part
}

/// Merges two ascending runs into one.
fn merge(left: &Vec<[u8; 32]>, right: &Vec<[u8; 32]>) -> (merged: Vec<[u8; 32]>)
    requires
        sorted_by(left@, digest_order()),
        sorted_by(right@, digest_order()),
    ensures
        sorted_by(merged@, digest_order()),
        merged@.to_multiset() == left@.to_multiset().add(right@.to_multiset()),
{
    broadcast use {vstd::seq_lib::group_to_multiset_ensures, vstd::multiset::group_multiset_axioms};

    let mut merged: Vec<[u8; 32]> = Vec::new();
    let mut i: usize = 0;
    let mut j: usize = 0;
    assert(merged@.to_multiset() =~= left@.take(0).to_multiset().add(
        right@.take(0).to_multiset(),
    ));
    while i < left.len() || j < right.len()
        invariant
            i <= left.len(),
            j <= right.len(),
            sorted_by(left@, digest_order()),
            sorted_by(right@, digest_order()),
            sorted_by(merged@, digest_order()),
            merged@.len() > 0 && i < left.len() ==> spec_digest_le(merged@.last(), left@[i as int]),
            merged@.len() > 0 && j < right.len() ==> spec_digest_le(
                merged@.last(),
                right@[j as int],
            ),
            merged@.to_multiset() == left@.take(i as int).to_multiset().add(
                right@.take(j as int).to_multiset(),
            ),
        decreases left.len() - i + right.len() - j,
    {
        let ghost before = merged@;
        let ghost left_done = left@.take(i as int);
        let ghost right_done = right@.take(j as int);
        let from_left = if i >= left.len() {
            false
        } else if j >= right.len() {
            true
        } else {
            digest_le(&left[i], &right[j])
        };
        let next = if from_left {
            left[i]
        } else {
            right[j]
        };
        proof {
            if i < left.len() && j < right.len() {
                lemma_digest_le_total(left@[i as int], right@[j as int]);
            }
            assert forall|p: int| 0 <= p < before.len() implies spec_digest_le(before[p], next) by {
                if p < before.len() - 1 {
                    assert(digest_order()(before[p], before[before.len() - 1]));
                    lemma_digest_le_transitive(before[p], before.last(), next);
                }
            }
        }
        merged.push(next);
        proof {
            to_multiset_build(before, next);
            to_multiset_build(left_done, next);
            to_multiset_build(right_done, next);
        }
        if from_left {
            proof {
                assert(left@.take(i + 1) =~= left_done.push(next));
                if i + 1 < left.len() {
                    assert(digest_order()(left@[i as int], left@[i + 1]));
                }
            }
            i += 1;
        } else {
            proof {
                assert(right@.take(j + 1) =~= right_done.push(next));
                if j + 1 < right.len() {
                    assert(digest_order()(right@[j as int], right@[j + 1]));
                }
            }
            j += 1;
        }
        assert(merged@.to_multiset() =~= left@.take(i as int).to_multiset().add(
            right@.take(j as int).to_multiset(),
        ));
    }
    assert(left@.take(i as int) =~= left@);
    assert(right@.take(j as int) =~= right@);
    merged
}

/// Sorts digests into ascending byte-wise order by merging sorted halves.
pub fn sort_digests(digests: Vec<[u8; 32]>) -> (sorted: Vec<[u8; 32]>)
    ensures
        sorted@ == sorted_digests(digests@),
        sorted_by(sorted@, digest_order()),
        sorted@.to_multiset() == digests@.to_multiset(),
        sorted@.len() == digests@.len(),
    decreases digests.len(),
{
    let n = digests.len();
    if n <= 1 {
        proof {
            lemma_sorted_digests_unique(digests@, digests@);
        }
        return digests;
    }
    let mid = n / 2;
    let left = copy_range(&digests, 0, mid);
    let right = copy_range(&digests, mid, n);
    let left = sort_digests(left);
    let right = sort_digests(right);
    let merged = merge(&left, &right);
    proof {
        let front = digests@.subrange(0, mid as int);
        let back = digests@.subrange(mid as int, n as int);
        assert(digests@ =~= front + back);
        lemma_multiset_commutative(front, back);
        lemma_sorted_digests_unique(merged@, digests@);
        lemma_sorted_digests_properties(digests@);
    }
    merged
}

} // verus!
