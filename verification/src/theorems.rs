//! What holds of every tree, stated over the tree as a mathematical
//! object.
use crate::hash::{keccak256_collision, keccak256_digest, lemma_pair_input_differs, pair_input};
use crate::index::{halved, lemma_tree_height_bounds, lemma_tree_height_zero, tree_height};
use crate::layers::{
    layer_above, lemma_proof_path_verifies, parent_layer, proof_for, proof_path, recompute_root,
    tree_layers, tree_root,
};
use crate::sort::{lemma_sorted_digests_properties, lemma_sorted_digests_unique};
use crate::tree::{item_bytes, leaf_digests, merkle_layers, merkle_leaves, MerkleTree};
use vstd::arithmetic::power2::pow2;
use vstd::prelude::*;
use vstd::seq_lib::{to_multiset_build, to_multiset_insert, to_multiset_len, to_multiset_remove};

verus! {

/// Applying one function to every element of two sequences that hold the
/// same elements, each as often, gives two sequences that again hold the
/// same elements, each as often.
pub proof fn lemma_map_of_permutation<A, B>(first: Seq<A>, second: Seq<A>, f: spec_fn(A) -> B)
    requires
        first.to_multiset() == second.to_multiset(),
    ensures
        first.map_values(f).to_multiset() == second.map_values(f).to_multiset(),
    decreases first.len(),
{
    broadcast use vstd::multiset::group_multiset_axioms;

    to_multiset_len(first);
    to_multiset_len(second);
    if first.len() == 0 {
        assert(first.map_values(f) =~= second.map_values(f));
    } else {
        let x = first.last();
        let rest = first.drop_last();
        assert(first =~= rest.push(x));
        to_multiset_build(rest, x);
        assert(second.to_multiset().count(x) > 0);
        vstd::seq_lib::to_multiset_contains(second, x);
        let j = choose|j: int| 0 <= j < second.len() && second[j] == x;
        let others = second.remove(j);
        to_multiset_remove(second, j);
        assert(rest.to_multiset() =~= others.to_multiset());
        lemma_map_of_permutation(rest, others, f);
        assert(first.map_values(f) =~= rest.map_values(f).push(f(x)));
        assert(second.map_values(f) =~= others.map_values(f).insert(j, f(x)));
        to_multiset_build(rest.map_values(f), f(x));
        to_multiset_insert(others.map_values(f), j, f(x));
    }
}

/// The tree does not depend on the order of the items: two lists that
/// hold the same items, each as often, have the same leaves, the same
/// layers and the same root.
pub proof fn lemma_tree_order_independent(first: Seq<Seq<u8>>, second: Seq<Seq<u8>>)
    requires
        first.to_multiset() == second.to_multiset(),
    ensures
        merkle_leaves(first) == merkle_leaves(second),
        merkle_layers(first) == merkle_layers(second),
        tree_root(merkle_leaves(first)) == tree_root(merkle_leaves(second)),
{
    let digest = |item: Seq<u8>| keccak256_digest(item);
    lemma_map_of_permutation(first, second, digest);
    assert(leaf_digests(first) =~= first.map_values(digest));
    assert(leaf_digests(second) =~= second.map_values(digest));
    lemma_sorted_digests_properties(leaf_digests(first));
    lemma_sorted_digests_unique(merkle_leaves(first), leaf_digests(second));
}

/// The same for items given as text: the tree over a list of strings does
/// not depend on their order.
pub proof fn lemma_tree_order_independent_text(first: Seq<&str>, second: Seq<&str>)
    requires
        first.to_multiset() == second.to_multiset(),
    ensures
        merkle_layers(item_bytes(first)) == merkle_layers(item_bytes(second)),
        tree_root(merkle_leaves(item_bytes(first))) == tree_root(
            merkle_leaves(item_bytes(second)),
        ),
{
    let bytes = |item: &str| vstd::utf8::encode_utf8(item@);
    lemma_map_of_permutation(first, second, bytes);
    assert(item_bytes(first) =~= first.map_values(bytes));
    assert(item_bytes(second) =~= second.map_values(bytes));
    lemma_tree_order_independent(item_bytes(first), item_bytes(second));
}

/// Every item of the list has a proof, and its proof leads from the
/// item's digest to the root: it has one element for each level of the
/// tree, and recomputing the root from it gives the root of the tree.
pub proof fn lemma_member_proof_verifies(items: Seq<Seq<u8>>, i: int)
    requires
        0 <= i < items.len(),
    ensures
        merkle_leaves(items).contains(keccak256_digest(items[i])),
        proof_for(merkle_leaves(items), keccak256_digest(items[i])) is Some,
        proof_for(merkle_leaves(items), keccak256_digest(items[i]))->0.len() == tree_height(
            items.len(),
        ),
        recompute_root(
            keccak256_digest(items[i]),
            proof_for(merkle_leaves(items), keccak256_digest(items[i]))->0,
        ) == tree_root(merkle_leaves(items)),
{
    let digest = keccak256_digest(items[i]);
    let leaves = merkle_leaves(items);
    assert(leaf_digests(items)[i] == digest);
    assert(leaf_digests(items).contains(digest));
    lemma_sorted_digests_properties(leaf_digests(items));
    assert(leaves.contains(digest));
    leaves.index_of_first_ensures(digest);
    let index = leaves.index_of_first(digest)->0;
    lemma_proof_path_verifies(leaves, index);
}

/// A proof is as long as the tree is high. Over `n >= 1` leaves that is
/// the one number `h` with `2^h <= 2n - 1 < 2^(h + 1)`, whichever leaf the
/// proof is for.
pub proof fn lemma_proof_length(leaves: Seq<[u8; 32]>, index: int)
    requires
        0 <= index < leaves.len(),
    ensures
        proof_path(leaves, index).len() == tree_height(leaves.len()),
        pow2(proof_path(leaves, index).len()) <= 2 * leaves.len() - 1 < pow2(
            proof_path(leaves, index).len() + 1,
        ),
{
    lemma_tree_height_bounds(leaves.len());
}

/// The tree over a single item is that item's digest alone: the digest is
/// the only leaf and the root, and its proof is empty.
pub proof fn lemma_single_item_tree(item: Seq<u8>)
    ensures
        merkle_leaves(seq![item]) == seq![keccak256_digest(item)],
        merkle_layers(seq![item]) == seq![seq![keccak256_digest(item)]],
        tree_root(merkle_leaves(seq![item])) == keccak256_digest(item),
        proof_for(merkle_leaves(seq![item]), keccak256_digest(item)) == Some(
            Seq::<[u8; 32]>::empty(),
        ),
{
    let digest = keccak256_digest(item);
    let leaves = seq![digest];
    assert(leaf_digests(seq![item]) =~= leaves);
    lemma_sorted_digests_unique(leaves, leaves);
    lemma_tree_height_zero(1);
    assert(tree_layers(leaves) =~= seq![leaves]);
    assert(leaves[0] == digest);
    assert(leaves.contains(digest));
    leaves.index_of_first_ensures(digest);
    assert(proof_path(leaves, 0) =~= Seq::<[u8; 32]>::empty());
}

/// Every layer but the leaves is the parent layer of the one stored after
/// it, and so half as long, rounded up.
pub proof fn lemma_tree_layers_step(leaves: Seq<[u8; 32]>, i: int)
    requires
        leaves.len() >= 1,
        0 <= i < tree_height(leaves.len()),
    ensures
        tree_layers(leaves)[i] == parent_layer(tree_layers(leaves)[i + 1]),
        tree_layers(leaves)[i].len() == halved(tree_layers(leaves)[i + 1].len()),
{
    let height = tree_height(leaves.len());
    assert(layer_above(leaves, (height - i) as nat) == parent_layer(
        layer_above(leaves, (height - i - 1) as nat),
    ));
}

/// Two trees built over the same items agree on everything: on their
/// layers, on their root, and on the proof of every digest.
pub proof fn lemma_rebuild_agrees(first: MerkleTree, second: MerkleTree, items: Seq<Seq<u8>>)
    requires
        first@ == merkle_layers(items),
        second@ == merkle_layers(items),
    ensures
        first@ == second@,
        first.root() == second.root(),
        first.leaves() == second.leaves(),
        forall|digest: [u8; 32]|
            proof_for(first.leaves(), digest) == proof_for(second.leaves(), digest),
{
}

/// The bytes hashed at step `k` of recomputing a root from `leaf` along
/// `proof`.
pub open spec fn step_input(leaf: [u8; 32], proof: Seq<[u8; 32]>, k: int) -> Seq<u8> {
    pair_input(recompute_root(leaf, proof.take(k)), proof[k])
}

/// Recomputing from `leaf` along `proof` and from `other_leaf` along
/// `other_proof` hashes, at one and the same step, two different byte
/// strings to one digest.
pub open spec fn induces_collision(
    leaf: [u8; 32],
    proof: Seq<[u8; 32]>,
    other_leaf: [u8; 32],
    other_proof: Seq<[u8; 32]>,
) -> bool {
    exists|k: int|
        0 <= k < proof.len() && #[trigger] keccak256_collision(
            step_input(leaf, proof, k),
            step_input(other_leaf, other_proof, k),
        )
}

/// A collision along the proofs without their last elements is a
/// collision along the whole proofs.
proof fn lemma_collision_extends(
    leaf: [u8; 32],
    proof: Seq<[u8; 32]>,
    other_leaf: [u8; 32],
    other_proof: Seq<[u8; 32]>,
)
    requires
        proof.len() == other_proof.len() > 0,
        induces_collision(leaf, proof.drop_last(), other_leaf, other_proof.drop_last()),
    ensures
        induces_collision(leaf, proof, other_leaf, other_proof),
{
    let k = choose|k: int|
        0 <= k < proof.drop_last().len() && #[trigger] keccak256_collision(
            step_input(leaf, proof.drop_last(), k),
            step_input(other_leaf, other_proof.drop_last(), k),
        );
    assert(proof.drop_last().take(k) =~= proof.take(k));
    assert(other_proof.drop_last().take(k) =~= other_proof.take(k));
    assert(keccak256_collision(step_input(leaf, proof, k), step_input(other_leaf, other_proof, k)));
}

/// The last step of two recomputations that arrive at different digests
/// and then meet the same sibling either keeps them apart or is a
/// collision.
proof fn lemma_last_step_detects(
    leaf: [u8; 32],
    proof: Seq<[u8; 32]>,
    other_leaf: [u8; 32],
    other_proof: Seq<[u8; 32]>,
)
    requires
        proof.len() == other_proof.len() > 0,
        pair_input(recompute_root(leaf, proof.drop_last()), proof.last()) != pair_input(
            recompute_root(other_leaf, other_proof.drop_last()),
            other_proof.last(),
        ),
    ensures
        recompute_root(leaf, proof) != recompute_root(other_leaf, other_proof)
            || induces_collision(leaf, proof, other_leaf, other_proof),
{
    let k = proof.len() - 1;
    assert(proof.take(k) =~= proof.drop_last());
    assert(other_proof.take(k) =~= other_proof.drop_last());
    if recompute_root(leaf, proof) == recompute_root(other_leaf, other_proof) {
        assert(keccak256_collision(
            step_input(leaf, proof, k),
            step_input(other_leaf, other_proof, k),
        ));
    }
}

/// A proof leads to one digest only: if it verifies against a root, it
/// verifies against no other.
pub proof fn lemma_altered_root_rejected(
    root: [u8; 32],
    other_root: [u8; 32],
    proof: Seq<[u8; 32]>,
    leaf: [u8; 32],
)
    requires
        other_root != root,
    ensures
        recompute_root(leaf, proof) == root ==> recompute_root(leaf, proof) != other_root,
{
}

/// Changing the leaf changes the digest that a proof leads to, unless the
/// change makes Keccak-256 collide at one of the steps. So a proof that
/// verifies for a leaf against a root does not verify for another leaf
/// against that root.
pub proof fn lemma_altered_leaf_rejected(
    leaf: [u8; 32],
    other_leaf: [u8; 32],
    proof: Seq<[u8; 32]>,
)
    requires
        other_leaf != leaf,
    ensures
        recompute_root(other_leaf, proof) != recompute_root(leaf, proof) || induces_collision(
            leaf,
            proof,
            other_leaf,
            proof,
        ),
    decreases proof.len(),
{
    if proof.len() > 0 {
        let before = proof.drop_last();
        lemma_altered_leaf_rejected(leaf, other_leaf, before);
        if recompute_root(other_leaf, before) != recompute_root(leaf, before) {
            lemma_pair_input_differs(
                recompute_root(leaf, before),
                recompute_root(other_leaf, before),
                proof.last(),
            );
            lemma_last_step_detects(leaf, proof, other_leaf, proof);
        } else {
            lemma_collision_extends(leaf, proof, other_leaf, proof);
        }
    }
}

/// Changing one element of a proof changes the digest that the proof
/// leads to, unless the change makes Keccak-256 collide at one of the
/// steps. So a proof that verifies against a root no longer does once one
/// of its elements is replaced by another digest.
pub proof fn lemma_altered_proof_rejected(
    leaf: [u8; 32],
    proof: Seq<[u8; 32]>,
    position: int,
    element: [u8; 32],
)
    requires
        0 <= position < proof.len(),
        element != proof[position],
    ensures
        recompute_root(leaf, proof.update(position, element)) != recompute_root(leaf, proof)
            || induces_collision(leaf, proof, leaf, proof.update(position, element)),
    decreases proof.len(),
{
    let altered = proof.update(position, element);
    let before = proof.drop_last();
    if position == proof.len() - 1 {
        assert(altered.drop_last() =~= before);
        lemma_pair_input_differs(proof.last(), element, recompute_root(leaf, before));
        lemma_last_step_detects(leaf, proof, leaf, altered);
    } else {
        assert(altered.drop_last() =~= before.update(position, element));
        lemma_altered_proof_rejected(leaf, before, position, element);
        if recompute_root(leaf, altered.drop_last()) != recompute_root(leaf, before) {
            lemma_pair_input_differs(
                recompute_root(leaf, before),
                recompute_root(leaf, altered.drop_last()),
                proof.last(),
            );
            lemma_last_step_detects(leaf, proof, leaf, altered);
        } else {
            lemma_collision_extends(leaf, proof, leaf, altered);
        }
    }
}

} // verus!
