//! The tree as a mathematical object: its layers, the path that proves a
//! leaf, and the digest that a path leads to.
use crate::hash::{lemma_hash_pair_commutes, spec_hash_pair};
use crate::index::{halved, lemma_tree_height_step, lemma_tree_height_zero, tree_height};
use vstd::arithmetic::div_mod::lemma_div_denominator;
use vstd::arithmetic::power2::{lemma2_to64, lemma_pow2_pos, lemma_pow2_unfold, pow2};
use vstd::prelude::*;

verus! {

/// The right-hand child of parent `i` in `layer`. Where the layer has an
/// odd number of nodes, the last node has no neighbour and stands in for
/// it.
pub open spec fn right_child(layer: Seq<[u8; 32]>, i: int) -> [u8; 32] {
    if 2 * i + 1 < layer.len() {
        layer[2 * i + 1]
    } else {
        layer[2 * i]
    }
}

/// The layer above `layer`: its nodes taken two by two and hashed as
/// pairs.
pub open spec fn parent_layer(layer: Seq<[u8; 32]>) -> Seq<[u8; 32]> {
    Seq::new(halved(layer.len()), |i: int| spec_hash_pair(layer[2 * i], right_child(layer, i)))
}

/// The layer `k` levels above the leaves.
pub open spec fn layer_above(leaves: Seq<[u8; 32]>, k: nat) -> Seq<[u8; 32]>
    decreases k,
{
    if k == 0 {
        leaves
    } else {
        parent_layer(layer_above(leaves, (k - 1) as nat))
    }
}

/// All layers of the tree over `leaves`, the root layer first and the
/// leaves last.
pub open spec fn tree_layers(leaves: Seq<[u8; 32]>) -> Seq<Seq<[u8; 32]>> {
    let height = tree_height(leaves.len());
    Seq::new(height + 1, |i: int| layer_above(leaves, (height - i) as nat))
}

/// The root of the tree over `leaves`.
pub open spec fn tree_root(leaves: Seq<[u8; 32]>) -> [u8; 32] {
    tree_layers(leaves)[0][0]
}

/// The node that node `i` of `layer` is hashed with: its left neighbour if
/// `i` is odd, its right neighbour if `i` is even, and the node itself if
/// `i` is even and the last of the layer.
pub open spec fn sibling(layer: Seq<[u8; 32]>, i: int) -> [u8; 32] {
    if i % 2 == 1 {
        layer[i - 1]
    } else if i + 1 < layer.len() {
        layer[i + 1]
    } else {
        layer[i]
    }
}

/// The inclusion proof of leaf number `index`: the sibling of the leaf,
/// then the sibling of its parent, and so on up to the layer below the
/// root.
pub open spec fn proof_path(leaves: Seq<[u8; 32]>, index: int) -> Seq<[u8; 32]> {
    Seq::new(
        tree_height(leaves.len()),
        |k: int| sibling(layer_above(leaves, k as nat), index / (pow2(k as nat) as int)),
    )
}

/// The digest reached from `leaf` by hashing it with each element of
/// `proof` in turn.
pub open spec fn recompute_root(leaf: [u8; 32], proof: Seq<[u8; 32]>) -> [u8; 32]
    decreases proof.len(),
{
    if proof.len() == 0 {
        leaf
    } else {
        spec_hash_pair(recompute_root(leaf, proof.drop_last()), proof.last())
    }
}

/// The inclusion proof for `digest`, if it is among `leaves`: the path of
/// its first occurrence.
pub open spec fn proof_for(leaves: Seq<[u8; 32]>, digest: [u8; 32]) -> Option<Seq<[u8; 32]>> {
    match leaves.index_of_first(digest) {
        Some(index) => Some(proof_path(leaves, index)),
        None => None,
    }
}

/// Each layer is half as long as the one below, rounded up, and `k`
/// levels up the remaining height is `k` less.
pub proof fn lemma_layer_above_len(leaves: Seq<[u8; 32]>, k: nat)
    requires
        leaves.len() >= 1,
        k <= tree_height(leaves.len()),
    ensures
        layer_above(leaves, k).len() >= 1,
        tree_height(layer_above(leaves, k).len()) + k == tree_height(leaves.len()),
        k < tree_height(leaves.len()) ==> layer_above(leaves, k).len() >= 2,
        k == tree_height(leaves.len()) ==> layer_above(leaves, k).len() == 1,
        k > 0 ==> layer_above(leaves, k).len() == halved(layer_above(leaves, (k - 1) as nat).len()),
    decreases k,
{
    if k > 0 {
        lemma_layer_above_len(leaves, (k - 1) as nat);
        let below = layer_above(leaves, (k - 1) as nat);
        lemma_tree_height_step(below.len());
    }
    lemma_tree_height_zero(layer_above(leaves, k).len());
}

/// The tree over `n` leaves has `height + 1` layers; the first holds the
/// root alone and the last is the leaves.
pub proof fn lemma_tree_layers_shape(leaves: Seq<[u8; 32]>)
    requires
        leaves.len() >= 1,
    ensures
        tree_layers(leaves).len() == tree_height(leaves.len()) + 1,
        tree_layers(leaves)[0].len() == 1,
        tree_layers(leaves).last() == leaves,
        forall|i: int|
            0 <= i <= tree_height(leaves.len()) ==> (#[trigger] tree_layers(leaves)[i]).len() >= 1,
{
    let height = tree_height(leaves.len());
    lemma_layer_above_len(leaves, height);
    assert forall|i: int| 0 <= i <= height implies (#[trigger] tree_layers(leaves)[i]).len()
        >= 1 by {
        lemma_layer_above_len(leaves, (height - i) as nat);
    }
}

/// A node hashed with its sibling gives its parent.
pub proof fn lemma_sibling_gives_parent(layer: Seq<[u8; 32]>, i: int)
    requires
        0 <= i < layer.len(),
    ensures
        i / 2 < parent_layer(layer).len(),
        spec_hash_pair(layer[i], sibling(layer, i)) == parent_layer(layer)[i / 2],
{
    if i % 2 == 1 {
        lemma_hash_pair_commutes(layer[i], layer[i - 1]);
    }
}

/// Halving a position `k` times and once more is halving it `k + 1`
/// times.
pub proof fn lemma_position_above(index: int, k: nat)
    requires
        0 <= index,
    ensures
        pow2(k) > 0,
        (index / (pow2(k) as int)) / 2 == index / (pow2(k + 1) as int),
        0 <= index / (pow2(k) as int),
{
    lemma_pow2_pos(k);
    lemma_pow2_unfold(k + 1);
    lemma_div_denominator(index, pow2(k) as int, 2);
    vstd::arithmetic::div_mod::lemma_div_pos_is_pos(index, pow2(k) as int);
    assert(pow2(k) * 2 == 2 * pow2(k)) by (nonlinear_arith);
}

/// Following the first `k` steps of a leaf's path from the leaf leads to
/// the ancestor of the leaf `k` levels up.
pub proof fn lemma_path_reaches_ancestor(leaves: Seq<[u8; 32]>, index: int, k: nat)
    requires
        0 <= index < leaves.len(),
        k <= tree_height(leaves.len()),
    ensures
        0 <= index / (pow2(k) as int) < layer_above(leaves, k).len(),
        recompute_root(leaves[index], proof_path(leaves, index).take(k as int)) == layer_above(
            leaves,
            k,
        )[index / (pow2(k) as int)],
    decreases k,
{
    let path = proof_path(leaves, index);
    if k == 0 {
        lemma2_to64();
        assert(path.take(0).len() == 0);
    } else {
        let j = (k - 1) as nat;
        lemma_path_reaches_ancestor(leaves, index, j);
        lemma_position_above(index, j);
        let below = layer_above(leaves, j);
        let at = index / (pow2(j) as int);
        lemma_sibling_gives_parent(below, at);
        assert(path.take(k as int).drop_last() =~= path.take(j as int));
        assert(path.take(k as int).last() == sibling(below, at));
    }
}

/// A leaf's path leads from the leaf to the root.
pub proof fn lemma_proof_path_verifies(leaves: Seq<[u8; 32]>, index: int)
    requires
        0 <= index < leaves.len(),
    ensures
        proof_path(leaves, index).len() == tree_height(leaves.len()),
        recompute_root(leaves[index], proof_path(leaves, index)) == tree_root(leaves),
{
    let height = tree_height(leaves.len());
    let path = proof_path(leaves, index);
    lemma_path_reaches_ancestor(leaves, index, height);
    lemma_layer_above_len(leaves, height);
    assert(path.take(height as int) =~= path);
    assert(tree_layers(leaves)[0] == layer_above(leaves, height));
}

} // verus!
