//! The Merkle tree: construction, root, inclusion proofs and their
//! verification.
use crate::digest::{digest_eq, digest_order};
use crate::hash::{hash_pair, keccak256, keccak256_digest};
use crate::index::{
    lemma_parent_position, lemma_pow2_fits, lemma_tree_height_fits, nodes_before, tree_height,
};
use crate::layers::{
    layer_above, lemma_path_reaches_ancestor, lemma_position_above, lemma_proof_path_verifies,
    lemma_tree_layers_shape, parent_layer, proof_for, proof_path, recompute_root, sibling,
    tree_layers, tree_root,
};
use crate::sort::{sort_digests, sorted_digests};
use vstd::arithmetic::logarithm::{lemma_log0, lemma_log_nonnegative, lemma_log_s, log};
use vstd::arithmetic::power2::{lemma2_to64, lemma_pow2_unfold, pow2};
use vstd::prelude::*;
use vstd::relations::sorted_by;
use vstd::string::StringSliceAdditionalSpecFns;

verus! {

/// Why an operation on a tree was refused.
#[derive(Debug, Clone, Copy, PartialEq, Eq, Structural)]
pub enum MerkleError {
    /// A tree was asked for over no items at all.
    InvalidInput,
    /// A proof was asked for an item whose digest is not a leaf.
    NotFound,
}

/// The byte strings that a list of text items stands for.
pub open spec fn item_bytes(items: Seq<&str>) -> Seq<Seq<u8>> {
    Seq::new(items.len(), |i: int| items[i].spec_bytes())
}

/// The digest of every item, in the order of the items.
pub open spec fn leaf_digests(items: Seq<Seq<u8>>) -> Seq<[u8; 32]> {
    Seq::new(items.len(), |i: int| keccak256_digest(items[i]))
}

/// The leaves of the tree over `items`: their digests in ascending order.
pub open spec fn merkle_leaves(items: Seq<Seq<u8>>) -> Seq<[u8; 32]> {
    sorted_digests(leaf_digests(items))
}

/// The layers of the tree over `items`, root layer first.
pub open spec fn merkle_layers(items: Seq<Seq<u8>>) -> Seq<Seq<[u8; 32]>> {
    tree_layers(merkle_leaves(items))
}

/// The contents of a list of layers.
pub open spec fn layers_view(layers: Seq<Vec<[u8; 32]>>) -> Seq<Seq<[u8; 32]>> {
    Seq::new(layers.len(), |i: int| layers[i]@)
}

/// A Merkle tree over a non-empty list of items. It holds every layer, from
/// the root down to the sorted leaf digests, and is never changed once
/// built.
#[derive(Debug)]
pub struct MerkleTree {
    layers: Vec<Vec<[u8; 32]>>,
}

impl View for MerkleTree {
    type V = Seq<Seq<[u8; 32]>>;

    /// The layers, the root layer first and the leaves last.
    closed spec fn view(&self) -> Seq<Seq<[u8; 32]>> {
        layers_view(self.layers@)
    }
}

impl MerkleTree {
    /// The leaf digests, in ascending order.
    pub open spec fn leaves(&self) -> Seq<[u8; 32]> {
        self@.last()
    }

    /// The root digest.
    pub open spec fn root(&self) -> [u8; 32] {
        self@[0][0]
    }

    /// What holds of every tree: it has at least one leaf, its leaves are in
    /// ascending order, and its layers are those that the leaves determine.
    #[verifier::type_invariant]
    pub open spec fn well_formed(&self) -> bool {
        &&& self.leaves().len() >= 1
        &&& sorted_by(self.leaves(), digest_order())
        &&& self@ == tree_layers(self.leaves())
    }

    /// Builds the tree over `items`. The only input refused is the empty
    /// list.
    pub fn new(items: Vec<&str>) -> (built: Result<MerkleTree, MerkleError>)
        ensures
            match built {
                Ok(tree) => {
                    &&& items@.len() > 0
                    &&& tree@ == merkle_layers(item_bytes(items@))
                    &&& tree.leaves() == merkle_leaves(item_bytes(items@))
                    &&& tree.well_formed()
                },
                Err(error) => items@.len() == 0 && error == MerkleError::InvalidInput,
            },
    {
        if items.len() == 0 {
            return Err(MerkleError::InvalidInput);
        }
        let ghost digests = leaf_digests(item_bytes(items@));
        let mut leaves: Vec<[u8; 32]> = Vec::new();
        let mut i: usize = 0;
        while i < items.len()
            invariant
                i <= items.len(),
                digests == leaf_digests(item_bytes(items@)),
                leaves@ == digests.take(i as int),
            decreases items.len() - i,
        {
            leaves.push(keccak256(items[i].as_bytes()));
            i += 1;
            assert(leaves@ =~= digests.take(i as int));
        }
        assert(leaves@ =~= digests);
        let leaves = sort_digests(leaves);
        let ghost sorted = leaves@;
        let layers = Self::build_tree(leaves);
        proof {
            lemma_tree_layers_shape(sorted);
        }
        Ok(MerkleTree { layers })
    }

    /// The root digest of the tree.
    pub fn merkle_root(&self) -> (root: [u8; 32])
        ensures
            root == self.root(),
            root == tree_root(self.leaves()),
            self.well_formed(),
    {
        proof {
            use_type_invariant(self);
            lemma_tree_layers_shape(self.leaves());
        }
        self.layers[0][0]
    }

    /// The layers of the tree, the root layer first and the leaves last.
    pub fn layers(&self) -> (layers: &Vec<Vec<[u8; 32]>>)
        ensures
            layers_view(layers@) == self@,
            self.well_formed(),
    {
        proof {
            use_type_invariant(self);
        }
        &self.layers
    }

    /// The number of nodes that come before depth `height` when the nodes
    /// are numbered from the root, level by level: `2^height - 1`. The
    /// count is given in 128 bits, which hold it for every height that a
    /// tree in memory can have.
    pub fn get_tree_nodes(height: usize) -> (nodes: u128)
        requires
            height < 128,
        ensures
            nodes == nodes_before(height as nat),
    {
        let mut power: u128 = 1;
        let mut i: usize = 0;
        proof {
            lemma2_to64();
        }
        while i < height
            invariant
                i <= height < 128,
                power == pow2(i as nat),
                power >= 1,
            decreases height - i,
        {
            proof {
                lemma_pow2_unfold((i + 1) as nat);
                lemma_pow2_fits((i + 1) as nat);
            }
            power = power * 2;
            i += 1;
        }
        power - 1
    }

    /// The height of the tree over `leaves` leaves: the integer part of the
    /// base-2 logarithm of `2 * leaves - 1`, computed in integers. There is
    /// no tree, and no height, over no leaves.
    pub fn get_tree_height(leaves: usize) -> (height: usize)
        requires
            leaves >= 1,
        ensures
            height == tree_height(leaves as nat),
    {
        let mut count: u128 = 2 * (leaves as u128) - 1;
        let mut height: usize = 0;
        proof {
            lemma_tree_height_fits(leaves as nat);
            lemma_log_nonnegative(2, count as int);
        }
        while count > 1
            invariant
                count >= 1,
                height + log(2, count as int) == tree_height(leaves as nat),
                tree_height(leaves as nat) <= 64,
            decreases count,
        {
            proof {
                lemma_log_s(2, count as int);
                lemma_log_nonnegative(2, count as int / 2);
            }
            count = count / 2;
            height += 1;
        }
        proof {
            lemma_log0(2, 1);
        }
        height
    }

    /// The inclusion proof of `item`: one sibling digest for each level,
    /// from the level of the leaves up to the level below the root.
    /// Refused when the digest of `item` is not a leaf. Where the digest
    /// occurs more than once, the proof is that of its first occurrence.
    pub fn merkle_proof(&self, item: &str) -> (found: Result<Vec<[u8; 32]>, MerkleError>)
        ensures
            self.well_formed(),
            match found {
                Ok(proof) => {
                    &&& self.leaves().contains(keccak256_digest(item.spec_bytes()))
                    &&& proof_for(self.leaves(), keccak256_digest(item.spec_bytes())) == Some(
                        proof@,
                    )
                    &&& proof@.len() == tree_height(self.leaves().len())
                    &&& recompute_root(keccak256_digest(item.spec_bytes()), proof@)
                        == self.root()
                },
                Err(error) => {
                    &&& !self.leaves().contains(keccak256_digest(item.spec_bytes()))
                    &&& proof_for(self.leaves(), keccak256_digest(item.spec_bytes())) is None
                    &&& error == MerkleError::NotFound
                },
            },
    {
        proof {
            use_type_invariant(self);
            lemma_tree_layers_shape(self.leaves());
        }
        let leaf = keccak256(item.as_bytes());
        let height = self.layers.len() - 1;
        let leaves = &self.layers[height];
        let ghost bottom = leaves@;
        assert(bottom == self.leaves());
        proof {
            assert(bottom.len() == leaves.len());
            lemma_tree_height_fits(bottom.len());
        }
        let leaf_index = match Self::leaf_position(leaves, &leaf) {
            Some(index) => index,
            None => {
                return Err(MerkleError::NotFound);
            },
        };
        let ghost path = proof_path(bottom, leaf_index as int);
        let mut proof: Vec<[u8; 32]> = Vec::new();
        proof {
            lemma2_to64();
            lemma_pow2_fits(height as nat);
        }
        // The position of the current node among all nodes of the tree,
        // counted from the root.
        let mut current_index: u128 = Self::get_tree_nodes(height) + leaf_index as u128;
        let mut layer_index: usize = height;
        while layer_index >= 1
            invariant
                layer_index <= height <= 64,
                height == tree_height(bottom.len()),
                self.layers@.len() == height + 1,
                layers_view(self.layers@) == tree_layers(bottom),
                leaf_index < bottom.len(),
                path == proof_path(bottom, leaf_index as int),
                proof@ == path.take(height - layer_index),
                current_index == nodes_before(layer_index as nat) + leaf_index as int / (pow2(
                    (height - layer_index) as nat,
                ) as int),
            decreases layer_index,
        {
            let ghost level = (height - layer_index) as nat;
            let ghost at = leaf_index as int / (pow2(level) as int);
            let layer = &self.layers[layer_index];
            proof {
                lemma_path_reaches_ancestor(bottom, leaf_index as int, level);
                lemma_position_above(leaf_index as int, level);
                lemma_parent_position((layer_index - 1) as nat, at as nat);
                lemma_pow2_fits(layer_index as nat);
                assert(layers_view(self.layers@)[layer_index as int] == layer@);
                assert(tree_layers(bottom)[layer_index as int] == layer_above(bottom, level));
            }
            // The position of the current node within its own layer.
            let internal_index = (current_index - Self::get_tree_nodes(layer_index)) as usize;
            assert(internal_index == at);
            let sibling = Self::sibling_at(layer, internal_index);
            proof.push(sibling);
            current_index = (current_index - 1) / 2;
            layer_index -= 1;
            assert(proof@ =~= path.take(height - layer_index));
        }
        proof {
            assert(proof@ =~= path);
            lemma_proof_path_verifies(bottom, leaf_index as int);
        }
        Ok(proof)
    }

    /// The position of the first leaf equal to `leaf`, if there is one.
    fn leaf_position(leaves: &Vec<[u8; 32]>, leaf: &[u8; 32]) -> (position: Option<usize>)
        ensures
            leaves@.contains(*leaf) <==> position is Some,
            match position {
                Some(index) => {
                    &&& index < leaves.len()
                    &&& leaves@[index as int] == *leaf
                    &&& leaves@.index_of_first(*leaf) == Some(index as int)
                },
                None => leaves@.index_of_first(*leaf) is None,
            },
    {
        let mut index: usize = 0;
        while index < leaves.len()
            invariant
                index <= leaves.len(),
                forall|j: int| 0 <= j < index ==> leaves@[j] != *leaf,
            decreases leaves.len() - index,
        {
            if digest_eq(&leaves[index], leaf) {
                proof {
                    leaves@.index_of_first_ensures(*leaf);
                }
                return Some(index);
            }
            index += 1;
        }
        proof {
            leaves@.index_of_first_ensures(*leaf);
        }
        None
    }

    /// The node that node `i` of `layer` is hashed with.
    fn sibling_at(layer: &Vec<[u8; 32]>, i: usize) -> (node: [u8; 32])
        requires
            i < layer.len(),
        ensures
            node == sibling(layer@, i as int),
    {
        if i % 2 == 0 {
            if i == layer.len() - 1 {
                // The last node of an odd layer is its own sibling.
                layer[i]
            } else {
                layer[i + 1]
            }
        } else {
            layer[i - 1]
        }
    }

    /// The layer above `layer`.
    fn next_layer(layer: &Vec<[u8; 32]>) -> (above: Vec<[u8; 32]>)
        ensures
            above@ == parent_layer(layer@),
    {
        let len = layer.len();
        let count = len / 2 + len % 2;
        let mut above: Vec<[u8; 32]> = Vec::new();
        let mut i: usize = 0;
        while i < count
            invariant
                i <= count,
                len == layer.len(),
                count == (len + 1) / 2,
                above@ == parent_layer(layer@).take(i as int),
            decreases count - i,
        {
            let left = layer[2 * i];
            let right = if 2 * i + 1 < len {
                layer[2 * i + 1]
            } else {
                // An odd layer ends in a node without a neighbour, which is
                // hashed with itself.
                left
            };
            above.push(hash_pair(&left, &right));
            i += 1;
            assert(above@ =~= parent_layer(layer@).take(i as int));
        }
        assert(above@ =~= parent_layer(layer@));
        above
    }

    /// Builds every layer above `leaves` and returns them with the root
    /// layer first and `leaves` last.
    pub fn build_tree(leaves: Vec<[u8; 32]>) -> (layers: Vec<Vec<[u8; 32]>>)
        requires
            leaves.len() >= 1,
        ensures
            layers_view(layers@) == tree_layers(leaves@),
    {
        let ghost bottom = leaves@;
        let height = Self::get_tree_height(leaves.len());
        proof {
            lemma_tree_height_fits(bottom.len());
        }
        let mut layers: Vec<Vec<[u8; 32]>> = Vec::new();
        layers.push(leaves);
        let mut layer_index: usize = 1;
        while layer_index < height + 1
            invariant
                1 <= layer_index <= height + 1,
                height <= 64,
                layers@.len() == layer_index,
                forall|i: int|
                    0 <= i < layer_index ==> (#[trigger] layers@[i])@ == layer_above(
                        bottom,
                        i as nat,
                    ),
            decreases height + 1 - layer_index,
        {
            let layer = Self::next_layer(&layers[layer_index - 1]);
            layers.push(layer);
            layer_index += 1;
        }
        // Turn the list over, so that the root layer comes first.
        let mut reversed: Vec<Vec<[u8; 32]>> = Vec::new();
        while layers.len() > 0
            invariant
                reversed@.len() + layers@.len() == height + 1,
                forall|i: int|
                    0 <= i < layers@.len() ==> (#[trigger] layers@[i])@ == layer_above(
                        bottom,
                        i as nat,
                    ),
                forall|i: int|
                    0 <= i < reversed@.len() ==> (#[trigger] reversed@[i])@ == layer_above(
                        bottom,
                        (height - i) as nat,
                    ),
            decreases layers@.len(),
        {
            let layer = layers.pop().unwrap();
            reversed.push(layer);
        }
        assert(layers_view(reversed@) =~= tree_layers(bottom));
        reversed
    }

    /// Whether hashing `leaf` with each element of `proof` in turn leads to
    /// `root`. Any input is accepted; one that does not lead to `root` is
    /// answered with `false`.
    pub fn verify_proof(root: [u8; 32], proof: Vec<[u8; 32]>, leaf: [u8; 32]) -> (valid: bool)
        ensures
            valid == (recompute_root(leaf, proof@) == root),
    {
        let mut current = leaf;
        let mut i: usize = 0;
        while i < proof.len()
            invariant
                i <= proof.len(),
                current == recompute_root(leaf, proof@.take(i as int)),
            decreases proof.len() - i,
        {
            proof {
                assert(proof@.take(i + 1).drop_last() =~= proof@.take(i as int));
            }
            current = hash_pair(&current, &proof[i]);
            i += 1;
        }
        assert(proof@.take(i as int) =~= proof@);
        digest_eq(&current, &root)
    }
}

} // verus!
