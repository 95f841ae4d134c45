use merkle_tree::{hash_pair, keccak256, MerkleError, MerkleTree};

fn sorted_leaves(items: &[&str]) -> Vec<[u8; 32]> {
    let mut leaves: Vec<[u8; 32]> = items.iter().map(|i| keccak256(i.as_bytes())).collect();
    leaves.sort();
    leaves
}

#[test]
fn tree_height_exact_values() {
    assert_eq!(MerkleTree::get_tree_height(1), 0);
    assert_eq!(MerkleTree::get_tree_height(2), 1);
    assert_eq!(MerkleTree::get_tree_height(3), 2);
    assert_eq!(MerkleTree::get_tree_height(4), 2);
    assert_eq!(MerkleTree::get_tree_height(5), 3);
    assert_eq!(MerkleTree::get_tree_height(6), 3);
    assert_eq!(MerkleTree::get_tree_height(8), 3);
    assert_eq!(MerkleTree::get_tree_height(9), 4);
    assert_eq!(MerkleTree::get_tree_height(10), 4);
    assert_eq!(MerkleTree::get_tree_height(16), 4);
    assert_eq!(MerkleTree::get_tree_height(17), 5);
    assert_eq!(MerkleTree::get_tree_height(1 << 20), 20);
    assert_eq!(MerkleTree::get_tree_height((1 << 20) + 1), 21);
    assert_eq!(MerkleTree::get_tree_height(1 << 24), 24);
    assert_eq!(MerkleTree::get_tree_height((1 << 24) + 1), 25);
}

#[test]
fn tree_height_is_the_floor_of_the_logarithm() {
    for leaves in 1usize..=4096 {
        let expected = ((2 * leaves - 1) as f64).log2().floor() as usize;
        assert_eq!(MerkleTree::get_tree_height(leaves), expected);
    }
}

#[test]
fn tree_height_of_the_largest_count() {
    assert_eq!(MerkleTree::get_tree_height(usize::MAX), usize::BITS as usize);
}

#[test]
fn tree_nodes_exact_values() {
    assert_eq!(MerkleTree::get_tree_nodes(0), 0);
    assert_eq!(MerkleTree::get_tree_nodes(1), 1);
    assert_eq!(MerkleTree::get_tree_nodes(2), 3);
    assert_eq!(MerkleTree::get_tree_nodes(3), 7);
    assert_eq!(MerkleTree::get_tree_nodes(10), 1023);
    assert_eq!(MerkleTree::get_tree_nodes(64), u64::MAX as u128);
    assert_eq!(MerkleTree::get_tree_nodes(127), u128::MAX >> 1);
}

#[test]
fn no_tree_over_no_items() {
    let built = MerkleTree::new(Vec::new());
    assert_eq!(built.err(), Some(MerkleError::InvalidInput));
}

#[test]
fn no_proof_for_a_stranger() {
    let tree = MerkleTree::new(vec!["foo", "bar", "baz"]).unwrap();
    assert_eq!(tree.merkle_proof("qux"), Err(MerkleError::NotFound));
    assert_eq!(tree.merkle_proof(""), Err(MerkleError::NotFound));
    assert!(tree.merkle_proof("foo").is_ok());
}

#[test]
fn single_item_tree_is_its_digest() {
    let tree = MerkleTree::new(vec!["only"]).unwrap();
    let digest = keccak256(b"only");
    assert_eq!(tree.merkle_root(), digest);
    assert_eq!(tree.layers(), &vec![vec![digest]]);
    let proof = tree.merkle_proof("only").unwrap();
    assert_eq!(proof, Vec::<[u8; 32]>::new());
    assert!(MerkleTree::verify_proof(tree.merkle_root(), proof, digest));
}

#[test]
fn two_item_tree() {
    let tree = MerkleTree::new(vec!["left", "right"]).unwrap();
    let a = keccak256(b"left");
    let b = keccak256(b"right");
    let root = hash_pair(&a, &b);
    assert_eq!(tree.merkle_root(), root);
    assert_eq!(tree.layers(), &vec![vec![root], sorted_leaves(&["left", "right"])]);
    assert_eq!(tree.merkle_proof("left").unwrap(), vec![b]);
    assert_eq!(tree.merkle_proof("right").unwrap(), vec![a]);
}

#[test]
fn four_item_tree_layer_by_layer() {
    let items = ["foo", "bar", "baz", "qux"];
    let tree = MerkleTree::new(items.to_vec()).unwrap();
    let leaves = sorted_leaves(&items);
    let middle = vec![hash_pair(&leaves[0], &leaves[1]), hash_pair(&leaves[2], &leaves[3])];
    let root = hash_pair(&middle[0], &middle[1]);
    assert_eq!(tree.layers(), &vec![vec![root], middle, leaves]);
    assert_eq!(tree.merkle_root(), root);
}

#[test]
fn odd_layers_pair_the_last_node_with_itself() {
    let items = ["abc", "bcd", "cde", "def", "efg"];
    let tree = MerkleTree::new(items.to_vec()).unwrap();
    let leaves = sorted_leaves(&items);
    let second = vec![
        hash_pair(&leaves[0], &leaves[1]),
        hash_pair(&leaves[2], &leaves[3]),
        hash_pair(&leaves[4], &leaves[4]),
    ];
    let third = vec![hash_pair(&second[0], &second[1]), hash_pair(&second[2], &second[2])];
    let root = hash_pair(&third[0], &third[1]);
    let layers = tree.layers();
    assert_eq!(layers.len(), 4);
    assert_eq!(layers[0], vec![root]);
    assert_eq!(layers[1], third);
    assert_eq!(layers[2], second);
    assert_eq!(layers[3], leaves);
}

#[test]
fn layer_lengths_halve_rounding_up() {
    let names: Vec<String> = (0..37).map(|i| format!("item-{}", i)).collect();
    let items: Vec<&str> = names.iter().map(|s| s.as_str()).collect();
    let tree = MerkleTree::new(items).unwrap();
    let lengths: Vec<usize> = tree.layers().iter().map(|layer| layer.len()).collect();
    assert_eq!(lengths, vec![1, 2, 3, 5, 10, 19, 37]);
}

#[test]
fn build_tree_over_given_leaves() {
    let leaves = sorted_leaves(&["x", "y", "z"]);
    let layers = MerkleTree::build_tree(leaves.clone());
    let middle = vec![hash_pair(&leaves[0], &leaves[1]), hash_pair(&leaves[2], &leaves[2])];
    let root = hash_pair(&middle[0], &middle[1]);
    assert_eq!(layers, vec![vec![root], middle, leaves]);
}

#[test]
fn build_tree_over_one_leaf() {
    let leaf = keccak256(b"x");
    assert_eq!(MerkleTree::build_tree(vec![leaf]), vec![vec![leaf]]);
}

#[test]
fn root_does_not_depend_on_the_order_of_items() {
    let tree = MerkleTree::new(vec!["foo", "bar", "baz", "qux", "quux"]).unwrap();
    let shuffled = MerkleTree::new(vec!["quux", "baz", "foo", "qux", "bar"]).unwrap();
    let reversed = MerkleTree::new(vec!["quux", "qux", "baz", "bar", "foo"]).unwrap();
    assert_eq!(tree.merkle_root(), shuffled.merkle_root());
    assert_eq!(tree.merkle_root(), reversed.merkle_root());
    assert_eq!(tree.layers(), shuffled.layers());
    let other = MerkleTree::new(vec!["foo", "bar", "baz", "qux", "quuux"]).unwrap();
    assert_ne!(tree.merkle_root(), other.merkle_root());
}

#[test]
fn proofs_do_not_depend_on_the_order_of_items() {
    let items = ["foo", "bar", "baz", "qux", "quux"];
    let tree = MerkleTree::new(items.to_vec()).unwrap();
    let shuffled = MerkleTree::new(vec!["quux", "baz", "foo", "qux", "bar"]).unwrap();
    for item in items {
        assert_eq!(tree.merkle_proof(item), shuffled.merkle_proof(item));
    }
}

#[test]
fn rebuilding_gives_the_same_tree() {
    let items = ["1", "2", "3", "4", "5", "6", "7", "8", "9", "10"];
    let first = MerkleTree::new(items.to_vec()).unwrap();
    let second = MerkleTree::new(items.to_vec()).unwrap();
    assert_eq!(first.merkle_root(), second.merkle_root());
    assert_eq!(first.layers(), second.layers());
    for item in items {
        assert_eq!(first.merkle_proof(item).unwrap(), second.merkle_proof(item).unwrap());
    }
}

#[test]
fn repeated_items_are_proved_at_their_first_leaf() {
    let tree = MerkleTree::new(vec!["same", "same", "other"]).unwrap();
    let same = keccak256(b"same");
    let other = keccak256(b"other");
    let leaves = sorted_leaves(&["same", "same", "other"]);
    let proof = tree.merkle_proof("same").unwrap();
    assert_eq!(proof.len(), 2);
    if same < other {
        assert_eq!(leaves, vec![same, same, other]);
        assert_eq!(proof, vec![same, hash_pair(&other, &other)]);
    } else {
        assert_eq!(leaves, vec![other, same, same]);
        assert_eq!(proof, vec![other, hash_pair(&same, &same)]);
    }
    assert!(MerkleTree::verify_proof(tree.merkle_root(), proof, same));
}
