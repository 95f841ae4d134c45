use merkle_tree::{keccak256, MerkleTree};

#[test]
fn test_merkle_proof_1() {
    let items = ["foo", "bar", "baz", "qux"];
    let tree = MerkleTree::new(items.to_vec()).unwrap();

    for i in 0..items.len() {
        let proof = tree.merkle_proof(items[i]).unwrap();
        let length = proof.len();
        let leaf = keccak256(items[i].as_bytes());
        let result = MerkleTree::verify_proof(tree.merkle_root(), proof, leaf);
        assert_eq!(length, 2);
        assert_eq!(result, true);
    }
}

#[test]
fn test_merkle_proof_2() {
    let items = ["foo", "bar", "baz", "qux", "quux", "quuux"];
    let tree = MerkleTree::new(items.to_vec()).unwrap();

    for i in 0..items.len() {
        let proof = tree.merkle_proof(items[i]).unwrap();
        let length = proof.len();
        let leaf = keccak256(items[i].as_bytes());
        let result = MerkleTree::verify_proof(tree.merkle_root(), proof, leaf);
        assert_eq!(length, 3);
        assert_eq!(result, true);
    }
}

#[test]
fn test_merkle_proof_3() {
    let items = ["1", "2", "3", "4", "5", "6", "7", "8", "9", "10"];
    let tree = MerkleTree::new(items.to_vec()).unwrap();

    for i in 0..items.len() {
        let proof = tree.merkle_proof(items[i]).unwrap();
        let length = proof.len();
        let leaf = keccak256(items[i].as_bytes());
        let result = MerkleTree::verify_proof(tree.merkle_root(), proof, leaf);
        assert_eq!(length, 4);
        assert_eq!(result, true);
    }
}

#[test]
fn test_merkle_proof_4() {
    let items = ["abc", "bcd", "cde", "def", "efg"];
    let tree = MerkleTree::new(items.to_vec()).unwrap();
    for i in 0..items.len() {
        let proof = tree.merkle_proof(items[i]).unwrap();
        let length = proof.len();
        let leaf = keccak256(items[i].as_bytes());
        let result = MerkleTree::verify_proof(tree.merkle_root(), proof, leaf);
        assert_eq!(length, 3);
        assert_eq!(result, true);
    }
}

fn numbered(count: usize) -> Vec<String> {
    (0..count).map(|i| format!("leaf number {}", i)).collect()
}

#[test]
fn every_item_verifies_for_every_small_size() {
    for count in 1..=40 {
        let names = numbered(count);
        let items: Vec<&str> = names.iter().map(|s| s.as_str()).collect();
        let tree = MerkleTree::new(items.clone()).unwrap();
        for item in items {
            let proof = tree.merkle_proof(item).unwrap();
            let leaf = keccak256(item.as_bytes());
            assert!(MerkleTree::verify_proof(tree.merkle_root(), proof, leaf));
        }
    }
}

#[test]
fn proof_length_is_the_tree_height() {
    let expected = [0, 1, 2, 2, 3, 3, 3, 3, 4, 4, 4, 4, 4, 4, 4, 4, 5];
    for count in 1..=17 {
        let names = numbered(count);
        let items: Vec<&str> = names.iter().map(|s| s.as_str()).collect();
        let tree = MerkleTree::new(items.clone()).unwrap();
        assert_eq!(tree.layers().len(), expected[count - 1] + 1);
        assert_eq!(MerkleTree::get_tree_height(count), expected[count - 1]);
        for item in items {
            assert_eq!(tree.merkle_proof(item).unwrap().len(), expected[count - 1]);
        }
    }
}

#[test]
fn proof_holds_the_siblings_from_the_leaf_upwards() {
    let items = ["abc", "bcd", "cde", "def", "efg"];
    let tree = MerkleTree::new(items.to_vec()).unwrap();
    let layers = tree.layers();
    let leaves = &layers[3];
    let second = &layers[2];
    let third = &layers[1];
    for item in items {
        let leaf = keccak256(item.as_bytes());
        let position = leaves.iter().position(|l| *l == leaf).unwrap();
        let expected = match position {
            0 => vec![leaves[1], second[1], third[1]],
            1 => vec![leaves[0], second[1], third[1]],
            2 => vec![leaves[3], second[0], third[1]],
            3 => vec![leaves[2], second[0], third[1]],
            4 => vec![leaves[4], second[2], third[0]],
            _ => unreachable!(),
        };
        assert_eq!(tree.merkle_proof(item).unwrap(), expected);
    }
}

#[test]
fn verify_recomputes_the_root_step_by_step() {
    let leaf = keccak256(b"leaf");
    let first = keccak256(b"first sibling");
    let second = keccak256(b"second sibling");
    let root = merkle_tree::hash_pair(&merkle_tree::hash_pair(&leaf, &first), &second);
    assert!(MerkleTree::verify_proof(root, vec![first, second], leaf));
    assert!(!MerkleTree::verify_proof(root, vec![second, first], leaf));
    assert!(!MerkleTree::verify_proof(root, vec![first], leaf));
    assert!(!MerkleTree::verify_proof(root, vec![first, second, second], leaf));
}

#[test]
fn verify_with_an_empty_proof_compares_leaf_and_root() {
    let leaf = keccak256(b"leaf");
    assert!(MerkleTree::verify_proof(leaf, Vec::new(), leaf));
    assert!(!MerkleTree::verify_proof(keccak256(b"root"), Vec::new(), leaf));
}

#[test]
fn verify_rejects_an_altered_root() {
    let items = ["foo", "bar", "baz", "qux"];
    let tree = MerkleTree::new(items.to_vec()).unwrap();
    let proof = tree.merkle_proof("baz").unwrap();
    let leaf = keccak256(b"baz");
    for byte in 0..32 {
        let mut root = tree.merkle_root();
        root[byte] ^= 1;
        assert!(!MerkleTree::verify_proof(root, proof.clone(), leaf));
    }
}

#[test]
fn verify_rejects_an_altered_leaf() {
    let items = ["foo", "bar", "baz", "qux"];
    let tree = MerkleTree::new(items.to_vec()).unwrap();
    let proof = tree.merkle_proof("baz").unwrap();
    for byte in 0..32 {
        let mut leaf = keccak256(b"baz");
        leaf[byte] ^= 0x10;
        assert!(!MerkleTree::verify_proof(tree.merkle_root(), proof.clone(), leaf));
    }
}

#[test]
fn verify_rejects_an_altered_proof_element() {
    let items = ["1", "2", "3", "4", "5", "6", "7", "8", "9", "10"];
    let tree = MerkleTree::new(items.to_vec()).unwrap();
    let leaf = keccak256(b"7");
    let proof = tree.merkle_proof("7").unwrap();
    assert_eq!(proof.len(), 4);
    for element in 0..proof.len() {
        for byte in 0..32 {
            let mut altered = proof.clone();
            altered[element][byte] ^= 0x80;
            assert!(!MerkleTree::verify_proof(tree.merkle_root(), altered, leaf));
        }
    }
}

#[test]
fn verify_rejects_the_proof_of_another_item() {
    let items = ["foo", "bar", "baz", "qux", "quux", "quuux"];
    let tree = MerkleTree::new(items.to_vec()).unwrap();
    let leaves = tree.layers().last().unwrap().clone();
    let proof = tree.merkle_proof("foo").unwrap();
    let foo = keccak256(b"foo");
    for leaf in leaves {
        let accepted = MerkleTree::verify_proof(tree.merkle_root(), proof.clone(), leaf);
        assert_eq!(accepted, leaf == foo);
    }
}
