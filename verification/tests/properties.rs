use merkle_tree::error::MerkleTreeError;
use merkle_tree::MerkleTree;

fn abc() -> [merkle_tree::Hash; 3] {
    [
        MerkleTree::hash(b"a"),
        MerkleTree::hash(b"b"),
        MerkleTree::hash(b"c"),
    ]
}

#[test]
fn hash_of_a_matches_the_known_digest() {
    let hash = MerkleTree::hash(b"a");
    assert_eq!(
        hash,
        [
            128, 8, 75, 242, 251, 160, 36, 117, 114, 111, 235, 44, 171, 45, 130, 21, 234, 177, 75,
            198, 189, 216, 191, 178, 200, 21, 18, 87, 3, 46, 205, 139
        ]
    );
}

#[test]
fn concat_is_order_sensitive() {
    let a = MerkleTree::hash(b"a");
    let b = MerkleTree::hash(b"b");
    assert_ne!(MerkleTree::concat(&a, &b), MerkleTree::concat(&b, &a));
}

#[test]
fn construction_is_deterministic() {
    let leaves = abc();
    let first = MerkleTree::new(&leaves).unwrap();
    let second = MerkleTree::new(&leaves).unwrap();
    assert_eq!(first.root(), second.root());
}

#[test]
fn odd_count_equals_explicit_duplicate_of_last_leaf() {
    let [a, b, c] = abc();
    let odd = MerkleTree::new(&[a, b, c]).unwrap();
    let even = MerkleTree::new(&[a, b, c, c]).unwrap();
    assert_eq!(odd.root(), even.root());
}

#[test]
fn single_leaf_is_paired_with_its_own_copy() {
    let a = MerkleTree::hash(b"a");
    let tree = MerkleTree::new(&[a]).unwrap();
    assert_eq!(tree.root(), MerkleTree::concat(&a, &a));
}

#[test]
fn construction_from_zero_leaves_reports_empty() {
    match MerkleTree::new(&[]) {
        Err(MerkleTreeError::Empty) => {}
        _ => panic!("expected the Empty error"),
    }
}

#[test]
fn update_at_leaf_count_reports_offset_out_of_bounds() {
    let leaves = abc();
    let mut tree = MerkleTree::new(&leaves).unwrap();
    // three supplied leaves are padded to four
    match tree.update(4, MerkleTree::hash(b"z")) {
        Err(MerkleTreeError::OffsetOutOfBounds(offset, count)) => {
            assert_eq!(offset, 4);
            assert_eq!(count, 4);
        }
        _ => panic!("expected the OffsetOutOfBounds error"),
    }
}

#[test]
fn failed_update_leaves_the_root_unchanged() {
    let leaves = abc();
    let mut tree = MerkleTree::new(&leaves).unwrap();
    let root_before = tree.root();
    assert!(tree.update(17, MerkleTree::hash(b"z")).is_err());
    assert_eq!(tree.root(), root_before);
}

#[test]
fn missing_leaf_reports_its_hex_encoding() {
    let leaves = abc();
    let tree = MerkleTree::new(&leaves).unwrap();
    let missing = MerkleTree::hash(b"z");
    match tree.generate_proof(&missing) {
        Err(MerkleTreeError::CannotFindLeaf(encoded)) => {
            assert_eq!(encoded, hex::encode(missing));
        }
        _ => panic!("expected the CannotFindLeaf error"),
    }
}

#[test]
fn proof_length_is_the_level_count() {
    let mut leaves: Vec<merkle_tree::Hash> = Vec::new();
    for i in 0u32..16 {
        leaves.push(MerkleTree::hash(&i.to_be_bytes()));
    }
    for (count, expected_len) in [(2usize, 1usize), (4, 2), (8, 3), (16, 4)] {
        let tree = MerkleTree::new(&leaves[0..count]).unwrap();
        for leaf in &leaves[0..count] {
            let proof = tree.generate_proof(leaf).unwrap();
            assert_eq!(proof.len(), expected_len);
        }
    }
}

#[test]
fn stale_proof_fails_against_the_new_root() {
    let leaves = abc();
    let mut tree = MerkleTree::new(&leaves).unwrap();
    let old_leaf = leaves[1];
    let stale_proof = tree.generate_proof(&old_leaf).unwrap();
    assert!(tree.verify(&stale_proof, &old_leaf));

    tree.update(0, MerkleTree::hash(b"x")).unwrap();
    // the proof was captured by value; against the updated root it must fail
    assert!(!tree.verify(&stale_proof, &old_leaf));
}

#[test]
fn update_keeps_the_far_subtree_untouched() {
    let mut leaves: Vec<merkle_tree::Hash> = Vec::new();
    for i in 0u32..16 {
        leaves.push(MerkleTree::hash(&i.to_be_bytes()));
    }
    let mut tree = MerkleTree::new(&leaves).unwrap();
    let proof_before = tree.generate_proof(&leaves[0]).unwrap();

    tree.update(15, MerkleTree::hash(b"x")).unwrap();
    let proof_after = tree.generate_proof(&leaves[0]).unwrap();

    // leaf 0 and leaf 15 share only the root, so every sibling of leaf 0's
    // path below the root is untouched; only the last entry changes
    assert_eq!(proof_before[0..3], proof_after[0..3]);
    assert_ne!(proof_before[3], proof_after[3]);
}

#[test]
fn verify_accepts_only_the_matching_leaf() {
    let leaves = abc();
    let tree = MerkleTree::new(&leaves).unwrap();
    let proof = tree.generate_proof(&leaves[0]).unwrap();
    assert!(tree.verify(&proof, &leaves[0]));
    assert!(!tree.verify(&proof, &leaves[1]));
}
