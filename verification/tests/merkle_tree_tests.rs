use merkle_tree::{Direction, MerkleTree};

// 16 leaves to use for tests
fn leaves() -> [merkle_tree::Hash; 16] {
    [
        MerkleTree::hash(b"a"),
        MerkleTree::hash(b"b"),
        MerkleTree::hash(b"c"),
        MerkleTree::hash(b"d"),
        MerkleTree::hash(b"e"),
        MerkleTree::hash(b"f"),
        MerkleTree::hash(b"g"),
        MerkleTree::hash(b"h"),
        MerkleTree::hash(b"i"),
        MerkleTree::hash(b"j"),
        MerkleTree::hash(b"k"),
        MerkleTree::hash(b"l"),
        MerkleTree::hash(b"m"),
        MerkleTree::hash(b"n"),
        MerkleTree::hash(b"o"),
        MerkleTree::hash(b"p"),
    ]
}

// the fully pairwise-reduced root over exactly 16 leaves
fn root_hash(leaves: &[merkle_tree::Hash]) -> merkle_tree::Hash {
    MerkleTree::concat(
        &MerkleTree::concat(
            &MerkleTree::concat(
                &MerkleTree::concat(&leaves[0], &leaves[1]),
                &MerkleTree::concat(&leaves[2], &leaves[3]),
            ),
            &MerkleTree::concat(
                &MerkleTree::concat(&leaves[4], &leaves[5]),
                &MerkleTree::concat(&leaves[6], &leaves[7]),
            ),
        ),
        &MerkleTree::concat(
            &MerkleTree::concat(
                &MerkleTree::concat(&leaves[8], &leaves[9]),
                &MerkleTree::concat(&leaves[10], &leaves[11]),
            ),
            &MerkleTree::concat(
                &MerkleTree::concat(&leaves[12], &leaves[13]),
                &MerkleTree::concat(&leaves[14], &leaves[15]),
            ),
        ),
    )
}

#[test]
fn it_returns_an_error_with_zero_leaves() {
    let tree = MerkleTree::new(&[]);
    assert!(tree.is_err());
}

#[test]
fn gets_the_root_hash_of_even_leaves() {
    let leaves = leaves();
    let tree = MerkleTree::new(&leaves).unwrap();
    assert_eq!(tree.root(), root_hash(&leaves));
}

#[test]
fn gets_the_root_hash_of_odd_leaves() {
    let leaves: &[merkle_tree::Hash] = &leaves()[0..15];
    let tree = MerkleTree::new(&leaves).unwrap();

    // now that the tree is created, make the leaves even by coping the last leaf and compare
    let even_leaves = [leaves, &[leaves[14]]].concat();
    assert_eq!(tree.root(), root_hash(&even_leaves));
}

#[test]
fn gets_the_parent_index() {
    assert_eq!(MerkleTree::get_parent_index(0), 0);
    assert_eq!(MerkleTree::get_parent_index(1), 0);
    assert_eq!(MerkleTree::get_parent_index(2), 0);
    assert_eq!(MerkleTree::get_parent_index(3), 1);
    assert_eq!(MerkleTree::get_parent_index(4), 1);
    assert_eq!(MerkleTree::get_parent_index(5), 2);
    assert_eq!(MerkleTree::get_parent_index(6), 2);
    assert_eq!(MerkleTree::get_parent_index(7), 3);
    assert_eq!(MerkleTree::get_parent_index(8), 3);
    assert_eq!(MerkleTree::get_parent_index(9), 4);
    assert_eq!(MerkleTree::get_parent_index(10), 4);
    assert_eq!(MerkleTree::get_parent_index(11), 5);
    assert_eq!(MerkleTree::get_parent_index(12), 5);
    assert_eq!(MerkleTree::get_parent_index(13), 6);
    assert_eq!(MerkleTree::get_parent_index(14), 6);
}

#[test]
fn gets_the_number_of_levels_from_leaves() {
    let leaves = leaves();
    assert_eq!(MerkleTree::num_levels_from_leaves(&[]), 0);
    assert_eq!(MerkleTree::num_levels_from_leaves(&leaves[0..0]), 0);
    assert_eq!(MerkleTree::num_levels_from_leaves(&leaves[0..2]), 1);
    assert_eq!(MerkleTree::num_levels_from_leaves(&leaves[0..4]), 2);
    assert_eq!(MerkleTree::num_levels_from_leaves(&leaves[0..6]), 2);
    assert_eq!(MerkleTree::num_levels_from_leaves(&leaves[0..8]), 3);
    assert_eq!(MerkleTree::num_levels_from_leaves(&leaves[0..10]), 3);
    assert_eq!(MerkleTree::num_levels_from_leaves(&leaves[0..12]), 3);
    assert_eq!(MerkleTree::num_levels_from_leaves(&leaves[0..14]), 3);
    assert_eq!(MerkleTree::num_levels_from_leaves(&leaves[0..16]), 4);
}

#[test]
fn gets_the_number_of_levels() {
    let leaves = leaves();
    assert_eq!(
        MerkleTree::num_levels(&MerkleTree::new(&leaves[0..1]).unwrap()),
        1
    );
    assert_eq!(
        MerkleTree::num_levels(&MerkleTree::new(&leaves[0..2]).unwrap()),
        1
    );
    assert_eq!(
        MerkleTree::num_levels(&MerkleTree::new(&leaves[0..3]).unwrap()),
        2
    );
    assert_eq!(
        MerkleTree::num_levels(&MerkleTree::new(&leaves[0..4]).unwrap()),
        2
    );
    assert_eq!(
        MerkleTree::num_levels(&MerkleTree::new(&leaves[0..5]).unwrap()),
        3
    );
    assert_eq!(
        MerkleTree::num_levels(&MerkleTree::new(&leaves[0..6]).unwrap()),
        3
    );
    assert_eq!(
        MerkleTree::num_levels(&MerkleTree::new(&leaves[0..7]).unwrap()),
        3
    );
    assert_eq!(
        MerkleTree::num_levels(&MerkleTree::new(&leaves[0..8]).unwrap()),
        3
    );
    assert_eq!(
        MerkleTree::num_levels(&MerkleTree::new(&leaves[0..9]).unwrap()),
        4
    );
}

#[test]
fn sets_a_leaf_value() {
    let leaves = leaves();
    let mut tree = MerkleTree::new(&leaves).unwrap();
    let old_leaf = leaves[15];
    let old_root = tree.root();

    let proof = tree.generate_proof(&old_leaf).unwrap();
    assert!(tree.verify(&proof, &old_leaf));

    let new_leaf = MerkleTree::hash(b"c");
    tree.update(15, new_leaf).unwrap();
    let new_root = tree.root();

    // confirm that the hash root changed
    assert_ne!(old_root, new_root);

    let proof = tree.generate_proof(&new_leaf).unwrap();
    assert!(tree.verify(&proof, &new_leaf));
}

#[test]
fn errors_when_setting_a_non_existent_leaf() {
    let leaves = leaves();
    let mut tree = MerkleTree::new(&leaves).unwrap();
    let old_leaf = MerkleTree::hash(b"c");

    let proof = tree.generate_proof(&old_leaf).unwrap();
    assert!(tree.verify(&proof, &old_leaf));

    let new_leaf = MerkleTree::hash(b"c");
    let result = tree.update(16, new_leaf);
    assert!(result.is_err());
}

#[test]
fn gets_a_proof_and_verifies_for_all_leaves() {
    let leaves = leaves();
    let tree = MerkleTree::new(&leaves).unwrap();

    for i in 0..leaves.len() {
        let proof = tree.generate_proof(&leaves[i]).unwrap();
        assert!(tree.verify(&proof, &leaves[i]));
    }
}

#[test]
fn errors_when_getting_a_proof_for_a_non_existent_leaf() {
    let leaves = leaves();
    let tree = MerkleTree::new(&leaves).unwrap();
    let proof = tree.generate_proof(&MerkleTree::hash(b"z"));

    assert!(proof.is_err());
}

#[test]
fn does_not_verify_a_proof_for_a_non_existent_leaf() {
    let leaves = leaves();
    let tree = MerkleTree::new(&leaves).unwrap();
    let proof = tree.generate_proof(&leaves[3]).unwrap();

    assert!(!tree.verify(&proof, &MerkleTree::hash(b"z")));
}

#[test]
fn proof_entries_carry_sibling_hash_and_direction() {
    let leaves = [MerkleTree::hash(b"a"), MerkleTree::hash(b"b")];
    let tree = MerkleTree::new(&leaves).unwrap();
    let proof = tree.generate_proof(&leaves[1]).unwrap();
    assert_eq!(proof, vec![(Direction::Left, MerkleTree::hash(b"a"))]);
    let proof = tree.generate_proof(&leaves[0]).unwrap();
    assert_eq!(proof, vec![(Direction::Right, MerkleTree::hash(b"b"))]);
}
