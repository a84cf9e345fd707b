use qtv_stark::field::Felt;
use qtv_stark::merkle::{depth_for, hash_leaf, hash_row, verify, verify_with_leaves, Digest, MerkleProof, MerkleTree, LEAF_DOMAIN, NODE_DOMAIN};

fn leaves(count: usize) -> Vec<Digest> {
    (0..count).map(|i| hash_leaf(Felt::new(i as u64))).collect()
}

#[test]
fn inclusion_proof_verifies_for_every_leaf() {
    let leaves = leaves(8);
    let tree = MerkleTree::commit(&leaves);
    let root = tree.root();
    for (index, leaf) in leaves.iter().enumerate() {
        let proof = tree.open(index);
        assert_eq!(proof.leaf_index, index);
        assert!(verify(&root, leaf, &proof));
    }
}

#[test]
fn a_tampered_leaf_is_rejected() {
    let leaves = leaves(8);
    let tree = MerkleTree::commit(&leaves);
    let root = tree.root();
    let proof = tree.open(3);
    let forged = hash_leaf(Felt::new(999));
    assert!(!verify(&root, &forged, &proof));
}

#[test]
fn a_tampered_path_is_rejected() {
    let leaves = leaves(8);
    let tree = MerkleTree::commit(&leaves);
    let root = tree.root();
    let mut proof = tree.open(5);
    proof.siblings[0][0] ^= 1;
    assert!(!verify(&root, &leaves[5], &proof));
}

#[test]
fn a_row_leaf_depends_on_every_column() {
    let base = [Felt::new(1), Felt::new(2), Felt::new(3)];
    let mut changed = base;
    changed[1] = Felt::new(9);
    assert_ne!(hash_row(&base), hash_row(&changed));
    assert_eq!(hash_row(&base), hash_row(&base));
}

#[test]
fn a_proof_from_a_different_position_is_rejected() {
    let leaves = leaves(8);
    let tree = MerkleTree::commit(&leaves);
    let root = tree.root();
    let proof = tree.open(2);
    assert!(!verify(&root, &leaves[6], &proof));
}

#[test]
fn the_leaf_and_node_prefixes_are_distinct() {
    assert_ne!(LEAF_DOMAIN, NODE_DOMAIN);
}

#[test]
fn a_shortened_path_does_not_verify_for_a_real_leaf() {
    let leaves: Vec<Digest> = (0..8u64).map(|i| hash_leaf(Felt::new(i))).collect();
    let tree = MerkleTree::commit(&leaves);
    let root = tree.root();
    let full = tree.open(3);
    for cut in 1..full.siblings.len() {
        let shortened = MerkleProof { leaf_index: 3, siblings: full.siblings[..cut].to_vec() };
        assert!(!verify(&root, &leaves[3], &shortened));
    }
}

#[test]
fn the_depth_matches_what_commit_actually_builds() {
    for n in 1..=64usize {
        let leaves: Vec<Digest> = (0..n as u64).map(|i| hash_leaf(Felt::new(i))).collect();
        let tree = MerkleTree::commit(&leaves);
        let proof = tree.open(0);
        assert_eq!(depth_for(n), proof.siblings.len());
    }
}

#[test]
fn an_honest_proof_still_verifies_under_the_bound() {
    for n in [1usize, 2, 3, 5, 8, 17, 64] {
        let leaves: Vec<Digest> = (0..n as u64).map(|i| hash_leaf(Felt::new(i))).collect();
        let tree = MerkleTree::commit(&leaves);
        let root = tree.root();
        for index in 0..n {
            let proof = tree.open(index);
            assert!(verify_with_leaves(&root, &leaves[index], &proof, n));
        }
    }
}

#[test]
fn an_index_past_the_leaf_count_is_refused() {
    let n = 8usize;
    let leaves: Vec<Digest> = (0..n as u64).map(|i| hash_leaf(Felt::new(i))).collect();
    let tree = MerkleTree::commit(&leaves);
    let root = tree.root();
    let mut proof = tree.open(3);
    proof.leaf_index = n + 1;
    assert!(!verify_with_leaves(&root, &leaves[3], &proof, n));
}

#[test]
fn a_single_leaf_is_its_own_root() {
    let leaves = leaves(1);
    let tree = MerkleTree::commit(&leaves);
    assert_eq!(tree.root(), leaves[0]);
    assert_eq!(depth_for(1), 0);
    assert_eq!(depth_for(5), 3);
}
