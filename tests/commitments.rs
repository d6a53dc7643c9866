use verkle_trie::{hash, setup, CommitError, PathProof, VerkleTree};

fn key(k: &str) -> Vec<u8> {
    hex::decode(k).expect("Failed to decode hex string")
}

fn committed_tree(pairs: &[(&str, Vec<u8>)], depth: usize, seed: u64) -> VerkleTree {
    let mut tree = VerkleTree::new(depth, 256, seed).expect("Failed to create VerkleTree");
    for (k, v) in pairs {
        tree.insert(key(k), v.clone());
    }
    tree.set_commitments().expect("commitments");
    tree
}

#[test]
fn scenario_two_keys_depth_sixteen() {
    let mut tree = VerkleTree::new(16, 256, 3).expect("Failed to create VerkleTree");
    tree.insert(key("4cc4"), vec![13, 14, 15]);
    tree.insert(key("9cd9"), vec![1, 2, 3, 4]);
    assert_eq!(tree.get(key("4cc4")), Some(vec![13, 14, 15]));
    assert_eq!(tree.get(key("9cd9")), Some(vec![1, 2, 3, 4]));
    assert_eq!(tree.get(key("9dc4")), None);
    tree.set_commitments().expect("commitments");
    let root = tree.root_commitment().expect("root commitment");
    for k in ["4cc4", "9cd9"] {
        let proof = tree.generate_proof_for_key(&key(k)).expect("proof");
        assert_eq!(tree.verify_proof(&proof, &root), Ok(true));
        assert_eq!(tree.verify_path(key(k)), Ok(true));
        assert_eq!(tree.check_commitment_for_key(&key(k)), Ok(true));
    }
    assert_eq!(tree.check_commitments(), Ok(true));
}

#[test]
fn values_survive_commitment() {
    let tree = committed_tree(&[("01", vec![1]), ("02", vec![2]), ("03", vec![])], 8, 5);
    assert_eq!(tree.get(key("01")), Some(vec![1]));
    assert_eq!(tree.get(key("02")), Some(vec![2]));
    assert_eq!(tree.get(key("03")), Some(vec![]));
}

#[test]
fn overwrite_keeps_latest_value() {
    let mut tree = VerkleTree::new(8, 256, 5).expect("tree");
    tree.insert(key("aa"), vec![1]);
    tree.insert(key("aa"), vec![2]);
    assert_eq!(tree.get(key("aa")), Some(vec![2]));
    tree.set_commitments().expect("commitments");
    let proof = tree.generate_proof_for_key(&key("aa")).expect("proof");
    assert_eq!(proof.value, vec![2]);
    assert_eq!(proof.path.len(), 9);
}

#[test]
fn absent_key_has_no_proof() {
    let tree = committed_tree(&[("4cc4", vec![13, 14, 15])], 16, 5);
    assert_eq!(tree.get(key("9dc4")), None);
    assert!(tree.generate_proof_for_key(&key("9dc4")).is_none());
    assert!(tree.proof_of_membership_for_key(&key("9dc4")).is_none());
    assert_eq!(tree.verify_path(key("9dc4")), Ok(false));
    assert_eq!(tree.check_commitment_for_key(&key("9dc4")), Ok(false));
}

#[test]
fn root_commitment_does_not_depend_on_order() {
    let pairs = [("4cc4", vec![13, 14, 15]), ("9cd9", vec![1, 2, 3, 4]), ("4cc5", vec![7])];
    let reversed = [pairs[2].clone(), pairs[1].clone(), pairs[0].clone()];
    let a = committed_tree(&pairs, 2, 9);
    let b = committed_tree(&reversed, 2, 9);
    assert!(a.root_commitment().is_some());
    assert_eq!(a.root_commitment(), b.root_commitment());
}

#[test]
fn root_commitment_changes_with_new_pair() {
    let mut tree = committed_tree(&[("4cc4", vec![13, 14, 15])], 4, 9);
    let before = tree.root_commitment().expect("root");
    tree.insert(key("9cd9"), vec![1, 2, 3, 4]);
    assert_eq!(tree.root_commitment(), None);
    tree.set_commitments().expect("commitments");
    let after = tree.root_commitment().expect("root");
    assert_ne!(before, after);
}

#[test]
fn recommitting_is_idempotent() {
    let mut tree = committed_tree(&[("4cc4", vec![13]), ("9cd9", vec![14])], 4, 9);
    let first = tree.root_commitment();
    tree.set_commitments().expect("commitments");
    assert_eq!(first, tree.root_commitment());
}

fn proof_for(tree: &VerkleTree, k: &str) -> PathProof {
    tree.generate_proof_for_key(&key(k)).expect("proof")
}

#[test]
fn tampered_commitment_is_rejected() {
    let tree = committed_tree(&[("4cc4", vec![13, 14, 15]), ("9cd9", vec![1, 2, 3, 4])], 4, 13);
    let root = tree.root_commitment().expect("root");
    let levels = proof_for(&tree, "4cc4").path.len();
    for level in 0..levels {
        let mut proof = proof_for(&tree, "4cc4");
        let c = proof.path[level].commitment.as_mut().expect("commitment");
        c[0] ^= 1;
        assert_eq!(tree.verify_proof(&proof, &root), Ok(false));
    }
}

#[test]
fn wrong_root_is_rejected() {
    let tree = committed_tree(&[("4cc4", vec![13, 14, 15])], 4, 13);
    let mut root = tree.root_commitment().expect("root");
    let proof = proof_for(&tree, "4cc4");
    assert_eq!(tree.verify_proof(&proof, &root), Ok(true));
    root[1] ^= 1;
    assert_eq!(tree.verify_proof(&proof, &root), Ok(false));
}

#[test]
fn tampered_value_is_rejected() {
    let tree = committed_tree(&[("4cc4", vec![13, 14, 15])], 4, 13);
    let root = tree.root_commitment().expect("root");
    let mut proof = proof_for(&tree, "4cc4");
    proof.value = vec![13, 14, 16];
    assert_eq!(tree.verify_proof(&proof, &root), Ok(false));
}

#[test]
fn uncommitted_tree_fails_checks() {
    let mut tree = VerkleTree::new(4, 256, 1).expect("tree");
    tree.insert(key("4cc4"), vec![1]);
    assert_eq!(tree.check_commitments(), Ok(false));
    assert_eq!(tree.verify_path(key("4cc4")), Ok(false));
}

#[test]
fn depth_zero_stores_leaves_at_the_root() {
    let tree = committed_tree(&[("4cc4", vec![1]), ("9cd9", vec![2]), ("4cc5", vec![3])], 0, 2);
    assert_eq!(tree.get(key("4cc4")), Some(vec![1]));
    assert_eq!(tree.get(key("9cd9")), Some(vec![2]));
    assert_eq!(tree.get(key("4cc5")), Some(vec![3]));
    let proof = proof_for(&tree, "9cd9");
    assert_eq!(proof.path.len(), 1);
    assert_eq!(proof.path[0].fingerprints.len(), 3);
    assert_eq!(tree.verify_path(key("9cd9")), Ok(true));
}

#[test]
fn wrong_branching_factor_is_refused() {
    assert!(matches!(VerkleTree::new(16, 16, 1), Err(CommitError::Configuration)));
}

#[test]
fn setup_refuses_degree_zero() {
    assert!(matches!(setup(0, 1), Err(CommitError::Scheme)));
    assert_eq!(setup(4, 1).expect("keys").degree(), 4);
}

#[test]
fn too_many_coefficients_is_a_scheme_error() {
    let keys = setup(1, 1).expect("keys");
    let fps = vec![vec![1u8; 32], vec![2u8; 32], vec![3u8; 32]];
    assert_eq!(verkle_trie::scheme::commit(&keys, &fps), Err(CommitError::Scheme));
    assert!(verkle_trie::scheme::commit(&keys, &fps[..2].to_vec()).is_ok());
}

#[test]
fn hash_is_sha256() {
    assert_eq!(
        hex::encode(hash(b"abc")),
        "ba7816bf8f01cfea414140de5dae2223b00361a396177a9cb410ff61f20015ad"
    );
}

#[test]
fn compute_commitment_returns_root() {
    let mut tree = VerkleTree::new(6, 256, 17).expect("tree");
    tree.insert(key("4cc4"), vec![13, 14, 15]);
    let c = tree.compute_commitment().expect("commitment");
    assert_eq!(tree.root_commitment(), Some(c));
}

#[test]
fn verify_checks_key_and_value() {
    let mut tree = VerkleTree::new(6, 256, 17).expect("tree");
    tree.insert(key("4cc4"), vec![13, 14, 15]);
    tree.insert(key("9cd9"), vec![1, 2, 3, 4]);
    let root = tree.compute_commitment().expect("commitment");
    let proof = tree.proof_of_membership_for_key(&key("4cc4")).expect("proof");
    assert_eq!(tree.verify(&root, key("4cc4"), vec![13, 14, 15], &proof), Ok(true));
    assert_eq!(tree.verify(&root, key("4cc4"), vec![13, 14], &proof), Ok(false));
    assert_eq!(tree.verify(&root, key("9cd9"), vec![13, 14, 15], &proof), Ok(false));
}

#[test]
fn committed_tree_is_within_degree() {
    let tree = committed_tree(&[("4cc4", vec![1]), ("9cd9", vec![2])], 0, 4);
    assert!(tree.within_degree());
}

#[test]
fn insert_withholds_root_until_recommitted() {
    let mut tree = committed_tree(&[("4cc4", vec![1])], 4, 4);
    let before = tree.root_commitment().expect("root");
    tree.insert(key("9cd9"), vec![2]);
    assert_eq!(tree.root_commitment(), None);
    assert_eq!(tree.root().commitment, Some(before));
    assert_eq!(tree.verify_path(key("4cc4")), Ok(false));
    assert_eq!(tree.check_commitments(), Ok(false));
    tree.set_commitments().expect("commitments");
    assert_eq!(tree.verify_path(key("4cc4")), Ok(true));
    assert_eq!(tree.verify_path(key("9cd9")), Ok(true));
}
