use verkle_trie::{setup, Entry, Node};

fn key(k: &str) -> Vec<u8> {
    hex::decode(k).expect("Failed to decode hex string")
}

#[test]
fn node_insert_get_and_path() {
    let mut root = Node::new(vec![], 256, 0);
    root.insert(key("4cc4"), vec![13, 14, 15], 4);
    root.insert(key("9cd9"), vec![1, 2, 3, 4], 4);
    assert_eq!(root.get(key("4cc4")), Some(vec![13, 14, 15]));
    assert_eq!(root.get(key("9cd9")), Some(vec![1, 2, 3, 4]));
    assert_eq!(root.get(key("9dc4")), None);

    let path = root.get_path(&key("4cc4"));
    assert_eq!(path.len(), 5);
    assert_eq!(path[0].depth, 0);
    assert_eq!(path[4].depth, 4);
    let digest = verkle_trie::hash(&key("4cc4"));
    for (level, node) in path.iter().enumerate().skip(1) {
        assert_eq!(node.key, vec![digest[level - 1]]);
    }
    assert!(matches!(path[4].children[0], Entry::Leaf(_)));
    assert!(root.get_path(&key("9dc4")).is_empty());
}

#[test]
fn node_children_sorted_by_selector() {
    let mut root = Node::new(vec![], 256, 0);
    for k in ["01", "02", "03", "04", "05"] {
        root.insert(key(k), vec![1], 1);
    }
    let mut selectors = Vec::new();
    for child in &root.children {
        match child {
            Entry::InternalNode(c) => selectors.push(c.key[0]),
            Entry::Leaf(_) => panic!("leaf above the last level"),
        }
    }
    let mut sorted = selectors.clone();
    sorted.sort();
    sorted.dedup();
    assert_eq!(selectors, sorted);
}

#[test]
fn node_commitments_and_membership() {
    let keys = setup(256, 21).expect("keys");
    let mut root = Node::new(vec![], 256, 0);
    root.insert(key("4cc4"), vec![13, 14, 15], 3);
    root.insert(key("4cc5"), vec![7], 3);
    assert_eq!(root.check_commitment(&keys), Ok(false));
    root.set_commitments_recursive(&keys).expect("commitments");
    assert!(root.commitment.is_some());
    assert_eq!(root.check_commitment(&keys), Ok(true));
    let proof = root.proof_of_membership(&key("4cc5")).expect("proof");
    assert_eq!(proof.value, vec![7]);
    assert_eq!(proof.path.len(), 4);
    let root_commitment = root.commitment.clone().expect("root commitment");
    assert_eq!(verkle_trie::path_proof::verify_path_proof(&keys, &proof, &root_commitment), Ok(true));
    assert!(root.proof_of_membership(&key("9dc4")).is_none());
}

#[test]
fn node_insert_overwrites() {
    let mut root = Node::new(vec![], 256, 0);
    root.insert(key("aa"), vec![1], 2);
    root.insert(key("aa"), vec![2], 2);
    assert_eq!(root.get(key("aa")), Some(vec![2]));
    assert_eq!(root.children.len(), 1);
}

#[test]
fn node_insert_keeps_commitments() {
    let keys = setup(256, 21).expect("keys");
    let mut root = Node::new(vec![], 256, 0);
    root.insert(key("4cc4"), vec![13, 14, 15], 3);
    root.set_commitments_recursive(&keys).expect("commitments");
    let before = root.commitment.clone();
    root.insert(key("9cd9"), vec![1], 3);
    assert_eq!(root.commitment, before);
    let path = root.get_path(&key("4cc4"));
    assert!(path.iter().all(|n| n.commitment.is_some()));
    let fresh = root.get_path(&key("9cd9"));
    assert!(fresh.last().expect("path").commitment.is_none());
    assert_eq!(root.check_commitment(&keys), Ok(false));
}
