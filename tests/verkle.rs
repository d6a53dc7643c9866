use verkle_trie::VerkleTree;

fn setup_tree() -> VerkleTree {
    let depth = 40;
    let branching_factor = 256;
    VerkleTree::new(depth, branching_factor, 7).expect("Failed to create VerkleTree")
}

#[test]
fn test_insert_and_get_single_value() {
    let mut tree = setup_tree();

    let key = hex::decode("4cc4").expect("Failed to decode hex string");
    let value = vec![13, 14, 15];

    tree.insert(key.clone(), value.clone());

    let retrieved_value = tree.get(key.clone());
    assert_eq!(retrieved_value, Some(value));
}

#[test]
fn test_insert_and_get_multiple_keys() {
    let mut tree = setup_tree();

    let key1 = hex::decode("4cc4").expect("Failed to decode hex string");
    let value1 = vec![13, 14, 15];

    let key2 = hex::decode("9cd9").expect("Failed to decode hex string");
    let value2 = vec![1, 2, 3, 4];

    tree.insert(key1.clone(), value1.clone());
    tree.insert(key2.clone(), value2.clone());

    let retrieved_value1 = tree.get(key1.clone());
    let retrieved_value2 = tree.get(key2.clone());

    assert_eq!(retrieved_value1, Some(value1));
    assert_eq!(retrieved_value2, Some(value2));
}

#[test]
fn test_insert_and_get_keys_with_collisions() {
    let mut tree = setup_tree();

    let key1 = hex::decode("4cc4").expect("Failed to decode hex string");
    let value1 = vec![13, 14, 15];

    let key2 = hex::decode("4cc5").expect("Failed to decode hex string");
    let value2 = vec![1, 2, 3, 4];

    tree.insert(key1.clone(), value1.clone());
    tree.insert(key2.clone(), value2.clone());

    let retrieved_value1 = tree.get(key1.clone());
    let retrieved_value2 = tree.get(key2.clone());

    assert_eq!(retrieved_value1, Some(value1));
    assert_eq!(retrieved_value2, Some(value2));
}

#[test]
fn test_insert_and_get_empty_values() {
    let mut tree = setup_tree();

    let key1 = hex::decode("4cc4").expect("Failed to decode hex string");
    let value1: Vec<u8> = vec![];

    tree.insert(key1.clone(), value1.clone());

    let retrieved_value1 = tree.get(key1.clone());

    assert_eq!(retrieved_value1, Some(value1));
}

#[test]
fn test_insert_and_get_nonexistent_key() {
    let mut tree = setup_tree();

    let key1 = hex::decode("4cc4").expect("Failed to decode hex string");
    let value1 = vec![13, 14, 15];

    tree.insert(key1.clone(), value1.clone());

    let key2 = hex::decode("9dc4").expect("Failed to decode hex string");
    let retrieved_value2 = tree.get(key2.clone());

    assert_eq!(retrieved_value2, None);
}
