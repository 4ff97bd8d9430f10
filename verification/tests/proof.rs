use merkle_simple::{
    hash_leaf_data, hash_node_data, EmptyInputError, Hashable, MerkleTree, TreeElement,
};

#[test]
fn test_inclusion_success() {
    let data = vec![format!("one"), format!("two"), format!("three"), format!("four")];
    let tree = MerkleTree::from_vector(data).unwrap();

    let data_to_check = format!("two");

    let proof = tree.get_proof(data_to_check);
    assert!(proof.is_some());

    let result = proof.unwrap().validate(tree.root_hash());
    assert!(result);
}

#[test]
fn test_inclusion_fail() {
    let data = vec![format!("one"), format!("two"), format!("three"), format!("four")];
    let tree = MerkleTree::from_vector(data).unwrap();

    let data_to_check = format!("five");

    let proof = tree.get_proof(data_to_check);
    assert!(proof.is_none());
}

#[test]
fn equal_inputs_give_equal_roots() {
    let first = MerkleTree::from_vector(vec![format!("a"), format!("b"), format!("c")]).unwrap();
    let second = MerkleTree::from_vector(vec![format!("a"), format!("b"), format!("c")]).unwrap();
    assert_eq!(first.root_hash(), second.root_hash());
}

#[test]
fn reordered_inputs_change_the_root() {
    let first = MerkleTree::from_vector(vec![format!("a"), format!("b"), format!("c")]).unwrap();
    let swapped = MerkleTree::from_vector(vec![format!("b"), format!("a"), format!("c")]).unwrap();
    assert_ne!(first.root_hash(), swapped.root_hash());
}

#[test]
fn every_present_value_has_a_validating_proof() {
    let names = [
        format!("one"),
        format!("two"),
        format!("three"),
        format!("four"),
        format!("five"),
    ];
    let tree = MerkleTree::from_vector(names.to_vec()).unwrap();
    for name in names {
        let proof = tree.get_proof(name).unwrap();
        assert!(proof.validate(tree.root_hash()));
    }
}

#[test]
fn proof_against_another_trees_root_fails() {
    let first = MerkleTree::from_vector(vec![format!("one"), format!("two")]).unwrap();
    let second = MerkleTree::from_vector(vec![format!("alpha"), format!("beta")]).unwrap();
    let proof = first.get_proof(format!("one")).unwrap();
    assert!(proof.validate(first.root_hash()));
    assert!(!proof.validate(second.root_hash()));
}

#[test]
fn empty_input_is_refused() {
    let result = MerkleTree::from_vector(Vec::<String>::new());
    assert_eq!(result.unwrap_err(), EmptyInputError);
}

#[test]
fn singleton_root_is_the_leaf_hash() {
    let tree = MerkleTree::from_vector(vec![format!("only")]).unwrap();
    let expected = hash_leaf_data(&format!("only").get_bytes());
    assert_eq!(tree.root_hash(), expected.as_slice());

    let proof = tree.get_proof(format!("only")).unwrap();
    assert!(proof.validate(tree.root_hash()));
}

#[test]
fn odd_count_promotes_the_trailing_element() {
    let tree =
        MerkleTree::from_vector(vec![format!("a"), format!("b"), format!("c")]).unwrap();
    let leaf_a = hash_leaf_data(&format!("a").get_bytes());
    let leaf_b = hash_leaf_data(&format!("b").get_bytes());
    let leaf_c = hash_leaf_data(&format!("c").get_bytes());
    let pair_ab = hash_node_data(&leaf_a, &leaf_b);
    let expected_root = hash_node_data(&pair_ab, &leaf_c);
    assert_eq!(tree.root_hash(), expected_root.as_slice());
}

#[test]
fn four_values_pair_into_two_levels() {
    let tree = MerkleTree::from_vector(vec![
        format!("one"),
        format!("two"),
        format!("three"),
        format!("four"),
    ])
    .unwrap();
    let leaves: Vec<Vec<u8>> = [format!("one"), format!("two"), format!("three"), format!("four")]
        .iter()
        .map(|v| hash_leaf_data(&v.get_bytes()))
        .collect();
    let left = hash_node_data(&leaves[0], &leaves[1]);
    let right = hash_node_data(&leaves[2], &leaves[3]);
    let expected_root = hash_node_data(&left, &right);
    assert_eq!(tree.root_hash(), expected_root.as_slice());
}

#[test]
fn duplicate_values_still_prove_inclusion() {
    let tree =
        MerkleTree::from_vector(vec![format!("x"), format!("x"), format!("y")]).unwrap();
    let proof = tree.get_proof(format!("x")).unwrap();
    assert!(proof.validate(tree.root_hash()));
}

#[test]
fn tree_elements_carry_their_digests() {
    let leaf_one = TreeElement::new_leaf(format!("one"));
    let leaf_two = TreeElement::new_leaf(format!("two"));
    assert_eq!(leaf_one.hash(), hash_leaf_data(&format!("one").get_bytes()).as_slice());

    let expected = hash_node_data(leaf_one.hash(), leaf_two.hash());
    let node = TreeElement::new_node(leaf_one, leaf_two);
    assert_eq!(node.hash(), expected.as_slice());
}

#[test]
fn digests_are_domain_separated_and_fixed_length() {
    let data = format!("abc").get_bytes();
    let leaf = hash_leaf_data(&data);
    assert_eq!(leaf.len(), 32);
    assert_ne!(leaf, data);

    let left = hash_leaf_data(&format!("l").get_bytes());
    let right = hash_leaf_data(&format!("r").get_bytes());
    assert_ne!(hash_node_data(&left, &right), hash_node_data(&right, &left));
}
