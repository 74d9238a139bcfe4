use r1cs_circuit::bigint::Int;
use r1cs_circuit::hash_function::{AdditionHash, CustomHash};
use r1cs_circuit::merkle::{merkle_path_circuit, MerkleError, MerkleTree};

fn val(n: u32) -> Int {
    Int::from_u32(n)
}

fn leaves(values: &[u32]) -> Vec<Int> {
    values.iter().map(|&n| val(n)).collect()
}

#[test]
fn odd_leaf_count_root_and_path() {
    // Levels under the duplicate-last policy with plain addition:
    // [1,2,3,4,5] -> [3,7,10] -> [10,20] -> [30].
    let tree = MerkleTree::new(leaves(&[1, 2, 3, 4, 5]), AdditionHash);
    assert!(tree.root.equals(&val(30)));
    assert_eq!(tree.leaf_count(), 5);

    let path = tree.merkle_path(2).unwrap();
    assert_eq!(path.len(), 3);
    assert!(path[0].0.equals(&val(4)));
    assert!(!path[0].1);
    assert!(path[1].0.equals(&val(3)));
    assert!(path[1].1);
    assert!(path[2].0.equals(&val(20)));
    assert!(!path[2].1);

    // Reconstructing through the circuit reaches the root: 3 -> 7 -> 10 -> 30.
    let circuit = merkle_path_circuit(Some(AdditionHash), val(3), &path, tree.root.clone());
    let reconstructed = circuit.get_input(1 + 2 * path.len() - 1).unwrap();
    assert!(reconstructed.equals(&tree.root));
    assert_eq!(circuit.generate_proof(), 1);
}

#[test]
fn merkle_path_out_of_range() {
    let tree = MerkleTree::new(leaves(&[1, 2, 3, 4, 5]), AdditionHash);
    assert_eq!(tree.merkle_path(5).unwrap_err(), MerkleError::LeafIndexOutOfRange);
    assert_eq!(tree.merkle_path(50).unwrap_err(), MerkleError::LeafIndexOutOfRange);
    assert!(tree.merkle_path(4).is_ok());
}

#[test]
fn every_leaf_path_reconstructs_root() {
    let values = [1, 2, 3, 4];
    let tree = MerkleTree::new(leaves(&values), CustomHash);
    for (i, &leaf) in values.iter().enumerate() {
        let path = tree.merkle_path(i).unwrap();
        let circuit = merkle_path_circuit(Some(CustomHash), val(leaf), &path, tree.root.clone());
        let reconstructed = circuit.get_input(1 + 2 * path.len() - 1).unwrap();
        assert!(reconstructed.equals(&tree.root));
        assert_eq!(circuit.generate_proof(), 1);
    }
}

#[test]
fn single_leaf_tree() {
    let tree = MerkleTree::new(leaves(&[9]), AdditionHash);
    assert!(tree.root.equals(&val(9)));
    assert_eq!(tree.leaf_count(), 1);
    let path = tree.merkle_path(0).unwrap();
    assert!(path.is_empty());
    assert_eq!(tree.merkle_path(1).unwrap_err(), MerkleError::LeafIndexOutOfRange);
}

#[test]
fn sibling_order_matters_for_keyed_combiner() {
    // With combine(a, b) = 2a + 3b: root = combine(1, 2) = 8. The right
    // leaf's path marks its sibling as standing left, so the fold computes
    // combine(1, 2), not combine(2, 1) = 7.
    let tree = MerkleTree::new(leaves(&[1, 2]), CustomHash);
    assert!(tree.root.equals(&val(8)));

    let left_path = tree.merkle_path(0).unwrap();
    assert_eq!(left_path.len(), 1);
    assert!(left_path[0].0.equals(&val(2)));
    assert!(!left_path[0].1);

    let right_path = tree.merkle_path(1).unwrap();
    assert_eq!(right_path.len(), 1);
    assert!(right_path[0].0.equals(&val(1)));
    assert!(right_path[0].1);

    let circuit = merkle_path_circuit(Some(CustomHash), val(2), &right_path, tree.root.clone());
    assert!(circuit.get_input(2).unwrap().equals(&val(8)));
}

#[test]
fn merkle_circuit_logs_outputs() {
    // The output log holds each combined value and then the expected root.
    let tree = MerkleTree::new(leaves(&[1, 2]), AdditionHash);
    let path = tree.merkle_path(0).unwrap();
    let circuit = merkle_path_circuit(Some(AdditionHash), val(1), &path, tree.root.clone());
    assert!(circuit.get_input(0).unwrap().equals(&val(1)));
    assert!(circuit.get_input(1).unwrap().equals(&val(2)));
    assert!(circuit.get_input(2).unwrap().equals(&val(3)));
    assert!(circuit.gates_are_in_bounds());
}
