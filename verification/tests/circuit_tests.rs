use r1cs_circuit::bigint::Int;
use r1cs_circuit::circuit::{Circuit, Gate};
use r1cs_circuit::hash_function::{AdditionHash, CustomHash, HashFunction};
use r1cs_circuit::r1cs::{Operation, Variable, R1CS};

fn val(n: u32) -> Int {
    Int::from_u32(n)
}

#[test]
fn addition_circuit_satisfied() {
    let mut circuit = Circuit::<AdditionHash>::new(None);
    let input1 = circuit.add_input(val(1));
    let input2 = circuit.add_input(val(2));
    let output_index = circuit.add_input(val(3));
    circuit.add_gate(Gate::Add(input1, input2, output_index));
    circuit.set_output(val(3));
    assert!(circuit.gates_are_in_bounds());
    let proof_byte = circuit.generate_proof();
    assert_eq!(proof_byte, 1);
    assert!(circuit.verify_proof(&vec![proof_byte]));
}

#[test]
fn addition_circuit_unsatisfied() {
    let mut circuit = Circuit::<AdditionHash>::new(None);
    let input1 = circuit.add_input(val(1));
    let input2 = circuit.add_input(val(2));
    let output_index = circuit.add_input(val(4));
    circuit.add_gate(Gate::Add(input1, input2, output_index));
    let proof_byte = circuit.generate_proof();
    assert_eq!(proof_byte, 0);
    assert!(!circuit.verify_proof(&vec![proof_byte]));
}

#[test]
fn multiplication_circuit_satisfied() {
    let mut circuit = Circuit::<AdditionHash>::new(None);
    let input1 = circuit.add_input(val(3));
    let input2 = circuit.add_input(val(2));
    let output_index = circuit.add_input(val(6));
    circuit.add_gate(Gate::Mul(input1, input2, output_index));
    circuit.set_output(val(6));
    assert_eq!(circuit.generate_proof(), 1);
}

#[test]
fn multiplication_circuit_unsatisfied() {
    let mut circuit = Circuit::<AdditionHash>::new(None);
    let input1 = circuit.add_input(val(3));
    let input2 = circuit.add_input(val(2));
    let output_index = circuit.add_input(val(5));
    circuit.add_gate(Gate::Mul(input1, input2, output_index));
    assert_eq!(circuit.generate_proof(), 0);
}

#[test]
fn negative_operand_addition() {
    // -3 + 5 == 2
    let mut circuit = Circuit::<AdditionHash>::new(None);
    let input1 = circuit.add_input(val(3).negated());
    let input2 = circuit.add_input(val(5));
    let output_index = circuit.add_input(val(2));
    circuit.add_gate(Gate::Add(input1, input2, output_index));
    assert_eq!(circuit.generate_proof(), 1);
}

#[test]
fn every_constraint_is_checked() {
    // The first gate's equation holds, the second's does not: the whole
    // system is unsatisfied, not decided by the first constraint alone.
    let mut circuit = Circuit::<AdditionHash>::new(None);
    let input1 = circuit.add_input(val(1));
    let input2 = circuit.add_input(val(2));
    let output_index = circuit.add_input(val(3));
    circuit.add_gate(Gate::Add(input1, input2, output_index));
    circuit.add_gate(Gate::Add(input1, input1, input1));
    assert_eq!(circuit.generate_proof(), 0);
}

#[test]
fn empty_circuit_is_satisfied() {
    let circuit = Circuit::<AdditionHash>::new(None);
    assert_eq!(circuit.generate_proof(), 1);
}

#[test]
fn out_of_bounds_gate_is_rejected() {
    let mut circuit = Circuit::<AdditionHash>::new(None);
    let input1 = circuit.add_input(val(1));
    circuit.add_gate(Gate::Add(input1, 7, 9));
    assert!(!circuit.gates_are_in_bounds());
}

#[test]
fn hash_gate_output_rewritten_eagerly() {
    // Lowering writes the combined value into the output slot of the
    // snapshot before the constraint is checked, so even a wrong stored
    // output satisfies the hash constraint under the same combiner.
    let mut circuit = Circuit::new(Some(CustomHash));
    let input1 = circuit.add_input(val(1));
    let input2 = circuit.add_input(val(2));
    let output_index = circuit.add_input(val(0));
    circuit.add_gate(Gate::Hash(input1, input2, output_index));
    assert_eq!(circuit.generate_proof(), 1);
}

#[test]
fn hash_constraint_combiner_change_fails() {
    // A hash constraint stored with the keyed combiner's value (2*1 + 3*2)
    // is satisfied under that combiner and fails once the combiner changes.
    let mut r1cs = R1CS::new();
    r1cs.add_constraint(
        vec![(Variable { index: 0, value: val(1) }, val(1))],
        vec![(Variable { index: 1, value: val(2) }, val(1))],
        vec![(Variable { index: 2, value: val(8) }, val(1))],
        Operation::Hash,
    );
    assert!(r1cs.is_satisfied(Some(&CustomHash)));
    assert!(!r1cs.is_satisfied(Some(&AdditionHash)));
    assert!(!r1cs.is_satisfied::<AdditionHash>(None));
}

#[test]
fn weighted_sums_are_supported() {
    // left: 2*1 + 3*2 = 8, right: 1*4 = 4, output: 1*12 = 12, 8 + 4 == 12.
    let mut r1cs = R1CS::new();
    r1cs.add_constraint(
        vec![
            (Variable { index: 0, value: val(1) }, val(2)),
            (Variable { index: 1, value: val(2) }, val(3)),
        ],
        vec![(Variable { index: 2, value: val(4) }, val(1))],
        vec![(Variable { index: 3, value: val(12) }, val(1))],
        Operation::Add,
    );
    assert!(r1cs.is_satisfied::<AdditionHash>(None));
}

#[test]
fn empty_r1cs_is_satisfied() {
    let r1cs = R1CS::new();
    assert!(r1cs.is_satisfied::<AdditionHash>(None));
}

#[test]
fn apply_hash_defaults_to_addition() {
    let circuit = Circuit::<AdditionHash>::new(None);
    let combined = circuit.apply_hash(&val(1), &val(2));
    assert!(combined.equals(&val(3)));
    assert!(!combined.equals(&val(4)));
}

#[test]
fn custom_hash_formula() {
    // 2*2 + 3*3 = 13, and the combiner is not commutative: 2*3 + 3*2 = 12.
    let forward = CustomHash.hash(&val(2), &val(3));
    assert!(forward.equals(&val(13)));
    let backward = CustomHash.hash(&val(3), &val(2));
    assert!(backward.equals(&val(12)));
}

#[test]
fn negated_values() {
    let five = val(5);
    let minus_five = val(5).negated();
    let circuit = Circuit::<AdditionHash>::new(None);
    let sum = circuit.apply_hash(&minus_five, &five);
    assert!(sum.equals(&val(0)));
    assert!(val(0).negated().equals(&val(0)));
}

#[test]
fn get_input_bounds() {
    let mut circuit = Circuit::<AdditionHash>::new(None);
    let input1 = circuit.add_input(val(9));
    assert!(circuit.get_input(input1).unwrap().equals(&val(9)));
    assert!(circuit.get_input(1).is_none());
}

#[test]
fn verify_proof_decodes_first_byte() {
    let circuit = Circuit::<AdditionHash>::new(None);
    assert!(circuit.verify_proof(&vec![1]));
    assert!(!circuit.verify_proof(&vec![0]));
    assert!(circuit.verify_proof(&vec![1, 0, 0]));
    assert!(!circuit.verify_proof(&vec![2]));
}

#[test]
fn generate_proof_is_idempotent() {
    let mut circuit = Circuit::<AdditionHash>::new(None);
    let input1 = circuit.add_input(val(1));
    let input2 = circuit.add_input(val(2));
    let output_index = circuit.add_input(val(3));
    circuit.add_gate(Gate::Add(input1, input2, output_index));
    let first = circuit.generate_proof();
    let second = circuit.generate_proof();
    assert_eq!(first, second);
    assert_eq!(first, 1);
}
