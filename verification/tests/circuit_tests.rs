use reversible_logic::circuit::{CircuitBuilder, ReversibleCircuit};
use reversible_logic::gate::ReversibleGate;

#[test]
fn empty_circuit_is_identity() {
    let c = ReversibleCircuit::new(3, vec![]);
    assert_eq!(c.apply(&[1, 0, 1]), vec![1, 0, 1]);
}

#[test]
fn single_not_circuit() {
    let c = ReversibleCircuit::new(1, vec![ReversibleGate::Not]);
    assert_eq!(c.apply(&[0]), vec![1]);
}

#[test]
fn cnot_then_not_circuit() {
    let c = CircuitBuilder::new(2).cnot().build();
    assert_eq!(c.apply(&[1, 0]), vec![1, 1]);
    assert_eq!(c.gate_count(), 1);
    assert_eq!(c.quantum_cost(), 1);
}

#[test]
fn builder_toffoli_chain() {
    let c = CircuitBuilder::new(3).toffoli().toffoli().build();
    // Two Toffolis cancel
    assert_eq!(c.apply(&[1, 1, 0]), vec![1, 1, 0]);
    assert_eq!(c.gate_count(), 2);
    assert_eq!(c.quantum_cost(), 10);
}

#[test]
fn garbage_tracking() {
    let mut c = ReversibleCircuit::new(3, vec![ReversibleGate::Toffoli]);
    c.set_answer_lines(vec![2]); // Only bit 2 is the answer
    assert_eq!(c.garbage_count(), 2);
    assert_eq!(c.extract_answer(&[1, 1, 1]), vec![1]);
}

#[test]
fn circuit_truth_table() {
    let c = CircuitBuilder::new(2).cnot().build();
    let tt = c.truth_table();
    assert_eq!(tt.len(), 4);
}

#[test]
fn double_circuit_inverse() {
    // CNOT composed with CNOT = Identity
    let c = CircuitBuilder::new(2).cnot().cnot().build();
    let tt = c.truth_table();
    for (input, output) in tt {
        assert_eq!(input, output);
    }
}

#[test]
fn fredkin_circuit() {
    let c = CircuitBuilder::new(3).fredkin().build();
    assert_eq!(c.apply(&[1, 0, 1]), vec![1, 1, 0]);
}

#[test]
fn narrow_gate_acts_on_prefix() {
    // A NOT in a 3-bit circuit flips bit 0 and passes bits 1 and 2 through.
    let c = CircuitBuilder::new(3).add_not().build();
    assert_eq!(c.apply(&[0, 1, 1]), vec![1, 1, 1]);
    let c = CircuitBuilder::new(4).cnot().build();
    assert_eq!(c.apply(&[1, 0, 1, 0]), vec![1, 1, 1, 0]);
}

#[test]
fn builder_answer_lines_and_defaults() {
    let c = CircuitBuilder::new(3).toffoli().answer_lines(vec![2]).build();
    assert_eq!(c.answer_lines(), &[2]);
    assert_eq!(c.garbage_count(), 2);
    let result = c.apply(&[1, 1, 0]);
    assert_eq!(result, vec![1, 1, 1]);
    assert_eq!(c.extract_answer(&result), vec![1]);
    let d = CircuitBuilder::new(3).peres().build();
    assert_eq!(d.answer_lines(), &[0, 1, 2]);
    assert_eq!(d.garbage_count(), 0);
    assert_eq!(d.width(), 3);
    assert_eq!(d.gates(), &[ReversibleGate::Peres]);
    assert_eq!(d.quantum_cost(), 4);
}

#[test]
fn gates_apply_in_order() {
    // NOT on bit 0 then CNOT (0 -> 1): [0,0] -> [1,0] -> [1,1]
    let c = CircuitBuilder::new(2).add_not().cnot().build();
    assert_eq!(c.apply(&[0, 0]), vec![1, 1]);
    // CNOT then NOT: [0,0] -> [0,0] -> [1,0]
    let d = CircuitBuilder::new(2).cnot().add_not().build();
    assert_eq!(d.apply(&[0, 0]), vec![1, 0]);
}

#[test]
fn circuit_truth_table_rows() {
    let c = CircuitBuilder::new(3).toffoli().build();
    let tt = c.truth_table();
    assert_eq!(tt.len(), 8);
    assert_eq!(tt[6], (vec![1, 1, 0], vec![1, 1, 1]));
    assert_eq!(tt[3], (vec![0, 1, 1], vec![0, 1, 1]));
}

#[test]
fn cloned_circuit_is_equal() {
    let c = CircuitBuilder::new(3).toffoli().fredkin().answer_lines(vec![0, 2]).build();
    let d = c.clone();
    assert_eq!(c, d);
}

#[test]
fn garbage_count_counts_distinct_non_answer_lines() {
    let mut c = ReversibleCircuit::new(3, vec![]);
    c.set_answer_lines(vec![0, 0]);
    assert_eq!(c.garbage_count(), 2);
    c.set_answer_lines(vec![2, 1, 0, 2]);
    assert_eq!(c.garbage_count(), 0);
}
