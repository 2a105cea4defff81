use reversible_logic::circuit::{CircuitBuilder, ReversibleCircuit};
use reversible_logic::gate::ReversibleGate;
use reversible_logic::uncompute::{bennett_uncompute, invert_circuit, verify_ancilla_cleanup, verify_inverse};

#[test]
fn invert_empty_circuit() {
    let c = ReversibleCircuit::new(2, vec![]);
    let inv = invert_circuit(&c);
    assert_eq!(inv.gate_count, 0);
}

#[test]
fn invert_not_circuit() {
    let c = ReversibleCircuit::new(1, vec![ReversibleGate::Not]);
    let inv = invert_circuit(&c);
    assert_eq!(inv.gate_count, 1);
    // NOT is self-inverse
    let result = inv.inverse_circuit.apply(&[0]);
    assert_eq!(result, vec![1]);
}

#[test]
fn circuit_then_inverse_is_identity() {
    let c = CircuitBuilder::new(2).cnot().build();
    assert!(verify_inverse(&c));
}

#[test]
fn toffoli_chain_inverse() {
    let c = CircuitBuilder::new(3).toffoli().cnot().toffoli().build();
    assert!(verify_inverse(&c));
}

#[test]
fn bennett_pattern() {
    let c = CircuitBuilder::new(3).toffoli().build();
    let bennett = bennett_uncompute(&c, 2, 1);
    // The Bennett circuit should have: Toffoli + CNOT + Toffoli = 3 gates
    assert_eq!(bennett.gate_count(), 3);
}

#[test]
fn ancilla_cleanup_verified() {
    let c = CircuitBuilder::new(3).toffoli().build();
    // A single Toffoli is its own inverse, so forward+inverse = identity = cleaned
    assert!(verify_ancilla_cleanup(&c, &[2]));
}

#[test]
fn ancilla_cleanup_with_uncompute() {
    let c = CircuitBuilder::new(3).toffoli().build();
    let _inv = invert_circuit(&c);
    // Combine forward + inverse
    let combined = CircuitBuilder::new(3)
        .toffoli()
        .toffoli() // inverse = self
        .build();
    assert!(verify_ancilla_cleanup(&combined, &[2]));
}

#[test]
fn fredkin_inverse_verified() {
    let c = CircuitBuilder::new(3).fredkin().build();
    assert!(verify_inverse(&c));
}

#[test]
fn inverse_reverses_gate_order() {
    let c = CircuitBuilder::new(3).add_not().cnot().toffoli().build();
    let inv = invert_circuit(&c);
    assert_eq!(
        inv.inverse_circuit.gates(),
        &[ReversibleGate::Toffoli, ReversibleGate::Cnot, ReversibleGate::Not]
    );
    assert_eq!(inv.gate_count, 3);
    assert_eq!(inv.quantum_cost, 7);
    for x in 0..8usize {
        let input = vec![(x >> 2) as u8 & 1, (x >> 1) as u8 & 1, x as u8 & 1];
        let out = c.apply(&input);
        assert_eq!(inv.inverse_circuit.apply(&out), input);
    }
}

#[test]
fn peres_inverse_is_cnot_then_toffoli() {
    let c = CircuitBuilder::new(3).peres().build();
    let inv = invert_circuit(&c);
    assert_eq!(inv.inverse_circuit.gates(), &[ReversibleGate::Cnot, ReversibleGate::Toffoli]);
    assert_eq!(inv.gate_count, 2);
    assert_eq!(inv.quantum_cost, 6);
    for x in 0..8usize {
        let input = vec![(x >> 2) as u8 & 1, (x >> 1) as u8 & 1, x as u8 & 1];
        assert_eq!(inv.inverse_circuit.apply(&c.apply(&input)), input);
        assert_eq!(c.apply(&inv.inverse_circuit.apply(&input)), input);
    }
    assert!(verify_inverse(&c));
    assert!(verify_ancilla_cleanup(&c, &[2]));
}

#[test]
fn bennett_gate_sequence() {
    let c = CircuitBuilder::new(3).toffoli().add_not().build();
    let b = bennett_uncompute(&c, 2, 0);
    assert_eq!(
        b.gates(),
        &[
            ReversibleGate::Toffoli,
            ReversibleGate::Not,
            ReversibleGate::Cnot,
            ReversibleGate::Not,
            ReversibleGate::Toffoli
        ]
    );
    assert_eq!(b.width(), 3);
    assert_eq!(b.answer_lines(), &[0, 1, 2]);
}

#[test]
fn ancilla_cleanup_of_several_lines() {
    let c = CircuitBuilder::new(4).toffoli().cnot().fredkin().build();
    assert!(verify_ancilla_cleanup(&c, &[2, 3]));
    assert!(verify_ancilla_cleanup(&c, &[]));
}

#[test]
fn bennett_circuit_computes_copies_uncomputes() {
    let c = CircuitBuilder::new(3).toffoli().build();
    let b = bennett_uncompute(&c, 2, 1);
    // line 0 stays 0 through the Toffoli, so the copy changes nothing
    assert_eq!(b.apply(&[0, 1, 1]), vec![0, 1, 1]);
    assert_eq!(b.apply(&[0, 0, 1]), vec![0, 0, 1]);
    // with line 0 at 1 the copy flips line 1, and the uncompute then acts on the flipped state
    assert_eq!(b.apply(&[1, 0, 0]), vec![1, 1, 1]);
    let n = ReversibleCircuit::new(2, vec![ReversibleGate::Not]);
    let bn = bennett_uncompute(&n, 0, 1);
    assert_eq!(bn.apply(&[0, 0]), vec![0, 1]);
}

#[test]
fn bennett_copies_line_0_into_line_2() {
    let n = ReversibleCircuit::new(3, vec![ReversibleGate::Not]);
    let b = bennett_uncompute(&n, 0, 2);
    assert_eq!(
        b.gates(),
        &[
            ReversibleGate::Not,
            ReversibleGate::Fredkin,
            ReversibleGate::Cnot,
            ReversibleGate::Fredkin,
            ReversibleGate::Not
        ]
    );
    assert_eq!(b.apply(&[0, 0, 0]), vec![0, 0, 1]);
    assert_eq!(b.apply(&[1, 1, 0]), vec![1, 1, 0]);
    assert_eq!(b.apply(&[0, 1, 1]), vec![0, 1, 0]);
}

#[test]
fn bennett_copies_line_1_into_line_2() {
    let c = CircuitBuilder::new(3).cnot().build();
    let b = bennett_uncompute(&c, 1, 2);
    assert_eq!(b.gate_count(), 6);
    for x in 0..8usize {
        let input = vec![(x >> 2) as u8 & 1, (x >> 1) as u8 & 1, x as u8 & 1];
        let answer = c.apply(&input)[1];
        let mut expected = input.clone();
        expected[2] ^= answer;
        assert_eq!(b.apply(&input), expected);
    }
}
