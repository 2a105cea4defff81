use reversible_logic::gate::index_to_bits;
use reversible_logic::synthesis::{apply_sequence, synthesize, GateType, PositionalGate};

#[test]
fn synthesize_identity() {
    let tt = vec![
        (vec![0, 0], vec![0, 0]),
        (vec![0, 1], vec![0, 1]),
        (vec![1, 0], vec![1, 0]),
        (vec![1, 1], vec![1, 1]),
    ];
    let result = synthesize(2, &tt, 100);
    assert!(result.exact);
    assert_eq!(result.gate_count, 0);
}

#[test]
fn synthesize_not() {
    let tt = vec![(vec![0], vec![1]), (vec![1], vec![0])];
    let result = synthesize(1, &tt, 100);
    assert!(result.exact);
    assert_eq!(result.gate_count, 1);
}

#[test]
fn synthesize_cnot() {
    let tt = vec![
        (vec![0, 0], vec![0, 0]),
        (vec![0, 1], vec![0, 1]),
        (vec![1, 0], vec![1, 1]),
        (vec![1, 1], vec![1, 0]),
    ];
    let result = synthesize(2, &tt, 100);
    assert!(result.exact);
    assert_eq!(result.gate_count, 1);
}

#[test]
fn synthesize_swap() {
    // Swap two bits: [a,b] -> [b,a]
    let tt = vec![
        (vec![0, 0], vec![0, 0]),
        (vec![0, 1], vec![1, 0]),
        (vec![1, 0], vec![0, 1]),
        (vec![1, 1], vec![1, 1]),
    ];
    let result = synthesize(2, &tt, 1000);
    assert!(result.exact);
    // Verify the circuit
    for (input, expected) in &tt {
        let actual = apply_sequence(input, &result.gate_sequence);
        assert_eq!(&actual, expected, "Mismatch on input {:?}", input);
    }
}

#[test]
fn synthesize_non_bijection_fails() {
    let tt = vec![
        (vec![0], vec![0]),
        (vec![1], vec![0]), // NOT bijective
    ];
    let result = synthesize(1, &tt, 100);
    assert!(!result.exact);
}

#[test]
fn synthesize_result_is_correct() {
    let tt = vec![(vec![0], vec![1]), (vec![1], vec![0])];
    let result = synthesize(1, &tt, 100);
    assert!(result.exact);
    for (input, expected) in &tt {
        let actual = apply_sequence(input, &result.gate_sequence);
        assert_eq!(&actual, expected);
    }
}

#[test]
fn synthesize_toffoli_table() {
    let mut tt = Vec::new();
    for i in 0..8 {
        let input = index_to_bits(i, 3);
        let mut output = input.clone();
        output[2] ^= output[0] & output[1];
        tt.push((input, output));
    }
    let result = synthesize(3, &tt, 10000);
    assert!(result.exact);
    for (input, expected) in &tt {
        let actual = apply_sequence(input, &result.gate_sequence);
        assert_eq!(&actual, expected, "Mismatch on input {:?}", input);
    }
}

#[test]
fn synthesize_double_not() {
    // NOT on bit 1 of a 2-bit system
    let tt = vec![
        (vec![0, 0], vec![0, 1]),
        (vec![0, 1], vec![0, 0]),
        (vec![1, 0], vec![1, 1]),
        (vec![1, 1], vec![1, 0]),
    ];
    let result = synthesize(2, &tt, 100);
    assert!(result.exact);
    assert_eq!(result.gate_count, 1);
}

#[test]
fn positional_gate_not() {
    let g = PositionalGate {
        gate_type: GateType::Not,
        positions: vec![2],
    };
    assert_eq!(g.apply(&[1, 0, 1]), vec![1, 0, 0]);
}

#[test]
fn positional_gate_cnot() {
    let g = PositionalGate {
        gate_type: GateType::Cnot,
        positions: vec![1, 0], // control=bit1, target=bit0
    };
    assert_eq!(g.apply(&[0, 1, 0]), vec![1, 1, 0]);
}

#[test]
fn swap_needs_three_cnots() {
    let tt = vec![
        (vec![0, 0], vec![0, 0]),
        (vec![0, 1], vec![1, 0]),
        (vec![1, 0], vec![0, 1]),
        (vec![1, 1], vec![1, 1]),
    ];
    let result = synthesize(2, &tt, 1000);
    assert!(result.exact);
    assert_eq!(result.gate_count, 3);
    assert_eq!(result.quantum_cost, 3);
    assert_eq!(result.width, 2);
    for (name, _) in &result.gate_sequence {
        assert_eq!(name, "CNOT");
    }
}

#[test]
fn toffoli_table_needs_one_toffoli() {
    let mut tt = Vec::new();
    for i in 0..8 {
        let input = index_to_bits(i, 3);
        let mut output = input.clone();
        output[2] ^= output[0] & output[1];
        tt.push((input, output));
    }
    let result = synthesize(3, &tt, 10000);
    assert!(result.exact);
    assert_eq!(result.gate_count, 1);
    assert_eq!(result.quantum_cost, 5);
    assert_eq!(result.gate_sequence, vec![("Toffoli".to_string(), vec![0, 1, 2])]);
}

#[test]
fn exhausted_search_falls_back() {
    let tt = vec![
        (vec![0, 0], vec![0, 0]),
        (vec![0, 1], vec![1, 0]),
        (vec![1, 0], vec![0, 1]),
        (vec![1, 1], vec![1, 1]),
    ];
    let result = synthesize(2, &tt, 0);
    assert!(!result.exact);
    assert_eq!(result.gate_sequence, vec![("NOT".to_string(), vec![0])]);
    assert_eq!(result.gate_count, 1);
    assert_eq!(result.quantum_cost, 1);
    assert_eq!(result.iterations, 0);
}

#[test]
fn non_bijection_gives_empty_result() {
    let tt = vec![(vec![0, 0], vec![1, 1]), (vec![1, 1], vec![1, 1])];
    let result = synthesize(2, &tt, 100);
    assert!(!result.exact);
    assert!(result.gate_sequence.is_empty());
    assert_eq!(result.gate_count, 0);
    assert_eq!(result.quantum_cost, 0);
    assert_eq!(result.iterations, 0);
}

#[test]
fn apply_sequence_by_name() {
    let seq = vec![
        ("NOT".to_string(), vec![0]),
        ("CNOT".to_string(), vec![0, 2]),
        ("Toffoli".to_string(), vec![0, 2, 1]),
        ("unknown".to_string(), vec![]),
    ];
    // [0,0,0] -> [1,0,0] -> [1,0,1] -> [1,1,1]
    assert_eq!(apply_sequence(&[0, 0, 0], &seq), vec![1, 1, 1]);
}

#[test]
fn positional_gate_toffoli_and_costs() {
    let g = PositionalGate {
        gate_type: GateType::Toffoli,
        positions: vec![0, 2, 1],
    };
    assert_eq!(g.apply(&[1, 0, 1]), vec![1, 1, 1]);
    assert_eq!(g.apply(&[1, 0, 0]), vec![1, 0, 0]);
    assert_eq!(g.quantum_cost(), 5);
    let n = PositionalGate { gate_type: GateType::Not, positions: vec![0] };
    assert_eq!(n.quantum_cost(), 1);
}

#[test]
fn budget_ending_mid_level_reports_budget() {
    // the swap needs three CNOTs; one expanded state is not enough
    let tt = vec![
        (vec![0, 0], vec![0, 0]),
        (vec![0, 1], vec![1, 0]),
        (vec![1, 0], vec![0, 1]),
        (vec![1, 1], vec![1, 1]),
    ];
    let result = synthesize(2, &tt, 2);
    assert!(!result.exact);
    assert_eq!(result.iterations, 2);
    let unlimited = synthesize(2, &tt, usize::MAX);
    assert!(unlimited.exact);
    assert_eq!(unlimited.gate_count, 3);
    assert!(unlimited.iterations <= usize::MAX);
}

#[test]
fn apply_sequence_of_concatenation_applies_parts_in_turn() {
    let s1 = vec![("NOT".to_string(), vec![2]), ("CNOT".to_string(), vec![2, 0])];
    let s2 = vec![("Toffoli".to_string(), vec![0, 2, 1]), ("NOT".to_string(), vec![0])];
    let both: Vec<(String, Vec<usize>)> = s1.iter().chain(s2.iter()).cloned().collect();
    let bits = [0u8, 1, 0];
    let first = apply_sequence(&bits, &s1);
    assert_eq!(first, vec![1, 1, 1]);
    assert_eq!(apply_sequence(&first, &s2), vec![0, 0, 1]);
    assert_eq!(apply_sequence(&bits, &both), vec![0, 0, 1]);
}

#[test]
fn apply_sequence_reversed_undoes_it() {
    let s = vec![
        ("NOT".to_string(), vec![1]),
        ("CNOT".to_string(), vec![1, 2]),
        ("Toffoli".to_string(), vec![1, 2, 0]),
    ];
    let reversed: Vec<(String, Vec<usize>)> = s.iter().rev().cloned().collect();
    for value in 0..8usize {
        let bits: Vec<u8> = (0..3).map(|k| ((value >> (2 - k)) & 1) as u8).collect();
        let forward = apply_sequence(&bits, &s);
        assert_eq!(apply_sequence(&forward, &reversed), bits);
    }
    assert_eq!(apply_sequence(&[0, 0, 0], &s), vec![1, 1, 1]);
}

#[test]
fn apply_sequence_empty_changes_nothing() {
    let empty: Vec<(String, Vec<usize>)> = vec![];
    assert_eq!(apply_sequence(&[1, 0, 1], &empty), vec![1, 0, 1]);
}
