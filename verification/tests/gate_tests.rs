use reversible_logic::gate::{bits_to_index, index_to_bits, ReversibleGate};

#[test]
fn identity_preserves() {
    let g = ReversibleGate::Identity { width: 3 };
    assert_eq!(g.apply(&[1, 0, 1]), vec![1, 0, 1]);
}

#[test]
fn not_flips() {
    let g = ReversibleGate::Not;
    assert_eq!(g.apply(&[0]), vec![1]);
    assert_eq!(g.apply(&[1]), vec![0]);
}

#[test]
fn cnot_table() {
    let g = ReversibleGate::Cnot;
    let tt = g.truth_table();
    assert_eq!(tt.len(), 4);
    assert_eq!(g.apply(&[0, 0]), vec![0, 0]);
    assert_eq!(g.apply(&[0, 1]), vec![0, 1]);
    assert_eq!(g.apply(&[1, 0]), vec![1, 1]);
    assert_eq!(g.apply(&[1, 1]), vec![1, 0]);
}

#[test]
fn toffoli_is_ccnot() {
    let g = ReversibleGate::Toffoli;
    // Only flips target when both controls are 1
    assert_eq!(g.apply(&[1, 1, 0]), vec![1, 1, 1]);
    assert_eq!(g.apply(&[1, 1, 1]), vec![1, 1, 0]);
    assert_eq!(g.apply(&[1, 0, 1]), vec![1, 0, 1]);
    assert_eq!(g.apply(&[0, 1, 1]), vec![0, 1, 1]);
}

#[test]
fn fredkin_swaps_on_control() {
    let g = ReversibleGate::Fredkin;
    assert_eq!(g.apply(&[1, 0, 1]), vec![1, 1, 0]);
    assert_eq!(g.apply(&[0, 0, 1]), vec![0, 0, 1]);
}

#[test]
fn peres_combined() {
    let g = ReversibleGate::Peres;
    // [1,1,0] -> [1, 1^1=0, 0^1=1] = [1,0,1]
    assert_eq!(g.apply(&[1, 1, 0]), vec![1, 0, 1]);
}

#[test]
fn permutation_matrix_is_permutation() {
    for gate in &[
        ReversibleGate::Not,
        ReversibleGate::Cnot,
        ReversibleGate::Toffoli,
        ReversibleGate::Fredkin,
        ReversibleGate::Peres,
    ] {
        let m = gate.permutation_matrix();
        let n = m.len();
        for row in &m {
            assert_eq!(row.iter().sum::<u8>(), 1, "Each row must sum to 1");
        }
        for col in 0..n {
            let col_sum: u8 = (0..n).map(|r| m[r][col]).sum();
            assert_eq!(col_sum, 1, "Each column must sum to 1");
        }
    }
}

#[test]
fn quantum_costs() {
    assert_eq!(ReversibleGate::Identity { width: 2 }.quantum_cost(), 0);
    assert_eq!(ReversibleGate::Not.quantum_cost(), 1);
    assert_eq!(ReversibleGate::Cnot.quantum_cost(), 1);
    assert_eq!(ReversibleGate::Toffoli.quantum_cost(), 5);
    assert_eq!(ReversibleGate::Fredkin.quantum_cost(), 5);
    assert_eq!(ReversibleGate::Peres.quantum_cost(), 4);
}

#[test]
fn double_apply_is_identity() {
    // Peres gate is NOT self-inverse, so we exclude it
    let gates = [
        ReversibleGate::Not,
        ReversibleGate::Cnot,
        ReversibleGate::Toffoli,
        ReversibleGate::Fredkin,
    ];
    for g in &gates {
        let tt = g.truth_table();
        for (input, _) in &tt {
            let once = g.apply(input);
            let twice = g.apply(&once);
            assert_eq!(
                *input,
                twice,
                "Gate {} not self-inverse on {:?}",
                g.name(),
                input
            );
        }
    }
}

#[test]
fn bits_roundtrip() {
    for i in 0..8 {
        let bits = index_to_bits(i, 3);
        assert_eq!(bits_to_index(&bits), i);
    }
}

#[test]
fn truth_table_rows_in_order() {
    let tt = ReversibleGate::Toffoli.truth_table();
    assert_eq!(tt.len(), 8);
    assert_eq!(tt[0], (vec![0, 0, 0], vec![0, 0, 0]));
    assert_eq!(tt[6], (vec![1, 1, 0], vec![1, 1, 1]));
    assert_eq!(tt[7], (vec![1, 1, 1], vec![1, 1, 0]));
}

#[test]
fn permutation_matrix_entries() {
    let m = ReversibleGate::Cnot.permutation_matrix();
    assert_eq!(m.len(), 4);
    // 0b10 -> 0b11 and 0b11 -> 0b10
    assert_eq!(m[2][3], 1);
    assert_eq!(m[3][2], 1);
    assert_eq!(m[0][0], 1);
    assert_eq!(m[2][2], 0);
}

#[test]
fn peres_is_not_self_inverse_but_reversible() {
    let g = ReversibleGate::Peres;
    let once = g.apply(&[1, 1, 0]);
    assert_eq!(g.apply(&once), vec![1, 1, 1]);
    let m = g.permutation_matrix();
    for col in 0..8 {
        let col_sum: u8 = (0..8).map(|r| m[r][col]).sum();
        assert_eq!(col_sum, 1);
    }
}

#[test]
fn names_and_widths() {
    assert_eq!(ReversibleGate::Toffoli.name(), "Toffoli");
    assert_eq!(ReversibleGate::Not.name(), "NOT");
    assert_eq!(ReversibleGate::Cnot.name(), "CNOT");
    assert_eq!(ReversibleGate::Identity { width: 5 }.name(), "Identity");
    assert_eq!(ReversibleGate::Identity { width: 5 }.width(), 5);
    assert_eq!(ReversibleGate::Peres.width(), 3);
    assert_eq!(ReversibleGate::Cnot.width(), 2);
}

#[test]
fn index_bits_msb_first() {
    assert_eq!(index_to_bits(6, 3), vec![1, 1, 0]);
    assert_eq!(index_to_bits(6, 2), vec![1, 0]);
    assert_eq!(index_to_bits(0, 0), Vec::<u8>::new());
    assert_eq!(bits_to_index(&[1, 0, 1, 1]), 11);
    assert_eq!(bits_to_index(&[]), 0);
}

#[test]
fn wide_identity_truth_table() {
    let tt = ReversibleGate::Identity { width: 4 }.truth_table();
    assert_eq!(tt.len(), 16);
    for (i, (input, output)) in tt.iter().enumerate() {
        assert_eq!(input, output);
        assert_eq!(bits_to_index(input), i);
    }
}
