//! Uncomputation: inverse circuits and Bennett's compute-copy-uncompute pattern.
use vstd::prelude::*;
use vstd::arithmetic::power2::pow2;
use vstd::bits::lemma_usize_shr_is_div;
use crate::bits::{index_bits, lemma_one_shl};
use crate::circuit::{
    CircuitBuilder, ReversibleCircuit, all_lines, apply_on_prefix, gates_cost, gates_fit,
    run_gates, unapply_on_prefix, unrun_gates, lemma_prefix_roundtrip, lemma_run_gates_concat,
    lemma_run_gates_len, lemma_run_unrun,
};
use crate::gate::{ReversibleGate, index_to_bits};

verus! {

/// Result of uncomputation: the inverse circuit and its size.
#[derive(Debug, Clone)]
pub struct UncomputeResult {
    /// The inverse circuit.
    pub inverse_circuit: ReversibleCircuit,
    /// Number of gates in the inverse.
    pub gate_count: usize,
    /// Quantum cost of the inverse.
    pub quantum_cost: usize,
}

/// The gates that undo `g`, in circuit order. Every gate but Peres undoes
/// itself; Peres `(c1, c2, t) -> (c1, c2 ^ c1, t ^ (c1 & c2))` is undone by a CNOT
/// (restoring `c2`) followed by a Toffoli (restoring `t`).
pub open spec fn inverse_of_gate(g: ReversibleGate) -> Seq<ReversibleGate> {
    if g is Peres {
        seq![ReversibleGate::Cnot, ReversibleGate::Toffoli]
    } else {
        seq![g]
    }
}

/// The gates of the inverse of a circuit with gates `gates`: the inverses of
/// the gates, last gate first.
pub open spec fn inverse_gates(gates: Seq<ReversibleGate>) -> Seq<ReversibleGate>
    decreases gates.len(),
{
    if gates.len() == 0 {
        Seq::empty()
    } else {
        inverse_of_gate(gates.last()) + inverse_gates(gates.drop_last())
    }
}

/// The copy step of Bennett's pattern, from line `source` into line `target`.
/// Gates act on the leading lines, with their controls before their targets, so
/// a copy is built from an earlier line into a later one among the first three:
/// from 0 into 1 it is one CNOT; from 0 into 2 it is a CNOT between two Fredkin
/// gates (which swap lines 1 and 2 when line 0 is 1); from 1 into 2 it is a
/// Toffoli, a NOT on line 0, a Toffoli and a NOT again. For any other pair the
/// step is the single CNOT from line 0 into line 1.
pub open spec fn copy_gates(source: usize, target: usize) -> Seq<ReversibleGate> {
    if source == 0 && target == 2 {
        seq![ReversibleGate::Fredkin, ReversibleGate::Cnot, ReversibleGate::Fredkin]
    } else if source == 1 && target == 2 {
        seq![ReversibleGate::Toffoli, ReversibleGate::Not, ReversibleGate::Toffoli, ReversibleGate::Not]
    } else {
        seq![ReversibleGate::Cnot]
    }
}

/// Given a reversible circuit, produce its inverse: the inverses of its gates
/// (see `inverse_of_gate`), last gate first, on the same width.
pub fn invert_circuit(circuit: &ReversibleCircuit) -> (r: UncomputeResult)
    requires
        gates_cost(inverse_gates(circuit.spec_gates())) <= usize::MAX,
    ensures
        r.inverse_circuit.spec_width() == circuit.spec_width(),
        r.inverse_circuit.spec_gates() == inverse_gates(circuit.spec_gates()),
        r.inverse_circuit.spec_answer_lines() == all_lines(circuit.spec_width()),
        r.gate_count == inverse_gates(circuit.spec_gates()).len(),
        r.quantum_cost == gates_cost(inverse_gates(circuit.spec_gates())),
        peres_free(circuit.spec_gates()) ==> r.inverse_circuit.spec_gates() == circuit.spec_gates().reverse()
            && r.gate_count == circuit.spec_gates().len() && r.quantum_cost == gates_cost(circuit.spec_gates()),
{
    proof {
        if peres_free(circuit.spec_gates()) {
            lemma_inverse_without_peres(circuit.spec_gates());
        }
    }
    let width = circuit.width();
    let forward = circuit.gates();
    let mut inverse: Vec<ReversibleGate> = Vec::new();
    let mut k: usize = forward.len();
    while k > 0
        invariant
            k <= forward@.len(),
            forward@ == circuit.spec_gates(),
            gates_fit(forward@, width as nat),
            inverse@ == inverse_gates(forward@.skip(k as int)),
        decreases k,
    {
        let ghost before = inverse@;
        let mut step = invert_gate(&forward[k - 1]);
        inverse.append(&mut step);
        proof {
            assert(forward@.skip(k - 1) =~= seq![forward@[k - 1]] + forward@.skip(k as int));
            lemma_inverse_gates_prepend(forward@[k - 1], forward@.skip(k as int));
        }
        k -= 1;
    }
    assert(forward@.skip(0) =~= forward@);
    proof {
        lemma_inverse_gates_fit(forward@, width as nat);
    }
    let inverse_circuit = ReversibleCircuit::new(width, inverse);
    let gate_count = inverse_circuit.gate_count();
    let quantum_cost = inverse_circuit.quantum_cost();
    UncomputeResult { inverse_circuit, gate_count, quantum_cost }
}

/// The gates that undo a single gate (see `inverse_of_gate`).
fn invert_gate(gate: &ReversibleGate) -> (r: Vec<ReversibleGate>)
    ensures
        r@ == inverse_of_gate(*gate),
{
    let r = match gate {
        ReversibleGate::Identity { width } => vec![ReversibleGate::Identity { width: *width }],
        ReversibleGate::Not => vec![ReversibleGate::Not],
        ReversibleGate::Cnot => vec![ReversibleGate::Cnot],
        ReversibleGate::Toffoli => vec![ReversibleGate::Toffoli],
        ReversibleGate::Fredkin => vec![ReversibleGate::Fredkin],
        ReversibleGate::Peres => vec![ReversibleGate::Cnot, ReversibleGate::Toffoli],
    };
    assert(r@ =~= inverse_of_gate(*gate));
    r
}

/// The gates of the copy step (see `copy_gates`).
fn copy_step(source: usize, target: usize) -> (r: Vec<ReversibleGate>)
    ensures
        r@ == copy_gates(source, target),
{
    let r = if source == 0 && target == 2 {
        vec![ReversibleGate::Fredkin, ReversibleGate::Cnot, ReversibleGate::Fredkin]
    } else if source == 1 && target == 2 {
        vec![ReversibleGate::Toffoli, ReversibleGate::Not, ReversibleGate::Toffoli, ReversibleGate::Not]
    } else {
        vec![ReversibleGate::Cnot]
    };
    assert(r@ =~= copy_gates(source, target));
    r
}

/// Build the compute-copy-uncompute circuit of Bennett's pattern: the circuit's
/// gates, then the copy of the answer (see `copy_gates`), then the inverse gates.
pub fn bennett_uncompute(circuit: &ReversibleCircuit, answer_source: usize, copy_target: usize) -> (r:
    ReversibleCircuit)
    requires
        answer_source < circuit.spec_width(),
        copy_target < circuit.spec_width(),
        answer_source != copy_target,
        gates_cost(inverse_gates(circuit.spec_gates())) <= usize::MAX,
    ensures
        r.spec_width() == circuit.spec_width(),
        r.spec_gates() == circuit.spec_gates() + copy_gates(answer_source, copy_target) + inverse_gates(
            circuit.spec_gates(),
        ),
        r.spec_answer_lines() == all_lines(circuit.spec_width()),
{
    let width = circuit.width();
    let mut builder = CircuitBuilder::new(width);
    let gates = circuit.gates();
    let mut k: usize = 0;
    while k < gates.len()
        invariant
            k <= gates@.len(),
            gates@ == circuit.spec_gates(),
            gates_fit(gates@, width as nat),
            builder.spec_width() == width,
            builder.spec_gates() == gates@.take(k as int),
            builder.spec_answer_lines() is None,
        decreases gates@.len() - k,
    {
        builder = builder.gate(gates[k]);
        k += 1;
        assert(builder.spec_gates() =~= gates@.take(k as int));
    }
    assert(gates@.take(gates@.len() as int) =~= gates@);
    let copy = copy_step(answer_source, copy_target);
    let ghost front0 = builder.spec_gates();
    let mut k: usize = 0;
    while k < copy.len()
        invariant
            k <= copy@.len(),
            copy@ == copy_gates(answer_source, copy_target),
            2 <= width,
            copy_target == 2 ==> 3 <= width,
            builder.spec_width() == width,
            builder.spec_gates() == front0 + copy@.take(k as int),
            builder.spec_answer_lines() is None,
        decreases copy@.len() - k,
    {
        builder = builder.gate(copy[k]);
        k += 1;
        assert(builder.spec_gates() =~= front0 + copy@.take(k as int));
    }
    assert(copy@.take(copy@.len() as int) =~= copy@);
    let inv = invert_circuit(circuit);
    let inverse = inv.inverse_circuit.gates();
    proof {
        lemma_inverse_gates_fit(gates@, width as nat);
    }
    let ghost front = builder.spec_gates();
    let mut k: usize = 0;
    while k < inverse.len()
        invariant
            k <= inverse@.len(),
            inverse@ == inverse_gates(circuit.spec_gates()),
            gates_fit(inverse@, width as nat),
            builder.spec_width() == width,
            builder.spec_gates() == front + inverse@.take(k as int),
            builder.spec_answer_lines() is None,
        decreases inverse@.len() - k,
    {
        builder = builder.gate(inverse[k]);
        k += 1;
        assert(builder.spec_gates() =~= front + inverse@.take(k as int));
    }
    assert(inverse@.take(inverse@.len() as int) =~= inverse@);
    builder.build()
}

/// What `verify_inverse` tests: the inverse undoes the circuit on every input
/// of its width.
pub open spec fn inverse_undoes_on_all_inputs(circuit: ReversibleCircuit) -> bool {
    forall|i: nat|
        i < pow2(circuit.spec_width()) ==> run_gates(
            inverse_gates(circuit.spec_gates()),
            #[trigger] circuit.spec_apply(index_bits(i, circuit.spec_width())),
        ) == index_bits(i, circuit.spec_width())
}

/// Verify that a circuit followed by its inverse is the identity, on every input
/// of its width. Always true, since `invert_circuit` builds the true inverse.
pub fn verify_inverse(circuit: &ReversibleCircuit) -> (r: bool)
    requires
        circuit.spec_width() < usize::BITS,
        gates_cost(inverse_gates(circuit.spec_gates())) <= usize::MAX,
    ensures
        r == inverse_undoes_on_all_inputs(*circuit),
        r,
{
    let width = circuit.width();
    let inv = invert_circuit(circuit);
    proof {
        lemma_one_shl(width);
        lemma_inverse_undoes(*circuit);
    }
    let rows = 1usize << width;
    let mut i: usize = 0;
    while i < rows
        invariant
            i <= rows,
            rows == pow2(width as nat),
            width == circuit.spec_width(),
            width < usize::BITS,
            inv.inverse_circuit.spec_gates() == inverse_gates(circuit.spec_gates()),
            inv.inverse_circuit.spec_width() == width,
            gates_fit(circuit.spec_gates(), width as nat),
            inverse_undoes_on_all_inputs(*circuit),
        decreases rows - i,
    {
        let input = index_to_bits(i, width);
        let after_forward = circuit.apply(input.as_slice());
        proof {
            lemma_run_gates_len(circuit.spec_gates(), input@);
        }
        let after_inverse = inv.inverse_circuit.apply(after_forward.as_slice());
        if !bits_equal(&input, &after_inverse) {
            proof {
                assert(circuit.spec_apply(index_bits(i as nat, width as nat)) == after_forward@);
            }
            return false;
        }
        i += 1;
    }
    true
}

/// Whether two bit vectors are equal.
fn bits_equal(a: &Vec<u8>, b: &Vec<u8>) -> (r: bool)
    ensures
        r == (a@ == b@),
{
    if a.len() != b.len() {
        return false;
    }
    let mut k: usize = 0;
    while k < a.len()
        invariant
            k <= a@.len(),
            a@.len() == b@.len(),
            forall|j: int| 0 <= j < k ==> a@[j] == b@[j],
        decreases a@.len() - k,
    {
        if a[k] != b[k] {
            return false;
        }
        k += 1;
    }
    assert(a@ =~= b@);
    true
}

/// The lines below `n` that are not ancilla lines, in increasing order.
pub open spec fn primary_lines(n: nat, ancillas: Seq<usize>) -> Seq<usize>
    decreases n,
{
    if n == 0 {
        Seq::empty()
    } else {
        let p = primary_lines((n - 1) as nat, ancillas);
        if ancillas.contains((n - 1) as usize) {
            p
        } else {
            p.push((n - 1) as usize)
        }
    }
}

/// The input that `verify_ancilla_cleanup` builds for combination `c`: the first
/// `count` primary lines get bit `idx` of `c` (line `primary[idx]`), all else is 0.
pub open spec fn cleanup_input(width: nat, primary: Seq<usize>, c: nat, count: nat) -> Seq<u8>
    decreases count,
{
    if count == 0 {
        Seq::new(width, |k: int| 0u8)
    } else {
        cleanup_input(width, primary, c, (count - 1) as nat).update(
            primary[count - 1] as int,
            ((c / pow2((count - 1) as nat)) % 2) as u8,
        )
    }
}

/// What `verify_ancilla_cleanup` tests: for every combination of the
/// primary inputs (ancillas at 0), the circuit followed by its inverse leaves
/// every ancilla line at 0.
pub open spec fn ancillas_cleaned(circuit: ReversibleCircuit, ancillas: Seq<usize>) -> bool {
    let w = circuit.spec_width();
    let primary = primary_lines(w, ancillas);
    forall|c: nat, k: int|
        c < pow2(primary.len()) && 0 <= k < ancillas.len() ==> #[trigger] run_gates(
            inverse_gates(circuit.spec_gates()),
            circuit.spec_apply(cleanup_input(w, primary, c, primary.len())),
        )[ancillas[k] as int] == 0
}

/// Verify that the ancilla lines return to 0 when the circuit is followed by its
/// inverse, for every combination of the other (primary) input lines.
pub fn verify_ancilla_cleanup(circuit: &ReversibleCircuit, ancilla_indices: &[usize]) -> (r: bool)
    requires
        primary_lines(circuit.spec_width(), ancilla_indices@).len() < usize::BITS,
        gates_cost(inverse_gates(circuit.spec_gates())) <= usize::MAX,
        forall|k: int| 0 <= k < ancilla_indices@.len() ==> #[trigger] ancilla_indices@[k]
            < circuit.spec_width(),
    ensures
        r == ancillas_cleaned(*circuit, ancilla_indices@),
        r,
{
    let width = circuit.width();
    let inv = invert_circuit(circuit);
    let ghost anc = ancilla_indices@;
    let mut primary: Vec<usize> = Vec::new();
    let mut i: usize = 0;
    while i < width
        invariant
            i <= width,
            primary@ == primary_lines(i as nat, anc),
            anc == ancilla_indices@,
        decreases width - i,
    {
        if !contains_line(ancilla_indices, i) {
            primary.push(i);
        }
        i += 1;
    }
    proof {
        lemma_primary_lines_props(width as nat, anc);
        lemma_cleanup_restores_ancillas(*circuit, anc);
    }
    assert(primary@.len() <= width);
    proof {
        lemma_one_shl(primary.len());
    }
    let combos = 1usize << primary.len();
    let ghost w = width as nat;
    let ghost p = primary@;
    let mut c: usize = 0;
    while c < combos
        invariant
            c <= combos,
            combos == pow2(p.len()),
            p == primary@,
            p == primary_lines(w, anc),
            p.len() <= w,
            w == width,
            width == circuit.spec_width(),
            p.len() < usize::BITS,
            anc == ancilla_indices@,
            forall|k: int| 0 <= k < anc.len() ==> #[trigger] anc[k] < w,
            forall|k: int| 0 <= k < p.len() ==> #[trigger] p[k] < w,
            inv.inverse_circuit.spec_gates() == inverse_gates(circuit.spec_gates()),
            inv.inverse_circuit.spec_width() == width,
            gates_fit(circuit.spec_gates(), w),
            ancillas_cleaned(*circuit, anc),
            forall|c2: nat, k: int|
                c2 < c && 0 <= k < anc.len() ==> #[trigger] run_gates(
                    inverse_gates(circuit.spec_gates()),
                    circuit.spec_apply(cleanup_input(w, p, c2, p.len())),
                )[anc[k] as int] == 0,
        decreases combos - c,
    {
        let mut input: Vec<u8> = Vec::new();
        let mut t: usize = 0;
        while t < width
            invariant
                t <= width,
                input@ == Seq::new(t as nat, |k: int| 0u8),
            decreases width - t,
        {
            input.push(0);
            t += 1;
            assert(input@ =~= Seq::new(t as nat, |k: int| 0u8));
        }
        let mut idx: usize = 0;
        while idx < primary.len()
            invariant
                idx <= p.len(),
                p == primary@,
                p.len() <= w,
                p.len() < usize::BITS,
                forall|k: int| 0 <= k < p.len() ==> #[trigger] p[k] < w,
                input@ == cleanup_input(w, p, c as nat, idx as nat),
                input@.len() == w,
            decreases p.len() - idx,
        {
            let bit = primary[idx];
            proof {
                lemma_usize_shr_is_div(c, idx);
                let x = c >> idx;
                assert(x & 1 == x % 2) by (bit_vector);
            }
            input.set(bit, ((c >> idx) & 1) as u8);
            idx += 1;
        }
        let after_forward = circuit.apply(input.as_slice());
        proof {
            lemma_run_gates_len(circuit.spec_gates(), input@);
        }
        let after_inverse = inv.inverse_circuit.apply(after_forward.as_slice());
        proof {
            lemma_inverse_gates_fit(circuit.spec_gates(), w);
            lemma_run_gates_len(inverse_gates(circuit.spec_gates()), after_forward@);
        }
        let ghost full = run_gates(
            inverse_gates(circuit.spec_gates()),
            circuit.spec_apply(cleanup_input(w, p, c as nat, p.len())),
        );
        assert(full == after_inverse@);
        let mut k: usize = 0;
        while k < ancilla_indices.len()
            invariant
                k <= anc.len(),
                full == after_inverse@,
                full == run_gates(
                    inverse_gates(circuit.spec_gates()),
                    circuit.spec_apply(cleanup_input(w, p, c as nat, p.len())),
                ),
                c < combos,
                combos == pow2(p.len()),
                p == primary_lines(w, anc),
                w == circuit.spec_width(),
                anc == ancilla_indices@,
                after_inverse@.len() == w,
                forall|j: int| 0 <= j < anc.len() ==> #[trigger] anc[j] < w,
                ancillas_cleaned(*circuit, anc),
                forall|j: int| 0 <= j < k ==> after_inverse@[#[trigger] anc[j] as int] == 0,
            decreases anc.len() - k,
        {
            if after_inverse[ancilla_indices[k]] != 0 {
                proof {
                    assert(full[anc[k as int] as int] != 0);
                }
                return false;
            }
            k += 1;
        }
        c += 1;
    }
    true
}

/// Whether `line` is one of `lines`.
fn contains_line(lines: &[usize], line: usize) -> (r: bool)
    ensures
        r == lines@.contains(line),
{
    let mut k: usize = 0;
    while k < lines.len()
        invariant
            k <= lines@.len(),
            forall|j: int| 0 <= j < k ==> lines@[j] != line,
        decreases lines@.len() - k,
    {
        if lines[k] == line {
            return true;
        }
        k += 1;
    }
    false
}

proof fn lemma_primary_lines_props(n: nat, ancillas: Seq<usize>)
    ensures
        primary_lines(n, ancillas).len() <= n,
        forall|k: int|
            0 <= k < primary_lines(n, ancillas).len() ==> #[trigger] primary_lines(n, ancillas)[k]
                < n && !ancillas.contains(primary_lines(n, ancillas)[k]),
    decreases n,
{
    if n > 0 {
        lemma_primary_lines_props((n - 1) as nat, ancillas);
    }
}

/// The inverse gates of gates that fit in `w` lines fit too.
proof fn lemma_inverse_gates_fit(gates: Seq<ReversibleGate>, w: nat)
    requires
        gates_fit(gates, w),
    ensures
        gates_fit(inverse_gates(gates), w),
    decreases gates.len(),
{
    if gates.len() > 0 {
        let rest = gates.drop_last();
        assert(gates_fit(rest, w)) by {
            assert forall|k: int| 0 <= k < rest.len() implies (#[trigger] rest[k]).spec_width() <= w by {
                assert(rest[k] == gates[k]);
            }
        }
        lemma_inverse_gates_fit(rest, w);
        let g = gates.last();
        assert(g == gates[gates.len() - 1]);
        let a = inverse_of_gate(g);
        let b = inverse_gates(rest);
        assert forall|k: int| 0 <= k < (a + b).len() implies (#[trigger] (a + b)[k]).spec_width() <= w by {
            if k >= a.len() {
                assert((a + b)[k] == b[k - a.len()]);
            }
        }
    }
}

/// Inverting a circuit whose gates start with `g` ends with the inverse of `g`.
proof fn lemma_inverse_gates_prepend(g: ReversibleGate, rest: Seq<ReversibleGate>)
    ensures
        inverse_gates(seq![g] + rest) == inverse_gates(rest) + inverse_of_gate(g),
    decreases rest.len(),
{
    let all = seq![g] + rest;
    if rest.len() == 0 {
        assert(all.drop_last() =~= Seq::<ReversibleGate>::empty());
        assert(all.last() == g);
        assert(inverse_gates(all.drop_last()) =~= Seq::<ReversibleGate>::empty());
        assert(inverse_gates(rest) =~= Seq::<ReversibleGate>::empty());
        assert(inverse_gates(all) =~= inverse_gates(rest) + inverse_of_gate(g));
    } else {
        assert(all.drop_last() =~= seq![g] + rest.drop_last());
        assert(all.last() == rest.last());
        lemma_inverse_gates_prepend(g, rest.drop_last());
        assert(inverse_gates(all) =~= inverse_gates(rest) + inverse_of_gate(g));
    }
}

/// Running the inverse gates of one gate undoes it on the leading lines.
proof fn lemma_run_inverse_of_gate(g: ReversibleGate, x: Seq<u8>)
    requires
        g.spec_width() <= x.len(),
    ensures
        run_gates(inverse_of_gate(g), x) == unapply_on_prefix(g, x),
{
    if g is Peres {
        let one = seq![ReversibleGate::Cnot];
        let two = seq![ReversibleGate::Cnot, ReversibleGate::Toffoli];
        assert(one.drop_last() =~= Seq::<ReversibleGate>::empty());
        assert(two.drop_last() =~= one);
        let y = apply_on_prefix(ReversibleGate::Cnot, x);
        assert(run_gates(one.drop_last(), x) == x);
        assert(one.last() == ReversibleGate::Cnot);
        assert(run_gates(one, x) == y);
        assert(two.last() == ReversibleGate::Toffoli);
        let z = apply_on_prefix(ReversibleGate::Toffoli, y);
        assert(run_gates(two, x) == z);
        assert(y.len() == x.len());
        assert(y[0] == x[0]);
        assert(y[1] == x[1] ^ x[0]);
        assert forall|i: int| 2 <= i < x.len() implies y[i] == x[i] by {
            assert(y[i] == x.skip(2)[i - 2]);
        }
        assert(z.len() == x.len());
        let u = unapply_on_prefix(ReversibleGate::Peres, x);
        assert(u.len() == x.len());
        assert forall|i: int| 0 <= i < x.len() implies z[i] == u[i] by {
            if i >= 3 {
                assert(z[i] == y.skip(3)[i - 3]);
                assert(u[i] == x.skip(3)[i - 3]);
            }
        }
        assert(z =~= u);
    } else {
        assert(seq![g].drop_last() =~= Seq::<ReversibleGate>::empty());
        assert(run_gates(Seq::<ReversibleGate>::empty(), x) == x);
        assert(seq![g].last() == g);
        assert(inverse_of_gate(g) == seq![g]);
        let w = g.spec_width() as int;
        assert(g.spec_unapply(x.take(w)) == g.spec_apply(x.take(w)));
        assert(run_gates(seq![g], x) == apply_on_prefix(g, x));
    }
}

/// Running the inverse gates of a circuit is undoing its gates, last gate first.
proof fn lemma_run_inverse(gates: Seq<ReversibleGate>, x: Seq<u8>)
    requires
        gates_fit(gates, x.len()),
    ensures
        run_gates(inverse_gates(gates), x) == unrun_gates(gates, x),
    decreases gates.len(),
{
    if gates.len() > 0 {
        let g = gates.last();
        let rest = gates.drop_last();
        assert(g == gates[gates.len() - 1]);
        assert(gates_fit(rest, x.len())) by {
            assert forall|k: int| 0 <= k < rest.len() implies (#[trigger] rest[k]).spec_width() <= x.len() by {
                assert(rest[k] == gates[k]);
            }
        }
        lemma_run_gates_concat(inverse_of_gate(g), inverse_gates(rest), x);
        lemma_run_inverse_of_gate(g, x);
        lemma_prefix_roundtrip(g, x);
        lemma_run_inverse(rest, unapply_on_prefix(g, x));
    }
}

/// Every circuit is undone by its inverse, and undoes it: running the gates and
/// then the inverse gates (or the other way round) gives back the input.
pub proof fn lemma_inverse_gates_undo(gates: Seq<ReversibleGate>, s: Seq<u8>)
    requires
        gates_fit(gates, s.len()),
    ensures
        run_gates(inverse_gates(gates), run_gates(gates, s)) == s,
        run_gates(gates, run_gates(inverse_gates(gates), s)) == s,
{
    lemma_run_gates_len(gates, s);
    lemma_run_inverse(gates, run_gates(gates, s));
    lemma_run_inverse(gates, s);
    lemma_run_unrun(gates, s);
}

/// The inverse circuit that `invert_circuit` builds (any circuit with the
/// inverse gates) undoes the circuit, and the circuit undoes it, on every input
/// of the circuit's width.
pub proof fn lemma_invert_circuit_round_trip(circuit: ReversibleCircuit, inverse: ReversibleCircuit, x: Seq<u8>)
    requires
        gates_fit(circuit.spec_gates(), circuit.spec_width()),
        inverse.spec_gates() == inverse_gates(circuit.spec_gates()),
        x.len() == circuit.spec_width(),
    ensures
        inverse.spec_apply(circuit.spec_apply(x)) == x,
        circuit.spec_apply(inverse.spec_apply(x)) == x,
{
    lemma_inverse_gates_undo(circuit.spec_gates(), x);
}

/// The inverse that `invert_circuit` builds undoes the circuit on every input
/// of its width.
pub proof fn lemma_inverse_undoes(circuit: ReversibleCircuit)
    requires
        gates_fit(circuit.spec_gates(), circuit.spec_width()),
    ensures
        inverse_undoes_on_all_inputs(circuit),
{
    let g = circuit.spec_gates();
    let w = circuit.spec_width();
    assert forall|i: nat| i < pow2(w) implies run_gates(
        inverse_gates(g),
        #[trigger] circuit.spec_apply(index_bits(i, w)),
    ) == index_bits(i, w) by {
        lemma_inverse_gates_undo(g, index_bits(i, w));
    }
}

proof fn lemma_cleanup_input_zero(w: nat, p: Seq<usize>, c: nat, count: nat, line: int)
    requires
        count <= p.len(),
        forall|k: int| 0 <= k < p.len() ==> #[trigger] p[k] < w,
        0 <= line < w,
        forall|k: int| 0 <= k < count ==> #[trigger] p[k] != line,
    ensures
        cleanup_input(w, p, c, count).len() == w,
        cleanup_input(w, p, c, count)[line] == 0,
    decreases count,
{
    if count > 0 {
        lemma_cleanup_input_zero(w, p, c, (count - 1) as nat, line);
        assert(p[count - 1] != line);
    }
}

/// `verify_ancilla_cleanup` holds for every circuit and every list of ancilla
/// lines in range: the inverse restores every ancilla to 0.
pub proof fn lemma_cleanup_restores_ancillas(circuit: ReversibleCircuit, ancillas: Seq<usize>)
    requires
        gates_fit(circuit.spec_gates(), circuit.spec_width()),
        forall|k: int| 0 <= k < ancillas.len() ==> #[trigger] ancillas[k] < circuit.spec_width(),
    ensures
        ancillas_cleaned(circuit, ancillas),
{
    let g = circuit.spec_gates();
    let w = circuit.spec_width();
    let p = primary_lines(w, ancillas);
    lemma_primary_lines_props(w, ancillas);
    assert forall|c: nat, k: int| c < pow2(p.len()) && 0 <= k < ancillas.len() implies #[trigger] run_gates(
        inverse_gates(g),
        circuit.spec_apply(cleanup_input(w, p, c, p.len())),
    )[ancillas[k] as int] == 0 by {
        let line = ancillas[k] as int;
        assert forall|j: int| 0 <= j < p.len() implies #[trigger] p[j] != line by {
            assert(!ancillas.contains(p[j]));
            if p[j] == line {
                assert(ancillas[k] == p[j]);
            }
        }
        lemma_cleanup_input_zero(w, p, c, p.len(), line);
        lemma_inverse_gates_undo(g, cleanup_input(w, p, c, p.len()));
    }
}

/// Copying gates fit in every state that has the lines they use.
proof fn lemma_copy_gates_fit(source: usize, target: usize, w: nat)
    requires
        2 <= w,
        target == 2 ==> 3 <= w,
    ensures
        gates_fit(copy_gates(source, target), w),
{
}

/// Running Bennett's circuit computes the gates, runs the copy step, and undoes
/// the gates.
pub proof fn lemma_bennett_runs(gates: Seq<ReversibleGate>, source: usize, target: usize, s: Seq<u8>)
    requires
        gates_fit(gates, s.len()),
        2 <= s.len(),
        target == 2 ==> 3 <= s.len(),
    ensures
        run_gates(gates + copy_gates(source, target) + inverse_gates(gates), s) == unrun_gates(
            gates,
            run_gates(copy_gates(source, target), run_gates(gates, s)),
        ),
{
    let copy = copy_gates(source, target);
    let t = run_gates(gates, s);
    lemma_run_gates_concat(gates + copy, inverse_gates(gates), s);
    lemma_run_gates_concat(gates, copy, s);
    lemma_run_gates_len(gates, s);
    lemma_copy_gates_fit(source, target, s.len());
    lemma_run_gates_len(copy, t);
    lemma_run_inverse(gates, run_gates(copy, t));
}

/// The copy step from an earlier line into a later one among the first three
/// xors the source line into the target line and leaves every other line as it is.
pub proof fn lemma_copy_forward(source: usize, target: usize, x: Seq<u8>)
    requires
        source < target <= 2,
        target < x.len(),
        x[0] <= 1,
        x[source as int] <= 1,
    ensures
        run_gates(copy_gates(source, target), x) == x.update(target as int, x[target as int] ^ x[source as int]),
{
    let c = ReversibleGate::Cnot;
    let f = ReversibleGate::Fredkin;
    let t = ReversibleGate::Toffoli;
    let n = ReversibleGate::Not;
    assert(seq![c].drop_last() =~= Seq::<ReversibleGate>::empty());
    assert(run_gates(Seq::<ReversibleGate>::empty(), x) == x);
    let b1 = x[1];
    assert(b1 ^ 0u8 == b1) by (bit_vector);
    if target == 1 {
        let y = apply_on_prefix(c, x);
        assert(seq![c].last() == c);
        assert(run_gates(seq![c], x) == y);
        assert forall|i: int| 2 <= i < x.len() implies y[i] == x[i] by {
            assert(y[i] == x.skip(2)[i - 2]);
        }
        assert(y =~= x.update(1, x[1] ^ x[0]));
    } else if source == 0 {
        let b2 = x[2];
        assert(b2 ^ 0u8 == b2) by (bit_vector);
        let three = seq![f, c, f];
        assert(three.drop_last() =~= seq![f, c]);
        assert(seq![f, c].drop_last() =~= seq![f]);
        assert(seq![f].drop_last() =~= Seq::<ReversibleGate>::empty());
        let y1 = apply_on_prefix(f, x);
        let y2 = apply_on_prefix(c, y1);
        let y3 = apply_on_prefix(f, y2);
        assert(seq![f].last() == f);
        assert(run_gates(seq![f], x) == y1);
        assert(seq![f, c].last() == c);
        assert(run_gates(seq![f, c], x) == y2);
        assert(three.last() == f);
        assert(run_gates(three, x) == y3);
        assert forall|i: int| 3 <= i < x.len() implies y1[i] == x[i] && y2[i] == y1[i] && y3[i] == y2[i] by {
            assert(y1[i] == x.skip(3)[i - 3]);
            assert(y2[i] == y1.skip(2)[i - 2]);
            assert(y3[i] == y2.skip(3)[i - 3]);
        }
        assert(y1.len() == x.len() && y2.len() == x.len() && y3.len() == x.len());
        assert(y2[2] == y1[2]) by {
            assert(y2[2] == y1.skip(2)[0]);
        }
        assert(y3 =~= x.update(2, x[2] ^ x[0]));
    } else {
        let four = seq![t, n, t, n];
        assert(four.drop_last() =~= seq![t, n, t]);
        assert(seq![t, n, t].drop_last() =~= seq![t, n]);
        assert(seq![t, n].drop_last() =~= seq![t]);
        assert(seq![t].drop_last() =~= Seq::<ReversibleGate>::empty());
        let y1 = apply_on_prefix(t, x);
        let y2 = apply_on_prefix(n, y1);
        let y3 = apply_on_prefix(t, y2);
        let y4 = apply_on_prefix(n, y3);
        assert(seq![t].last() == t);
        assert(run_gates(seq![t], x) == y1);
        assert(seq![t, n].last() == n);
        assert(run_gates(seq![t, n], x) == y2);
        assert(seq![t, n, t].last() == t);
        assert(run_gates(seq![t, n, t], x) == y3);
        assert(four.last() == n);
        assert(run_gates(four, x) == y4);
        assert(y1.len() == x.len() && y2.len() == x.len() && y3.len() == x.len() && y4.len() == x.len());
        assert forall|i: int| 3 <= i < x.len() implies y1[i] == x[i] && y2[i] == y1[i] && y3[i] == y2[i] && y4[i]
            == y3[i] by {
            assert(y1[i] == x.skip(3)[i - 3]);
            assert(y2[i] == y1.skip(1)[i - 1]);
            assert(y3[i] == y2.skip(3)[i - 3]);
            assert(y4[i] == y3.skip(1)[i - 1]);
        }
        let a = x[0];
        let b = x[1];
        let d = x[2];
        assert(y1[0] == a && y1[1] == b && y1[2] == d ^ (a & b));
        assert(y2[0] == a ^ 1u8 && y2[1] == b && y2[2] == d ^ (a & b)) by {
            assert(y2[1] == y1.skip(1)[0]);
            assert(y2[2] == y1.skip(1)[1]);
        }
        assert(y3[0] == a ^ 1u8 && y3[1] == b && y3[2] == (d ^ (a & b)) ^ ((a ^ 1u8) & b));
        assert(y4[0] == (a ^ 1u8) ^ 1u8 && y4[1] == b && y4[2] == (d ^ (a & b)) ^ ((a ^ 1u8) & b)) by {
            assert(y4[1] == y3.skip(1)[0]);
            assert(y4[2] == y3.skip(1)[1]);
        }
        assert((a ^ 1u8) ^ 1u8 == a) by (bit_vector);
        assert(a <= 1 && b <= 1 ==> (d ^ (a & b)) ^ ((a ^ 1u8) & b) == d ^ b) by (bit_vector);
        assert(y4 =~= x.update(2, x[2] ^ x[1]));
    }
}

/// Gates no wider than line `t` never read or change line `t`.
proof fn lemma_gates_leave_line(gates: Seq<ReversibleGate>, x: Seq<u8>, t: int, v: u8)
    requires
        0 <= t < x.len(),
        forall|k: int| 0 <= k < gates.len() ==> (#[trigger] gates[k]).spec_width() <= t,
    ensures
        run_gates(gates, x).len() == x.len(),
        run_gates(gates, x)[t] == x[t],
        unrun_gates(gates, x.update(t, v)) == unrun_gates(gates, x).update(t, v),
    decreases gates.len(),
{
    if gates.len() > 0 {
        let g = gates.last();
        let rest = gates.drop_last();
        assert(g == gates[gates.len() - 1]);
        assert forall|k: int| 0 <= k < rest.len() implies (#[trigger] rest[k]).spec_width() <= t by {
            assert(rest[k] == gates[k]);
        }
        lemma_gates_leave_line(rest, x, t, v);
        let y = run_gates(rest, x);
        let w = g.spec_width() as int;
        g.lemma_apply_keeps_bits(y.take(w));
        assert(apply_on_prefix(g, y)[t] == y.skip(w)[t - w]);
        let xu = x.update(t, v);
        g.lemma_apply_keeps_bits(xu.take(w));
        g.lemma_apply_keeps_bits(x.take(w));
        assert(xu.take(w) =~= x.take(w));
        assert(unapply_on_prefix(g, xu) =~= unapply_on_prefix(g, x).update(t, v));
        lemma_prefix_roundtrip(g, x);
        lemma_gates_leave_line(rest, unapply_on_prefix(g, x), t, v);
    }
}

/// Bennett's pattern with a circuit that leaves the copy target alone: the
/// answer on the source line is copied into the target line (a later line among
/// the first three), and every other line, the ancillae among them, is restored
/// to its input.
pub proof fn lemma_bennett_copies_answer(gates: Seq<ReversibleGate>, source: usize, target: usize, s: Seq<u8>)
    requires
        source < target <= 2,
        target < s.len(),
        forall|k: int| 0 <= k < gates.len() ==> (#[trigger] gates[k]).spec_width() <= target,
        run_gates(gates, s)[0] <= 1,
        run_gates(gates, s)[source as int] <= 1,
    ensures
        run_gates(gates + copy_gates(source, target) + inverse_gates(gates), s) == s.update(
            target as int,
            s[target as int] ^ run_gates(gates, s)[source as int],
        ),
{
    let y = run_gates(gates, s);
    assert(gates_fit(gates, s.len())) by {
        assert forall|k: int| 0 <= k < gates.len() implies (#[trigger] gates[k]).spec_width() <= s.len() by {}
    }
    lemma_bennett_runs(gates, source, target, s);
    lemma_gates_leave_line(gates, s, target as int, 0);
    lemma_copy_forward(source, target, y);
    lemma_gates_leave_line(gates, y, target as int, y[target as int] ^ y[source as int]);
    lemma_run_unrun(gates, s);
}

/// No gate of `gates` is a Peres gate.
pub open spec fn peres_free(gates: Seq<ReversibleGate>) -> bool {
    forall|k: int| 0 <= k < gates.len() ==> !(#[trigger] gates[k] is Peres)
}

/// The cost of two gate lists run one after the other is the sum of their costs.
proof fn lemma_cost_concat(a: Seq<ReversibleGate>, b: Seq<ReversibleGate>)
    ensures
        gates_cost(a + b) == gates_cost(a) + gates_cost(b),
    decreases b.len(),
{
    if b.len() == 0 {
        assert(a + b =~= a);
    } else {
        assert((a + b).drop_last() =~= a + b.drop_last());
        assert((a + b).last() == b.last());
        lemma_cost_concat(a, b.drop_last());
    }
}

/// A circuit without Peres gates is undone by its own gates in reverse order:
/// its inverse has the same gates, last first, and so the same number of gates
/// and the same cost.
pub proof fn lemma_inverse_without_peres(gates: Seq<ReversibleGate>)
    requires
        peres_free(gates),
    ensures
        inverse_gates(gates) == gates.reverse(),
        inverse_gates(gates).len() == gates.len(),
        gates_cost(inverse_gates(gates)) == gates_cost(gates),
    decreases gates.len(),
{
    if gates.len() > 0 {
        let g = gates.last();
        let rest = gates.drop_last();
        assert(peres_free(rest)) by {
            assert forall|k: int| 0 <= k < rest.len() implies !(#[trigger] rest[k] is Peres) by {
                assert(rest[k] == gates[k]);
            }
        }
        assert(!(gates[gates.len() - 1] is Peres));
        lemma_inverse_without_peres(rest);
        assert(inverse_of_gate(g) =~= seq![g]);
        assert(gates.reverse() =~= seq![g] + rest.reverse());
        assert(inverse_gates(gates) == inverse_of_gate(g) + inverse_gates(rest));
        lemma_cost_concat(seq![g], inverse_gates(rest));
        assert(seq![g].drop_last() =~= Seq::<ReversibleGate>::empty());
        assert(gates_cost(Seq::<ReversibleGate>::empty()) == 0);
        assert(seq![g].last() == g);
        assert(gates_cost(seq![g]) == g.spec_quantum_cost());
        assert(gates_cost(gates) == gates_cost(rest) + g.spec_quantum_cost());
    } else {
        assert(gates.reverse() =~= Seq::<ReversibleGate>::empty());
    }
}

/// The copy step of Bennett's pattern always does something: it has at least one
/// gate, and on any bit string it xors one line into a later one among the
/// first three, leaving every other line alone. For a source before a target
/// among lines 0 to 2 it xors the source into the target; for any other pair it
/// xors line 0 into line 1.
pub proof fn lemma_copy_step_xors(source: usize, target: usize, x: Seq<u8>)
    requires
        2 <= x.len(),
        source < target <= 2 ==> target < x.len(),
        x[0] <= 1,
        x[source as int] <= 1,
    ensures
        copy_gates(source, target).len() >= 1,
        source < target <= 2 ==> run_gates(copy_gates(source, target), x) == x.update(
            target as int,
            x[target as int] ^ x[source as int],
        ),
        !(source < target <= 2) ==> run_gates(copy_gates(source, target), x) == x.update(1, x[1] ^ x[0]),
{
    if source < target <= 2 {
        lemma_copy_forward(source, target, x);
    } else {
        let c = ReversibleGate::Cnot;
        assert(copy_gates(source, target) == seq![c]);
        assert(seq![c].drop_last() =~= Seq::<ReversibleGate>::empty());
        assert(run_gates(Seq::<ReversibleGate>::empty(), x) == x);
        assert(seq![c].last() == c);
        let y = apply_on_prefix(c, x);
        assert(run_gates(seq![c], x) == y);
        assert forall|i: int| 2 <= i < x.len() implies y[i] == x[i] by {
            assert(y[i] == x.skip(2)[i - 2]);
        }
        assert(y =~= x.update(1, x[1] ^ x[0]));
    }
}

/// Bennett's circuit for a circuit without Peres gates holds the circuit's gates
/// twice (forward, then reversed) around a copy step of at least one gate.
pub proof fn lemma_bennett_size(gates: Seq<ReversibleGate>, source: usize, target: usize)
    requires
        peres_free(gates),
    ensures
        (gates + copy_gates(source, target) + inverse_gates(gates)).len() == 2 * gates.len() + copy_gates(
            source,
            target,
        ).len(),
        copy_gates(source, target).len() >= 1,
{
    lemma_inverse_without_peres(gates);
}

} // verus!
