//! Gate synthesis: finding a reversible circuit for a truth table.
//!
//! The search is breadth first over NOT, CNOT and Toffoli gates placed on any
//! bit positions, from the identity towards the target permutation, with the
//! states already reached recorded so that none is expanded twice.
use vstd::prelude::*;
use vstd::arithmetic::power2::pow2;
use crate::bits::{
    is_bit_string, bits_nat, bits_value, index_bits, lemma_bits_value_is_nat,
    lemma_index_bits_roundtrip, lemma_bits_nat_index_bits, lemma_bits_nat_bound, lemma_one_shl,
};
use crate::gate::{bits_to_index, copy_bits, index_to_bits};
use crate::permutation::{is_permutation, identity_mapping};

verus! {

broadcast use vstd::seq_lib::group_seq_properties;

/// Gate types available for synthesis.
#[derive(Debug, Clone, Copy, PartialEq, Eq, Hash, Structural)]
pub enum GateType {
    Not,
    Cnot,
    Toffoli,
}

/// A gate type placed on specific bit positions: NOT on `[t]`, CNOT on
/// `[control, target]`, Toffoli on `[control1, control2, target]`.
#[derive(Debug, Clone, PartialEq, Eq, Hash)]
pub struct PositionalGate {
    /// Type of gate.
    pub gate_type: GateType,
    /// Bit positions this gate acts on.
    pub positions: Vec<usize>,
}

impl View for PositionalGate {
    type V = (GateType, Seq<usize>);

    open spec fn view(&self) -> (GateType, Seq<usize>) {
        (self.gate_type, self.positions@)
    }
}

/// Number of positions a gate type uses.
pub open spec fn arity(t: GateType) -> nat {
    match t {
        GateType::Not => 1,
        GateType::Cnot => 2,
        GateType::Toffoli => 3,
    }
}

/// The positions a gate uses exist and lie below `width`.
pub open spec fn gate_fits(g: (GateType, Seq<usize>), width: nat) -> bool {
    &&& g.1.len() >= arity(g.0)
    &&& forall|k: int| 0 <= k < arity(g.0) ==> #[trigger] g.1[k] < width
}

/// What a positional gate does to a bit vector.
pub open spec fn gate_apply(g: (GateType, Seq<usize>), s: Seq<u8>) -> Seq<u8> {
    match g.0 {
        GateType::Not => s.update(g.1[0] as int, s[g.1[0] as int] ^ 1u8),
        GateType::Cnot => s.update(g.1[1] as int, s[g.1[1] as int] ^ s[g.1[0] as int]),
        GateType::Toffoli => s.update(
            g.1[2] as int,
            s[g.1[2] as int] ^ (s[g.1[0] as int] & s[g.1[1] as int]),
        ),
    }
}

/// Quantum cost of a gate type: NOT 1, CNOT 1, Toffoli 5.
pub open spec fn type_cost(t: GateType) -> nat {
    match t {
        GateType::Not => 1,
        GateType::Cnot => 1,
        GateType::Toffoli => 5,
    }
}

/// The gates that the search tries on `width` bits: NOT on any bit, CNOT on any
/// two different bits, Toffoli on any three different bits.
pub open spec fn is_candidate(g: (GateType, Seq<usize>), width: nat) -> bool {
    &&& g.1.len() == arity(g.0)
    &&& forall|k: int| 0 <= k < g.1.len() ==> #[trigger] g.1[k] < width
    &&& g.1.no_duplicates()
}

/// Run the gates on `s`, first to last.
pub open spec fn run_positional(gates: Seq<(GateType, Seq<usize>)>, s: Seq<u8>) -> Seq<u8>
    decreases gates.len(),
{
    if gates.len() == 0 {
        s
    } else {
        gate_apply(gates.last(), run_positional(gates.drop_last(), s))
    }
}

/// The views of a list of positional gates.
pub open spec fn gates_view(v: Seq<PositionalGate>) -> Seq<(GateType, Seq<usize>)> {
    v.map_values(|g: PositionalGate| g@)
}

impl PositionalGate {
    /// Apply this gate to a bit vector, returning the new vector. The positions
    /// this gate uses must exist and be below the vector's length.
    pub fn apply(&self, bits: &[u8]) -> (r: Vec<u8>)
        requires
            gate_fits(self@, bits@.len()),
        ensures
            r@ == gate_apply(self@, bits@),
    {
        let mut result = copy_bits(bits);
        match self.gate_type {
            GateType::Not => {
                let pos = self.positions[0];
                let v = result[pos] ^ 1;
                result.set(pos, v);
            },
            GateType::Cnot => {
                let control = self.positions[0];
                let target = self.positions[1];
                let v = result[target] ^ result[control];
                result.set(target, v);
            },
            GateType::Toffoli => {
                let c1 = self.positions[0];
                let c2 = self.positions[1];
                let t = self.positions[2];
                let v = result[t] ^ (result[c1] & result[c2]);
                result.set(t, v);
            },
        }
        result
    }

    /// Quantum cost of this gate.
    pub fn quantum_cost(&self) -> (r: usize)
        ensures
            r == type_cost(self.gate_type),
    {
        match self.gate_type {
            GateType::Not => 1,
            GateType::Cnot => 1,
            GateType::Toffoli => 5,
        }
    }
}

/// A copy of a list of positions (or of values).
fn copy_positions(s: &Vec<usize>) -> (r: Vec<usize>)
    ensures
        r@ == s@,
{
    let mut r: Vec<usize> = Vec::new();
    let mut k: usize = 0;
    while k < s.len()
        invariant
            k <= s@.len(),
            r@ == s@.take(k as int),
        decreases s@.len() - k,
    {
        r.push(s[k]);
        k += 1;
        assert(r@ =~= s@.take(k as int));
    }
    assert(s@.take(s@.len() as int) =~= s@);
    r
}

/// A copy of a positional gate.
fn copy_gate(g: &PositionalGate) -> (r: PositionalGate)
    ensures
        r@ == g@,
{
    PositionalGate { gate_type: g.gate_type, positions: copy_positions(&g.positions) }
}

/// A gate on bit strings keeps them bit strings, and keeps their length.
pub proof fn lemma_gate_keeps_bits(g: (GateType, Seq<usize>), s: Seq<u8>)
    requires
        gate_fits(g, s.len()),
    ensures
        gate_apply(g, s).len() == s.len(),
        is_bit_string(s) ==> is_bit_string(gate_apply(g, s)),
{
    if is_bit_string(s) {
        assert(g.1[0] < s.len());
        let a = s[g.1[0] as int];
        assert(a <= 1);
        if arity(g.0) >= 2 {
            assert(g.1[1] < s.len());
            assert(s[g.1[1] as int] <= 1);
        }
        if arity(g.0) >= 3 {
            assert(g.1[2] < s.len());
            assert(s[g.1[2] as int] <= 1);
        }
        assert forall|x: u8, y: u8| x <= 1 && y <= 1 implies #[trigger] (x ^ y) <= 1 by {
            assert(x <= 1 && y <= 1 ==> (x ^ y) <= 1) by (bit_vector);
        }
        assert forall|x: u8, y: u8| x <= 1 && y <= 1 implies #[trigger] (x & y) <= 1 by {
            assert(x <= 1 && y <= 1 ==> (x & y) <= 1) by (bit_vector);
        }
        let o = gate_apply(g, s);
        assert forall|k: int| 0 <= k < o.len() implies #[trigger] o[k] <= 1 by {
            assert(s[k] <= 1);
        }
    }
}

/// Gates that fit keep the length of the state, and keep bit strings bit strings.
pub proof fn lemma_run_positional_keeps_bits(gates: Seq<(GateType, Seq<usize>)>, s: Seq<u8>)
    requires
        forall|k: int| 0 <= k < gates.len() ==> gate_fits(#[trigger] gates[k], s.len()),
    ensures
        run_positional(gates, s).len() == s.len(),
        is_bit_string(s) ==> is_bit_string(run_positional(gates, s)),
    decreases gates.len(),
{
    if gates.len() > 0 {
        let rest = gates.drop_last();
        assert forall|k: int| 0 <= k < rest.len() implies gate_fits(#[trigger] rest[k], s.len()) by {
            assert(rest[k] == gates[k]);
        }
        lemma_run_positional_keeps_bits(rest, s);
        assert(gate_fits(gates[gates.len() - 1], s.len()));
        lemma_gate_keeps_bits(gates.last(), run_positional(rest, s));
    }
}

/// A candidate gate fits any width above its positions.
proof fn lemma_candidate_fits(g: (GateType, Seq<usize>), width: nat)
    requires
        is_candidate(g, width),
    ensures
        gate_fits(g, width),
{
}

/// The views after a push are the views before, with the new one at the end.
proof fn lemma_gates_view_push(v: Seq<PositionalGate>, g: PositionalGate)
    ensures
        gates_view(v.push(g)) == gates_view(v).push(g@),
{
    assert(gates_view(v.push(g)) =~= gates_view(v).push(g@));
}

/// Push `g` onto `gates`, keeping every gate that was already there.
fn push_gate(gates: &mut Vec<PositionalGate>, g: PositionalGate)
    ensures
        final(gates)@ == old(gates)@.push(g),
        gates_view(final(gates)@) == gates_view(old(gates)@).push(g@),
        forall|x: (GateType, Seq<usize>)| #[trigger] gates_view(old(gates)@).contains(x) ==> gates_view(final(gates)@).contains(x),
        gates_view(final(gates)@).contains(g@),
{
    let ghost before = gates@;
    let ghost gview = g@;
    gates.push(g);
    proof {
        lemma_gates_view_push(before, g);
        assert(gates_view(gates@)[before.len() as int] == gview);
    }
}

/// NOT on bit `t`.
pub open spec fn not_at(t: usize) -> (GateType, Seq<usize>) {
    (GateType::Not, seq![t])
}

/// CNOT with control `c` and target `t`.
pub open spec fn cnot_at(c: usize, t: usize) -> (GateType, Seq<usize>) {
    (GateType::Cnot, seq![c, t])
}

/// Toffoli with controls `c1`, `c2` and target `t`.
pub open spec fn toffoli_at(c1: usize, c2: usize, t: usize) -> (GateType, Seq<usize>) {
    (GateType::Toffoli, seq![c1, c2, t])
}

/// Position of a gate type in the candidate list: NOTs first, then CNOTs, then Toffolis.
pub open spec fn type_rank(t: GateType) -> nat {
    match t {
        GateType::Not => 0,
        GateType::Cnot => 1,
        GateType::Toffoli => 2,
    }
}

/// Positions `p` come before positions `q` in lexicographic order (on the first
/// three positions, which are all a candidate uses).
pub open spec fn positions_less(p: Seq<usize>, q: Seq<usize>) -> bool {
    &&& p.len() >= 1 && q.len() >= 1
    &&& p[0] < q[0] || (p[0] == q[0] && p.len() >= 2 && q.len() >= 2 && (p[1] < q[1] || (p[1] == q[1]
        && p.len() >= 3 && q.len() >= 3 && p[2] < q[2])))
}

/// Gate `a` comes before gate `b` in the candidate list: by type, then by positions.
pub open spec fn gate_less(a: (GateType, Seq<usize>), b: (GateType, Seq<usize>)) -> bool {
    type_rank(a.0) < type_rank(b.0) || (a.0 == b.0 && positions_less(a.1, b.1))
}

/// The number of candidates on `w` bits: `w` NOTs, `w (w - 1)` CNOTs and
/// `w (w - 1) (w - 2)` Toffolis.
pub open spec fn candidate_count(w: int) -> int {
    w + w * (w - 1) + w * (w - 1) * (w - 2)
}

/// Pushing a gate that comes after every gate of a sorted list keeps it sorted.
proof fn lemma_sorted_push(v: Seq<(GateType, Seq<usize>)>, x: (GateType, Seq<usize>))
    requires
        forall|a: int, b: int| 0 <= a < b < v.len() ==> gate_less(#[trigger] v[a], #[trigger] v[b]),
        forall|a: int| 0 <= a < v.len() ==> gate_less(#[trigger] v[a], x),
    ensures
        forall|a: int, b: int| 0 <= a < b < v.push(x).len() ==> gate_less(#[trigger] v.push(x)[a], #[trigger] v.push(x)[b]),
{
    assert forall|a: int, b: int| 0 <= a < b < v.push(x).len() implies gate_less(#[trigger] v.push(x)[a], #[trigger] v.push(x)[b]) by {
        assert(v.push(x)[a] == v[a]);
        if b < v.len() {
            assert(v.push(x)[b] == v[b]);
        }
    }
}

/// Generate every candidate gate on `width` bits: the NOTs, then the CNOTs,
/// then (from width 3 on) the Toffolis, each group in lexicographic order of
/// positions. Each candidate occurs once.
fn generate_all_gates(width: usize) -> (gates: Vec<PositionalGate>)
    ensures
        forall|k: int| 0 <= k < gates@.len() ==> is_candidate(#[trigger] gates@[k]@, width as nat),
        forall|g: (GateType, Seq<usize>)| is_candidate(g, width as nat) ==> #[trigger] gates_view(gates@).contains(g),
        forall|a: int, b: int|
            0 <= a < b < gates@.len() ==> gate_less(#[trigger] gates_view(gates@)[a], #[trigger] gates_view(gates@)[b]),
        gates_view(gates@).no_duplicates(),
        gates@.len() == candidate_count(width as int),
{
    let ghost w = width as int;
    let mut gates: Vec<PositionalGate> = Vec::new();
    let mut i: usize = 0;
    while i < width
        invariant
            i <= width,
            gates@.len() == i,
            forall|k: int| 0 <= k < gates@.len() ==> is_candidate(#[trigger] gates@[k]@, width as nat),
            forall|j: usize| j < i ==> #[trigger] gates_view(gates@).contains(not_at(j)),
            forall|a: int, b: int|
                0 <= a < b < gates@.len() ==> gate_less(#[trigger] gates_view(gates@)[a], #[trigger] gates_view(gates@)[b]),
            forall|a: int| 0 <= a < gates@.len() ==> #[trigger] gate_less(gates_view(gates@)[a], not_at(i)),
        decreases width - i,
    {
        let g = PositionalGate { gate_type: GateType::Not, positions: vec![i] };
        assert(g@ =~= not_at(i));
        let ghost v0 = gates_view(gates@);
        proof {
            lemma_sorted_push(v0, not_at(i));
        }
        push_gate(&mut gates, g);
        i += 1;
        assert forall|a: int| 0 <= a < gates@.len() implies #[trigger] gate_less(gates_view(gates@)[a], not_at(i)) by {
            if a < v0.len() {
                assert(gates_view(gates@)[a] == v0[a]);
            }
        }
    }
    proof {
        let gv = gates_view(gates@);
        assert forall|a: int, y: usize| 0 <= a < gates@.len() implies #[trigger] gate_less(gv[a], cnot_at(0, y)) by {
            assert(gate_less(gv[a], not_at(width)));
        }
    }
    let mut c: usize = 0;
    while c < width
        invariant
            c <= width,
            w == width,
            gates@.len() == w + c * (w - 1),
            forall|k: int| 0 <= k < gates@.len() ==> is_candidate(#[trigger] gates@[k]@, width as nat),
            forall|j: usize| j < width ==> #[trigger] gates_view(gates@).contains(not_at(j)),
            forall|x: usize, y: usize| x < c && y < width && x != y ==> #[trigger] gates_view(gates@).contains(cnot_at(x, y)),
            forall|a: int, b: int|
                0 <= a < b < gates@.len() ==> gate_less(#[trigger] gates_view(gates@)[a], #[trigger] gates_view(gates@)[b]),
            forall|a: int, y: usize| 0 <= a < gates@.len() ==> #[trigger] gate_less(gates_view(gates@)[a], cnot_at(c, y)),
        decreases width - c,
    {
        proof {
            let gv = gates_view(gates@);
            assert forall|a: int, x: usize, y: usize| 0 <= a < gates@.len() && c < x implies #[trigger] gate_less(
                gv[a],
                cnot_at(x, y),
            ) by {
                assert(gate_less(gv[a], cnot_at(c, 0)));
            }
        }
        let mut t: usize = 0;
        while t < width
            invariant
                t <= width,
                c < width,
                w == width,
                gates@.len() == w + c * (w - 1) + t - (if c < t { 1int } else { 0int }),
                forall|k: int| 0 <= k < gates@.len() ==> is_candidate(#[trigger] gates@[k]@, width as nat),
                forall|j: usize| j < width ==> #[trigger] gates_view(gates@).contains(not_at(j)),
                forall|x: usize, y: usize| x < c && y < width && x != y ==> #[trigger] gates_view(gates@).contains(cnot_at(x, y)),
                forall|y: usize| y < t && c != y ==> #[trigger] gates_view(gates@).contains(cnot_at(c, y)),
                forall|a: int, b: int|
                    0 <= a < b < gates@.len() ==> gate_less(#[trigger] gates_view(gates@)[a], #[trigger] gates_view(gates@)[b]),
                forall|a: int, y: usize| 0 <= a < gates@.len() && t <= y ==> #[trigger] gate_less(gates_view(gates@)[a], cnot_at(c, y)),
                forall|a: int, x: usize, y: usize| 0 <= a < gates@.len() && c < x ==> #[trigger] gate_less(gates_view(gates@)[a], cnot_at(x, y)),
            decreases width - t,
        {
            if c != t {
                let g = PositionalGate { gate_type: GateType::Cnot, positions: vec![c, t] };
                assert(g@ =~= cnot_at(c, t));
                let ghost v0 = gates_view(gates@);
                proof {
                    lemma_sorted_push(v0, cnot_at(c, t));
                }
                push_gate(&mut gates, g);
                assert forall|a: int, y: usize| 0 <= a < gates@.len() && t + 1 <= y implies #[trigger] gate_less(gates_view(gates@)[a], cnot_at(c, y)) by {
                    if a < v0.len() {
                        assert(gates_view(gates@)[a] == v0[a]);
                    }
                }
                assert forall|a: int, x: usize, y: usize| 0 <= a < gates@.len() && c < x implies #[trigger] gate_less(gates_view(gates@)[a], cnot_at(x, y)) by {
                    if a < v0.len() {
                        assert(gates_view(gates@)[a] == v0[a]);
                    }
                }
            }
            t += 1;
        }
        proof {
            assert(w + c * (w - 1) + w - 1 == w + (c + 1) * (w - 1)) by (nonlinear_arith);
        }
        c += 1;
    }
    proof {
        assert(w * (w - 1) == w + 0 * (w - 1) + w * (w - 1) - w) by (nonlinear_arith);
    }
    if width >= 3 {
        proof {
            let gv = gates_view(gates@);
            assert forall|a: int, x: usize, y: usize, z: usize| 0 <= a < gates@.len() && 0 <= x implies #[trigger] gate_less(
                gv[a],
                toffoli_at(x, y, z),
            ) by {
                assert(gate_less(gv[a], cnot_at(width, 0)));
            }
        }
        let mut c1: usize = 0;
        while c1 < width
            invariant
                c1 <= width,
                w == width,
                w >= 3,
                gates@.len() == w + w * (w - 1) + c1 * (w - 1) * (w - 2),
                forall|k: int| 0 <= k < gates@.len() ==> is_candidate(#[trigger] gates@[k]@, width as nat),
                forall|j: usize| j < width ==> #[trigger] gates_view(gates@).contains(not_at(j)),
                forall|x: usize, y: usize| x < width && y < width && x != y ==> #[trigger] gates_view(gates@).contains(cnot_at(x, y)),
                forall|x: usize, y: usize, z: usize|
                    x < c1 && y < width && z < width && x != y && x != z && y != z ==> #[trigger] gates_view(gates@).contains(
                        toffoli_at(x, y, z),
                    ),
                forall|a: int, b: int|
                    0 <= a < b < gates@.len() ==> gate_less(#[trigger] gates_view(gates@)[a], #[trigger] gates_view(gates@)[b]),
                forall|a: int, x: usize, y: usize, z: usize| 0 <= a < gates@.len() && c1 <= x ==> #[trigger] gate_less(gates_view(gates@)[a], toffoli_at(x, y, z)),
            decreases width - c1,
        {
            let mut c2: usize = 0;
            while c2 < width
                invariant
                    c2 <= width,
                    c1 < width,
                    w == width,
                    w >= 3,
                    gates@.len() == w + w * (w - 1) + c1 * (w - 1) * (w - 2) + (c2 - (if c1 < c2 { 1int } else { 0int })) * (w - 2),
                    forall|k: int| 0 <= k < gates@.len() ==> is_candidate(#[trigger] gates@[k]@, width as nat),
                    forall|j: usize| j < width ==> #[trigger] gates_view(gates@).contains(not_at(j)),
                    forall|x: usize, y: usize| x < width && y < width && x != y ==> #[trigger] gates_view(gates@).contains(cnot_at(x, y)),
                    forall|x: usize, y: usize, z: usize|
                        x < c1 && y < width && z < width && x != y && x != z && y != z ==> #[trigger] gates_view(gates@).contains(
                            toffoli_at(x, y, z),
                        ),
                    forall|y: usize, z: usize|
                        y < c2 && z < width && c1 != y && c1 != z && y != z ==> #[trigger] gates_view(gates@).contains(
                            toffoli_at(c1, y, z),
                        ),
                    forall|a: int, b: int|
                        0 <= a < b < gates@.len() ==> gate_less(#[trigger] gates_view(gates@)[a], #[trigger] gates_view(gates@)[b]),
                    forall|a: int, y: usize, z: usize| 0 <= a < gates@.len() && c2 <= y ==> #[trigger] gate_less(gates_view(gates@)[a], toffoli_at(c1, y, z)),
                    forall|a: int, x: usize, y: usize, z: usize| 0 <= a < gates@.len() && c1 < x ==> #[trigger] gate_less(gates_view(gates@)[a], toffoli_at(x, y, z)),
                decreases width - c2,
            {
                let mut t: usize = 0;
                while t < width
                    invariant
                        t <= width,
                        c1 < width,
                        c2 < width,
                        w == width,
                        w >= 3,
                        gates@.len() == w + w * (w - 1) + c1 * (w - 1) * (w - 2) + (c2 - (if c1 < c2 { 1int } else { 0int })) * (w - 2)
                            + (if c1 != c2 { t - (if c1 < t { 1int } else { 0int }) - (if c2 < t { 1int } else { 0int }) } else { 0int }),
                        forall|k: int| 0 <= k < gates@.len() ==> is_candidate(#[trigger] gates@[k]@, width as nat),
                        forall|j: usize| j < width ==> #[trigger] gates_view(gates@).contains(not_at(j)),
                        forall|x: usize, y: usize| x < width && y < width && x != y ==> #[trigger] gates_view(gates@).contains(cnot_at(x, y)),
                        forall|x: usize, y: usize, z: usize|
                            x < c1 && y < width && z < width && x != y && x != z && y != z ==> #[trigger] gates_view(gates@).contains(
                                toffoli_at(x, y, z),
                            ),
                        forall|y: usize, z: usize|
                            y < c2 && z < width && c1 != y && c1 != z && y != z ==> #[trigger] gates_view(gates@).contains(
                                toffoli_at(c1, y, z),
                            ),
                        forall|z: usize| z < t && c1 != c2 && c1 != z && c2 != z ==> #[trigger] gates_view(gates@).contains(
                            toffoli_at(c1, c2, z),
                        ),
                        forall|a: int, b: int|
                            0 <= a < b < gates@.len() ==> gate_less(#[trigger] gates_view(gates@)[a], #[trigger] gates_view(gates@)[b]),
                        forall|a: int, z: usize| 0 <= a < gates@.len() && t <= z ==> #[trigger] gate_less(gates_view(gates@)[a], toffoli_at(c1, c2, z)),
                        forall|a: int, y: usize, z: usize| 0 <= a < gates@.len() && c2 < y ==> #[trigger] gate_less(gates_view(gates@)[a], toffoli_at(c1, y, z)),
                        forall|a: int, x: usize, y: usize, z: usize| 0 <= a < gates@.len() && c1 < x ==> #[trigger] gate_less(gates_view(gates@)[a], toffoli_at(x, y, z)),
                    decreases width - t,
                {
                    if c1 != c2 && c1 != t && c2 != t {
                        let g = PositionalGate { gate_type: GateType::Toffoli, positions: vec![c1, c2, t] };
                        assert(g@ =~= toffoli_at(c1, c2, t));
                        let ghost v0 = gates_view(gates@);
                        proof {
                            lemma_sorted_push(v0, toffoli_at(c1, c2, t));
                        }
                        push_gate(&mut gates, g);
                        assert forall|a: int, z: usize| 0 <= a < gates@.len() && t + 1 <= z implies #[trigger] gate_less(gates_view(gates@)[a], toffoli_at(c1, c2, z)) by {
                            if a < v0.len() {
                                assert(gates_view(gates@)[a] == v0[a]);
                            }
                        }
                        assert forall|a: int, y: usize, z: usize| 0 <= a < gates@.len() && c2 < y implies #[trigger] gate_less(gates_view(gates@)[a], toffoli_at(c1, y, z)) by {
                            if a < v0.len() {
                                assert(gates_view(gates@)[a] == v0[a]);
                            }
                        }
                        assert forall|a: int, x: usize, y: usize, z: usize| 0 <= a < gates@.len() && c1 < x implies #[trigger] gate_less(gates_view(gates@)[a], toffoli_at(x, y, z)) by {
                            if a < v0.len() {
                                assert(gates_view(gates@)[a] == v0[a]);
                            }
                        }
                    }
                    t += 1;
                }
                proof {
                    let base = w + w * (w - 1) + c1 * (w - 1) * (w - 2);
                    let m = c2 - (if c1 < c2 { 1int } else { 0int });
                    if c1 != c2 {
                        assert(base + m * (w - 2) + (w - 2) == base + (m + 1) * (w - 2)) by (nonlinear_arith);
                    }
                }
                c2 += 1;
            }
            proof {
                let base = w + w * (w - 1);
                assert(base + c1 * (w - 1) * (w - 2) + (w - 1) * (w - 2) == base + (c1 + 1) * (w - 1) * (w - 2)) by (nonlinear_arith);
            }
            c1 += 1;
        }
    } else {
        proof {
            assert(w * (w - 1) * (w - 2) == 0) by (nonlinear_arith)
                requires
                    0 <= w < 3,
            ;
        }
    }
    proof {
        let gv = gates_view(gates@);
        assert forall|g: (GateType, Seq<usize>)| is_candidate(g, width as nat) implies #[trigger] gv.contains(g) by {
            let p = g.1;
            match g.0 {
                GateType::Not => {
                    assert(g =~= not_at(p[0]));
                    assert(p[0] < width);
                },
                GateType::Cnot => {
                    assert(g =~= cnot_at(p[0], p[1]));
                    assert(p[0] < width && p[1] < width);
                    assert(p[0] != p[1]);
                },
                GateType::Toffoli => {
                    assert(g =~= toffoli_at(p[0], p[1], p[2]));
                    assert(p[0] < width && p[1] < width && p[2] < width);
                    assert(p[0] != p[1] && p[0] != p[2] && p[1] != p[2]);
                    assert(width >= 3);
                },
            }
        }
    }
    proof {
        let gv = gates_view(gates@);
        assert forall|a: int, b: int| 0 <= a < gv.len() && 0 <= b < gv.len() && a != b implies gv[a] != gv[b] by {
            if a < b {
                assert(gate_less(gv[a], gv[b]));
            } else {
                assert(gate_less(gv[b], gv[a]));
            }
        }
    }
    gates
}

/// The permutation of `{0, ..., 2^width - 1}` that the gates compute: input
/// pattern `i` goes to the value of the output pattern.
pub open spec fn permutation_of_gates(width: nat, gates: Seq<(GateType, Seq<usize>)>) -> Seq<usize> {
    Seq::new(pow2(width), |i: int| bits_nat(run_positional(gates, index_bits(i as nat, width))) as usize)
}

/// Every gate of the list is a candidate on `width` bits.
pub open spec fn all_candidates(gates: Seq<(GateType, Seq<usize>)>, width: nat) -> bool {
    forall|k: int| 0 <= k < gates.len() ==> is_candidate(#[trigger] gates[k], width)
}

/// Apply `gates` (in order) to the bit pattern of each value of `perm`, and read
/// the results back as values.
fn apply_gates_to_perm(perm: &[usize], gates: &[PositionalGate], width: usize) -> (r: Vec<usize>)
    requires
        width < usize::BITS,
        forall|k: int| 0 <= k < gates@.len() ==> gate_fits(#[trigger] gates@[k]@, width as nat),
    ensures
        r@ == perm@.map_values(
            |v: usize| bits_nat(run_positional(gates_view(gates@), index_bits(v as nat, width as nat))) as usize,
        ),
{
    let ghost gv = gates_view(gates@);
    let mut r: Vec<usize> = Vec::new();
    let mut k: usize = 0;
    while k < perm.len()
        invariant
            k <= perm@.len(),
            width < usize::BITS,
            gv == gates_view(gates@),
            forall|j: int| 0 <= j < gates@.len() ==> gate_fits(#[trigger] gates@[j]@, width as nat),
            r@ == perm@.take(k as int).map_values(
                |v: usize| bits_nat(run_positional(gv, index_bits(v as nat, width as nat))) as usize,
            ),
        decreases perm@.len() - k,
    {
        let mut bits = index_to_bits(perm[k], width);
        let ghost start = bits@;
        proof {
            lemma_index_bits_is_bits(perm[k as int] as nat, width as nat);
        }
        let mut j: usize = 0;
        while j < gates.len()
            invariant
                j <= gates@.len(),
                gv == gates_view(gates@),
                forall|t: int| 0 <= t < gates@.len() ==> gate_fits(#[trigger] gates@[t]@, width as nat),
                start.len() == width,
                is_bit_string(start),
                bits@ == run_positional(gv.take(j as int), start),
                bits@.len() == width,
                is_bit_string(bits@),
            decreases gates@.len() - j,
        {
            proof {
                assert(gv.take(j + 1).drop_last() =~= gv.take(j as int));
                assert(gv[j as int] == gates@[j as int]@);
                lemma_gate_keeps_bits(gates@[j as int]@, bits@);
            }
            bits = gates[j].apply(bits.as_slice());
            j += 1;
        }
        assert(gv.take(gates@.len() as int) =~= gv);
        proof {
            lemma_bits_value_is_nat(bits@);
        }
        let v = bits_to_index(bits.as_slice());
        r.push(v);
        k += 1;
        assert(r@ =~= perm@.take(k as int).map_values(
            |v: usize| bits_nat(run_positional(gv, index_bits(v as nat, width as nat))) as usize,
        ));
    }
    assert(perm@.take(perm@.len() as int) =~= perm@);
    r
}

proof fn lemma_index_bits_is_bits(i: nat, w: nat)
    ensures
        is_bit_string(index_bits(i, w)),
        index_bits(i, w).len() == w,
{
    crate::bits::lemma_index_bits_value(i, w);
}

/// One more gate after a sequence: applied to the sequence's permutation, the
/// gate gives the permutation of the longer sequence.
proof fn lemma_extend_permutation(width: nat, gates: Seq<(GateType, Seq<usize>)>, g: (GateType, Seq<usize>))
    requires
        width < usize::BITS,
        forall|k: int| 0 <= k < gates.len() ==> gate_fits(#[trigger] gates[k], width),
        gate_fits(g, width),
    ensures
        permutation_of_gates(width, gates).map_values(
            |v: usize| bits_nat(run_positional(seq![g], index_bits(v as nat, width))) as usize,
        ) == permutation_of_gates(width, gates.push(g)),
{
    let p = permutation_of_gates(width, gates);
    let lhs = p.map_values(|v: usize| bits_nat(run_positional(seq![g], index_bits(v as nat, width))) as usize);
    let rhs = permutation_of_gates(width, gates.push(g));
    assert forall|i: int| 0 <= i < pow2(width) implies lhs[i] == rhs[i] by {
        let x = index_bits(i as nat, width);
        lemma_index_bits_is_bits(i as nat, width);
        lemma_run_positional_keeps_bits(gates, x);
        let y = run_positional(gates, x);
        lemma_bits_nat_bound(y);
        crate::bits::lemma_one_shl(width as usize);
        assert(bits_nat(y) as usize == bits_nat(y));
        lemma_bits_nat_index_bits(y);
        assert(index_bits(p[i] as nat, width) == y);
        assert(seq![g].drop_last() =~= Seq::<(GateType, Seq<usize>)>::empty());
        assert(gates.push(g).drop_last() =~= gates);
        assert(seq![g].last() == g);
        assert(run_positional(Seq::<(GateType, Seq<usize>)>::empty(), y) == y);
        assert(run_positional(seq![g], y) == gate_apply(g, y));
        assert(run_positional(gates.push(g), x) == gate_apply(g, y));
    }
    assert(lhs =~= rhs);
}

/// The name under which a gate type appears in a synthesized sequence.
pub open spec fn gate_name(t: GateType) -> Seq<char> {
    match t {
        GateType::Not => "NOT"@,
        GateType::Cnot => "CNOT"@,
        GateType::Toffoli => "Toffoli"@,
    }
}

/// What one named gate of a sequence does: "NOT" flips `positions[0]`, "CNOT"
/// xors `positions[0]` into `positions[1]`, "Toffoli" xors the and of
/// `positions[0]` and `positions[1]` into `positions[2]`; any other name does nothing.
pub open spec fn named_apply(entry: (Seq<char>, Seq<usize>), s: Seq<u8>) -> Seq<u8> {
    let p = entry.1;
    if entry.0 == "NOT"@ {
        s.update(p[0] as int, s[p[0] as int] ^ 1u8)
    } else if entry.0 == "CNOT"@ {
        s.update(p[1] as int, s[p[1] as int] ^ s[p[0] as int])
    } else if entry.0 == "Toffoli"@ {
        s.update(p[2] as int, s[p[2] as int] ^ (s[p[0] as int] & s[p[1] as int]))
    } else {
        s
    }
}

/// Run a named gate sequence, first to last.
pub open spec fn run_named(sequence: Seq<(Seq<char>, Seq<usize>)>, s: Seq<u8>) -> Seq<u8>
    decreases sequence.len(),
{
    if sequence.len() == 0 {
        s
    } else {
        named_apply(sequence.last(), run_named(sequence.drop_last(), s))
    }
}

/// The positions a named gate uses exist and lie below `width`.
pub open spec fn named_fits(entry: (Seq<char>, Seq<usize>), width: nat) -> bool {
    let p = entry.1;
    &&& entry.0 == "NOT"@ ==> p.len() >= 1 && p[0] < width
    &&& entry.0 == "CNOT"@ ==> p.len() >= 2 && p[0] < width && p[1] < width
    &&& entry.0 == "Toffoli"@ ==> p.len() >= 3 && p[0] < width && p[1] < width && p[2] < width
}

/// The view of a named gate sequence.
pub open spec fn sequence_view(v: Seq<(String, Vec<usize>)>) -> Seq<(Seq<char>, Seq<usize>)> {
    v.map_values(|e: (String, Vec<usize>)| (e.0@, e.1@))
}

/// The named form of a positional gate sequence.
pub open spec fn named_gates(gates: Seq<(GateType, Seq<usize>)>) -> Seq<(Seq<char>, Seq<usize>)> {
    gates.map_values(|g: (GateType, Seq<usize>)| (gate_name(g.0), g.1))
}

/// The quantum cost of the gates, or `usize::MAX` when it is larger.
pub open spec fn capped_cost(gates: Seq<(GateType, Seq<usize>)>) -> nat {
    if positional_cost(gates) <= usize::MAX {
        positional_cost(gates)
    } else {
        usize::MAX as nat
    }
}

/// Sum of the quantum costs of the gates.
pub open spec fn positional_cost(gates: Seq<(GateType, Seq<usize>)>) -> nat
    decreases gates.len(),
{
    if gates.len() == 0 {
        0
    } else {
        positional_cost(gates.drop_last()) + type_cost(gates.last().0)
    }
}

/// Running the named form of a gate sequence is running the sequence.
pub proof fn lemma_named_gates_run(gates: Seq<(GateType, Seq<usize>)>, s: Seq<u8>)
    ensures
        run_named(named_gates(gates), s) == run_positional(gates, s),
    decreases gates.len(),
{
    reveal_strlit("NOT");
    reveal_strlit("CNOT");
    reveal_strlit("Toffoli");
    if gates.len() > 0 {
        assert(named_gates(gates).drop_last() =~= named_gates(gates.drop_last()));
        lemma_named_gates_run(gates.drop_last(), s);
        let g = gates.last();
        let t = run_positional(gates.drop_last(), s);
        let e = named_gates(gates).last();
        assert(e == (gate_name(g.0), g.1));
        match g.0 {
            GateType::Not => {
                assert(e.0 == "NOT"@);
            },
            GateType::Cnot => {
                assert(e.0 == "CNOT"@);
                assert(e.0 != "NOT"@);
            },
            GateType::Toffoli => {
                assert(e.0 == "Toffoli"@);
                assert(e.0 != "NOT"@);
                assert(e.0 != "CNOT"@);
            },
        }
        assert(named_apply(e, t) == gate_apply(g, t));
    }
}

/// Apply a named gate sequence to a bit vector. Each "NOT", "CNOT" or "Toffoli"
/// entry must name positions below the vector's length; other names are skipped.
pub fn apply_sequence(bits: &[u8], sequence: &[(String, Vec<usize>)]) -> (r: Vec<u8>)
    requires
        forall|k: int| 0 <= k < sequence@.len() ==> named_fits(#[trigger] sequence_view(sequence@)[k], bits@.len()),
    ensures
        r@ == run_named(sequence_view(sequence@), bits@),
{
    let ghost sv = sequence_view(sequence@);
    let not_name = "NOT".to_owned();
    let cnot_name = "CNOT".to_owned();
    let toffoli_name = "Toffoli".to_owned();
    let mut result = copy_bits(bits);
    let mut k: usize = 0;
    while k < sequence.len()
        invariant
            k <= sequence@.len(),
            sv == sequence_view(sequence@),
            not_name@ == "NOT"@,
            cnot_name@ == "CNOT"@,
            toffoli_name@ == "Toffoli"@,
            forall|j: int| 0 <= j < sequence@.len() ==> named_fits(#[trigger] sv[j], bits@.len()),
            result@ == run_named(sv.take(k as int), bits@),
            result@.len() == bits@.len(),
        decreases sequence@.len() - k,
    {
        let name = &sequence[k].0;
        let positions = &sequence[k].1;
        proof {
            assert(sv.take(k + 1).drop_last() =~= sv.take(k as int));
            assert(sv[k as int] == (name@, positions@));
            assert(named_fits(sv[k as int], bits@.len()));
        }
        if *name == not_name {
            let p = positions[0];
            let v = result[p] ^ 1;
            result.set(p, v);
        } else if *name == cnot_name {
            let v = result[positions[1]] ^ result[positions[0]];
            result.set(positions[1], v);
        } else if *name == toffoli_name {
            let v = result[positions[2]] ^ (result[positions[0]] & result[positions[1]]);
            result.set(positions[2], v);
        }
        k += 1;
    }
    assert(sv.take(sequence@.len() as int) =~= sv);
    result
}

/// No named gate uses a position twice: a CNOT's control differs from its
/// target, and a Toffoli's target differs from both controls.
pub open spec fn named_distinct(entry: (Seq<char>, Seq<usize>)) -> bool {
    let p = entry.1;
    &&& entry.0 == "CNOT"@ ==> p[0] != p[1]
    &&& entry.0 == "Toffoli"@ ==> p[2] != p[0] && p[2] != p[1]
}

/// A named gate whose positions fit keeps the length of the state, and applying
/// it twice (when it uses no position twice) gives back the state.
proof fn lemma_named_apply_twice(e: (Seq<char>, Seq<usize>), s: Seq<u8>)
    requires
        named_fits(e, s.len()),
    ensures
        named_apply(e, s).len() == s.len(),
        named_distinct(e) ==> named_apply(e, named_apply(e, s)) == s,
{
    let p = e.1;
    let t = named_apply(e, s);
    if named_distinct(e) {
        if e.0 == "NOT"@ {
            let v = s[p[0] as int];
            assert((v ^ 1u8) ^ 1u8 == v) by (bit_vector);
            assert(named_apply(e, t) =~= s);
        } else if e.0 == "CNOT"@ {
            let v = s[p[1] as int];
            let c = s[p[0] as int];
            assert((v ^ c) ^ c == v) by (bit_vector);
            assert(t[p[0] as int] == c);
            assert(named_apply(e, t) =~= s);
        } else if e.0 == "Toffoli"@ {
            let v = s[p[2] as int];
            let a = s[p[0] as int];
            let b = s[p[1] as int];
            assert((v ^ (a & b)) ^ (a & b) == v) by (bit_vector);
            assert(t[p[0] as int] == a && t[p[1] as int] == b);
            assert(named_apply(e, t) =~= s);
        }
    }
}

/// Applying the empty sequence changes nothing, and applying a concatenation
/// is applying its parts in turn.
pub proof fn lemma_run_named_concat(a: Seq<(Seq<char>, Seq<usize>)>, b: Seq<(Seq<char>, Seq<usize>)>, s: Seq<u8>)
    ensures
        run_named(Seq::<(Seq<char>, Seq<usize>)>::empty(), s) == s,
        run_named(a + b, s) == run_named(b, run_named(a, s)),
    decreases b.len(),
{
    if b.len() == 0 {
        assert(a + b =~= a);
    } else {
        assert((a + b).drop_last() =~= a + b.drop_last());
        assert((a + b).last() == b.last());
        lemma_run_named_concat(a, b.drop_last(), s);
    }
}

/// Applying a sequence and then the same sequence reversed gives back the bits,
/// when every entry fits the bits and uses no position twice.
pub proof fn lemma_run_named_reverse(sequence: Seq<(Seq<char>, Seq<usize>)>, s: Seq<u8>)
    requires
        forall|k: int| 0 <= k < sequence.len() ==> named_fits(#[trigger] sequence[k], s.len()) && named_distinct(sequence[k]),
    ensures
        run_named(sequence, s).len() == s.len(),
        run_named(sequence.reverse(), run_named(sequence, s)) == s,
    decreases sequence.len(),
{
    if sequence.len() > 0 {
        let pre = sequence.drop_last();
        let e = sequence.last();
        assert(e == sequence[sequence.len() - 1]);
        assert forall|k: int| 0 <= k < pre.len() implies named_fits(#[trigger] pre[k], s.len()) && named_distinct(pre[k]) by {
            assert(pre[k] == sequence[k]);
        }
        lemma_run_named_reverse(pre, s);
        let x = run_named(pre, s);
        lemma_named_apply_twice(e, x);
        let y = named_apply(e, x);
        lemma_named_apply_twice(e, y);
        assert(sequence.reverse() =~= seq![e] + pre.reverse());
        lemma_run_named_concat(seq![e], pre.reverse(), y);
        assert(seq![e].drop_last() =~= Seq::<(Seq<char>, Seq<usize>)>::empty());
        assert(seq![e].last() == e);
        assert(run_named(Seq::<(Seq<char>, Seq<usize>)>::empty(), y) == y);
        assert(run_named(seq![e], y) == named_apply(e, y));
    }
}

/// Result of gate synthesis.
#[derive(Debug, Clone)]
pub struct SynthesisResult {
    /// The synthesized circuit as a list of (gate name, positions) pairs.
    pub gate_sequence: Vec<(String, Vec<usize>)>,
    /// Number of gates in the result.
    pub gate_count: usize,
    /// Quantum cost of the result.
    pub quantum_cost: usize,
    /// Whether synthesis found an exact match.
    pub exact: bool,
    /// Number of search states expanded.
    pub iterations: usize,
    /// Width of the circuit.
    pub width: usize,
}

/// A truth table for synthesis: a list of (input, output) bit-pattern pairs.
pub type TruthTable = Vec<(Vec<u8>, Vec<u8>)>;

/// The view of a truth table.
pub open spec fn table_view(t: Seq<(Vec<u8>, Vec<u8>)>) -> Seq<(Seq<u8>, Seq<u8>)> {
    t.map_values(|e: (Vec<u8>, Vec<u8>)| (e.0@, e.1@))
}

/// The mapping a truth table asks for on `n` values: start from all zeros, and for
/// each row in order map the input's value to the output's value (a later row
/// for the same input wins).
pub open spec fn table_target(n: nat, table: Seq<(Seq<u8>, Seq<u8>)>) -> Seq<usize>
    decreases table.len(),
{
    if table.len() == 0 {
        Seq::new(n, |i: int| 0usize)
    } else {
        table_target(n, table.drop_last()).update(
            bits_value(table.last().0) as int,
            bits_value(table.last().1),
        )
    }
}

/// The mapping that `synthesize` looks for on `width` bits.
pub open spec fn synthesis_target(width: nat, table: Seq<(Seq<u8>, Seq<u8>)>) -> Seq<usize> {
    table_target(pow2(width), table)
}

/// The named gate sequence maps every input pattern `i` of `width` bits to the
/// pattern of value `target[i]`.
pub open spec fn implements(width: nat, sequence: Seq<(Seq<char>, Seq<usize>)>, target: Seq<usize>) -> bool {
    forall|i: nat| i < pow2(width) ==> #[trigger] bits_nat(run_named(sequence, index_bits(i, width))) == target[i as int]
}

/// The gates returned when the search gives up: a NOT on bit 0 (none at width 0).
pub open spec fn fallback_gates(width: nat) -> Seq<(GateType, Seq<usize>)> {
    if width >= 1 {
        seq![(GateType::Not, seq![0usize])]
    } else {
        Seq::empty()
    }
}

/// A search state: the permutation reached and the gates that reach it.
spec fn state_ok(width: nat, state: (Vec<usize>, Vec<PositionalGate>), depth_bound: nat) -> bool {
    &&& state.0@ == permutation_of_gates(width, gates_view(state.1@))
    &&& all_candidates(gates_view(state.1@), width)
    &&& state.1@.len() <= depth_bound
}

/// Some sequence of fewer than `len` candidate gates on `width` bits computes `p`.
pub open spec fn reached_below(width: nat, p: Seq<usize>, len: nat) -> bool {
    exists|gs: Seq<(GateType, Seq<usize>)>|
        all_candidates(gs, width) && gs.len() < len && #[trigger] permutation_of_gates(width, gs) == p
}

/// No list of distinct permutations, each computed by fewer than `len` candidate
/// gates on `width` bits, has more than `budget` entries.
pub open spec fn few_reached_below(width: nat, len: nat, budget: nat) -> bool {
    forall|ps: Seq<Seq<usize>>|
        #[trigger] ps.no_duplicates() && (forall|i: int| 0 <= i < ps.len() ==> reached_below(width, #[trigger] ps[i], len))
            ==> ps.len() <= budget
}

/// Every permutation computed by fewer than `len` candidate gates on `width`
/// bits is in `ps`.
pub open spec fn covers_below(width: nat, ps: Seq<Seq<usize>>, len: nat) -> bool {
    forall|gs: Seq<(GateType, Seq<usize>)>|
        all_candidates(gs, width) && gs.len() < len ==> ps.contains(#[trigger] permutation_of_gates(width, gs))
}

/// `ps` can be the list of states a breadth-first search expanded before it
/// found a sequence of `count` gates: distinct permutations, each computed by
/// fewer than `count` candidate gates, holding every permutation computed by
/// fewer than `count - 1` gates (every earlier level in full).
pub open spec fn expanded_states(width: nat, ps: Seq<Seq<usize>>, count: nat) -> bool {
    &&& ps.no_duplicates()
    &&& forall|i: int| 0 <= i < ps.len() ==> reached_below(width, #[trigger] ps[i], count)
    &&& count >= 1 ==> covers_below(width, ps, (count - 1) as nat)
}

/// A search that answers with a single gate has expanded at most one state, the
/// starting one.
pub proof fn lemma_one_gate_search(width: nat, ps: Seq<Seq<usize>>)
    requires
        expanded_states(width, ps, 1),
    ensures
        ps.len() <= 1,
        ps.len() == 1 ==> ps[0] == permutation_of_gates(width, Seq::<(GateType, Seq<usize>)>::empty()),
{
    let e = Seq::<(GateType, Seq<usize>)>::empty();
    assert forall|i: int| 0 <= i < ps.len() implies ps[i] == permutation_of_gates(width, e) by {
        assert(reached_below(width, ps[i], 1));
        let gs = choose|gs: Seq<(GateType, Seq<usize>)>|
            all_candidates(gs, width) && gs.len() < 1 && #[trigger] permutation_of_gates(width, gs) == ps[i];
        assert(gs =~= e);
    }
    if ps.len() > 1 {
        assert(ps[0] == ps[1]);
    }
}

/// The states expanded by a search that answers with `count` gates are no more
/// than any bound on the distinct permutations computed by fewer than `count`
/// gates.
pub proof fn lemma_expanded_bounded(width: nat, ps: Seq<Seq<usize>>, count: nat, budget: nat)
    requires
        expanded_states(width, ps, count),
        few_reached_below(width, count, budget),
    ensures
        ps.len() <= budget,
{
}

/// Appending to a list keeps what it covers.
proof fn lemma_covers_push(width: nat, ps: Seq<Seq<usize>>, len: nat, x: Seq<usize>)
    requires
        covers_below(width, ps, len),
    ensures
        covers_below(width, ps.push(x), len),
{
    assert forall|gs: Seq<(GateType, Seq<usize>)>| all_candidates(gs, width) && gs.len() < len implies ps.push(x).contains(
        #[trigger] permutation_of_gates(width, gs),
    ) by {
        let k = choose|k: int| 0 <= k < ps.len() && ps[k] == permutation_of_gates(width, gs);
        assert(ps.push(x)[k] == ps[k]);
    }
}

/// Once every state of a level has been expanded, the expanded states cover the
/// permutations of one more gate.
proof fn lemma_covers_next(
    width: nat,
    p0: Seq<Seq<usize>>,
    current: Seq<(Vec<usize>, Vec<PositionalGate>)>,
    len: nat,
)
    requires
        covers_below(width, p0, len),
        level_complete(width, current, len),
    ensures
        covers_below(width, p0 + level_perms(current), len + 1),
{
    let all = p0 + level_perms(current);
    assert forall|gs: Seq<(GateType, Seq<usize>)>| all_candidates(gs, width) && gs.len() < len + 1 implies all.contains(
        #[trigger] permutation_of_gates(width, gs),
    ) by {
        let p = permutation_of_gates(width, gs);
        if gs.len() < len {
            let k = choose|k: int| 0 <= k < p0.len() && p0[k] == p;
            assert(all[k] == p0[k]);
        } else if reached_below(width, p, len) {
            let gs2 = choose|gs2: Seq<(GateType, Seq<usize>)>|
                all_candidates(gs2, width) && gs2.len() < len && #[trigger] permutation_of_gates(width, gs2) == p;
            assert(p0.contains(permutation_of_gates(width, gs2)));
            let k = choose|k: int| 0 <= k < p0.len() && p0[k] == p;
            assert(all[k] == p0[k]);
        } else {
            assert(in_level(current, p));
            let e = choose|e: int| 0 <= e < current.len() && #[trigger] current[e].0@ == p;
            assert(all[p0.len() + e] == level_perms(current)[e]);
        }
    }
}

/// The permutations recorded by the search.
spec fn visited_perms(v: Seq<Vec<usize>>) -> Seq<Seq<usize>> {
    v.map_values(|x: Vec<usize>| x@)
}

/// The permutations held by the states of a level.
spec fn level_perms(level: Seq<(Vec<usize>, Vec<PositionalGate>)>) -> Seq<Seq<usize>> {
    level.map_values(|e: (Vec<usize>, Vec<PositionalGate>)| e.0@)
}

/// Some state of the level holds the permutation `p`.
spec fn in_level(level: Seq<(Vec<usize>, Vec<PositionalGate>)>, p: Seq<usize>) -> bool {
    exists|e: int| 0 <= e < level.len() && #[trigger] level[e].0@ == p
}

/// Some recorded state holds the permutation `p`.
spec fn in_visited(visited: Seq<Vec<usize>>, p: Seq<usize>) -> bool {
    exists|k: int| 0 <= k < visited.len() && #[trigger] visited[k]@ == p
}

/// No sequence of at most `len` candidate gates computes `target`.
spec fn no_short(width: nat, target: Seq<usize>, len: nat) -> bool {
    forall|gs: Seq<(GateType, Seq<usize>)>|
        all_candidates(gs, width) && gs.len() <= len ==> #[trigger] permutation_of_gates(width, gs) != target
}

/// Every permutation computed by `len` candidate gates is computed by fewer, or
/// is held by a state of the level.
spec fn level_complete(width: nat, level: Seq<(Vec<usize>, Vec<PositionalGate>)>, len: nat) -> bool {
    forall|gs: Seq<(GateType, Seq<usize>)>|
        all_candidates(gs, width) && gs.len() == len ==> reached_below(width, #[trigger] permutation_of_gates(width, gs), len)
            || in_level(level, permutation_of_gates(width, gs))
}

/// Every recorded permutation is computed by fewer than `len` gates, or is held by a state of the level.
spec fn visited_covered(width: nat, visited: Seq<Vec<usize>>, level: Seq<(Vec<usize>, Vec<PositionalGate>)>, len: nat) -> bool {
    forall|k: int| 0 <= k < visited.len() ==> reached_below(width, #[trigger] visited[k]@, len) || in_level(level, visited[k]@)
}

/// The first `upto` candidates have been tried after the state's gates: each
/// product is recorded and is not the target.
spec fn expanded(
    width: nat,
    visited: Seq<Vec<usize>>,
    target: Seq<usize>,
    state: (Vec<usize>, Vec<PositionalGate>),
    cands: Seq<PositionalGate>,
    upto: int,
) -> bool {
    forall|c: int|
        0 <= c < upto ==> in_visited(visited, permutation_of_gates(width, gates_view(state.1@).push(#[trigger] cands[c]@)))
            && permutation_of_gates(width, gates_view(state.1@).push(cands[c]@)) != target
}

/// A state of level `len`: its permutation is computed by its `len` candidate gates.
spec fn level_state(width: nat, state: (Vec<usize>, Vec<PositionalGate>), len: nat) -> bool {
    &&& state.0@ == permutation_of_gates(width, gates_view(state.1@))
    &&& all_candidates(gates_view(state.1@), width)
    &&& state.1@.len() == len
}

/// Sequences with the same permutation give the same permutation after one more gate.
proof fn lemma_same_extension(
    width: nat,
    a: Seq<(GateType, Seq<usize>)>,
    b: Seq<(GateType, Seq<usize>)>,
    g: (GateType, Seq<usize>),
)
    requires
        width < usize::BITS,
        all_candidates(a, width),
        all_candidates(b, width),
        is_candidate(g, width),
        permutation_of_gates(width, a) == permutation_of_gates(width, b),
    ensures
        permutation_of_gates(width, a.push(g)) == permutation_of_gates(width, b.push(g)),
        all_candidates(a.push(g), width),
{
    assert forall|k: int| 0 <= k < a.len() implies gate_fits(#[trigger] a[k], width) by {
        lemma_candidate_fits(a[k], width);
    }
    assert forall|k: int| 0 <= k < b.len() implies gate_fits(#[trigger] b[k], width) by {
        lemma_candidate_fits(b[k], width);
    }
    lemma_candidate_fits(g, width);
    lemma_extend_permutation(width, a, g);
    lemma_extend_permutation(width, b, g);
    assert forall|k: int| 0 <= k < a.push(g).len() implies is_candidate(#[trigger] a.push(g)[k], width) by {
        if k < a.len() {
            assert(a.push(g)[k] == a[k]);
        }
    }
}

/// Sequences with the same permutation give the same permutation after the same
/// further gates.
proof fn lemma_same_suffix(
    width: nat,
    a: Seq<(GateType, Seq<usize>)>,
    b: Seq<(GateType, Seq<usize>)>,
    rest: Seq<(GateType, Seq<usize>)>,
)
    requires
        width < usize::BITS,
        all_candidates(a, width),
        all_candidates(b, width),
        all_candidates(rest, width),
        permutation_of_gates(width, a) == permutation_of_gates(width, b),
    ensures
        permutation_of_gates(width, a + rest) == permutation_of_gates(width, b + rest),
        all_candidates(a + rest, width),
    decreases rest.len(),
{
    if rest.len() == 0 {
        assert(a + rest =~= a);
        assert(b + rest =~= b);
    } else {
        let r1 = rest.drop_last();
        let g = rest.last();
        assert(all_candidates(r1, width)) by {
            assert forall|k: int| 0 <= k < r1.len() implies is_candidate(#[trigger] r1[k], width) by {
                assert(r1[k] == rest[k]);
            }
        }
        assert(is_candidate(g, width)) by {
            assert(g == rest[rest.len() - 1]);
        }
        lemma_same_suffix(width, a, b, r1);
        lemma_same_suffix(width, b, b, r1);
        lemma_same_extension(width, a + r1, b + r1, g);
        assert((a + r1).push(g) =~= a + rest);
        assert((b + r1).push(g) =~= b + rest);
    }
}

/// When a level of the search comes out empty, a target that no sequence of at
/// most `len` gates computes is computed by no sequence at all.
proof fn lemma_exhausted(
    width: nat,
    target: Seq<usize>,
    level: Seq<(Vec<usize>, Vec<PositionalGate>)>,
    len: nat,
    gs: Seq<(GateType, Seq<usize>)>,
)
    requires
        width < usize::BITS,
        no_short(width, target, len),
        level.len() == 0,
        level_complete(width, level, len),
        all_candidates(gs, width),
    ensures
        permutation_of_gates(width, gs) != target,
    decreases gs.len(),
{
    if gs.len() <= len {
        assert(permutation_of_gates(width, gs) != target);
    } else {
        let pre = gs.take(len as int);
        let rest = gs.skip(len as int);
        assert(all_candidates(pre, width)) by {
            assert forall|k: int| 0 <= k < pre.len() implies is_candidate(#[trigger] pre[k], width) by {
                assert(pre[k] == gs[k]);
            }
        }
        assert(all_candidates(rest, width)) by {
            assert forall|k: int| 0 <= k < rest.len() implies is_candidate(#[trigger] rest[k], width) by {
                assert(rest[k] == gs[k + len]);
            }
        }
        let pp = permutation_of_gates(width, pre);
        assert(reached_below(width, pp, len) || in_level(level, pp));
        let gs2 = choose|gs2: Seq<(GateType, Seq<usize>)>|
            all_candidates(gs2, width) && gs2.len() < len && #[trigger] permutation_of_gates(width, gs2) == pp;
        lemma_same_suffix(width, gs2, pre, rest);
        assert(pre + rest =~= gs);
        lemma_exhausted(width, target, level, len, gs2 + rest);
    }
}

/// A list of distinct permutations, each computed by at most `len` gates, fits in
/// the budget of a sequence `gs` that computes a target no sequence of at most
/// `len` gates computes.
proof fn lemma_budget_bound(
    width: nat,
    target: Seq<usize>,
    len: nat,
    gs: Seq<(GateType, Seq<usize>)>,
    budget: nat,
    ps: Seq<Seq<usize>>,
)
    requires
        no_short(width, target, len),
        all_candidates(gs, width),
        permutation_of_gates(width, gs) == target,
        few_reached_below(width, gs.len(), budget),
        ps.no_duplicates(),
        forall|i: int| 0 <= i < ps.len() ==> reached_below(width, #[trigger] ps[i], len + 1),
    ensures
        ps.len() <= budget,
{
    if gs.len() <= len {
        assert(permutation_of_gates(width, gs) != target);
    }
    assert forall|i: int| 0 <= i < ps.len() implies reached_below(width, #[trigger] ps[i], gs.len()) by {
        let w = choose|w: Seq<(GateType, Seq<usize>)>|
            all_candidates(w, width) && w.len() < len + 1 && #[trigger] permutation_of_gates(width, w) == ps[i];
        assert(permutation_of_gates(width, w) == ps[i]);
    }
}

/// A list without repeats that is followed by a nonempty list without shared
/// entries stays without repeats when the first entry of the second list is added.
proof fn lemma_no_dup_prefix(a: Seq<Seq<usize>>, b: Seq<Seq<usize>>)
    requires
        (a + b).no_duplicates(),
        b.len() > 0,
    ensures
        a.push(b[0]).no_duplicates(),
{
    let c = a + b;
    let d = a.push(b[0]);
    assert forall|i: int, j: int| 0 <= i < d.len() && 0 <= j < d.len() && i != j implies d[i] != d[j] by {
        assert(d[i] == c[i]);
        assert(d[j] == c[j]);
    }
}

/// Adding an entry that does not occur keeps a list without repeats.
proof fn lemma_no_dup_push(a: Seq<Seq<usize>>, x: Seq<usize>)
    requires
        a.no_duplicates(),
        !a.contains(x),
    ensures
        a.push(x).no_duplicates(),
{
    let d = a.push(x);
    assert forall|i: int, j: int| 0 <= i < d.len() && 0 <= j < d.len() && i != j implies d[i] != d[j] by {
        if i < a.len() && j < a.len() {
            assert(d[i] == a[i] && d[j] == a[j]);
        } else if i < a.len() {
            assert(d[i] == a[i]);
        } else if j < a.len() {
            assert(d[j] == a[j]);
        }
    }
}

/// When every state of level `len` has been expanded by every candidate, the
/// search knows the next level: no sequence of at most `len + 1` gates computes
/// the target, and every permutation computed by `len + 1` gates is computed by
/// fewer or is held by a state of the next level.
proof fn lemma_level_done(
    width: nat,
    target: Seq<usize>,
    cands: Seq<PositionalGate>,
    current: Seq<(Vec<usize>, Vec<PositionalGate>)>,
    next: Seq<(Vec<usize>, Vec<PositionalGate>)>,
    visited: Seq<Vec<usize>>,
    len: nat,
)
    requires
        width < usize::BITS,
        no_short(width, target, len),
        level_complete(width, current, len),
        forall|e: int| 0 <= e < current.len() ==> level_state(width, #[trigger] current[e], len),
        visited_covered(width, visited, next, len + 1),
        forall|e: int| 0 <= e < current.len() ==> expanded(width, visited, target, #[trigger] current[e], cands, cands.len() as int),
        forall|g: (GateType, Seq<usize>)| is_candidate(g, width) ==> #[trigger] gates_view(cands).contains(g),
    ensures
        no_short(width, target, len + 1),
        level_complete(width, next, len + 1),
{
    assert forall|gs: Seq<(GateType, Seq<usize>)>|
        all_candidates(gs, width) && gs.len() == len + 1 implies #[trigger] permutation_of_gates(width, gs) != target
            && (reached_below(width, permutation_of_gates(width, gs), len + 1) || in_level(next, permutation_of_gates(width, gs))) by {
        let pre = gs.drop_last();
        let g = gs.last();
        assert(gs =~= pre.push(g));
        assert(all_candidates(pre, width)) by {
            assert forall|k: int| 0 <= k < pre.len() implies is_candidate(#[trigger] pre[k], width) by {
                assert(pre[k] == gs[k]);
            }
        }
        assert(is_candidate(g, width)) by {
            assert(g == gs[gs.len() - 1]);
        }
        let pp = permutation_of_gates(width, pre);
        assert(reached_below(width, pp, len) || in_level(current, pp));
        if reached_below(width, pp, len) {
            let gs2 = choose|gs2: Seq<(GateType, Seq<usize>)>|
                all_candidates(gs2, width) && gs2.len() < len && #[trigger] permutation_of_gates(width, gs2) == pp;
            lemma_same_extension(width, gs2, pre, g);
            assert(permutation_of_gates(width, gs2.push(g)) != target);
            assert(reached_below(width, permutation_of_gates(width, gs), len + 1));
        } else {
            let e = choose|e: int| 0 <= e < current.len() && #[trigger] current[e].0@ == pp;
            assert(level_state(width, current[e], len));
            let es = gates_view(current[e].1@);
            assert(gates_view(cands).contains(g));
            let c = choose|c: int| 0 <= c < gates_view(cands).len() && gates_view(cands)[c] == g;
            assert(cands[c]@ == g);
            assert(expanded(width, visited, target, current[e], cands, cands.len() as int));
            assert(in_visited(visited, permutation_of_gates(width, es.push(cands[c]@))));
            lemma_same_extension(width, es, pre, g);
            let q = permutation_of_gates(width, gs);
            let k = choose|k: int| 0 <= k < visited.len() && #[trigger] visited[k]@ == q;
            assert(reached_below(width, visited[k]@, len + 1) || in_level(next, visited[k]@));
        }
    }
}

/// The search starts at level 0 with the identity, which is not the target.
proof fn lemma_first_level(
    width: nat,
    target: Seq<usize>,
    level: Seq<(Vec<usize>, Vec<PositionalGate>)>,
    visited: Seq<Vec<usize>>,
)
    requires
        width < usize::BITS,
        target != identity_mapping(pow2(width)),
        level.len() == 1,
        visited.len() == 1,
        level[0].0@ == identity_mapping(pow2(width)),
        level[0].1@.len() == 0,
        visited[0]@ == identity_mapping(pow2(width)),
    ensures
        forall|e: int| 0 <= e < level.len() ==> level_state(width, #[trigger] level[e], 0),
        no_short(width, target, 0),
        level_complete(width, level, 0),
        visited_covered(width, visited, level, 0),
{
    lemma_identity_reached(width);
    assert(gates_view(level[0].1@) =~= Seq::<(GateType, Seq<usize>)>::empty());
    assert(level_state(width, level[0], 0));
    assert forall|gs: Seq<(GateType, Seq<usize>)>| all_candidates(gs, width) && gs.len() <= 0 implies #[trigger] permutation_of_gates(width, gs) != target by {
        assert(gs =~= Seq::<(GateType, Seq<usize>)>::empty());
    }
    assert forall|gs: Seq<(GateType, Seq<usize>)>|
        all_candidates(gs, width) && gs.len() == 0 implies reached_below(width, #[trigger] permutation_of_gates(width, gs), 0)
            || in_level(level, permutation_of_gates(width, gs)) by {
        assert(gs =~= Seq::<(GateType, Seq<usize>)>::empty());
        assert(level[0].0@ == permutation_of_gates(width, gs));
    }
    assert forall|k: int| 0 <= k < visited.len() implies reached_below(width, #[trigger] visited[k]@, 0) || in_level(level, visited[k]@) by {
        assert(level[0].0@ == visited[k]@);
    }
}

/// Recorded permutations covered by the current level are covered, for the next
/// level, by the gates of their states.
proof fn lemma_covered_widen(
    width: nat,
    visited: Seq<Vec<usize>>,
    current: Seq<(Vec<usize>, Vec<PositionalGate>)>,
    next: Seq<(Vec<usize>, Vec<PositionalGate>)>,
    len: nat,
)
    requires
        visited_covered(width, visited, current, len),
        forall|e: int| 0 <= e < current.len() ==> level_state(width, #[trigger] current[e], len),
    ensures
        visited_covered(width, visited, next, len + 1),
{
    assert forall|k: int| 0 <= k < visited.len() implies reached_below(width, #[trigger] visited[k]@, len + 1) || in_level(next, visited[k]@) by {
        if in_level(current, visited[k]@) {
            let e = choose|e: int| 0 <= e < current.len() && #[trigger] current[e].0@ == visited[k]@;
            assert(level_state(width, current[e], len));
            let gs = gates_view(current[e].1@);
            assert(permutation_of_gates(width, gs) == visited[k]@);
        } else {
            let gs = choose|gs: Seq<(GateType, Seq<usize>)>|
                all_candidates(gs, width) && gs.len() < len && #[trigger] permutation_of_gates(width, gs) == visited[k]@;
            assert(permutation_of_gates(width, gs) == visited[k]@);
        }
    }
}

/// Recording a new permutation, with its state in the next level, keeps every
/// recorded permutation covered and everything recorded before still recorded.
proof fn lemma_record_state(
    width: nat,
    v0: Seq<Vec<usize>>,
    n0: Seq<(Vec<usize>, Vec<PositionalGate>)>,
    v1: Seq<Vec<usize>>,
    n1: Seq<(Vec<usize>, Vec<PositionalGate>)>,
    q: Seq<usize>,
    len: nat,
)
    requires
        visited_covered(width, v0, n0, len),
        v1.len() == v0.len() + 1,
        v1.take(v0.len() as int) == v0,
        v1[v0.len() as int]@ == q,
        n1.len() == n0.len() + 1,
        n1.take(n0.len() as int) == n0,
        n1[n0.len() as int].0@ == q,
    ensures
        visited_covered(width, v1, n1, len),
{
    assert forall|k: int| 0 <= k < v1.len() implies reached_below(width, #[trigger] v1[k]@, len) || in_level(n1, v1[k]@) by {
        if k < v0.len() {
            assert(v1[k] == v0[k]) by {
                assert(v1.take(v0.len() as int)[k] == v1[k]);
            }
            if in_level(n0, v0[k]@) {
                let e = choose|e: int| 0 <= e < n0.len() && #[trigger] n0[e].0@ == v0[k]@;
                assert(n1[e] == n0[e]) by {
                    assert(n1.take(n0.len() as int)[e] == n1[e]);
                }
            }
        } else {
            assert(n1[n0.len() as int].0@ == v1[k]@);
        }
    }
}

/// After candidate `c` of state `s` has been tried, the first `c + 1` candidates
/// are expanded for it, and earlier states stay expanded.
proof fn lemma_expanded_step(
    width: nat,
    v0: Seq<Vec<usize>>,
    v1: Seq<Vec<usize>>,
    target: Seq<usize>,
    level: Seq<(Vec<usize>, Vec<PositionalGate>)>,
    cands: Seq<PositionalGate>,
    s: int,
    c: int,
    q: Seq<usize>,
)
    requires
        0 <= s < level.len(),
        0 <= c < cands.len(),
        v0.len() <= v1.len(),
        v1.take(v0.len() as int) == v0,
        in_visited(v1, q),
        q == permutation_of_gates(width, gates_view(level[s].1@).push(cands[c]@)),
        q != target,
        forall|e: int| 0 <= e < s ==> expanded(width, v0, target, #[trigger] level[e], cands, cands.len() as int),
        expanded(width, v0, target, level[s], cands, c),
    ensures
        forall|e: int| 0 <= e < s ==> expanded(width, v1, target, #[trigger] level[e], cands, cands.len() as int),
        expanded(width, v1, target, level[s], cands, c + 1),
{
    assert forall|p: Seq<usize>| #[trigger] in_visited(v0, p) implies in_visited(v1, p) by {
        let k = choose|k: int| 0 <= k < v0.len() && #[trigger] v0[k]@ == p;
        assert(v1[k] == v0[k]) by {
            assert(v1.take(v0.len() as int)[k] == v1[k]);
        }
    }
    assert forall|e: int| 0 <= e < s implies expanded(width, v1, target, #[trigger] level[e], cands, cands.len() as int) by {
        assert(expanded(width, v0, target, level[e], cands, cands.len() as int));
        assert forall|c2: int| 0 <= c2 < cands.len() implies in_visited(v1, permutation_of_gates(width, gates_view(level[e].1@).push(#[trigger] cands[c2]@))) by {
            assert(in_visited(v0, permutation_of_gates(width, gates_view(level[e].1@).push(cands[c2]@))));
        }
    }
    assert forall|c2: int| 0 <= c2 < c + 1 implies in_visited(v1, permutation_of_gates(width, gates_view(level[s].1@).push(#[trigger] cands[c2]@)))
        && permutation_of_gates(width, gates_view(level[s].1@).push(cands[c2]@)) != target by {
        if c2 < c {
            assert(in_visited(v0, permutation_of_gates(width, gates_view(level[s].1@).push(cands[c2]@))));
        }
    }
}

/// A sequence found at level `len + 1` is as short as any that implements the target.
proof fn lemma_minimal(width: nat, target: Seq<usize>, len: nat)
    requires
        width < usize::BITS,
        no_short(width, target, len),
        target.len() == pow2(width),
    ensures
        forall|gs: Seq<(GateType, Seq<usize>)>|
            all_candidates(gs, width) && implements(width, named_gates(gs), target) ==> len + 1 <= gs.len(),
{
    assert forall|gs: Seq<(GateType, Seq<usize>)>|
        all_candidates(gs, width) && implements(width, named_gates(gs), target) implies len + 1 <= gs.len() by {
        lemma_implements_is_permutation(width, gs, target);
    }
}

/// A candidate sequence implementing the target computes the target permutation.
proof fn lemma_implements_is_permutation(width: nat, gs: Seq<(GateType, Seq<usize>)>, target: Seq<usize>)
    requires
        width < usize::BITS,
        all_candidates(gs, width),
        implements(width, named_gates(gs), target),
        target.len() == pow2(width),
    ensures
        permutation_of_gates(width, gs) == target,
{
    assert forall|i: int| 0 <= i < pow2(width) implies permutation_of_gates(width, gs)[i] == target[i] by {
        let x = index_bits(i as nat, width);
        lemma_named_gates_run(gs, x);
        assert(bits_nat(run_named(named_gates(gs), index_bits(i as nat, width))) == target[i]);
    }
    assert(permutation_of_gates(width, gs) =~= target);
}

/// Synthesize a reversible circuit for a truth table on `width` bits, by a
/// breadth-first search over NOT, CNOT and Toffoli gates on any positions,
/// expanding at most `max_iterations` states. The result is exact when the
/// table's mapping is a permutation and the search found a gate sequence for it
/// (none when it is the identity); an invalid mapping gives an empty, inexact
/// result, and a search that runs out gives the fallback sequence, inexact.
/// The search does not run out when some sequence of `k` candidate gates
/// implements the mapping and at most `max_iterations` distinct permutations are
/// computed by sequences of fewer than `k` gates; a search that falls back has
/// used up its budget or found that no sequence of candidates computes the mapping.
pub fn synthesize(width: usize, target_table: &TruthTable, max_iterations: usize) -> (r: SynthesisResult)
    requires
        width < usize::BITS,
        forall|k: int| 0 <= k < target_table@.len() ==> bits_value(#[trigger] target_table@[k].0@) < pow2(width as nat),
    ensures
        r.width == width,
        !is_permutation(synthesis_target(width as nat, table_view(target_table@))) ==> !r.exact
            && r.gate_sequence@.len() == 0 && r.gate_count == 0 && r.quantum_cost == 0 && r.iterations == 0,
        synthesis_target(width as nat, table_view(target_table@)) == identity_mapping(pow2(width as nat)) ==> r.exact
            && r.gate_sequence@.len() == 0 && r.gate_count == 0 && r.quantum_cost == 0 && r.iterations == 0,
        r.exact ==> is_permutation(synthesis_target(width as nat, table_view(target_table@))) && implements(
            width as nat,
            sequence_view(r.gate_sequence@),
            synthesis_target(width as nat, table_view(target_table@)),
        ),
        r.exact ==> forall|gates: Seq<(GateType, Seq<usize>)>|
            all_candidates(gates, width as nat) && implements(
                width as nat,
                named_gates(gates),
                synthesis_target(width as nat, table_view(target_table@)),
            ) ==> r.gate_count <= gates.len(),
        r.exact ==> exists|gates: Seq<(GateType, Seq<usize>)>|
            all_candidates(gates, width as nat) && sequence_view(r.gate_sequence@) == named_gates(gates)
                && r.gate_count == gates.len() && r.quantum_cost == capped_cost(gates),
        is_permutation(synthesis_target(width as nat, table_view(target_table@))) && !r.exact ==> sequence_view(
            r.gate_sequence@,
        ) == named_gates(fallback_gates(width as nat)) && r.gate_count == fallback_gates(width as nat).len()
            && r.quantum_cost == positional_cost(fallback_gates(width as nat)),
        is_permutation(synthesis_target(width as nat, table_view(target_table@))) && (exists|gates: Seq<(GateType, Seq<usize>)>|
            #[trigger] all_candidates(gates, width as nat) && implements(
                width as nat,
                named_gates(gates),
                synthesis_target(width as nat, table_view(target_table@)),
            ) && few_reached_below(width as nat, gates.len(), max_iterations as nat)) ==> r.exact,
        r.iterations <= max_iterations,
        r.exact ==> exists|ps: Seq<Seq<usize>>|
            #[trigger] expanded_states(width as nat, ps, r.gate_count as nat) && ps.len() == r.iterations,
        r.exact && r.gate_count > 0 ==> r.iterations >= 1,
        r.exact && r.gate_count == 1 ==> r.iterations == 1,
        is_permutation(synthesis_target(width as nat, table_view(target_table@))) && !r.exact ==> r.iterations
            >= max_iterations || forall|gates: Seq<(GateType, Seq<usize>)>|
            #[trigger] all_candidates(gates, width as nat) ==> !implements(
                width as nat,
                named_gates(gates),
                synthesis_target(width as nat, table_view(target_table@)),
            ),
{
    proof {
        lemma_one_shl(width);
    }
    let n = 1usize << width;
    let ghost tv = table_view(target_table@);
    let ghost target_spec = synthesis_target(width as nat, tv);
    // Build the target permutation vector.
    let mut target_perm: Vec<usize> = Vec::new();
    let mut t: usize = 0;
    while t < n
        invariant
            t <= n,
            target_perm@ == Seq::new(t as nat, |i: int| 0usize),
        decreases n - t,
    {
        target_perm.push(0);
        t += 1;
        assert(target_perm@ =~= Seq::new(t as nat, |i: int| 0usize));
    }
    let mut k: usize = 0;
    while k < target_table.len()
        invariant
            k <= target_table@.len(),
            n == pow2(width as nat),
            tv == table_view(target_table@),
            forall|j: int| 0 <= j < target_table@.len() ==> bits_value(#[trigger] target_table@[j].0@) < pow2(width as nat),
            target_perm@ == table_target(n as nat, tv.take(k as int)),
            target_perm@.len() == n,
        decreases target_table@.len() - k,
    {
        let i = bits_to_index(target_table[k].0.as_slice());
        let j = bits_to_index(target_table[k].1.as_slice());
        proof {
            assert(tv.take(k + 1).drop_last() =~= tv.take(k as int));
            assert(tv[k as int] == (target_table@[k as int].0@, target_table@[k as int].1@));
        }
        target_perm.set(i, j);
        k += 1;
    }
    assert(tv.take(target_table@.len() as int) =~= tv);
    assert(target_perm@ == target_spec);
    if !is_valid_permutation(&target_perm) {
        let r = SynthesisResult {
            gate_sequence: Vec::new(),
            gate_count: 0,
            quantum_cost: 0,
            exact: false,
            iterations: 0,
            width,
        };
        return r;
    }
    if is_identity_values(&target_perm) {
        let r = SynthesisResult {
            gate_sequence: Vec::new(),
            gate_count: 0,
            quantum_cost: 0,
            exact: true,
            iterations: 0,
            width,
        };
        proof {
            assert(sequence_view(r.gate_sequence@) =~= Seq::<(Seq<char>, Seq<usize>)>::empty());
            assert forall|i: nat| i < pow2(width as nat) implies #[trigger] bits_nat(
                run_named(sequence_view(r.gate_sequence@), index_bits(i, width as nat)),
            ) == target_spec[i as int] by {
                crate::bits::lemma_index_bits_roundtrip(i, width as nat);
            }
            assert(all_candidates(Seq::<(GateType, Seq<usize>)>::empty(), width as nat));
            assert(sequence_view(r.gate_sequence@) == named_gates(Seq::<(GateType, Seq<usize>)>::empty()));
            let ghost none = Seq::<Seq<usize>>::empty();
            assert(expanded_states(width as nat, none, r.gate_count as nat) && none.len() == r.iterations);
        }
        return r;
    }
    proof {
        assert(target_spec != identity_mapping(pow2(width as nat)));
    }
    // Generate all positional gates.
    let candidates = generate_all_gates(width);
    // Breadth-first search from the identity.
    let identity_perm = identity_values(n);
    proof {
        lemma_identity_reached(width as nat);
    }
    let mut visited: Vec<Vec<usize>> = Vec::new();
    visited.push(copy_positions(&identity_perm));
    let mut current_level: Vec<(Vec<usize>, Vec<PositionalGate>)> = Vec::new();
    current_level.push((identity_perm, Vec::new()));
    let ghost w = width as nat;
    let ghost mut level: nat = 0;
    let ghost mut complete = true;
    let ghost mut processed: Seq<Seq<usize>> = Seq::empty();
    let ghost budget_ok = exists|gs: Seq<(GateType, Seq<usize>)>|
        #[trigger] all_candidates(gs, w) && implements(w, named_gates(gs), target_spec) && few_reached_below(
            w,
            gs.len(),
            max_iterations as nat,
        );
    proof {
        assert(gates_view(Seq::<PositionalGate>::empty()) =~= Seq::<(GateType, Seq<usize>)>::empty());
        lemma_first_level(w, target_spec, current_level@, visited@);
        assert(visited_perms(visited@) =~= processed + level_perms(current_level@));
        assert(visited_perms(visited@).no_duplicates());
    }
    let mut iterations: usize = 0;
    while current_level.len() > 0 && iterations < max_iterations
        invariant
            w == width,
            width < usize::BITS,
            n == pow2(width as nat),
            iterations <= max_iterations,
            target_perm@ == target_spec,
            is_permutation(target_spec),
            target_spec == synthesis_target(width as nat, table_view(target_table@)),
            target_spec != identity_mapping(pow2(width as nat)),
            forall|c: int| 0 <= c < candidates@.len() ==> is_candidate(#[trigger] candidates@[c]@, width as nat),
            forall|g: (GateType, Seq<usize>)| is_candidate(g, width as nat) ==> #[trigger] gates_view(candidates@).contains(g),
            forall|e: int| 0 <= e < current_level@.len() ==> state_ok(width as nat, #[trigger] current_level@[e], iterations as nat),
            !complete ==> iterations >= max_iterations,
            complete ==> forall|e: int| 0 <= e < current_level@.len() ==> level_state(w, #[trigger] current_level@[e], level),
            complete ==> no_short(w, target_spec, level),
            complete ==> level_complete(w, current_level@, level),
            complete ==> visited_covered(w, visited@, current_level@, level),
            target_spec.len() == pow2(w),
            visited_perms(visited@).no_duplicates(),
            complete ==> visited_perms(visited@) == processed + level_perms(current_level@),
            complete ==> iterations == processed.len(),
            complete ==> forall|i: int| 0 <= i < processed.len() ==> reached_below(w, #[trigger] processed[i], level + 1),
            complete ==> processed.no_duplicates(),
            complete ==> covers_below(w, processed, level),
            budget_ok == (exists|gs: Seq<(GateType, Seq<usize>)>|
                #[trigger] all_candidates(gs, w) && implements(w, named_gates(gs), target_spec) && few_reached_below(
                    w,
                    gs.len(),
                    max_iterations as nat,
                )),
            budget_ok ==> complete,
        decreases max_iterations - iterations,
    {
        let ghost it0 = iterations;
        let ghost p0 = processed;
        let mut next_level: Vec<(Vec<usize>, Vec<PositionalGate>)> = Vec::new();
        let mut s_idx: usize = 0;
        let mut stop = false;
        proof {
            lemma_covered_widen(w, visited@, current_level@, next_level@, level);
            assert(level_perms(current_level@).skip(0) + level_perms(next_level@) =~= level_perms(current_level@));
            assert(processed + level_perms(current_level@).skip(0) + level_perms(next_level@) =~= processed + level_perms(current_level@));
        }
        while s_idx < current_level.len() && !stop
            invariant
                w == width,
                width < usize::BITS,
                n == pow2(width as nat),
                it0 < max_iterations,
                it0 <= iterations <= max_iterations,
                s_idx <= current_level@.len(),
                current_level@.len() > 0,
                (s_idx > 0 || stop) ==> iterations > it0,
                stop ==> iterations == max_iterations,
                target_perm@ == target_spec,
                is_permutation(target_spec),
                target_spec == synthesis_target(width as nat, table_view(target_table@)),
                target_spec != identity_mapping(pow2(width as nat)),
                forall|c: int| 0 <= c < candidates@.len() ==> is_candidate(#[trigger] candidates@[c]@, width as nat),
                forall|g: (GateType, Seq<usize>)| is_candidate(g, width as nat) ==> #[trigger] gates_view(candidates@).contains(g),
                forall|e: int| 0 <= e < current_level@.len() ==> state_ok(width as nat, #[trigger] current_level@[e], it0 as nat),
                forall|e: int| 0 <= e < next_level@.len() ==> state_ok(width as nat, #[trigger] next_level@[e], iterations as nat),
                forall|e: int| 0 <= e < current_level@.len() ==> level_state(w, #[trigger] current_level@[e], level),
                forall|e: int| 0 <= e < next_level@.len() ==> level_state(w, #[trigger] next_level@[e], level + 1),
                no_short(w, target_spec, level),
                level_complete(w, current_level@, level),
                visited_covered(w, visited@, next_level@, level + 1),
                forall|e: int| 0 <= e < s_idx ==> expanded(w, visited@, target_spec, #[trigger] current_level@[e], candidates@, candidates@.len() as int),
                target_spec.len() == pow2(w),
                visited_perms(visited@).no_duplicates(),
                !stop ==> visited_perms(visited@) == processed + level_perms(current_level@).skip(s_idx as int) + level_perms(next_level@),
                !stop ==> iterations == processed.len(),
                forall|i: int| 0 <= i < processed.len() ==> reached_below(w, #[trigger] processed[i], level + 1),
                processed.no_duplicates(),
                covers_below(w, processed, level),
                covers_below(w, p0, level),
                !stop ==> processed == p0 + level_perms(current_level@).take(s_idx as int),
                budget_ok == (exists|gs: Seq<(GateType, Seq<usize>)>|
                    #[trigger] all_candidates(gs, w) && implements(w, named_gates(gs), target_spec) && few_reached_below(
                        w,
                        gs.len(),
                        max_iterations as nat,
                    )),
                budget_ok ==> !stop,
            decreases current_level@.len() - s_idx + (if stop { 0int } else { 1int }),
        {
            proof {
                let e = current_level@[s_idx as int];
                assert(level_state(w, e, level));
                assert(permutation_of_gates(w, gates_view(e.1@)) == e.0@);
                assert(reached_below(w, e.0@, level + 1));
                let rest = level_perms(current_level@).skip(s_idx as int) + level_perms(next_level@);
                assert(processed + level_perms(current_level@).skip(s_idx as int) + level_perms(next_level@)
                    =~= processed + rest);
                assert(rest[0] == e.0@);
                lemma_no_dup_prefix(processed, rest);
                let ps = processed.push(e.0@);
                assert forall|i: int| 0 <= i < ps.len() implies reached_below(w, #[trigger] ps[i], level + 1) by {
                    if i < processed.len() {
                        assert(ps[i] == processed[i]);
                    }
                }
                if iterations >= max_iterations && budget_ok {
                    let gs = choose|gs: Seq<(GateType, Seq<usize>)>|
                        #[trigger] all_candidates(gs, w) && implements(w, named_gates(gs), target_spec) && few_reached_below(
                            w,
                            gs.len(),
                            max_iterations as nat,
                        );
                    lemma_implements_is_permutation(w, gs, target_spec);
                    lemma_budget_bound(w, target_spec, level, gs, max_iterations as nat, ps);
                }
                assert(rest.skip(1) =~= level_perms(current_level@).skip(s_idx + 1) + level_perms(next_level@));
                assert(processed + rest =~= ps + rest.skip(1));
                lemma_covers_push(w, processed, level, e.0@);
                assert(level_perms(current_level@)[s_idx as int] == e.0@);
                assert(p0 + level_perms(current_level@).take(s_idx + 1) =~= (p0 + level_perms(current_level@).take(
                    s_idx as int,
                )).push(e.0@));
                processed = ps;
            }
            if iterations >= max_iterations {
                stop = true;
            } else {
                iterations += 1;
                let current_perm = &current_level[s_idx].0;
                let gate_seq = &current_level[s_idx].1;
                proof {
                    assert(state_ok(width as nat, current_level@[s_idx as int], it0 as nat));
                    assert(level_state(w, current_level@[s_idx as int], level));
                }
                let mut c: usize = 0;
                while c < candidates.len()
                    invariant
                        w == width,
                        width < usize::BITS,
                        n == pow2(width as nat),
                        iterations <= max_iterations,
                        c <= candidates@.len(),
                        s_idx < current_level@.len(),
                        target_perm@ == target_spec,
                        is_permutation(target_spec),
                        target_spec == synthesis_target(width as nat, table_view(target_table@)),
                        target_spec != identity_mapping(pow2(width as nat)),
                        current_perm@ == permutation_of_gates(width as nat, gates_view(gate_seq@)),
                        (current_perm, gate_seq) == (&current_level@[s_idx as int].0, &current_level@[s_idx as int].1),
                        all_candidates(gates_view(gate_seq@), width as nat),
                        gate_seq@.len() < iterations,
                        gate_seq@.len() == level,
                        forall|c2: int| 0 <= c2 < candidates@.len() ==> is_candidate(#[trigger] candidates@[c2]@, width as nat),
                        forall|e: int| 0 <= e < next_level@.len() ==> state_ok(width as nat, #[trigger] next_level@[e], iterations as nat),
                        forall|e: int| 0 <= e < next_level@.len() ==> level_state(w, #[trigger] next_level@[e], level + 1),
                        no_short(w, target_spec, level),
                        visited_covered(w, visited@, next_level@, level + 1),
                        forall|e: int| 0 <= e < s_idx ==> expanded(w, visited@, target_spec, #[trigger] current_level@[e], candidates@, candidates@.len() as int),
                        expanded(w, visited@, target_spec, current_level@[s_idx as int], candidates@, c as int),
                        visited_perms(visited@).no_duplicates(),
                        visited_perms(visited@) == processed + level_perms(current_level@).skip(s_idx + 1) + level_perms(next_level@),
                        iterations == processed.len(),
                        processed.no_duplicates(),
                        covers_below(w, processed, level),
                        forall|i: int| 0 <= i < processed.len() ==> reached_below(w, #[trigger] processed[i], level + 1),
                    decreases candidates@.len() - c,
                {
                    let gate = &candidates[c];
                    proof {
                        assert(is_candidate(candidates@[c as int]@, width as nat));
                        lemma_candidate_fits(gate@, width as nat);
                        assert forall|k2: int| 0 <= k2 < gates_view(gate_seq@).len() implies gate_fits(#[trigger] gates_view(gate_seq@)[k2], width as nat) by {
                            lemma_candidate_fits(gates_view(gate_seq@)[k2], width as nat);
                        }
                        lemma_extend_permutation(width as nat, gates_view(gate_seq@), gate@);
                    }
                    let one = vec![copy_gate(gate)];
                    proof {
                        assert(gates_view(one@) =~= seq![gate@]);
                    }
                    let new_perm = apply_gates_to_perm(current_perm.as_slice(), one.as_slice(), width);
                    let full_seq = extended(gate_seq, gate);
                    proof {
                        assert(new_perm@ == permutation_of_gates(width as nat, gates_view(full_seq@)));
                        assert(all_candidates(gates_view(full_seq@), width as nat)) by {
                            assert forall|k2: int| 0 <= k2 < gates_view(full_seq@).len() implies is_candidate(
                                #[trigger] gates_view(full_seq@)[k2],
                                width as nat,
                            ) by {
                                if k2 < gate_seq@.len() {
                                    assert(gates_view(full_seq@)[k2] == gates_view(gate_seq@)[k2]);
                                }
                            }
                        }
                    }
                    if same_values(&new_perm, &target_perm) {
                        proof {
                            lemma_cost_bound(gates_view(full_seq@));
                        }
                        let total_cost = total_cost_of(&full_seq);
                        let gate_strs = named_sequence(&full_seq);
                        let gate_count = full_seq.len();
                        proof {
                            lemma_found_implements(width as nat, gates_view(full_seq@), target_spec);
                            lemma_minimal(w, target_spec, level);
                            assert(gate_count == level + 1);
                            assert(expanded_states(w, processed, (level + 1) as nat));
                            if level == 0 {
                                lemma_one_gate_search(w, processed);
                            }
                        }
                        let r = SynthesisResult {
                            gate_sequence: gate_strs,
                            gate_count,
                            quantum_cost: total_cost,
                            exact: true,
                            iterations,
                            width,
                        };
                        proof {
                            let ghost ps = processed;
                            assert(expanded_states(width as nat, ps, r.gate_count as nat) && ps.len() == r.iterations);
                        }
                        return r;
                    }
                    let ghost q = new_perm@;
                    let ghost v0 = visited@;
                    let ghost n0 = next_level@;
                    if !contains_values(&visited, &new_perm) {
                        let copy = copy_positions(&new_perm);
                        visited.push(copy);
                        let entry = (new_perm, full_seq);
                        next_level.push(entry);
                        proof {
                            assert(visited@.take(v0.len() as int) =~= v0);
                            assert(next_level@.take(n0.len() as int) =~= n0);
                            lemma_record_state(w, v0, n0, visited@, next_level@, q, level + 1);
                            assert(visited@[v0.len() as int]@ == q);
                            assert(!visited_perms(v0).contains(q)) by {
                                if visited_perms(v0).contains(q) {
                                    let k2 = choose|k2: int| 0 <= k2 < visited_perms(v0).len() && visited_perms(v0)[k2] == q;
                                    assert(v0[k2]@ == q);
                                }
                            }
                            lemma_no_dup_push(visited_perms(v0), q);
                            assert(visited_perms(visited@) =~= visited_perms(v0).push(q));
                            assert(level_perms(next_level@) =~= level_perms(n0).push(q));
                            assert(processed + level_perms(current_level@).skip(s_idx + 1) + level_perms(next_level@)
                                =~= (processed + level_perms(current_level@).skip(s_idx + 1) + level_perms(n0)).push(q));
                        }
                    }
                    proof {
                        assert(visited@.take(v0.len() as int) =~= v0);
                        lemma_expanded_step(
                            w,
                            v0,
                            visited@,
                            target_spec,
                            current_level@,
                            candidates@,
                            s_idx as int,
                            c as int,
                            q,
                        );
                    }
                    c += 1;
                }
                s_idx += 1;
            }
        }
        proof {
            if !stop {
                lemma_level_done(w, target_spec, candidates@, current_level@, next_level@, visited@, level);
                assert forall|i: int| 0 <= i < processed.len() implies reached_below(w, #[trigger] processed[i], level + 2) by {
                    let gs = choose|gs: Seq<(GateType, Seq<usize>)>|
                        all_candidates(gs, w) && gs.len() < level + 1 && #[trigger] permutation_of_gates(w, gs) == processed[i];
                    assert(permutation_of_gates(w, gs) == processed[i]);
                }
                assert(level_perms(current_level@).skip(current_level@.len() as int) + level_perms(next_level@)
                    =~= level_perms(next_level@));
                assert(processed + level_perms(current_level@).skip(current_level@.len() as int) + level_perms(next_level@)
                    =~= processed + level_perms(next_level@));
                assert(level_perms(current_level@).take(current_level@.len() as int) =~= level_perms(current_level@));
                lemma_covers_next(w, p0, current_level@, level);
                level = level + 1;
            } else {
                complete = false;
            }
        }
        current_level = next_level;
    }
    proof {
        if budget_ok {
            let gs = choose|gs: Seq<(GateType, Seq<usize>)>|
                #[trigger] all_candidates(gs, w) && implements(w, named_gates(gs), target_spec) && few_reached_below(
                    w,
                    gs.len(),
                    max_iterations as nat,
                );
            lemma_implements_is_permutation(w, gs, target_spec);
            if current_level@.len() > 0 {
                let e = current_level@[0];
                assert(level_state(w, e, level));
                assert(permutation_of_gates(w, gates_view(e.1@)) == e.0@);
                assert(level_perms(current_level@)[0] == e.0@);
                lemma_no_dup_prefix(processed, level_perms(current_level@));
                let ps = processed.push(e.0@);
                assert forall|i: int| 0 <= i < ps.len() implies reached_below(w, #[trigger] ps[i], level + 1) by {
                    if i < processed.len() {
                        assert(ps[i] == processed[i]);
                    }
                }
                lemma_budget_bound(w, target_spec, level, gs, max_iterations as nat, ps);
            } else {
                lemma_exhausted(w, target_spec, current_level@, level, gs);
            }
        }
        if iterations < max_iterations {
            assert forall|gs: Seq<(GateType, Seq<usize>)>| #[trigger] all_candidates(gs, w) implies !implements(
                w,
                named_gates(gs),
                target_spec,
            ) by {
                lemma_exhausted(w, target_spec, current_level@, level, gs);
                if implements(w, named_gates(gs), target_spec) {
                    lemma_implements_is_permutation(w, gs, target_spec);
                }
            }
        }
    }
    // Fallback when the search gives up.
    let heuristic_seq = esop_heuristic(width, &target_perm);
    proof {
        lemma_cost_bound(gates_view(heuristic_seq@));
    }
    let quantum_cost = total_cost_of(&heuristic_seq);
    let gate_sequence = named_sequence(&heuristic_seq);
    SynthesisResult {
        gate_count: heuristic_seq.len(),
        quantum_cost,
        exact: false,
        gate_sequence,
        iterations,
        width,
    }
}

/// ESOP-style fallback used when the search gives up: a NOT on bit 0 (nothing at width 0).
fn esop_heuristic(width: usize, _target_perm: &Vec<usize>) -> (gates: Vec<PositionalGate>)
    ensures
        gates_view(gates@) == fallback_gates(width as nat),
{
    let mut gates: Vec<PositionalGate> = Vec::new();
    if width >= 1 {
        let g = PositionalGate { gate_type: GateType::Not, positions: vec![0] };
        assert(g@.1 =~= seq![0usize]);
        gates.push(g);
        assert(gates_view(gates@) =~= fallback_gates(width as nat));
    } else {
        assert(gates_view(gates@) =~= fallback_gates(width as nat));
    }
    gates
}

/// The identity reached by the empty gate sequence.
proof fn lemma_identity_reached(width: nat)
    requires
        width < usize::BITS,
    ensures
        permutation_of_gates(width, Seq::empty()) == identity_mapping(pow2(width)),
{
    crate::bits::lemma_one_shl(width as usize);
    assert forall|i: int| 0 <= i < pow2(width) implies permutation_of_gates(width, Seq::empty())[i] == identity_mapping(pow2(width))[i] by {
        lemma_index_bits_roundtrip(i as nat, width);
    }
    assert(permutation_of_gates(width, Seq::empty()) =~= identity_mapping(pow2(width)));
}

/// A gate sequence whose permutation is the target implements it, in named form.
proof fn lemma_found_implements(width: nat, gates: Seq<(GateType, Seq<usize>)>, target: Seq<usize>)
    requires
        width < usize::BITS,
        permutation_of_gates(width, gates) == target,
        all_candidates(gates, width),
    ensures
        implements(width, named_gates(gates), target),
{
    crate::bits::lemma_one_shl(width as usize);
    assert forall|i: nat| i < pow2(width) implies #[trigger] bits_nat(run_named(named_gates(gates), index_bits(i, width))) == target[i as int] by {
        let x = index_bits(i, width);
        lemma_index_bits_is_bits(i, width);
        lemma_named_gates_run(gates, x);
        assert forall|k: int| 0 <= k < gates.len() implies gate_fits(#[trigger] gates[k], width) by {
            lemma_candidate_fits(gates[k], width);
        }
        lemma_run_positional_keeps_bits(gates, x);
        lemma_bits_nat_bound(run_positional(gates, x));
        assert(target[i as int] == bits_nat(run_positional(gates, x)) as usize);
    }
}

/// Each gate costs at most 5.
proof fn lemma_cost_bound(gates: Seq<(GateType, Seq<usize>)>)
    ensures
        positional_cost(gates) <= 5 * gates.len(),
    decreases gates.len(),
{
    if gates.len() > 0 {
        lemma_cost_bound(gates.drop_last());
    }
}

/// Total quantum cost of a gate list, or `usize::MAX` when it does not fit.
fn total_cost_of(gates: &Vec<PositionalGate>) -> (r: usize)
    ensures
        r == capped_cost(gates_view(gates@)),
{
    let ghost gv = gates_view(gates@);
    let mut total: usize = 0;
    let mut k: usize = 0;
    while k < gates.len()
        invariant
            k <= gates@.len(),
            gv == gates_view(gates@),
            total == capped_cost(gv.take(k as int)),
        decreases gates@.len() - k,
    {
        proof {
            assert(gv.take(k + 1).drop_last() =~= gv.take(k as int));
            assert(gv[k as int] == gates@[k as int]@);
            lemma_cost_grows(gv.take(k + 1));
        }
        let c = gates[k].quantum_cost();
        if total > usize::MAX - c {
            total = usize::MAX;
        } else {
            total = total + c;
        }
        k += 1;
    }
    assert(gv.take(gates@.len() as int) =~= gv);
    total
}

/// The cost of a list is at least the cost of the list without its last gate.
proof fn lemma_cost_grows(gates: Seq<(GateType, Seq<usize>)>)
    requires
        gates.len() > 0,
    ensures
        positional_cost(gates.drop_last()) <= positional_cost(gates),
{
}

/// The named form of a gate list.
fn named_sequence(gates: &Vec<PositionalGate>) -> (r: Vec<(String, Vec<usize>)>)
    ensures
        sequence_view(r@) == named_gates(gates_view(gates@)),
{
    let ghost gv = gates_view(gates@);
    let mut r: Vec<(String, Vec<usize>)> = Vec::new();
    let mut k: usize = 0;
    while k < gates.len()
        invariant
            k <= gates@.len(),
            gv == gates_view(gates@),
            sequence_view(r@) == named_gates(gv.take(k as int)),
        decreases gates@.len() - k,
    {
        let g = &gates[k];
        let name = match g.gate_type {
            GateType::Not => "NOT",
            GateType::Cnot => "CNOT",
            GateType::Toffoli => "Toffoli",
        };
        let entry = (name.to_owned(), copy_positions(&g.positions));
        let ghost before = r@;
        r.push(entry);
        proof {
            assert(gv[k as int] == g@);
            assert(sequence_view(r@) =~= sequence_view(before).push((entry.0@, entry.1@)));
            assert(named_gates(gv.take(k + 1)) =~= named_gates(gv.take(k as int)).push((gate_name(g.gate_type), g.positions@)));
        }
        k += 1;
    }
    assert(gv.take(gates@.len() as int) =~= gv);
    r
}

/// The gates of `seq` followed by `g`.
fn extended(seq: &Vec<PositionalGate>, g: &PositionalGate) -> (r: Vec<PositionalGate>)
    ensures
        gates_view(r@) == gates_view(seq@).push(g@),
        r@.len() == seq@.len() + 1,
{
    let mut r: Vec<PositionalGate> = Vec::new();
    let mut k: usize = 0;
    while k < seq.len()
        invariant
            k <= seq@.len(),
            gates_view(r@) == gates_view(seq@).take(k as int),
            r@.len() == k,
        decreases seq@.len() - k,
    {
        let ghost before = r@;
        let c = copy_gate(&seq[k]);
        r.push(c);
        proof {
            assert(gates_view(r@) =~= gates_view(before).push(c@));
        }
        k += 1;
        assert(gates_view(r@) =~= gates_view(seq@).take(k as int));
    }
    let ghost before = r@;
    let c = copy_gate(g);
    r.push(c);
    assert(gates_view(r@) =~= gates_view(before).push(c@));
    assert(gates_view(seq@).take(seq@.len() as int) =~= gates_view(seq@));
    r
}

/// The values `0, ..., n - 1`.
fn identity_values(n: usize) -> (r: Vec<usize>)
    ensures
        r@ == identity_mapping(n as nat),
{
    let mut r: Vec<usize> = Vec::new();
    let mut i: usize = 0;
    while i < n
        invariant
            i <= n,
            r@ == identity_mapping(i as nat),
        decreases n - i,
    {
        r.push(i);
        i += 1;
        assert(r@ =~= identity_mapping(i as nat));
    }
    r
}

/// Whether two lists of values are equal.
fn same_values(a: &Vec<usize>, b: &Vec<usize>) -> (r: bool)
    ensures
        r == (a@ == b@),
{
    if a.len() != b.len() {
        return false;
    }
    let mut k: usize = 0;
    while k < a.len()
        invariant
            k <= a@.len(),
            a@.len() == b@.len(),
            forall|j: int| 0 <= j < k ==> a@[j] == b@[j],
        decreases a@.len() - k,
    {
        if a[k] != b[k] {
            return false;
        }
        k += 1;
    }
    assert(a@ =~= b@);
    true
}

/// Whether `x` is one of the lists in `vs`.
fn contains_values(vs: &Vec<Vec<usize>>, x: &Vec<usize>) -> (r: bool)
    ensures
        r == exists|k: int| 0 <= k < vs@.len() && vs@[k]@ == x@,
{
    let mut k: usize = 0;
    while k < vs.len()
        invariant
            k <= vs@.len(),
            forall|j: int| 0 <= j < k ==> vs@[j]@ != x@,
        decreases vs@.len() - k,
    {
        if same_values(&vs[k], x) {
            return true;
        }
        k += 1;
    }
    false
}

/// Whether the values form a permutation of `{0, ..., len-1}`.
fn is_valid_permutation(v: &Vec<usize>) -> (r: bool)
    ensures
        r == is_permutation(v@),
{
    let n = v.len();
    let mut seen: Vec<bool> = Vec::new();
    let mut t: usize = 0;
    while t < n
        invariant
            t <= n,
            seen@.len() == t,
            forall|j: int| 0 <= j < t ==> !(#[trigger] seen@[j]),
        decreases n - t,
    {
        seen.push(false);
        t += 1;
    }
    let mut k: usize = 0;
    while k < n
        invariant
            k <= n,
            n == v@.len(),
            seen@.len() == n,
            forall|j: int| 0 <= j < k ==> #[trigger] v@[j] < n,
            forall|i: int, j: int| 0 <= i < k && 0 <= j < k && #[trigger] v@[i] == #[trigger] v@[j] ==> i == j,
            forall|x: int| 0 <= x < n ==> (#[trigger] seen@[x] <==> exists|j: int| 0 <= j < k && v@[j] == x),
        decreases n - k,
    {
        let x = v[k];
        if x >= n {
            return false;
        }
        if seen[x] {
            proof {
                let j = choose|j: int| 0 <= j < k && v@[j] == x;
                assert(v@[j] == v@[k as int]);
            }
            return false;
        }
        seen.set(x, true);
        proof {
            assert forall|y: int| 0 <= y < n implies (#[trigger] seen@[y] <==> exists|j: int| 0 <= j < k + 1 && v@[j] == y) by {
                if y == x {
                    assert(v@[k as int] == y);
                }
            }
        }
        k += 1;
    }
    true
}

/// Whether `v[i] == i` for every `i`.
fn is_identity_values(v: &Vec<usize>) -> (r: bool)
    ensures
        r == (v@ == identity_mapping(v@.len())),
{
    let mut k: usize = 0;
    while k < v.len()
        invariant
            k <= v@.len(),
            forall|j: int| 0 <= j < k ==> #[trigger] v@[j] == j,
        decreases v@.len() - k,
    {
        if v[k] != k {
            assert(v@[k as int] != identity_mapping(v@.len())[k as int]);
            return false;
        }
        k += 1;
    }
    assert(v@ =~= identity_mapping(v@.len()));
    true
}

} // verus!
