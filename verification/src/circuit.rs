//! Reversible circuits: ordered sequences of reversible gates.
//!
//! A gate narrower than the circuit acts on the first `gate.width()` bits;
//! the remaining bits pass through unchanged.
use vstd::prelude::*;
use vstd::arithmetic::power2::pow2;
use crate::bits::{index_bits, lemma_one_shl};
use crate::gate::{ReversibleGate, index_to_bits, lemma_self_inverse};

verus! {

/// Apply `g` to the first `g.spec_width()` bits of `s`, keeping the rest.
pub open spec fn apply_on_prefix(g: ReversibleGate, s: Seq<u8>) -> Seq<u8> {
    g.spec_apply(s.take(g.spec_width() as int)) + s.skip(g.spec_width() as int)
}

/// Undo `apply_on_prefix`.
pub open spec fn unapply_on_prefix(g: ReversibleGate, s: Seq<u8>) -> Seq<u8> {
    g.spec_unapply(s.take(g.spec_width() as int)) + s.skip(g.spec_width() as int)
}

/// Run the gates on `s` from first to last.
pub open spec fn run_gates(gates: Seq<ReversibleGate>, s: Seq<u8>) -> Seq<u8>
    decreases gates.len(),
{
    if gates.len() == 0 {
        s
    } else {
        apply_on_prefix(gates.last(), run_gates(gates.drop_last(), s))
    }
}

/// Undo the gates on `s`, from last to first.
pub open spec fn unrun_gates(gates: Seq<ReversibleGate>, s: Seq<u8>) -> Seq<u8>
    decreases gates.len(),
{
    if gates.len() == 0 {
        s
    } else {
        unrun_gates(gates.drop_last(), unapply_on_prefix(gates.last(), s))
    }
}

/// Sum of the quantum costs of the gates.
pub open spec fn gates_cost(gates: Seq<ReversibleGate>) -> nat
    decreases gates.len(),
{
    if gates.len() == 0 {
        0
    } else {
        gates_cost(gates.drop_last()) + gates.last().spec_quantum_cost()
    }
}

/// Every gate fits in `width` bits.
pub open spec fn gates_fit(gates: Seq<ReversibleGate>, width: nat) -> bool {
    forall|k: int| 0 <= k < gates.len() ==> (#[trigger] gates[k]).spec_width() <= width
}

/// Every line index is below `width`.
pub open spec fn lines_fit(lines: Seq<usize>, width: nat) -> bool {
    forall|k: int| 0 <= k < lines.len() ==> #[trigger] lines[k] < width
}

/// Number of lines below `width` that are not in `lines`.
pub open spec fn non_answer_count(width: nat, lines: Seq<usize>) -> nat
    decreases width,
{
    if width == 0 {
        0
    } else {
        non_answer_count((width - 1) as nat, lines) + if lines.contains((width - 1) as usize) { 0nat } else { 1nat }
    }
}

/// The lines `0, 1, ..., width - 1`.
pub open spec fn all_lines(width: nat) -> Seq<usize> {
    Seq::new(width, |k: int| k as usize)
}

/// A reversible circuit: an ordered sequence of gates applied left to right.
#[derive(Debug, PartialEq, Eq)]
pub struct ReversibleCircuit {
    gates: Vec<ReversibleGate>,
    width: usize,
    answer_lines: Vec<usize>,
}

impl ReversibleCircuit {
    #[verifier::type_invariant]
    spec fn inv(self) -> bool {
        &&& gates_fit(self.gates@, self.width as nat)
        &&& lines_fit(self.answer_lines@, self.width as nat)
    }

    /// The gates, in order.
    pub closed spec fn spec_gates(self) -> Seq<ReversibleGate> {
        self.gates@
    }

    /// The number of bits the circuit acts on.
    pub closed spec fn spec_width(self) -> nat {
        self.width as nat
    }

    /// The output lines that carry the answer.
    pub closed spec fn spec_answer_lines(self) -> Seq<usize> {
        self.answer_lines@
    }

    /// What the circuit makes of an input of its width.
    pub open spec fn spec_apply(self, s: Seq<u8>) -> Seq<u8> {
        run_gates(self.spec_gates(), s)
    }

    /// Truth table row `i`: the input bits and the circuit's output on them.
    pub open spec fn spec_row(self, i: nat) -> (Seq<u8>, Seq<u8>) {
        let input = index_bits(i, self.spec_width());
        (input, self.spec_apply(input))
    }

    /// Create a circuit from gates that each fit in `width` bits; every line is an answer line.
    pub fn new(width: usize, gates: Vec<ReversibleGate>) -> (c: Self)
        requires
            gates_fit(gates@, width as nat),
        ensures
            c.spec_width() == width,
            c.spec_gates() == gates@,
            c.spec_answer_lines() == all_lines(width as nat),
    {
        let mut lines: Vec<usize> = Vec::new();
        let mut k: usize = 0;
        while k < width
            invariant
                k <= width,
                lines@ == all_lines(k as nat),
            decreases width - k,
        {
            lines.push(k);
            k += 1;
            assert(lines@ =~= all_lines(k as nat));
        }
        ReversibleCircuit { gates, width, answer_lines: lines }
    }

    /// Number of bits this circuit operates on.
    /// (Every circuit's gates fit in its width, and its answer lines are below it.)
    pub fn width(&self) -> (r: usize)
        ensures
            r == self.spec_width(),
            gates_fit(self.spec_gates(), r as nat),
            lines_fit(self.spec_answer_lines(), r as nat),
    {
        proof {
            use_type_invariant(self);
        }
        self.width
    }

    /// Number of gates in this circuit.
    pub fn gate_count(&self) -> (r: usize)
        ensures
            r == self.spec_gates().len(),
    {
        self.gates.len()
    }

    /// Total quantum cost (sum of the gates' costs).
    pub fn quantum_cost(&self) -> (r: usize)
        requires
            gates_cost(self.spec_gates()) <= usize::MAX,
        ensures
            r == gates_cost(self.spec_gates()),
    {
        let mut total: usize = 0;
        let mut k: usize = 0;
        while k < self.gates.len()
            invariant
                k <= self.gates@.len(),
                total == gates_cost(self.gates@.take(k as int)),
                gates_cost(self.gates@) <= usize::MAX,
            decreases self.gates@.len() - k,
        {
            proof {
                assert(self.gates@.take(k + 1).drop_last() =~= self.gates@.take(k as int));
                lemma_gates_cost_prefix(self.gates@, k as int + 1);
            }
            total = total + self.gates[k].quantum_cost();
            k += 1;
        }
        assert(self.gates@.take(self.gates@.len() as int) =~= self.gates@);
        total
    }

    /// The list of gates.
    pub fn gates(&self) -> (r: &[ReversibleGate])
        ensures
            r@ == self.spec_gates(),
    {
        self.gates.as_slice()
    }

    /// Apply the entire circuit to an input bit vector of the circuit's width.
    pub fn apply(&self, input: &[u8]) -> (out: Vec<u8>)
        requires
            input@.len() == self.spec_width(),
        ensures
            out@ == self.spec_apply(input@),
    {
        proof {
            use_type_invariant(self);
        }
        let mut state: Vec<u8> = Vec::new();
        let mut k: usize = 0;
        while k < input.len()
            invariant
                k <= input@.len(),
                state@ == input@.take(k as int),
            decreases input@.len() - k,
        {
            state.push(input[k]);
            k += 1;
            assert(state@ =~= input@.take(k as int));
        }
        assert(input@.take(input@.len() as int) =~= input@);
        let mut g: usize = 0;
        while g < self.gates.len()
            invariant
                g <= self.gates@.len(),
                gates_fit(self.gates@, self.width as nat),
                input@.len() == self.width,
                state@ == run_gates(self.gates@.take(g as int), input@),
                state@.len() == self.width,
            decreases self.gates@.len() - g,
        {
            let gate = self.gates[g];
            let gw = gate.width();
            assert(gw <= self.width);
            let mut prefix: Vec<u8> = Vec::new();
            let mut t: usize = 0;
            while t < gw
                invariant
                    t <= gw,
                    gw <= state@.len(),
                    prefix@ == state@.take(t as int),
                decreases gw - t,
            {
                prefix.push(state[t]);
                t += 1;
                assert(prefix@ =~= state@.take(t as int));
            }
            let out = gate.apply(prefix.as_slice());
            proof {
                gate.lemma_apply_keeps_bits(prefix@);
            }
            let ghost before = state@;
            let mut t: usize = 0;
            while t < gw
                invariant
                    t <= gw,
                    gw == gate.spec_width(),
                    out@.len() == gw,
                    before.len() >= gw,
                    state@.len() == before.len(),
                    forall|i: int| 0 <= i < t ==> state@[i] == out@[i],
                    forall|i: int| t <= i < before.len() ==> state@[i] == before[i],
                decreases gw - t,
            {
                state.set(t, out[t]);
                t += 1;
            }
            proof {
                assert(state@ =~= apply_on_prefix(gate, before));
                assert(self.gates@.take(g + 1).drop_last() =~= self.gates@.take(g as int));
            }
            g += 1;
        }
        assert(self.gates@.take(self.gates@.len() as int) =~= self.gates@);
        state
    }

    /// Mark which output lines carry the answer; each must be below the width.
    pub fn set_answer_lines(&mut self, lines: Vec<usize>)
        requires
            lines_fit(lines@, old(self).spec_width()),
        ensures
            final(self).spec_answer_lines() == lines@,
            final(self).spec_gates() == old(self).spec_gates(),
            final(self).spec_width() == old(self).spec_width(),
    {
        proof {
            use_type_invariant(&*self);
        }
        self.answer_lines = lines;
    }

    /// Indices of output lines that carry the answer.
    pub fn answer_lines(&self) -> (r: &[usize])
        ensures
            r@ == self.spec_answer_lines(),
    {
        self.answer_lines.as_slice()
    }

    /// Number of garbage output lines: the lines below the width that are not answer lines.
    pub fn garbage_count(&self) -> (r: usize)
        ensures
            r == non_answer_count(self.spec_width(), self.spec_answer_lines()),
    {
        let mut count: usize = 0;
        let mut i: usize = 0;
        while i < self.width
            invariant
                i <= self.width,
                count == non_answer_count(i as nat, self.answer_lines@),
                count <= i,
            decreases self.width - i,
        {
            let mut found = false;
            let mut k: usize = 0;
            while k < self.answer_lines.len()
                invariant
                    k <= self.answer_lines@.len(),
                    found == (exists|j: int| 0 <= j < k && self.answer_lines@[j] == i),
                decreases self.answer_lines@.len() - k,
            {
                if self.answer_lines[k] == i {
                    found = true;
                }
                k += 1;
            }
            if !found {
                count += 1;
            }
            i += 1;
        }
        count
    }

    /// Extract the answer bits from a full output vector.
    pub fn extract_answer(&self, output: &[u8]) -> (r: Vec<u8>)
        requires
            lines_fit(self.spec_answer_lines(), output@.len()),
        ensures
            r@ == self.spec_answer_lines().map_values(|i: usize| output@[i as int]),
    {
        let mut r: Vec<u8> = Vec::new();
        let mut k: usize = 0;
        while k < self.answer_lines.len()
            invariant
                k <= self.answer_lines@.len(),
                lines_fit(self.answer_lines@, output@.len()),
                r@ == self.answer_lines@.take(k as int).map_values(|i: usize| output@[i as int]),
            decreases self.answer_lines@.len() - k,
        {
            let line = self.answer_lines[k];
            r.push(output[line]);
            k += 1;
            assert(r@ =~= self.answer_lines@.take(k as int).map_values(
                |i: usize| output@[i as int],
            ));
        }
        assert(self.answer_lines@.take(self.answer_lines@.len() as int) =~= self.answer_lines@);
        r
    }

    /// Generate the full truth table: all `2^width` input/output pairs, in
    /// increasing order of the input's value.
    pub fn truth_table(&self) -> (table: Vec<(Vec<u8>, Vec<u8>)>)
        requires
            self.spec_width() < usize::BITS,
        ensures
            table@.len() == pow2(self.spec_width()),
            forall|i: int|
                0 <= i < table@.len() ==> (#[trigger] table@[i]).0@ == self.spec_row(i as nat).0
                    && table@[i].1@ == self.spec_row(i as nat).1,
    {
        let n = self.width;
        proof {
            lemma_one_shl(n);
        }
        let rows = 1usize << n;
        let mut table: Vec<(Vec<u8>, Vec<u8>)> = Vec::new();
        let mut i: usize = 0;
        while i < rows
            invariant
                n == self.spec_width(),
                n < usize::BITS,
                rows == pow2(n as nat),
                i <= rows,
                table@.len() == i,
                forall|k: int|
                    0 <= k < i ==> (#[trigger] table@[k]).0@ == self.spec_row(k as nat).0
                        && table@[k].1@ == self.spec_row(k as nat).1,
            decreases rows - i,
        {
            let input = index_to_bits(i, n);
            let output = self.apply(input.as_slice());
            table.push((input, output));
            i += 1;
        }
        table
    }
}

impl Clone for ReversibleCircuit {
    fn clone(&self) -> (c: Self)
        ensures
            c.spec_gates() == self.spec_gates(),
            c.spec_width() == self.spec_width(),
            c.spec_answer_lines() == self.spec_answer_lines(),
    {
        proof {
            use_type_invariant(self);
        }
        let mut gates: Vec<ReversibleGate> = Vec::new();
        let mut k: usize = 0;
        while k < self.gates.len()
            invariant
                k <= self.gates@.len(),
                gates@ == self.gates@.take(k as int),
            decreases self.gates@.len() - k,
        {
            gates.push(self.gates[k]);
            k += 1;
            assert(gates@ =~= self.gates@.take(k as int));
        }
        assert(self.gates@.take(self.gates@.len() as int) =~= self.gates@);
        let mut lines: Vec<usize> = Vec::new();
        let mut k: usize = 0;
        while k < self.answer_lines.len()
            invariant
                k <= self.answer_lines@.len(),
                lines@ == self.answer_lines@.take(k as int),
            decreases self.answer_lines@.len() - k,
        {
            lines.push(self.answer_lines[k]);
            k += 1;
            assert(lines@ =~= self.answer_lines@.take(k as int));
        }
        assert(self.answer_lines@.take(self.answer_lines@.len() as int) =~= self.answer_lines@);
        ReversibleCircuit { gates, width: self.width, answer_lines: lines }
    }
}

proof fn lemma_gates_cost_prefix(gates: Seq<ReversibleGate>, k: int)
    requires
        0 <= k <= gates.len(),
    ensures
        gates_cost(gates.take(k)) <= gates_cost(gates),
    decreases gates.len() - k,
{
    if k < gates.len() {
        lemma_gates_cost_prefix(gates, k + 1);
        assert(gates.take(k + 1).drop_last() =~= gates.take(k));
    } else {
        assert(gates.take(k) =~= gates);
    }
}

/// Fluent builder for constructing reversible circuits.
pub struct CircuitBuilder {
    width: usize,
    gates: Vec<ReversibleGate>,
    answer_lines: Option<Vec<usize>>,
}

impl CircuitBuilder {
    #[verifier::type_invariant]
    spec fn inv(self) -> bool {
        gates_fit(self.gates@, self.width as nat)
    }

    /// The width of the circuit being built.
    pub closed spec fn spec_width(self) -> nat {
        self.width as nat
    }

    /// The gates added so far.
    pub closed spec fn spec_gates(self) -> Seq<ReversibleGate> {
        self.gates@
    }

    /// The answer lines chosen so far, if any.
    pub closed spec fn spec_answer_lines(self) -> Option<Seq<usize>> {
        match self.answer_lines {
            Some(v) => Some(v@),
            None => None,
        }
    }

    /// Start building a circuit with the given bit width.
    pub fn new(width: usize) -> (b: Self)
        ensures
            b.spec_width() == width,
            b.spec_gates() == Seq::<ReversibleGate>::empty(),
            b.spec_answer_lines() is None,
    {
        CircuitBuilder { width, gates: Vec::new(), answer_lines: None }
    }

    /// Add a gate, which must fit in the circuit's width.
    pub fn gate(self, gate: ReversibleGate) -> (b: Self)
        requires
            gate.spec_width() <= self.spec_width(),
        ensures
            b.spec_width() == self.spec_width(),
            b.spec_gates() == self.spec_gates().push(gate),
            b.spec_answer_lines() == self.spec_answer_lines(),
    {
        proof {
            use_type_invariant(&self);
        }
        let CircuitBuilder { width, mut gates, answer_lines } = self;
        gates.push(gate);
        CircuitBuilder { width, gates, answer_lines }
    }

    /// Add a NOT gate.
    pub fn add_not(self) -> (b: Self)
        requires
            1 <= self.spec_width(),
        ensures
            b.spec_width() == self.spec_width(),
            b.spec_gates() == self.spec_gates().push(ReversibleGate::Not),
            b.spec_answer_lines() == self.spec_answer_lines(),
    {
        self.gate(ReversibleGate::Not)
    }

    /// Add a CNOT gate.
    pub fn cnot(self) -> (b: Self)
        requires
            2 <= self.spec_width(),
        ensures
            b.spec_width() == self.spec_width(),
            b.spec_gates() == self.spec_gates().push(ReversibleGate::Cnot),
            b.spec_answer_lines() == self.spec_answer_lines(),
    {
        self.gate(ReversibleGate::Cnot)
    }

    /// Add a Toffoli gate.
    pub fn toffoli(self) -> (b: Self)
        requires
            3 <= self.spec_width(),
        ensures
            b.spec_width() == self.spec_width(),
            b.spec_gates() == self.spec_gates().push(ReversibleGate::Toffoli),
            b.spec_answer_lines() == self.spec_answer_lines(),
    {
        self.gate(ReversibleGate::Toffoli)
    }

    /// Add a Fredkin gate.
    pub fn fredkin(self) -> (b: Self)
        requires
            3 <= self.spec_width(),
        ensures
            b.spec_width() == self.spec_width(),
            b.spec_gates() == self.spec_gates().push(ReversibleGate::Fredkin),
            b.spec_answer_lines() == self.spec_answer_lines(),
    {
        self.gate(ReversibleGate::Fredkin)
    }

    /// Add a Peres gate.
    pub fn peres(self) -> (b: Self)
        requires
            3 <= self.spec_width(),
        ensures
            b.spec_width() == self.spec_width(),
            b.spec_gates() == self.spec_gates().push(ReversibleGate::Peres),
            b.spec_answer_lines() == self.spec_answer_lines(),
    {
        self.gate(ReversibleGate::Peres)
    }

    /// Specify which output lines carry the answer.
    pub fn answer_lines(self, lines: Vec<usize>) -> (b: Self)
        ensures
            b.spec_width() == self.spec_width(),
            b.spec_gates() == self.spec_gates(),
            b.spec_answer_lines() == Some(lines@),
    {
        proof {
            use_type_invariant(&self);
        }
        let CircuitBuilder { width, gates, answer_lines: _ } = self;
        CircuitBuilder { width, gates, answer_lines: Some(lines) }
    }

    /// Build the circuit. Chosen answer lines must be below the width; without
    /// a choice every line is an answer line.
    pub fn build(self) -> (c: ReversibleCircuit)
        requires
            self.spec_answer_lines() matches Some(lines) ==> lines_fit(lines, self.spec_width()),
        ensures
            c.spec_width() == self.spec_width(),
            c.spec_gates() == self.spec_gates(),
            c.spec_answer_lines() == (match self.spec_answer_lines() {
                Some(lines) => lines,
                None => all_lines(self.spec_width()),
            }),
    {
        proof {
            use_type_invariant(&self);
        }
        let CircuitBuilder { width, gates, answer_lines } = self;
        let mut circuit = ReversibleCircuit::new(width, gates);
        match answer_lines {
            Some(lines) => {
                circuit.set_answer_lines(lines);
            },
            None => {},
        }
        circuit
    }
}

/// `run_gates` keeps the length of a state that every gate fits in.
pub proof fn lemma_run_gates_len(gates: Seq<ReversibleGate>, s: Seq<u8>)
    requires
        gates_fit(gates, s.len()),
    ensures
        run_gates(gates, s).len() == s.len(),
        unrun_gates(gates, s).len() == s.len(),
    decreases gates.len(),
{
    if gates.len() > 0 {
        let g = gates.last();
        assert(gates_fit(gates.drop_last(), s.len())) by {
            assert forall|k: int| 0 <= k < gates.drop_last().len() implies (#[trigger] gates.drop_last()[k]).spec_width() <= s.len() by {
                assert(gates.drop_last()[k] == gates[k]);
            }
        }
        lemma_run_gates_len(gates.drop_last(), s);
        let t = run_gates(gates.drop_last(), s);
        g.lemma_apply_keeps_bits(t.take(g.spec_width() as int));
        g.lemma_apply_keeps_bits(s.take(g.spec_width() as int));
        lemma_run_gates_len(gates.drop_last(), unapply_on_prefix(g, s));
    }
}

/// Undoing a gate on the prefix after doing it (or the other way round) gives back the state.
pub proof fn lemma_prefix_roundtrip(g: ReversibleGate, t: Seq<u8>)
    requires
        g.spec_width() <= t.len(),
    ensures
        unapply_on_prefix(g, apply_on_prefix(g, t)) == t,
        apply_on_prefix(g, unapply_on_prefix(g, t)) == t,
        apply_on_prefix(g, t).len() == t.len(),
        unapply_on_prefix(g, t).len() == t.len(),
{
    let w = g.spec_width() as int;
    let head = t.take(w);
    g.lemma_apply_keeps_bits(head);
    g.lemma_unapply_apply(head);
    let a = apply_on_prefix(g, t);
    assert(a.take(w) =~= g.spec_apply(head));
    assert(a.skip(w) =~= t.skip(w));
    let u = unapply_on_prefix(g, t);
    assert(u.take(w) =~= g.spec_unapply(head));
    assert(u.skip(w) =~= t.skip(w));
    assert(head + t.skip(w) =~= t);
}

/// Every circuit is reversible: undoing its gates from last to first restores the
/// input, and running them after undoing them restores the state too.
pub proof fn lemma_run_unrun(gates: Seq<ReversibleGate>, s: Seq<u8>)
    requires
        gates_fit(gates, s.len()),
    ensures
        unrun_gates(gates, run_gates(gates, s)) == s,
        run_gates(gates, unrun_gates(gates, s)) == s,
    decreases gates.len(),
{
    if gates.len() > 0 {
        let g = gates.last();
        let rest = gates.drop_last();
        assert(gates_fit(rest, s.len())) by {
            assert forall|k: int| 0 <= k < rest.len() implies (#[trigger] rest[k]).spec_width() <= s.len() by {
                assert(rest[k] == gates[k]);
            }
        }
        lemma_run_gates_len(rest, s);
        let t = run_gates(rest, s);
        lemma_prefix_roundtrip(g, t);
        lemma_run_unrun(rest, s);
        lemma_prefix_roundtrip(g, s);
        let u = unapply_on_prefix(g, s);
        lemma_run_unrun(rest, u);
        lemma_run_gates_len(rest, u);
    }
}

/// A circuit never maps two inputs of its width to the same output.
pub proof fn lemma_run_gates_injective(gates: Seq<ReversibleGate>, s: Seq<u8>, t: Seq<u8>)
    requires
        gates_fit(gates, s.len()),
        s.len() == t.len(),
        run_gates(gates, s) == run_gates(gates, t),
    ensures
        s == t,
{
    lemma_run_unrun(gates, s);
    lemma_run_unrun(gates, t);
}

/// Running `seq![g] + rest` is running `g` first, then `rest`.
pub proof fn lemma_run_gates_prepend(g: ReversibleGate, rest: Seq<ReversibleGate>, s: Seq<u8>)
    ensures
        run_gates(seq![g] + rest, s) == run_gates(rest, apply_on_prefix(g, s)),
    decreases rest.len(),
{
    let all = seq![g] + rest;
    if rest.len() == 0 {
        assert(all.drop_last() =~= Seq::<ReversibleGate>::empty());
        assert(all.last() == g);
        assert(run_gates(all.drop_last(), s) == s);
    } else {
        assert(all.drop_last() =~= seq![g] + rest.drop_last());
        assert(all.last() == rest.last());
        lemma_run_gates_prepend(g, rest.drop_last(), s);
    }
}

/// Running the gates of `a` followed by those of `b` is running `a`, then `b`.
pub proof fn lemma_run_gates_concat(a: Seq<ReversibleGate>, b: Seq<ReversibleGate>, s: Seq<u8>)
    ensures
        run_gates(a + b, s) == run_gates(b, run_gates(a, s)),
    decreases b.len(),
{
    if b.len() == 0 {
        assert(a + b =~= a);
    } else {
        assert((a + b).drop_last() =~= a + b.drop_last());
        assert((a + b).last() == b.last());
        lemma_run_gates_concat(a, b.drop_last(), s);
    }
}

/// Composing circuits composes their mappings: a circuit whose gates are those
/// of `first` followed by those of `second` maps `s` to `second(first(s))`.
pub proof fn lemma_circuit_composition(
    first: ReversibleCircuit,
    second: ReversibleCircuit,
    both: ReversibleCircuit,
    s: Seq<u8>,
)
    requires
        both.spec_gates() == first.spec_gates() + second.spec_gates(),
    ensures
        both.spec_apply(s) == second.spec_apply(first.spec_apply(s)),
{
    lemma_run_gates_concat(first.spec_gates(), second.spec_gates(), s);
}

/// No gate of the list is a Peres gate.
pub open spec fn no_peres(gates: Seq<ReversibleGate>) -> bool {
    forall|k: int| 0 <= k < gates.len() ==> (#[trigger] gates[k]).is_self_inverse()
}

/// For gates that are their own inverses, undoing a circuit is running its gates
/// in reverse order.
pub proof fn lemma_unrun_is_reverse(gates: Seq<ReversibleGate>, s: Seq<u8>)
    requires
        no_peres(gates),
    ensures
        unrun_gates(gates, s) == run_gates(gates.reverse(), s),
    decreases gates.len(),
{
    if gates.len() > 0 {
        let g = gates.last();
        let rest = gates.drop_last();
        assert(g.is_self_inverse());
        assert(no_peres(rest)) by {
            assert forall|k: int| 0 <= k < rest.len() implies (#[trigger] rest[k]).is_self_inverse() by {
                assert(rest[k] == gates[k]);
            }
        }
        assert(unapply_on_prefix(g, s) == apply_on_prefix(g, s));
        lemma_unrun_is_reverse(rest, apply_on_prefix(g, s));
        assert(gates.reverse() =~= seq![g] + rest.reverse());
        lemma_run_gates_prepend(g, rest.reverse(), s);
    }
}

/// A circuit of self-inverse gates followed by the same gates in reverse order
/// is the identity on inputs of its width.
pub proof fn lemma_reverse_undoes(gates: Seq<ReversibleGate>, s: Seq<u8>)
    requires
        no_peres(gates),
        gates_fit(gates, s.len()),
    ensures
        run_gates(gates.reverse(), run_gates(gates, s)) == s,
{
    lemma_unrun_is_reverse(gates, run_gates(gates, s));
    lemma_run_unrun(gates, s);
}

} // verus!
