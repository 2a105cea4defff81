//! Reversible logic gates: Identity, NOT, CNOT, Toffoli, Fredkin, Peres.
//!
//! Every gate maps bit vectors of its width bijectively onto themselves.
use vstd::prelude::*;
use vstd::arithmetic::power2::{pow2, lemma_pow2_pos};
use vstd::bits::lemma_usize_shr_is_div;
use crate::bits::{
    is_bit_string, bits_nat, bits_value, index_bits, lemma_bits_value_is_nat,
    lemma_index_bits_roundtrip, lemma_bits_nat_index_bits, lemma_bits_nat_injective, lemma_one_shl,
    lemma_bits_nat_bound,
};

verus! {

/// A reversible logic gate.
#[derive(Debug, Clone, Copy, PartialEq, Eq, Structural)]
pub enum ReversibleGate {
    /// Passes all bits through unchanged, on an explicit number of bits.
    Identity { width: usize },
    /// Flips a single bit.
    Not,
    /// Controlled NOT: `[c, t] -> [c, t ^ c]`.
    Cnot,
    /// Doubly controlled NOT: `[c1, c2, t] -> [c1, c2, t ^ (c1 & c2)]`.
    Toffoli,
    /// Controlled swap: `[c, x, y] -> [c, y, x]` when `c == 1`.
    Fredkin,
    /// `[c1, c2, t] -> [c1, c2 ^ c1, t ^ (c1 & c2)]`.
    Peres,
}

impl ReversibleGate {
    /// The number of bits this gate acts on.
    pub open spec fn spec_width(self) -> nat {
        match self {
            ReversibleGate::Identity { width } => width as nat,
            ReversibleGate::Not => 1,
            ReversibleGate::Cnot => 2,
            _ => 3,
        }
    }

    /// The output this gate produces from an input of its width.
    pub open spec fn spec_apply(self, s: Seq<u8>) -> Seq<u8> {
        match self {
            ReversibleGate::Identity { .. } => s,
            ReversibleGate::Not => seq![s[0] ^ 1u8],
            ReversibleGate::Cnot => seq![s[0], s[1] ^ s[0]],
            ReversibleGate::Toffoli => seq![s[0], s[1], s[2] ^ (s[0] & s[1])],
            ReversibleGate::Fredkin => if s[0] == 1u8 {
                seq![s[0], s[2], s[1]]
            } else {
                s
            },
            ReversibleGate::Peres => seq![s[0], s[1] ^ s[0], s[2] ^ (s[0] & s[1])],
        }
    }

    /// The mapping that undoes `spec_apply`. Every gate but Peres is its own inverse.
    pub open spec fn spec_unapply(self, s: Seq<u8>) -> Seq<u8> {
        match self {
            ReversibleGate::Peres => seq![s[0], s[1] ^ s[0], s[2] ^ (s[0] & (s[1] ^ s[0]))],
            _ => self.spec_apply(s),
        }
    }

    /// Number of elementary gates needed to build this gate.
    pub open spec fn spec_quantum_cost(self) -> nat {
        match self {
            ReversibleGate::Identity { .. } => 0,
            ReversibleGate::Not => 1,
            ReversibleGate::Cnot => 1,
            ReversibleGate::Toffoli => 5,
            ReversibleGate::Fredkin => 5,
            ReversibleGate::Peres => 4,
        }
    }

    /// True for the gates that undo themselves.
    pub open spec fn is_self_inverse(self) -> bool {
        !(self is Peres)
    }

    /// The truth table row for input index `i`: the input bits and what this gate makes of them.
    pub open spec fn spec_row(self, i: nat) -> (Seq<u8>, Seq<u8>) {
        let input = index_bits(i, self.spec_width());
        (input, self.spec_apply(input))
    }

    /// Entry `[i][j]` of the permutation matrix: 1 when input pattern `i` maps to pattern `j`.
    pub open spec fn matrix_entry(self, i: nat, j: nat) -> u8 {
        if j == bits_nat(self.spec_apply(index_bits(i, self.spec_width()))) {
            1
        } else {
            0
        }
    }

    /// Row `i` of the permutation matrix holds exactly one 1.
    pub open spec fn row_has_single_one(self, i: nat) -> bool {
        exists|j: nat|
            j < pow2(self.spec_width()) && #[trigger] self.matrix_entry(i, j) == 1 && forall|k: nat|
                #[trigger] self.matrix_entry(i, k) == 1 ==> k == j
    }

    /// Column `j` of the permutation matrix holds exactly one 1.
    pub open spec fn column_has_single_one(self, j: nat) -> bool {
        exists|i: nat|
            i < pow2(self.spec_width()) && #[trigger] self.matrix_entry(i, j) == 1 && forall|k: nat|
                k < pow2(self.spec_width()) && #[trigger] self.matrix_entry(k, j) == 1 ==> k == i
    }

    /// Return the number of bits (arity) this gate operates on.
    pub fn width(&self) -> (r: usize)
        ensures
            r == self.spec_width(),
    {
        match self {
            ReversibleGate::Identity { width } => *width,
            ReversibleGate::Not => 1,
            ReversibleGate::Cnot => 2,
            ReversibleGate::Toffoli | ReversibleGate::Fredkin | ReversibleGate::Peres => 3,
        }
    }

    /// Apply this gate to a bit vector, returning the result.
    /// The input must have exactly this gate's width.
    pub fn apply(&self, input: &[u8]) -> (out: Vec<u8>)
        requires
            input@.len() == self.spec_width(),
        ensures
            out@ == self.spec_apply(input@),
    {
        match self {
            ReversibleGate::Identity { .. } => copy_bits(input),
            ReversibleGate::Not => {
                let v = vec![input[0] ^ 1];
                assert(v@ =~= self.spec_apply(input@));
                v
            },
            ReversibleGate::Cnot => {
                let v = vec![input[0], input[1] ^ input[0]];
                assert(v@ =~= self.spec_apply(input@));
                v
            },
            ReversibleGate::Toffoli => {
                let v = vec![input[0], input[1], input[2] ^ (input[0] & input[1])];
                assert(v@ =~= self.spec_apply(input@));
                v
            },
            ReversibleGate::Fredkin => {
                if input[0] == 1 {
                    let v = vec![input[0], input[2], input[1]];
                    assert(v@ =~= self.spec_apply(input@));
                    v
                } else {
                    copy_bits(input)
                }
            },
            ReversibleGate::Peres => {
                let v = vec![input[0], input[1] ^ input[0], input[2] ^ (input[0] & input[1])];
                assert(v@ =~= self.spec_apply(input@));
                v
            },
        }
    }

    /// Generate the full truth table for this gate: one (input, output) pair for
    /// each of the `2^width` inputs, in increasing order of the input's value.
    pub fn truth_table(&self) -> (table: Vec<(Vec<u8>, Vec<u8>)>)
        requires
            self.spec_width() < usize::BITS,
        ensures
            table@.len() == pow2(self.spec_width()),
            forall|i: int|
                0 <= i < table@.len() ==> (#[trigger] table@[i]).0@ == self.spec_row(i as nat).0
                    && table@[i].1@ == self.spec_row(i as nat).1,
    {
        let n = self.width();
        proof {
            lemma_one_shl(n);
        }
        let rows = 1usize << n;
        let mut table: Vec<(Vec<u8>, Vec<u8>)> = Vec::new();
        let mut i: usize = 0;
        while i < rows
            invariant
                n == self.spec_width(),
                n < usize::BITS,
                rows == pow2(n as nat),
                i <= rows,
                table@.len() == i,
                forall|k: int|
                    0 <= k < i ==> (#[trigger] table@[k]).0@ == self.spec_row(k as nat).0
                        && table@[k].1@ == self.spec_row(k as nat).1,
            decreases rows - i,
        {
            let input = index_to_bits(i, n);
            let output = self.apply(input.as_slice());
            table.push((input, output));
            i += 1;
        }
        table
    }

    /// Return the permutation matrix of this gate: `2^width` rows of `2^width`
    /// entries, where entry `[i][j]` is 1 exactly when input pattern `i` maps to `j`.
    pub fn permutation_matrix(&self) -> (m: Vec<Vec<u8>>)
        requires
            self.spec_width() < usize::BITS,
        ensures
            m@.len() == pow2(self.spec_width()),
            forall|i: int|
                0 <= i < m@.len() ==> (#[trigger] m@[i])@.len() == pow2(self.spec_width()),
            forall|i: int, j: int|
                0 <= i < m@.len() && 0 <= j < m@.len() ==> (#[trigger] m@[i]@[j])
                    == self.matrix_entry(i as nat, j as nat),
    {
        let w = self.width();
        proof {
            lemma_one_shl(w);
        }
        let n = 1usize << w;
        let table = self.truth_table();
        let mut matrix: Vec<Vec<u8>> = Vec::new();
        let mut i: usize = 0;
        while i < n
            invariant
                w == self.spec_width(),
                w < usize::BITS,
                n == pow2(w as nat),
                table@.len() == n,
                forall|k: int|
                    0 <= k < table@.len() ==> (#[trigger] table@[k]).0@ == self.spec_row(
                        k as nat,
                    ).0 && table@[k].1@ == self.spec_row(k as nat).1,
                i <= n,
                matrix@.len() == i,
                forall|k: int| 0 <= k < i ==> (#[trigger] matrix@[k])@.len() == n,
                forall|k: int, j: int|
                    0 <= k < i && 0 <= j < n ==> (#[trigger] matrix@[k]@[j])
                        == self.matrix_entry(k as nat, j as nat),
            decreases n - i,
        {
            let output = &table[i].1;
            let ghost input = index_bits(i as nat, w as nat);
            proof {
                lemma_index_bits_roundtrip(i as nat, w as nat);
                self.lemma_apply_keeps_bits(input);
                lemma_bits_value_is_nat(output@);
            }
            let j = bits_to_index(output.as_slice());
            proof {
                self.lemma_row_value_in_range(i as nat);
            }
            let mut row: Vec<u8> = Vec::new();
            let mut c: usize = 0;
            while c < n
                invariant
                    c <= n,
                    row@.len() == c,
                    j < n,
                    forall|t: int| 0 <= t < c ==> #[trigger] row@[t] == (if t == j { 1u8 } else { 0u8 }),
                decreases n - c,
            {
                if c == j {
                    row.push(1);
                } else {
                    row.push(0);
                }
                c += 1;
            }
            matrix.push(row);
            i += 1;
        }
        matrix
    }

    /// Return the quantum cost of this gate (Identity 0, NOT 1, CNOT 1,
    /// Toffoli 5, Fredkin 5, Peres 4).
    pub fn quantum_cost(&self) -> (r: usize)
        ensures
            r == self.spec_quantum_cost(),
    {
        match self {
            ReversibleGate::Identity { .. } => 0,
            ReversibleGate::Not => 1,
            ReversibleGate::Cnot => 1,
            ReversibleGate::Toffoli => 5,
            ReversibleGate::Fredkin => 5,
            ReversibleGate::Peres => 4,
        }
    }

    /// The human-readable name of this gate.
    pub open spec fn spec_name(self) -> Seq<char> {
        match self {
            ReversibleGate::Identity { .. } => "Identity"@,
            ReversibleGate::Not => "NOT"@,
            ReversibleGate::Cnot => "CNOT"@,
            ReversibleGate::Toffoli => "Toffoli"@,
            ReversibleGate::Fredkin => "Fredkin"@,
            ReversibleGate::Peres => "Peres"@,
        }
    }

    /// Return the human-readable name of this gate.
    pub fn name(&self) -> (r: &'static str)
        ensures
            r@ == self.spec_name(),
    {
        match self {
            ReversibleGate::Identity { .. } => "Identity",
            ReversibleGate::Not => "NOT",
            ReversibleGate::Cnot => "CNOT",
            ReversibleGate::Toffoli => "Toffoli",
            ReversibleGate::Fredkin => "Fredkin",
            ReversibleGate::Peres => "Peres",
        }
    }

    /// A gate keeps the length of its input, and turns bit strings into bit strings.
    pub proof fn lemma_apply_keeps_bits(self, s: Seq<u8>)
        requires
            s.len() == self.spec_width(),
        ensures
            self.spec_apply(s).len() == s.len(),
            self.spec_unapply(s).len() == s.len(),
            is_bit_string(s) ==> is_bit_string(self.spec_apply(s)),
            is_bit_string(s) ==> is_bit_string(self.spec_unapply(s)),
    {
        if is_bit_string(s) {
            if s.len() >= 1 {
                assert(s[0] <= 1);
            }
            if s.len() >= 2 {
                assert(s[1] <= 1);
            }
            if s.len() >= 3 {
                assert(s[2] <= 1);
            }
            lemma_bit_ops_keep_bits();
            let o = self.spec_apply(s);
            assert forall|k: int| 0 <= k < o.len() implies #[trigger] o[k] <= 1 by {
                if self is Fredkin && s[0] != 1 {
                    assert(o[k] == s[k]);
                }
                if self is Identity {
                    assert(o[k] == s[k]);
                }
            }
            let u = self.spec_unapply(s);
            assert forall|k: int| 0 <= k < u.len() implies #[trigger] u[k] <= 1 by {
                if self is Fredkin && s[0] != 1 {
                    assert(u[k] == s[k]);
                }
                if self is Identity {
                    assert(u[k] == s[k]);
                }
            }
        }
    }

    /// The output value of row `i` of the truth table is a valid row index.
    proof fn lemma_row_value_in_range(self, i: nat)
        requires
            i < pow2(self.spec_width()),
            self.spec_width() <= usize::BITS,
        ensures
            bits_nat(self.spec_row(i).1) < pow2(self.spec_width()),
            bits_value(self.spec_row(i).1) == bits_nat(self.spec_row(i).1),
    {
        let input = index_bits(i, self.spec_width());
        lemma_index_bits_roundtrip(i, self.spec_width());
        self.lemma_apply_keeps_bits(input);
        lemma_bits_value_is_nat(self.spec_apply(input));
    }

    /// Every gate is reversible: `spec_unapply` undoes `spec_apply` and the other
    /// way round, on any input of this gate's width.
    pub proof fn lemma_unapply_apply(self, s: Seq<u8>)
        requires
            s.len() == self.spec_width(),
        ensures
            self.spec_unapply(self.spec_apply(s)) == s,
            self.spec_apply(self.spec_unapply(s)) == s,
    {
        lemma_xor_and_cancel();
        match self {
            ReversibleGate::Identity { .. } => {},
            ReversibleGate::Fredkin => {
                if s[0] == 1 {
                    assert(self.spec_apply(self.spec_apply(s)) =~= s);
                }
            },
            _ => {
                assert(self.spec_unapply(self.spec_apply(s)) =~= s);
                assert(self.spec_apply(self.spec_unapply(s)) =~= s);
            },
        }
    }
}

proof fn lemma_bit_ops_keep_bits()
    ensures
        forall|a: u8, b: u8| a <= 1 && b <= 1 ==> #[trigger] (a ^ b) <= 1,
        forall|a: u8, b: u8| a <= 1 && b <= 1 ==> #[trigger] (a & b) <= 1,
{
    assert forall|a: u8, b: u8| a <= 1 && b <= 1 implies #[trigger] (a ^ b) <= 1 by {
        assert(a <= 1 && b <= 1 ==> (a ^ b) <= 1) by (bit_vector);
    }
    assert forall|a: u8, b: u8| a <= 1 && b <= 1 implies #[trigger] (a & b) <= 1 by {
        assert(a <= 1 && b <= 1 ==> (a & b) <= 1) by (bit_vector);
    }
}

proof fn lemma_xor_and_cancel()
    ensures
        forall|a: u8, b: u8| #[trigger] ((a ^ b) ^ b) == a,
        forall|a: u8, b: u8, c: u8| #[trigger] ((c ^ (a & b)) ^ (a & b)) == c,
{
    assert forall|a: u8, b: u8| #[trigger] ((a ^ b) ^ b) == a by {
        assert((a ^ b) ^ b == a) by (bit_vector);
    }
    assert forall|a: u8, b: u8, c: u8| #[trigger] ((c ^ (a & b)) ^ (a & b)) == c by {
        assert((c ^ (a & b)) ^ (a & b) == c) by (bit_vector);
    }
}

/// A copy of a bit vector.
pub(crate) fn copy_bits(s: &[u8]) -> (r: Vec<u8>)
    ensures
        r@ == s@,
{
    let mut r: Vec<u8> = Vec::new();
    let mut k: usize = 0;
    while k < s.len()
        invariant
            k <= s@.len(),
            r@ == s@.take(k as int),
        decreases s@.len() - k,
    {
        r.push(s[k]);
        k += 1;
        assert(r@ =~= s@.take(k as int));
    }
    assert(s@.take(s@.len() as int) =~= s@);
    r
}

/// Convert a bit vector to a decimal index (most significant bit first), by
/// folding `acc = (acc << 1) | b` over the bits.
pub fn bits_to_index(bits: &[u8]) -> (r: usize)
    ensures
        r == bits_value(bits@),
        is_bit_string(bits@) && bits@.len() <= usize::BITS ==> r == bits_nat(bits@),
{
    let mut acc: usize = 0;
    let mut k: usize = 0;
    while k < bits.len()
        invariant
            k <= bits@.len(),
            acc == bits_value(bits@.take(k as int)),
        decreases bits@.len() - k,
    {
        proof {
            assert(bits@.take(k + 1).drop_last() =~= bits@.take(k as int));
        }
        acc = (acc << 1) | (bits[k] as usize);
        k += 1;
    }
    assert(bits@.take(bits@.len() as int) =~= bits@);
    proof {
        if is_bit_string(bits@) && bits@.len() <= usize::BITS {
            lemma_bits_value_is_nat(bits@);
        }
    }
    acc
}

/// Convert a decimal index to a bit vector of the given width (most significant bit first).
pub fn index_to_bits(index: usize, width: usize) -> (r: Vec<u8>)
    requires
        width <= usize::BITS,
    ensures
        r@ == index_bits(index as nat, width as nat),
{
    let mut r: Vec<u8> = Vec::new();
    let mut k: usize = 0;
    while k < width
        invariant
            k <= width,
            width <= usize::BITS,
            r@.len() == k,
            forall|t: int| 0 <= t < k ==> #[trigger] r@[t] == index_bits(index as nat, width as nat)[t],
        decreases width - k,
    {
        let b: usize = width - 1 - k;
        let bit = ((index >> b) & 1) as u8;
        proof {
            lemma_usize_shr_is_div(index, b);
            let x = index >> b;
            assert(x & 1 == x % 2) by (bit_vector);
        }
        r.push(bit);
        k += 1;
    }
    assert(r@ =~= index_bits(index as nat, width as nat));
    r
}

/// Every gate's permutation matrix is a permutation matrix: each row and each
/// column of the `2^w x 2^w` matrix holds exactly one 1.
pub proof fn lemma_matrix_is_permutation(g: ReversibleGate)
    ensures
        forall|i: nat| i < pow2(g.spec_width()) ==> #[trigger] g.row_has_single_one(i),
        forall|j: nat| j < pow2(g.spec_width()) ==> #[trigger] g.column_has_single_one(j),
{
    let w = g.spec_width();
    assert forall|i: nat| i < pow2(w) implies #[trigger] g.row_has_single_one(i) by {
        let input = index_bits(i, w);
        lemma_index_bits_roundtrip(i, w);
        g.lemma_apply_keeps_bits(input);
        let out = g.spec_apply(input);
        lemma_bits_nat_bound(out);
        let j = bits_nat(out);
        assert(g.matrix_entry(i, j) == 1);
    }
    assert forall|j: nat| j < pow2(w) implies #[trigger] g.column_has_single_one(j) by {
        let target = index_bits(j, w);
        lemma_index_bits_roundtrip(j, w);
        g.lemma_apply_keeps_bits(target);
        let src = g.spec_unapply(target);
        lemma_bits_nat_bound(src);
        let i = bits_nat(src);
        lemma_bits_nat_index_bits(src);
        g.lemma_unapply_apply(target);
        assert(g.matrix_entry(i, j) == 1);
        assert forall|k: nat| k < pow2(w) && #[trigger] g.matrix_entry(k, j) == 1 implies k == i by {
            let ik = index_bits(k, w);
            lemma_index_bits_roundtrip(k, w);
            g.lemma_apply_keeps_bits(ik);
            let ok = g.spec_apply(ik);
            lemma_bits_nat_injective(ok, target);
            g.lemma_unapply_apply(ik);
            lemma_bits_nat_injective(ik, src);
        }
    }
}

/// NOT, CNOT, Toffoli, Fredkin (and Identity) undo themselves: applying one twice
/// gives back the input.
pub proof fn lemma_self_inverse(g: ReversibleGate, s: Seq<u8>)
    requires
        g.is_self_inverse(),
        s.len() == g.spec_width(),
    ensures
        g.spec_apply(g.spec_apply(s)) == s,
{
    g.lemma_unapply_apply(s);
}

/// No gate loses information: two inputs with the same output are equal.
pub proof fn lemma_apply_injective(g: ReversibleGate, s: Seq<u8>, t: Seq<u8>)
    requires
        s.len() == g.spec_width(),
        t.len() == g.spec_width(),
        g.spec_apply(s) == g.spec_apply(t),
    ensures
        s == t,
{
    g.lemma_unapply_apply(s);
    g.lemma_unapply_apply(t);
}

/// Writing an index below `2^width` out as `width` bits (`index_to_bits`) and
/// reading them back (`bits_to_index`) gives the index.
pub proof fn lemma_index_bits_index(index: usize, width: usize)
    requires
        width <= usize::BITS,
        index < pow2(width as nat),
    ensures
        bits_value(index_bits(index as nat, width as nat)) == index,
{
    lemma_index_bits_roundtrip(index as nat, width as nat);
    lemma_bits_value_is_nat(index_bits(index as nat, width as nat));
}

/// Reading a bit string no longer than a machine word as an index and writing the
/// index back out at the string's width gives the string.
pub proof fn lemma_bits_index_bits(s: Seq<u8>)
    requires
        is_bit_string(s),
        s.len() <= usize::BITS,
    ensures
        index_bits(bits_value(s) as nat, s.len()) == s,
{
    lemma_bits_value_is_nat(s);
    lemma_bits_nat_index_bits(s);
}

/// The identity gate hands back its input, whatever its width.
pub proof fn lemma_identity_action(width: usize, s: Seq<u8>)
    ensures
        (ReversibleGate::Identity { width }).spec_apply(s) == s,
{
}

/// NOT flips its bit.
pub proof fn lemma_not_flips(s: Seq<u8>)
    requires
        s.len() == 1,
        is_bit_string(s),
    ensures
        ReversibleGate::Not.spec_apply(s).len() == 1,
        ReversibleGate::Not.spec_apply(s)[0] + s[0] == 1,
{
    let a = s[0];
    assert(a <= 1u8 ==> (a ^ 1u8) + a == 1) by (bit_vector);
}

/// CNOT keeps its control line; with the control at 0 it changes nothing, and
/// with the control at 1 it flips the target line.
pub proof fn lemma_cnot_action(s: Seq<u8>)
    requires
        s.len() == 2,
        is_bit_string(s),
    ensures
        ReversibleGate::Cnot.spec_apply(s).len() == 2,
        ReversibleGate::Cnot.spec_apply(s)[0] == s[0],
        s[0] == 0 ==> ReversibleGate::Cnot.spec_apply(s) == s,
        s[0] == 1 ==> ReversibleGate::Cnot.spec_apply(s)[1] + s[1] == 1,
{
    let (a, b) = (s[0], s[1]);
    assert(b ^ 0u8 == b) by (bit_vector);
    assert(b <= 1u8 ==> (b ^ 1u8) + b == 1) by (bit_vector);
    if s[0] == 0 {
        assert(ReversibleGate::Cnot.spec_apply(s) =~= s);
    }
}

/// Toffoli keeps both control lines; unless both controls are 1 it changes
/// nothing, and with both at 1 it flips the target line.
pub proof fn lemma_toffoli_action(s: Seq<u8>)
    requires
        s.len() == 3,
        is_bit_string(s),
    ensures
        ReversibleGate::Toffoli.spec_apply(s).len() == 3,
        ReversibleGate::Toffoli.spec_apply(s)[0] == s[0],
        ReversibleGate::Toffoli.spec_apply(s)[1] == s[1],
        s[0] == 0 || s[1] == 0 ==> ReversibleGate::Toffoli.spec_apply(s) == s,
        s[0] == 1 && s[1] == 1 ==> ReversibleGate::Toffoli.spec_apply(s)[2] + s[2] == 1,
{
    let (a, b, c) = (s[0], s[1], s[2]);
    assert(a <= 1u8 && b <= 1u8 && c <= 1u8 ==> (a == 0u8 || b == 0u8 ==> c ^ (a & b) == c)) by (bit_vector);
    assert(c <= 1u8 ==> (c ^ (1u8 & 1u8)) + c == 1) by (bit_vector);
    if s[0] == 0 || s[1] == 0 {
        assert(ReversibleGate::Toffoli.spec_apply(s) =~= s);
    }
}

/// Fredkin is a controlled swap: it keeps the control line; with the control at 0
/// the output is the input, and with the control at 1 lines 1 and 2 trade places.
/// Either way it keeps the number of ones.
pub proof fn lemma_fredkin_action(s: Seq<u8>)
    requires
        s.len() == 3,
        is_bit_string(s),
    ensures
        ReversibleGate::Fredkin.spec_apply(s).len() == 3,
        ReversibleGate::Fredkin.spec_apply(s)[0] == s[0],
        s[0] == 0 ==> ReversibleGate::Fredkin.spec_apply(s) == s,
        s[0] == 1 ==> ReversibleGate::Fredkin.spec_apply(s)[1] == s[2] && ReversibleGate::Fredkin.spec_apply(s)[2] == s[1],
        ReversibleGate::Fredkin.spec_apply(s)[0] + ReversibleGate::Fredkin.spec_apply(s)[1]
            + ReversibleGate::Fredkin.spec_apply(s)[2] == s[0] + s[1] + s[2],
{
}

/// Peres keeps line 0; with line 0 at 0 it changes nothing, and with line 0 at 1
/// it flips line 1 and flips the target exactly when line 1 was 1.
pub proof fn lemma_peres_action(s: Seq<u8>)
    requires
        s.len() == 3,
        is_bit_string(s),
    ensures
        ReversibleGate::Peres.spec_apply(s).len() == 3,
        ReversibleGate::Peres.spec_apply(s)[0] == s[0],
        s[0] == 0 ==> ReversibleGate::Peres.spec_apply(s) == s,
        s[0] == 1 ==> ReversibleGate::Peres.spec_apply(s)[1] + s[1] == 1,
        s[0] == 1 && s[1] == 1 ==> ReversibleGate::Peres.spec_apply(s)[2] + s[2] == 1,
        s[0] == 1 && s[1] == 0 ==> ReversibleGate::Peres.spec_apply(s)[2] == s[2],
{
    let (a, b, c) = (s[0], s[1], s[2]);
    assert(b <= 1u8 && c <= 1u8 ==> b ^ 0u8 == b && c ^ (0u8 & b) == c) by (bit_vector);
    assert(b <= 1u8 ==> (b ^ 1u8) + b == 1) by (bit_vector);
    assert(c <= 1u8 ==> (c ^ (1u8 & 1u8)) + c == 1 && c ^ (1u8 & 0u8) == c) by (bit_vector);
    if s[0] == 0 {
        assert(ReversibleGate::Peres.spec_apply(s) =~= s);
    }
}

} // verus!
