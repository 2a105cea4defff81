# reversible_logic

Reversible computing in Rust, verified with Verus: reversible gates (Identity,
NOT, CNOT, Toffoli, Fredkin, Peres), circuits built from them, permutations and
permutation groups, ancilla bookkeeping, inverse circuits and Bennett's
compute-copy-uncompute pattern, and breadth-first synthesis of circuits from
truth tables.

## Layout

- `src/bits.rs`: bit strings read most significant bit first and their values.
- `src/gate.rs`: the gates, their truth tables and permutation matrices.
- `src/circuit.rs`: circuits (gates applied in order to a prefix of the lines)
  and a builder for them.
- `src/permutation.rs`: permutations, cycle decompositions, parity, and the
  closure of a set of generators.
- `src/transpositions.rs`: products of transpositions, inversions, and why the
  parity of a permutation does not depend on how it is factored.
- `src/ancilla.rs`: a pool of clean and dirty ancilla bits, and garbage tracking.
- `src/uncompute.rs`: inverse circuits, Bennett's pattern, and the checks that a
  circuit is undone and that ancillae are restored.
- `src/synthesis.rs`: gates on arbitrary positions and the synthesis search.
- `app/lib.rs`: serde-enabled forms of the library's data types, with
  conversions in both directions.
- `tests/`: tests of the library on concrete values.

Every function in `src/` carries a contract that Verus proves; the laws the
library keeps (reversibility of every gate and circuit, inverses (Peres gates
included) undoing circuits, uniqueness of cycle decompositions, the parity of
products of transpositions, completeness and minimality of synthesis, the
composition and reversal of gate sequences, and the bookkeeping of the ancilla
pool) are public proof functions.

Bennett's pattern runs a circuit, copies its answer, and runs the inverse. The
copy step is a short gate sequence on lines 0 to 2 (see `copy_gates`): for a
source line before a target line among lines 0 to 2, and a circuit that leaves
the target alone, it copies the answer into the target and every other line comes
back as it was; every other pair of lines gets the CNOT from line 0 to line 1.
